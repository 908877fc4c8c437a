use raylet_rs::command_line::{
    colon_pairs, labels_from_json_outcome, parse_label_pairs, resource_field_pairs,
    resource_fields, split_at_commas, trim,
};

fn owned(pairs: &[(&str, &str)]) -> Vec<(String, String)> {
    pairs.iter().map(|(k, v)| (k.to_string(), v.to_string())).collect()
}

#[test]
fn parses_python_json_labels() {
    let labels = parse_label_pairs(r#"{"ray.io/accelerator-type":"A100"}"#);

    assert_eq!(labels.get("ray.io/accelerator-type"), Some(&"A100".to_string()));
}

#[test]
fn json_labels_keep_every_entry() {
    let labels = parse_label_pairs(r#"{"zone": "us-west", "tier":"gold"}"#);
    assert_eq!(labels.len(), 2);
    assert_eq!(labels.get("zone"), Some(&"us-west".to_string()));
    assert_eq!(labels.get("tier"), Some(&"gold".to_string()));
}

#[test]
fn empty_label_text_gives_no_labels() {
    assert_eq!(parse_label_pairs("").len(), 0);
}

#[test]
fn labels_fall_back_to_colon_pairs() {
    let labels = parse_label_pairs(" zone : us-west ,tier:gold,broken,url:http://x:1");
    assert_eq!(labels.len(), 3);
    assert_eq!(labels.get("zone"), Some(&"us-west".to_string()));
    assert_eq!(labels.get("tier"), Some(&"gold".to_string()));
    assert_eq!(labels.get("url"), Some(&"http://x:1".to_string()));
    assert_eq!(labels.get("broken"), None);
}

#[test]
fn json_with_a_non_string_value_falls_back() {
    // Not an object of strings, so the text is read as `key:value` pairs.
    let labels = parse_label_pairs(r#"{"gpus":4}"#);
    assert_eq!(labels.len(), 1);
    assert_eq!(labels.get(r#"{"gpus""#), Some(&"4}".to_string()));
}

#[test]
fn later_colon_pair_replaces_earlier_one() {
    let labels = parse_label_pairs("a:1,a:2");
    assert_eq!(labels.len(), 1);
    assert_eq!(labels.get("a"), Some(&"2".to_string()));
}

#[test]
fn json_outcome_decides_the_labels() {
    let given = labels_from_json_outcome("x:1", Some(owned(&[("k", "v")])));
    assert_eq!(given.len(), 1);
    assert_eq!(given.get("k"), Some(&"v".to_string()));
    let fallback = labels_from_json_outcome("x:1", None);
    assert_eq!(fallback.len(), 1);
    assert_eq!(fallback.get("x"), Some(&"1".to_string()));
}

#[test]
fn trim_strips_unicode_white_space() {
    assert_eq!(trim("  a b \t"), "a b");
    assert_eq!(trim("\u{3000}x\u{a0}\u{2028}"), "x");
    assert_eq!(trim(" \n "), "");
    assert_eq!(trim("x"), "x");
}

#[test]
fn split_at_commas_keeps_empty_pieces() {
    assert_eq!(split_at_commas(""), vec![String::new()]);
    assert_eq!(split_at_commas("a,,b,"), vec!["a", "", "b", ""]);
}

#[test]
fn colon_pairs_split_at_the_first_colon() {
    assert_eq!(colon_pairs("CPU:4,GPU:2"), owned(&[("CPU", "4"), ("GPU", "2")]));
    assert_eq!(colon_pairs("node:1.2.3.4:5, x"), owned(&[("node", "1.2.3.4:5")]));
    assert_eq!(colon_pairs(""), owned(&[]));
}

#[test]
fn resource_fields_are_trimmed_and_nonempty() {
    assert_eq!(resource_fields(" CPU , 4.0,, GPU,2 "), vec!["CPU", "4.0", "GPU", "2"]);
}

#[test]
fn python_static_resource_list_pairs_up_fields() {
    let pairs = resource_field_pairs("node:172.17.0.12,1.0,CPU,4.0,object_store_memory,100.0");
    assert_eq!(
        pairs,
        Some(owned(&[
            ("node:172.17.0.12", "1.0"),
            ("CPU", "4.0"),
            ("object_store_memory", "100.0"),
        ]))
    );
}

#[test]
fn legacy_colon_resource_text_is_read_both_ways() {
    assert_eq!(resource_field_pairs("CPU:4,GPU:2"), Some(owned(&[("CPU:4", "GPU:2")])));
    assert_eq!(resource_field_pairs("CPU:4"), None);
    assert_eq!(resource_field_pairs("a,b,c"), None);
    assert_eq!(colon_pairs("CPU:4,GPU:2"), owned(&[("CPU", "4"), ("GPU", "2")]));
}
