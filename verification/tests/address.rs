use raylet_rs::address::{build_address, get_port_filename, node_labels_match_selector, parse_address};
use raylet_rs::str_map::LabelMap;

fn labels(pairs: &[(&str, &str)]) -> LabelMap {
    let mut m = LabelMap::new();
    for (k, v) in pairs {
        m.insert(k.to_string(), v.to_string());
    }
    m
}

#[test]
fn build_address_brackets_ipv6_hosts() {
    assert_eq!(build_address("10.0.0.1", "6379"), "10.0.0.1:6379");
    assert_eq!(build_address("::1", "8265"), "[::1]:8265");
    assert_eq!(build_address("[::1]", "8265"), "[::1]:8265");
}

#[test]
fn parse_address_splits_host_and_port() {
    assert_eq!(parse_address("10.0.0.1:6379"), Some(("10.0.0.1".to_string(), "6379".to_string())));
    assert_eq!(parse_address("[::1]:8265"), Some(("::1".to_string(), "8265".to_string())));
    assert_eq!(parse_address("localhost"), None);
    assert_eq!(parse_address("a:b:c"), None);
    assert_eq!(parse_address("[::1"), None);
}

#[test]
fn parse_address_undoes_build_address() {
    for (host, port) in [("127.0.0.1", "1"), ("fe80::1", "22"), ("", "80"), ("a]b", "9")] {
        let built = build_address(host, port);
        assert_eq!(parse_address(&built), Some((host.to_string(), port.to_string())));
    }
}

#[test]
fn port_filename_joins_name_and_node() {
    assert_eq!(get_port_filename("abc123", "gcs_server_port"), "gcs_server_port_abc123");
}

#[test]
fn labels_match_selector_only_with_equal_values() {
    let node = labels(&[("zone", "a"), ("gpu", "A100")]);
    assert!(node_labels_match_selector(&node, &labels(&[("zone", "a")])));
    assert!(node_labels_match_selector(&node, &labels(&[])));
    assert!(!node_labels_match_selector(&node, &labels(&[("zone", "b")])));
    assert!(!node_labels_match_selector(&node, &labels(&[("region", "us")])));
}
