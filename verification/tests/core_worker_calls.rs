use raylet_rs::core_worker_calls::{
    callback_return_count, callback_return_objects, callback_returns_list,
    actor_task_push_outcome, actor_task_return_count, contains_str, fetch_timeout_ms,
    first_failed_object, legacy_worker_type, next_submit_step, push_endpoint,
    raylet_dispatch_port, resolve_compact_task_call, resolve_legacy_task_call,
    return_object_indices, split_ready, strip_prefix, task_error_payload, task_push_outcome,
    task_return_count, uses_legacy_submit_form, uses_legacy_worker_form, SubmitStep,
};

#[test]
fn legacy_call_prefers_the_explicit_name() {
    let c = resolve_legacy_task_call(Some("named".into()), Some("f".into()), Some(3), Some(2));
    assert_eq!(c.name, "named");
    assert_eq!(c.num_returns, 3);
    assert_eq!(c.max_retries, 2);
}

#[test]
fn legacy_call_falls_back_to_the_descriptor_name() {
    let c = resolve_legacy_task_call(Some(String::new()), Some("f".into()), None, None);
    assert_eq!(c.name, "f");
    assert_eq!(c.num_returns, 1);
    assert_eq!(c.max_retries, 0);
    let anonymous = resolve_legacy_task_call(None, None, None, None);
    assert_eq!(anonymous.name, "");
}

#[test]
fn compact_call_keeps_its_name() {
    let c = resolve_compact_task_call("square".into(), None, Some(5));
    assert_eq!(c.name, "square");
    assert_eq!(c.num_returns, 1);
    assert_eq!(c.max_retries, 5);
}

#[test]
fn argument_forms_are_told_apart_by_count() {
    assert!(!uses_legacy_submit_form(16));
    assert!(uses_legacy_submit_form(17));
    assert!(!uses_legacy_worker_form(7));
    assert!(uses_legacy_worker_form(19));
}

#[test]
fn return_objects_are_numbered_from_one() {
    assert_eq!(return_object_indices(3), vec![1, 2, 3]);
    assert_eq!(return_object_indices(0), Vec::<u32>::new());
    let c = resolve_compact_task_call("t".into(), Some((1u64 << 32) + 2), None);
    assert_eq!(task_return_count(&c), 2);
}

#[test]
fn actor_tasks_return_at_least_one_object() {
    assert_eq!(actor_task_return_count(None), 1);
    assert_eq!(actor_task_return_count(Some(0)), 1);
    assert_eq!(actor_task_return_count(Some(-5)), 1);
    assert_eq!(actor_task_return_count(Some(4)), 4);
}

#[test]
fn task_failures_are_retried_while_retries_last() {
    let task_failure: Result<(), String> = Err("TASK_ERROR:boom".into());
    let remote_failure: Result<(), String> = Err("remote: TASK_ERROR:boom".into());
    let transport_failure: Result<(), String> = Err("connection refused".into());
    assert_eq!(next_submit_step(2, &Ok(())), SubmitStep::Done);
    assert_eq!(next_submit_step(2, &task_failure), SubmitStep::Retry { retries_left: 1 });
    assert_eq!(next_submit_step(1, &remote_failure), SubmitStep::Retry { retries_left: 0 });
    assert_eq!(next_submit_step(2, &transport_failure), SubmitStep::Fail);
    assert_eq!(next_submit_step(0, &task_failure), SubmitStep::StoreError);
    assert_eq!(next_submit_step(-1, &transport_failure), SubmitStep::StoreError);
}

#[test]
fn a_failing_task_is_attempted_max_retries_plus_one_times() {
    let failure: Result<(), String> = Err("TASK_ERROR:x".into());
    let mut retries_left = 3;
    let mut attempts = 0;
    loop {
        attempts += 1;
        match next_submit_step(retries_left, &failure) {
            SubmitStep::Retry { retries_left: r } => retries_left = r,
            step => {
                assert_eq!(step, SubmitStep::StoreError);
                break;
            }
        }
    }
    assert_eq!(attempts, 4);
}

#[test]
fn stored_failure_drops_the_task_error_prefix() {
    assert_eq!(task_error_payload("TASK_ERROR:boom"), "boom");
    assert_eq!(task_error_payload("connection refused"), "connection refused");
    assert_eq!(strip_prefix("abc", "ab"), "c");
    assert!(contains_str("xxTASK_ERROR:", "TASK_ERROR:"));
    assert!(!contains_str("TASK_ERROR", "TASK_ERROR:"));
    assert!(contains_str("abc", ""));
}

#[test]
fn first_failed_object_finds_error_metadata() {
    let fetched = vec![
        Some(b"python".to_vec()),
        None,
        Some(b"ERROR".to_vec()),
        Some(b"ERROR".to_vec()),
    ];
    assert_eq!(first_failed_object(&fetched), Some(2));
    assert_eq!(first_failed_object(&vec![Some(b"ERRORS".to_vec()), None]), None);
}

#[test]
fn push_replies_fail_only_without_returned_objects() {
    assert_eq!(task_push_outcome("", 0), Ok(()));
    assert_eq!(task_push_outcome("bad", 0), Err("TASK_ERROR:bad".to_string()));
    assert_eq!(task_push_outcome("bad", 1), Ok(()));
    assert_eq!(actor_task_push_outcome("bad", 0), Err("ACTOR_TASK_ERROR:bad".to_string()));
}

#[test]
fn push_endpoint_is_an_http_address() {
    assert_eq!(push_endpoint("10.0.0.1", 9999), "http://10.0.0.1:9999");
}

#[test]
fn wait_splits_refs_in_order() {
    assert_eq!(split_ready(&vec![true, false, true, true], 4, 2), (vec![0, 2], vec![1, 3]));
    assert_eq!(split_ready(&vec![true, true], 3, 5), (vec![0, 1], vec![]));
    assert_eq!(split_ready(&vec![true, true, false], 3, 0), (vec![], vec![0, 1, 2]));
}

#[test]
fn negative_fetch_timeout_waits_without_end() {
    assert_eq!(fetch_timeout_ms(-1), u64::MAX);
    assert_eq!(fetch_timeout_ms(50), 50);
}

#[test]
fn legacy_modes_map_to_worker_types() {
    assert_eq!(legacy_worker_type(0), 1);
    assert_eq!(legacy_worker_type(1), 0);
    assert_eq!(legacy_worker_type(3), 3);
}

#[test]
fn dispatch_port_needs_a_positive_node_manager_port() {
    assert_eq!(raylet_dispatch_port(Some(8076)), Some(8076));
    assert_eq!(raylet_dispatch_port(Some(70000)), Some(4464));
    assert_eq!(raylet_dispatch_port(Some(0)), None);
    assert_eq!(raylet_dispatch_port(Some(-3)), None);
    assert_eq!(raylet_dispatch_port(None), None);
}

#[test]
fn task_callback_returns_at_least_one_value() {
    assert_eq!(callback_return_count(0), 1);
    assert_eq!(callback_return_count(1), 1);
    assert_eq!(callback_return_count(3), 3);
    assert!(!callback_returns_list(1));
    assert!(callback_returns_list(3));
}

#[test]
fn callback_values_become_numbered_python_objects() {
    let objects = callback_return_objects(vec![b"a".to_vec(), b"bc".to_vec(), vec![]]);
    assert_eq!(objects.len(), 3);
    for (i, o) in objects.iter().enumerate() {
        assert_eq!(o.index, i as u32 + 1);
        assert_eq!(o.metadata, b"python".to_vec());
    }
    assert_eq!(objects[0].data, b"a".to_vec());
    assert_eq!(objects[1].data, b"bc".to_vec());
    assert_eq!(objects[2].data, Vec::<u8>::new());
    assert!(callback_return_objects(vec![]).is_empty());
}
