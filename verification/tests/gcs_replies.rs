use raylet_rs::gcs_replies::{
    actor_creation_task_name, gcs_endpoint, given_cluster_id, kv_deleted, kv_read_value, named_actor_id, placement_group_ready,
    placement_strategy_code, registration_succeeded,
};

#[test]
fn empty_kv_value_means_missing() {
    assert_eq!(kv_read_value(Some(b"v".to_vec())), Some(b"v".to_vec()));
    assert_eq!(kv_read_value(Some(vec![])), None);
    assert_eq!(kv_read_value(None), None);
    assert!(kv_deleted(Some(1)));
    assert!(!kv_deleted(Some(0)));
    assert!(!kv_deleted(None));
}

#[test]
fn placement_strategies_have_codes() {
    assert_eq!(placement_strategy_code("PACK"), 0);
    assert_eq!(placement_strategy_code("SPREAD"), 1);
    assert_eq!(placement_strategy_code("STRICT_PACK"), 2);
    assert_eq!(placement_strategy_code("STRICT_SPREAD"), 3);
    assert_eq!(placement_strategy_code("spread"), 0);
}

#[test]
fn actor_registration_replies() {
    assert_eq!(actor_creation_task_name("Counter"), "Counter.__init__");
    assert!(registration_succeeded(None));
    assert!(registration_succeeded(Some(0)));
    assert!(!registration_succeeded(Some(5)));
    assert_eq!(named_actor_id(Some(vec![7, 7])), Some(vec![7, 7]));
    assert_eq!(named_actor_id(Some(vec![])), None);
    assert_eq!(named_actor_id(None), None);
}

#[test]
fn placement_group_is_ready_on_status_zero() {
    assert!(placement_group_ready(Some(0)));
    assert!(!placement_group_ready(Some(1)));
    assert!(!placement_group_ready(None));
}

#[test]
fn client_setup_rules() {
    assert_eq!(gcs_endpoint("127.0.0.1:6379"), "http://127.0.0.1:6379");
    assert_eq!(given_cluster_id(Some("abc".to_string())), Some("abc".to_string()));
    assert_eq!(given_cluster_id(Some(String::new())), None);
    assert_eq!(given_cluster_id(None), None);
}

#[test]
fn test_kv_get_missing_key() {
    // A missing key comes back as an empty value.
    assert!(kv_read_value(Some(Vec::new())).is_none());
}

#[test]
fn test_kv_get_on_error_returns_none() {
    assert!(kv_read_value(None).is_none());
}

#[test]
fn test_kv_del_missing() {
    // Deleting a missing key deletes nothing.
    assert!(!kv_deleted(Some(0)));
}
