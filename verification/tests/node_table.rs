use raylet_rs::node_table::{
    alive_nodes, bytes_equal, find_node, hex_encode, listed_nodes, locally_alive, node_row,
    passes, NodeOrigin, NodeRecord, NodeSelector,
};

fn node(id: &[u8], name: &str, address: &str, socket: &str, state: i32, head: bool) -> NodeRecord {
    NodeRecord {
        node_id: id.to_vec(),
        node_name: name.to_string(),
        node_manager_address: address.to_string(),
        object_store_socket_name: socket.to_string(),
        state,
        is_head_node: head,
    }
}

fn cluster() -> (Vec<NodeRecord>, Vec<NodeRecord>) {
    let reported = vec![
        node(&[1], "head", "10.0.0.1", "/tmp/s1", 0, true),
        node(&[2], "w1", "10.0.0.2", "/tmp/s2", 1, false),
        node(&[3], "w2", "10.0.0.3", "/tmp/s3", 0, false),
    ];
    let local = vec![node(&[9], "fresh", "127.0.0.1", "/tmp/s1", 0, true)];
    (reported, local)
}

#[test]
fn local_nodes_come_first_and_shadow_reported_ones() {
    let (reported, local) = cluster();
    let listed = listed_nodes(&reported, &local, None, &vec![]);
    assert_eq!(
        listed,
        vec![NodeOrigin::Local(0), NodeOrigin::Reported(1), NodeOrigin::Reported(2)]
    );
}

#[test]
fn state_filter_and_selectors_narrow_the_listing() {
    let (reported, local) = cluster();
    let alive = listed_nodes(&reported, &local, Some(0), &vec![]);
    assert_eq!(alive, vec![NodeOrigin::Local(0), NodeOrigin::Reported(2)]);
    let workers = listed_nodes(&reported, &local, None, &vec![NodeSelector::IsHeadNode(false)]);
    assert_eq!(workers, vec![NodeOrigin::Reported(1), NodeOrigin::Reported(2)]);
    let by_address = listed_nodes(
        &reported,
        &local,
        None,
        &vec![NodeSelector::NodeIpAddress("10.0.0.3".to_string()), NodeSelector::Unset],
    );
    assert_eq!(by_address, vec![NodeOrigin::Reported(2)]);
    let by_id = listed_nodes(&reported, &local, Some(1), &vec![NodeSelector::NodeId(vec![2])]);
    assert_eq!(by_id, vec![NodeOrigin::Reported(1)]);
    let nobody = listed_nodes(
        &reported,
        &local,
        None,
        &vec![NodeSelector::NodeName("w1".to_string()), NodeSelector::IsHeadNode(true)],
    );
    assert_eq!(nobody, vec![]);
}

#[test]
fn passes_needs_every_selector() {
    let n = node(&[1], "head", "10.0.0.1", "/tmp/s1", 0, true);
    assert!(passes(&n, Some(0), &vec![NodeSelector::NodeName("head".to_string())]));
    assert!(!passes(&n, Some(1), &vec![]));
    assert!(!passes(&n, None, &vec![NodeSelector::Unset, NodeSelector::IsHeadNode(false)]));
}

#[test]
fn hex_encoding_is_lowercase_two_digits_per_byte() {
    assert_eq!(hex_encode(&vec![]), "");
    assert_eq!(hex_encode(&vec![0x0a, 0xff, 0x00, 0x5c]), "0aff005c");
    assert!(bytes_equal(&vec![1, 2], &vec![1, 2]));
    assert!(!bytes_equal(&vec![1, 2], &vec![1]));
}

#[test]
fn node_lookup_falls_back_to_the_first_node() {
    let (reported, _) = cluster();
    assert_eq!(find_node(&reported, "03"), Some(2));
    assert_eq!(find_node(&reported, "ff"), Some(0));
    assert_eq!(find_node(&vec![], "03"), None);
}

#[test]
fn local_sessions_vouch_for_their_nodes() {
    let ids = vec![vec![1], vec![2], vec![3]];
    assert_eq!(locally_alive(&ids, &vec![vec![3], vec![1]]), vec![true, false, true]);
    assert_eq!(locally_alive(&ids, &vec![]), vec![false, false, false]);
}

#[test]
fn alive_flags_overlay_local_ones() {
    let local = vec![false, true, false];
    assert_eq!(alive_nodes(3, Some(vec![true, false, false]), &local), vec![true, true, false]);
    assert_eq!(alive_nodes(3, Some(vec![true]), &local), local);
    assert_eq!(alive_nodes(3, None, &local), local);
    assert_eq!(alive_nodes(2, Some(vec![false, true]), &vec![true]), vec![true, true]);
}


#[test]
fn node_rows_show_liveness_and_death() {
    let alive = node_row(&vec![0xab, 0x01], 0, None);
    assert_eq!(alive.node_id_hex, "ab01");
    assert!(alive.alive);
    assert_eq!(alive.death_reason, 0);
    assert_eq!(alive.death_reason_message, "");
    let dead = node_row(&vec![], 1, Some((3, "oom".to_string())));
    assert_eq!(dead.node_id_hex, "");
    assert!(!dead.alive);
    assert_eq!(dead.death_reason, 3);
    assert_eq!(dead.death_reason_message, "oom");
}

#[test]
fn test_check_alive() {
    let ids = vec![vec![1], vec![2], vec![3]];
    let local = locally_alive(&ids, &vec![]);
    let alive = alive_nodes(ids.len(), Some(vec![true, false, true]), &local);
    assert_eq!(alive, vec![true, false, true]);
}
