use raylet_rs::cluster_resource_scheduler::ClusterResourceScheduler;
use raylet_rs::resources::RESOURCE_UNIT_SCALING;
use raylet_rs::scheduling_ffi::{
    LabelConstraint, LabelSelector, LabelSelectorOperator, NodeResourceView, NodeResources,
    ResourceRequest, SchedulingDecision, SchedulingRequest,
};
use raylet_rs::str_map::{LabelMap, ResourceSet};

fn units(x: f64) -> i64 {
    (x * RESOURCE_UNIT_SCALING as f64).round() as i64
}

fn resources(pairs: &[(&str, f64)]) -> ResourceSet {
    let mut m = ResourceSet::new();
    for (k, v) in pairs {
        m.insert(k.to_string(), units(*v));
    }
    m
}

fn labels(pairs: &[(&str, &str)]) -> LabelMap {
    let mut m = LabelMap::new();
    for (k, v) in pairs {
        m.insert(k.to_string(), v.to_string());
    }
    m
}

fn node(node_id: i64, cpu_total: f64, cpu_available: f64, zone: &str) -> NodeResourceView {
    NodeResourceView {
        node_id,
        resources: NodeResources {
            total: resources(&[("CPU", cpu_total)]),
            available: resources(&[("CPU", cpu_available)]),
            load: ResourceSet::new(),
            normal_task_resources: ResourceSet::new(),
            labels: labels(&[("zone", zone)]),
            idle_resource_duration_ms: 0,
            is_draining: false,
            draining_deadline_timestamp_ms: 0,
            last_resource_update_ms: 0,
            latest_resources_normal_task_timestamp: 0,
            object_pulls_queued: false,
        },
    }
}

fn request(request_id: i64, preferred_node_id: i64, cpu: f64) -> SchedulingRequest {
    SchedulingRequest {
        request_id,
        preferred_node_id,
        resource_request: ResourceRequest {
            resources: resources(&[("CPU", cpu)]),
            requires_object_store_memory: false,
            label_selector: LabelSelector { constraints: vec![] },
        },
    }
}

#[test]
fn scheduling_with_preferred_node_uses_preference() {
    let mut scheduler = ClusterResourceScheduler::default();
    scheduler.update_cluster_view(&[node(1, 4.0, 4.0, "a"), node(2, 4.0, 4.0, "b")]);

    let decision = scheduler.allocate(&request(1, 2, 1.0));

    assert!(decision.is_feasible);
    assert_eq!(decision.selected_node_id, 2);
    assert!(!decision.is_spillback);
}

#[test]
fn spread_scheduling_strategy_rotates_nodes() {
    let mut scheduler = ClusterResourceScheduler::default();
    scheduler.update_cluster_view(&[node(10, 4.0, 4.0, "a"), node(11, 4.0, 4.0, "b")]);

    let first = scheduler.allocate(&request(1, 0, 1.0));
    scheduler.release(1);
    let second = scheduler.allocate(&request(2, 0, 1.0));

    assert!(first.is_feasible);
    assert!(second.is_feasible);
    assert_ne!(first.selected_node_id, second.selected_node_id);
}

#[test]
fn label_selector_schedules_matching_node() {
    let mut scheduler = ClusterResourceScheduler::default();
    scheduler.update_cluster_view(&[node(1, 4.0, 4.0, "a"), node(2, 4.0, 4.0, "b")]);

    let mut constrained = request(1, 0, 1.0);
    constrained.resource_request.label_selector.constraints = vec![LabelConstraint {
        key: "zone".to_string(),
        op: LabelSelectorOperator::In,
        values: vec!["b".to_string()],
    }];

    let decision = scheduler.allocate(&constrained);
    assert!(decision.is_feasible);
    assert_eq!(decision.selected_node_id, 2);
}

#[test]
fn no_node_fits_gives_infeasible_decision() {
    let mut scheduler = ClusterResourceScheduler::default();
    scheduler.update_cluster_view(&[node(1, 2.0, 2.0, "a")]);
    let decision = scheduler.allocate(&request(9, 0, 3.0));
    assert_eq!(
        decision,
        SchedulingDecision { request_id: 9, selected_node_id: -1, is_feasible: false, is_spillback: false }
    );
}

#[test]
fn busy_node_gives_spillback_to_node_that_could_fit() {
    let mut scheduler = ClusterResourceScheduler::default();
    scheduler.update_cluster_view(&[node(1, 4.0, 0.5, "a")]);
    let decision = scheduler.allocate(&request(3, 0, 1.0));
    assert_eq!(
        decision,
        SchedulingDecision { request_id: 3, selected_node_id: 1, is_feasible: true, is_spillback: true }
    );
}

#[test]
fn preferred_node_without_room_is_a_spillback_elsewhere() {
    let mut scheduler = ClusterResourceScheduler::default();
    scheduler.update_cluster_view(&[node(1, 4.0, 4.0, "a"), node(2, 4.0, 0.0, "b")]);
    let decision = scheduler.allocate(&request(5, 2, 1.0));
    assert_eq!(
        decision,
        SchedulingDecision { request_id: 5, selected_node_id: 1, is_feasible: true, is_spillback: true }
    );
}

#[test]
fn draining_node_is_skipped() {
    let mut scheduler = ClusterResourceScheduler::default();
    let mut draining = node(1, 4.0, 4.0, "a");
    draining.resources.is_draining = true;
    scheduler.update_cluster_view(&[draining, node(2, 4.0, 4.0, "b")]);
    let decision = scheduler.allocate(&request(1, 1, 1.0));
    assert_eq!(decision.selected_node_id, 2);
    assert!(decision.is_spillback);
}

#[test]
fn not_in_selector_excludes_matching_label() {
    let mut scheduler = ClusterResourceScheduler::default();
    scheduler.update_cluster_view(&[node(1, 4.0, 4.0, "a"), node(2, 4.0, 4.0, "b")]);
    let mut constrained = request(1, 0, 1.0);
    constrained.resource_request.label_selector.constraints = vec![LabelConstraint {
        key: "zone".to_string(),
        op: LabelSelectorOperator::NotIn,
        values: vec!["a".to_string()],
    }];
    assert_eq!(scheduler.allocate(&constrained).selected_node_id, 2);
}

#[test]
fn allocation_takes_resources_and_release_gives_them_back() {
    let mut scheduler = ClusterResourceScheduler::default();
    scheduler.update_cluster_view(&[node(1, 2.0, 2.0, "a")]);
    assert!(scheduler.allocate(&request(1, 0, 1.5)).is_feasible);
    // Only half a CPU is left, so a second request for one CPU spills back.
    assert!(scheduler.allocate(&request(2, 0, 1.0)).is_spillback);
    scheduler.release(1);
    let again = scheduler.allocate(&request(3, 0, 2.0));
    assert!(again.is_feasible);
    assert!(!again.is_spillback);
}

#[test]
fn release_of_unknown_request_changes_nothing() {
    let mut scheduler = ClusterResourceScheduler::default();
    scheduler.update_cluster_view(&[node(1, 1.0, 1.0, "a")]);
    scheduler.release(42);
    assert!(!scheduler.allocate(&request(1, 0, 1.0)).is_spillback);
}

#[test]
fn update_drops_allocations_of_departed_nodes() {
    let mut scheduler = ClusterResourceScheduler::default();
    scheduler.update_cluster_view(&[node(1, 1.0, 1.0, "a"), node(2, 1.0, 1.0, "b")]);
    let d = scheduler.allocate(&request(1, 1, 1.0));
    assert_eq!(d.selected_node_id, 1);
    scheduler.update_cluster_view(&[node(2, 1.0, 1.0, "b")]);
    // Node 1 is gone: releasing its request does not touch node 2.
    scheduler.release(1);
    let d2 = scheduler.allocate(&request(2, 0, 1.0));
    assert_eq!(d2.selected_node_id, 2);
    assert!(scheduler.allocate(&request(3, 0, 1.0)).is_spillback);
}
