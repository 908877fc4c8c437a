use std::sync::atomic::{AtomicI64, Ordering};
use std::sync::Arc;

use raylet_rs::clock::Clock;
use raylet_rs::resources::RESOURCE_UNIT_SCALING;
use raylet_rs::scheduling::local_resource_manager::{LocalResourceManager, WorkFootprint};
use raylet_rs::scheduling_ffi::{LabelSelector, NodeResources, ResourceRequest};
use raylet_rs::str_map::{LabelMap, ResourceSet};

fn units(x: f64) -> i64 {
    (x * RESOURCE_UNIT_SCALING as f64).round() as i64
}

fn resources(pairs: &[(&str, f64)]) -> ResourceSet {
    let mut m = ResourceSet::new();
    for (k, v) in pairs {
        m.insert(k.to_string(), units(*v));
    }
    m
}

struct FakeClock(Arc<AtomicI64>);

impl Clock for FakeClock {
    fn now_ms(&self) -> i64 {
        self.0.load(Ordering::Relaxed)
    }
}

fn fake_manager() -> (LocalResourceManager<FakeClock>, Arc<AtomicI64>) {
    let now = Arc::new(AtomicI64::new(1000));
    let fake_clock = FakeClock(now.clone());
    (
        LocalResourceManager::new_with_clock(
            NodeResources {
                total: resources(&[("CPU", 2.0), ("GPU", 1.0)]),
                available: resources(&[("CPU", 2.0), ("GPU", 1.0)]),
                load: ResourceSet::new(),
                normal_task_resources: ResourceSet::new(),
                labels: LabelMap::new(),
                idle_resource_duration_ms: 0,
                is_draining: false,
                draining_deadline_timestamp_ms: -1,
                last_resource_update_ms: 0,
                latest_resources_normal_task_timestamp: 0,
                object_pulls_queued: false,
            },
            fake_clock,
        ),
        now,
    )
}

#[test]
fn allocate_release_roundtrip() {
    let (mut manager, _) = fake_manager();

    let request = ResourceRequest {
        resources: resources(&[("CPU", 1.0)]),
        requires_object_store_memory: false,
        label_selector: LabelSelector { constraints: Vec::new() },
    };

    assert!(manager.allocate(&request));
    assert_eq!(manager.get_available("CPU"), Some(units(1.0)));
    assert!(!manager.is_local_node_idle());

    let released = resources(&[("CPU", 1.0)]);
    manager.release(&released);
    assert_eq!(manager.get_available("CPU"), Some(units(2.0)));
    assert!(manager.is_local_node_idle());
}

#[test]
fn subtract_resource_instances_returns_underflow() {
    let (mut manager, _) = fake_manager();
    let underflow = manager.subtract_resource_instances("CPU", units(3.0), false);
    assert_eq!(underflow, units(1.0));
    assert_eq!(manager.get_available("CPU"), Some(units(0.0)));
}

#[test]
fn maybe_mark_footprint_as_busy_restores_idle_time() {
    let (mut manager, now) = fake_manager();
    let initial = manager.get_resource_idle_time().expect("initial idle time");

    now.store(1050, Ordering::Relaxed);
    manager.maybe_mark_footprint_as_busy(WorkFootprint::PullingTaskArguments);
    assert!(!manager.is_local_node_idle());

    now.store(1100, Ordering::Relaxed);
    manager.mark_footprint_as_idle(WorkFootprint::PullingTaskArguments);
    assert_eq!(manager.get_resource_idle_time(), Some(initial));
}

#[test]
fn mark_footprint_busy_resets_idle_time() {
    let (mut manager, now) = fake_manager();

    now.store(1050, Ordering::Relaxed);
    manager.mark_footprint_as_busy(WorkFootprint::NodeWorkers);
    assert!(!manager.is_local_node_idle());

    now.store(1100, Ordering::Relaxed);
    manager.mark_footprint_as_idle(WorkFootprint::NodeWorkers);
    assert_eq!(manager.get_resource_idle_time(), Some(1100));
}

#[test]
fn repeated_mark_footprint_idle_is_noop() {
    let (mut manager, now) = fake_manager();
    manager.mark_footprint_as_idle(WorkFootprint::PullingTaskArguments);
    let first_idle = manager.get_resource_idle_time().expect("idle time");

    now.store(1500, Ordering::Relaxed);
    manager.mark_footprint_as_idle(WorkFootprint::PullingTaskArguments);
    assert_eq!(manager.get_resource_idle_time(), Some(first_idle));
}

#[test]
fn allocation_fails_without_enough_available() {
    let (mut manager, _) = fake_manager();
    let request = ResourceRequest {
        resources: resources(&[("CPU", 1.0), ("GPU", 2.0)]),
        requires_object_store_memory: false,
        label_selector: LabelSelector { constraints: Vec::new() },
    };
    assert!(!manager.allocate(&request));
    assert_eq!(manager.get_available("CPU"), Some(units(2.0)));
    assert!(manager.is_local_node_idle());
}

#[test]
fn release_never_exceeds_total() {
    let (mut manager, _) = fake_manager();
    manager.add_resource_instances("GPU", units(5.0));
    assert_eq!(manager.get_available("GPU"), Some(units(1.0)));
    manager.release(&resources(&[("CPU", 7.0), ("TPU", 1.0)]));
    assert_eq!(manager.get_available("CPU"), Some(units(2.0)));
    assert_eq!(manager.get_available("TPU"), None);
}

#[test]
fn subtract_can_go_negative_and_adds_missing_resource() {
    let (mut manager, _) = fake_manager();
    assert_eq!(manager.subtract_resource_instances("CPU", units(3.0), true), 0);
    assert_eq!(manager.get_available("CPU"), Some(units(-1.0)));
    assert_eq!(manager.subtract_resource_instances("memory", units(1.0), false), units(1.0));
    assert_eq!(manager.get_available("memory"), Some(0));
    assert!(manager.is_available_resource_empty("memory"));
    assert!(!manager.is_available_resource_empty("GPU"));
    assert!(manager.is_available_resource_empty("disk"));
}

#[test]
fn busy_resource_blocks_idle_until_back_at_total() {
    let (mut manager, now) = fake_manager();
    manager.subtract_resource_instances("GPU", units(1.0), false);
    assert_eq!(manager.get_resource_idle_time(), None);
    now.store(2000, Ordering::Relaxed);
    manager.add_resource_instances("GPU", units(0.5));
    assert_eq!(manager.get_resource_idle_time(), None);
    manager.add_resource_instances("GPU", units(0.5));
    assert_eq!(manager.get_resource_idle_time(), Some(2000));
}

#[test]
fn empty_manager_reports_least_idle_time() {
    let manager = LocalResourceManager::new_with_clock(
        NodeResources {
            total: ResourceSet::new(),
            available: ResourceSet::new(),
            load: ResourceSet::new(),
            normal_task_resources: ResourceSet::new(),
            labels: LabelMap::new(),
            idle_resource_duration_ms: 0,
            is_draining: false,
            draining_deadline_timestamp_ms: -1,
            last_resource_update_ms: 0,
            latest_resources_normal_task_timestamp: 0,
            object_pulls_queued: false,
        },
        FakeClock(Arc::new(AtomicI64::new(5))),
    );
    assert_eq!(manager.get_resource_idle_time(), Some(i64::MIN));
}

fn node_resources() -> NodeResources {
    NodeResources {
        total: resources(&[("CPU", 2.0)]),
        available: resources(&[("CPU", 2.0)]),
        load: ResourceSet::new(),
        normal_task_resources: ResourceSet::new(),
        labels: LabelMap::new(),
        idle_resource_duration_ms: 0,
        is_draining: false,
        draining_deadline_timestamp_ms: -1,
        last_resource_update_ms: 0,
        latest_resources_normal_task_timestamp: 0,
        object_pulls_queued: false,
    }
}

#[test]
fn given_readings_decide_idle_times() {
    let clock = FakeClock(Arc::new(AtomicI64::new(0)));
    let mut manager = LocalResourceManager::new_with_clock_at(node_resources(), clock, 700);
    assert_eq!(manager.get_resource_idle_time(), Some(700));

    let request = ResourceRequest {
        resources: resources(&[("CPU", 2.0)]),
        requires_object_store_memory: false,
        label_selector: LabelSelector { constraints: Vec::new() },
    };
    assert!(manager.allocate(&request));
    assert_eq!(manager.get_resource_idle_time(), None);

    manager.add_resource_instances_at("CPU", units(1.0), 800);
    assert_eq!(manager.get_resource_idle_time(), None);
    manager.release_at(&resources(&[("CPU", 1.0)]), 900);
    assert_eq!(manager.get_resource_idle_time(), Some(900));

    manager.mark_footprint_as_busy(WorkFootprint::NodeWorkers);
    manager.mark_footprint_as_idle_at(WorkFootprint::NodeWorkers, 950);
    assert_eq!(manager.get_resource_idle_time(), Some(950));
}

struct CountingClock(Arc<AtomicI64>);

impl Clock for CountingClock {
    fn now_ms(&self) -> i64 {
        self.0.fetch_add(1, Ordering::Relaxed) + 1
    }
}

#[test]
fn release_reads_the_clock_for_each_resource_back_at_its_total() {
    let reads = Arc::new(AtomicI64::new(0));
    let mut manager = LocalResourceManager::new_with_clock_at(
        NodeResources {
            total: resources(&[("CPU", 2.0), ("GPU", 1.0)]),
            available: resources(&[("CPU", 2.0), ("GPU", 1.0)]),
            load: ResourceSet::new(),
            normal_task_resources: ResourceSet::new(),
            labels: LabelMap::new(),
            idle_resource_duration_ms: 0,
            is_draining: false,
            draining_deadline_timestamp_ms: -1,
            last_resource_update_ms: 0,
            latest_resources_normal_task_timestamp: 0,
            object_pulls_queued: false,
        },
        CountingClock(reads.clone()),
        0,
    );
    let request = ResourceRequest {
        resources: resources(&[("CPU", 2.0), ("GPU", 1.0)]),
        requires_object_store_memory: false,
        label_selector: LabelSelector { constraints: Vec::new() },
    };
    assert!(manager.allocate(&request));
    assert_eq!(reads.load(Ordering::Relaxed), 0);

    // Only CPU comes back to its total: one reading.
    manager.release(&resources(&[("CPU", 2.0), ("GPU", 0.5)]));
    assert_eq!(reads.load(Ordering::Relaxed), 1);
    // GPU comes back now: a second reading, and the node is idle from it.
    manager.release(&resources(&[("GPU", 0.5)]));
    assert_eq!(reads.load(Ordering::Relaxed), 2);
    assert_eq!(manager.get_resource_idle_time(), Some(2));

    // Two resources back at once: one reading each.
    assert!(manager.allocate(&request));
    manager.release(&resources(&[("CPU", 2.0), ("GPU", 1.0)]));
    assert_eq!(reads.load(Ordering::Relaxed), 4);
    assert_eq!(manager.get_resource_idle_time(), Some(4));
}
