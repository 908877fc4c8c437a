use raylet_rs::scheduler::{raylet_scheduler_allocate, raylet_scheduler_create, raylet_scheduler_destroy, raylet_scheduler_release, raylet_scheduler_update_cluster_view};
use raylet_rs::scheduler_ffi::{raylet_rs_scheduler_allocate, raylet_rs_scheduler_create, raylet_rs_scheduler_destroy, raylet_rs_scheduler_release, raylet_rs_scheduler_update_cluster_view};
use raylet_rs::{entrypoint_status, raylet_main, RayletError};

#[test]
fn raylet_main_succeeds() {
    assert!(raylet_main().is_ok());
}

#[test]
fn ffi_entrypoint_returns_zero() {
    assert_eq!(entrypoint_status(&raylet_main()), 0);
}

#[test]
fn entrypoint_status_is_minus_one_on_failure() {
    assert_eq!(entrypoint_status(&Err(RayletError { message: "boom" })), -1);
}

#[test]
fn create_and_destroy_handle() {
    let handle = raylet_scheduler_create(1);
    assert!(handle.id() > 0);
    raylet_scheduler_destroy(handle);
}

#[test]
fn live_handle_accepts_every_operation() {
    let handle = raylet_scheduler_create(7);
    raylet_scheduler_update_cluster_view(&handle);
    raylet_scheduler_allocate(&handle);
    raylet_scheduler_release(&handle);
    assert_eq!(handle.id(), 7);
    raylet_scheduler_destroy(handle);
}

#[test]
fn guarded_handle_never_places_a_request() {
    let mut handle = raylet_rs_scheduler_create();
    raylet_rs_scheduler_update_cluster_view(&mut handle);
    assert!(!raylet_rs_scheduler_allocate(&mut handle));
    raylet_rs_scheduler_release(&mut handle);
    raylet_rs_scheduler_destroy(handle);
}

#[test]
fn guarded_handle_debug_text_shows_marker_and_liveness() {
    let handle = raylet_rs_scheduler_create();
    assert_eq!(
        handle.debug_text(),
        format!("RayletSchedulerHandle {{ magic: {}, alive: true }}", 0x5259_4c54_5343_4844u64)
    );
    assert!(raylet_rs::scheduler_ffi::handle_is_valid(&handle));
    raylet_rs_scheduler_destroy(handle);
}
