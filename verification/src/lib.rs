//! Resource bookkeeping and scheduling decisions for a raylet node.
//!
//! Resource quantities are fixed-point integers: one unit of a resource is
//! `RESOURCE_UNIT_SCALING` fixed-point units.

use vstd::prelude::*;

pub mod str_map;
pub mod scheduling_ffi;
pub mod resources;
pub mod cluster_resource_scheduler;
pub mod clock;
pub mod scheduling;
pub mod scheduler;
pub mod scheduler_ffi;
pub mod serialization;
pub mod address;
pub mod command_line;
pub mod port_file;
pub mod core_worker_calls;
pub mod node_table;
pub mod gcs_replies;

verus! {

/// An error that callers can tell apart from success without committing to
/// a specific error stack.
#[derive(Debug)]
pub struct RayletError {
    pub message: &'static str,
}

/// Entry point of the raylet; succeeds while no subsystem has to be booted.
pub fn raylet_main() -> (result: Result<(), RayletError>)
    ensures
        result is Ok,
{
    Ok(())
}

/// The status code reported across the C boundary for the outcome of
/// `raylet_main`: `0` on success and `-1` on failure.
pub fn entrypoint_status(result: &Result<(), RayletError>) -> (code: i32)
    ensures
        code == (if result is Ok { 0i32 } else { -1i32 }),
{
    match result {
        Ok(()) => 0,
        Err(_) => -1,
    }
}

} // verus!
