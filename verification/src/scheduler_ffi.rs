//! Scheduler handles for C++ callers, guarded by a magic number and a
//! liveness flag.

use vstd::prelude::*;
use vstd::string::StringExecFns;

use crate::port_file::append_decimal;
use crate::port_file::decimal_spec;

verus! {

/// The marker that every intact handle carries.
pub const HANDLE_MAGIC: u64 = 0x5259_4c54_5343_4844;

/// A scheduler handle as C++ holds it.
pub struct RayletSchedulerHandle {
    magic: u64,
    alive: bool,
}

impl RayletSchedulerHandle {
    /// The handle carries the marker and has not been destroyed.
    pub closed spec fn is_valid(&self) -> bool {
        self.magic == HANDLE_MAGIC && self.alive
    }
}

impl RayletSchedulerHandle {
    /// How the handle is written for debugging:
    /// `RayletSchedulerHandle { magic: <decimal>, alive: <true|false> }`.
    pub closed spec fn debug_spec(&self) -> Seq<char> {
        "RayletSchedulerHandle { magic: "@ + decimal_spec(self.magic as nat) + ", alive: "@ + (if self.alive {
            "true"@
        } else {
            "false"@
        }) + " }"@
    }

    /// The handle written for debugging, with its marker and liveness.
    pub fn debug_text(&self) -> (r: String)
        ensures
            r@ == self.debug_spec(),
    {
        let mut r = String::from_str("RayletSchedulerHandle { magic: ");
        append_decimal(&mut r, self.magic);
        r.append(", alive: ");
        if self.alive {
            r.append("true");
        } else {
            r.append("false");
        }
        r.append(" }");
        r
    }
}

/// Whether the handle carries the marker and has not been destroyed; a
/// caller that cannot otherwise know tests this before handing the handle
/// on.
pub fn handle_is_valid(handle: &RayletSchedulerHandle) -> (b: bool)
    ensures
        b == handle.is_valid(),
{
    handle.magic == HANDLE_MAGIC && handle.alive
}

/// A new, intact handle.
pub fn raylet_rs_scheduler_create() -> (h: Box<RayletSchedulerHandle>)
    ensures
        h.is_valid(),
{
    Box::new(RayletSchedulerHandle { magic: HANDLE_MAGIC, alive: true })
}

/// Destroys an intact handle: it is marked dead and dropped.
pub fn raylet_rs_scheduler_destroy(handle: Box<RayletSchedulerHandle>)
    requires
        handle.is_valid(),
{
    validate_handle(&handle);
    let mut h = *handle;
    h.alive = false;
}

/// Takes a new cluster view on an intact handle, which stays as it was.
pub fn raylet_rs_scheduler_update_cluster_view(handle: &mut RayletSchedulerHandle)
    requires
        old(handle).is_valid(),
    ensures
        *final(handle) == *old(handle),
{
    validate_handle(handle);
}

/// Places a request on an intact handle; no placement is made yet, so the
/// answer is always no.
pub fn raylet_rs_scheduler_allocate(handle: &mut RayletSchedulerHandle) -> (placed: bool)
    requires
        old(handle).is_valid(),
    ensures
        !placed,
        *final(handle) == *old(handle),
{
    validate_handle(handle);
    false
}

/// Releases a request on an intact handle, which stays as it was.
pub fn raylet_rs_scheduler_release(handle: &mut RayletSchedulerHandle)
    requires
        old(handle).is_valid(),
    ensures
        *final(handle) == *old(handle),
{
    validate_handle(handle);
}

/// Checks that a handle is intact: it carries the marker and is alive.
pub fn validate_handle(handle: &RayletSchedulerHandle)
    requires
        handle.is_valid(),
{
    assert(handle.magic == HANDLE_MAGIC);
    assert(handle.alive);
}

} // verus!
