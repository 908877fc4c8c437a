//! Opaque scheduler handles, each identified by a nonzero id.

use vstd::prelude::*;

verus! {

/// State owned by the scheduler on behalf of one C++ caller; it only carries
/// the id under which it was created.
pub struct RayletSchedulerHandle {
    id: u64,
}

impl RayletSchedulerHandle {
    #[verifier::type_invariant]
    spec fn inv(&self) -> bool {
        self.id != 0
    }

    /// The handle's id.
    pub closed spec fn handle_id(&self) -> u64 {
        self.id
    }

    fn new(id: u64) -> (h: Self)
        requires
            id != 0,
        ensures
            h.handle_id() == id,
    {
        RayletSchedulerHandle { id }
    }

    /// The handle's id, which is never zero.
    pub fn id(&self) -> (r: u64)
        ensures
            r == self.handle_id(),
            r != 0,
    {
        proof {
            use_type_invariant(self);
        }
        self.id
    }

    /// A live handle has a nonzero id; `op` names the operation for which
    /// the handle is used.
    fn ensure_live(&self, op: &str)
        ensures
            self.handle_id() != 0,
    {
        proof {
            use_type_invariant(self);
        }
    }
}

/// A new handle with the given id.
pub fn raylet_scheduler_create(id: u64) -> (h: Box<RayletSchedulerHandle>)
    requires
        id != 0,
    ensures
        h.handle_id() == id,
{
    Box::new(RayletSchedulerHandle::new(id))
}

/// Ends the life of a handle.
pub fn raylet_scheduler_destroy(_handle: Box<RayletSchedulerHandle>) {
}

/// Takes a new cluster view on a live handle.
pub fn raylet_scheduler_update_cluster_view(handle: &RayletSchedulerHandle)
    ensures
        handle.handle_id() != 0,
{
    handle.ensure_live("update_cluster_view");
}

/// Places a request on a live handle.
pub fn raylet_scheduler_allocate(handle: &RayletSchedulerHandle)
    ensures
        handle.handle_id() != 0,
{
    handle.ensure_live("allocate");
}

/// Releases a request on a live handle.
pub fn raylet_scheduler_release(handle: &RayletSchedulerHandle)
    ensures
        handle.handle_id() != 0,
{
    handle.ensure_live("release");
}

} // verus!
