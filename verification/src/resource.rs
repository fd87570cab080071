use vstd::prelude::*;

verus! {

/// The id of a resource: a capability-identity tag. The host assigns one
/// distinct tag per resource type; the store itself only relies on the
/// tags being distinct, not on how they are produced.
#[derive(Clone, Copy, Debug, Hash, PartialEq, Eq, Structural)]
pub struct ResourceId(pub u64);

impl ResourceId {
    /// Creates a new resource id from the given type tag.
    pub fn new(id: u64) -> (r: ResourceId)
        ensures
            r.0 == id,
    {
        ResourceId(id)
    }
}

} // verus!
