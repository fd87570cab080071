use vstd::prelude::*;
use crate::entity::Entity;

verus! {

/// Error returned by component-insert paths when the target entity has
/// already been killed.
#[derive(Clone, Copy, Debug, PartialEq, Eq, Structural)]
pub enum Error {
    EntityIsNotAlive(Entity),
}

} // verus!
