//! Why an event may leave a projection untouched.

use vstd::prelude::*;

verus! {

/// The reason an event had no effect on the projection it was folded into.
#[derive(Clone, Copy, Debug, PartialEq, Eq, Structural)]
pub enum ProjectionError {
    /// A create named an entity that the projection already holds.
    DuplicateCreate,
    /// An update named an entity that the projection does not hold.
    MissingUpdateTarget,
    /// A delete named an entity that the projection does not hold.
    MissingDeleteTarget,
}

} // verus!
