//! The event model: what a change to the collection looks like.

use vstd::prelude::*;

verus! {

/// The kind of change an event records.
#[derive(Clone, Copy, Debug, PartialEq, Eq, Structural)]
pub enum CRUD {
    /// A new entity enters the collection.
    Create,
    /// An entity already in the collection gets new content.
    Update,
    /// An entity leaves the collection.
    Delete,
}

/// One recorded change: what happened, when, and to which entity.
///
/// Nothing is checked here. Whether the change makes sense (a create of
/// something already there, an update of something absent) is known only
/// once the event meets a projection.
#[derive(Debug)]
pub struct Event<T> {
    /// The kind of change.
    pub operation: CRUD,
    /// When the change happened, in ticks of a monotonic clock.
    pub date: u64,
    /// The entity concerned. For a create or an update this is the content
    /// that enters the collection; for every kind it is also the key by
    /// which an entry already in the collection is found.
    pub data: T,
}

} // verus!
