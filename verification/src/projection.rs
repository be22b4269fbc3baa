//! The folding rule as mathematics.
//!
//! A projection is a sequence of entities. An event log is a sequence of
//! events. Everything the executable code does is stated against the
//! functions of this module.

use vstd::prelude::*;
use vstd::std_specs::cmp::PartialEqSpec;

use crate::error::ProjectionError;
use crate::typings::{Event, CRUD};

verus! {

/// What folding asks of an entity type: that `==` decides the relation
/// `eq_spec`, and that a clone is the value it was made from.
pub open spec fn lawful_entity<T: Clone + PartialEq>() -> bool {
    &&& T::obeys_eq_spec()
    &&& forall|a: T, b: T| #[trigger] cloned::<T>(a, b) ==> a == b
}

/// `i` is where `wanted` is found in `s`: the entry at `i` equals `wanted`
/// and no entry before it does.
pub open spec fn found_at<T: PartialEq>(s: Seq<T>, wanted: T, i: int) -> bool {
    &&& 0 <= i < s.len()
    &&& s[i].eq_spec(&wanted)
    &&& forall|j: int| 0 <= j < i ==> !(#[trigger] s[j]).eq_spec(&wanted)
}

/// Where `wanted` is found in `s`, if anywhere.
pub open spec fn position<T: PartialEq>(s: Seq<T>, wanted: T) -> Option<int> {
    if exists|i: int| found_at(s, wanted, i) {
        Some(choose|i: int| found_at(s, wanted, i))
    } else {
        None
    }
}

/// The projection that results from folding one event into `s`.
///
/// A create appends the entity unless it is found; an update puts the
/// entity in the place where it is found; a delete removes the entry where
/// it is found. In every other case the projection stays as it is.
pub open spec fn apply<T: PartialEq>(s: Seq<T>, event: Event<T>) -> Seq<T> {
    match (event.operation, position(s, event.data)) {
        (CRUD::Create, None) => s.push(event.data),
        (CRUD::Update, Some(i)) => s.update(i, event.data),
        (CRUD::Delete, Some(i)) => s.remove(i),
        _ => s,
    }
}

/// Whether folding `event` into `s` takes effect, and if not, why.
pub open spec fn verdict<T: PartialEq>(s: Seq<T>, event: Event<T>) -> Result<(), ProjectionError> {
    match (event.operation, position(s, event.data)) {
        (CRUD::Create, Some(_)) => Err(ProjectionError::DuplicateCreate),
        (CRUD::Update, None) => Err(ProjectionError::MissingUpdateTarget),
        (CRUD::Delete, None) => Err(ProjectionError::MissingDeleteTarget),
        _ => Ok(()),
    }
}

/// The projection of a whole log: every event folded in, in log order,
/// starting from nothing.
pub open spec fn fold<T: PartialEq>(log: Seq<Event<T>>) -> Seq<T>
    decreases log.len(),
{
    if log.len() == 0 {
        Seq::empty()
    } else {
        apply(fold(log.drop_last()), log.last())
    }
}

/// `n` is how far a replay up to `at` gets: the first `n` events are all
/// dated no later than `at`, and the next one, if there is one, is later.
pub open spec fn stops_at<T>(log: Seq<Event<T>>, at: u64, n: int) -> bool {
    &&& 0 <= n <= log.len()
    &&& forall|j: int| 0 <= j < n ==> (#[trigger] log[j]).date <= at
    &&& n < log.len() ==> log[n].date > at
}

/// The number of events a replay up to `at` folds.
pub open spec fn cutoff<T>(log: Seq<Event<T>>, at: u64) -> int {
    choose|n: int| stops_at(log, at, n)
}

/// The part of the log a replay up to `at` folds: its longest prefix of
/// events dated no later than `at`.
pub open spec fn history_until<T>(log: Seq<Event<T>>, at: u64) -> Seq<Event<T>> {
    log.take(cutoff(log, at))
}

/// The projection as it stood at `at`.
pub open spec fn fold_until<T: PartialEq>(log: Seq<Event<T>>, at: u64) -> Seq<T> {
    fold(history_until(log, at))
}

/// The dates of the log never go back.
pub open spec fn dates_ascend<T>(log: Seq<Event<T>>) -> bool {
    forall|i: int, j: int| 0 <= i <= j < log.len() ==> log[i].date <= log[j].date
}

/// How many entries of `s` equal `wanted`.
pub open spec fn occurrences<T: PartialEq>(s: Seq<T>, wanted: T) -> nat
    decreases s.len(),
{
    if s.len() == 0 {
        0
    } else {
        occurrences(s.drop_last(), wanted) + if s.last().eq_spec(&wanted) {
            1nat
        } else {
            0nat
        }
    }
}

/// From any point that the replay reaches, it stops somewhere.
proof fn lemma_replay_stops<T>(log: Seq<Event<T>>, at: u64, k: int)
    requires
        0 <= k <= log.len(),
        forall|j: int| 0 <= j < k ==> (#[trigger] log[j]).date <= at,
    ensures
        exists|n: int| stops_at(log, at, n),
    decreases log.len() - k,
{
    if k < log.len() && log[k].date <= at {
        lemma_replay_stops(log, at, k + 1);
    } else {
        assert(stops_at(log, at, k));
    }
}

/// The cutoff is where the replay stops.
pub proof fn lemma_cutoff<T>(log: Seq<Event<T>>, at: u64)
    ensures
        stops_at(log, at, cutoff(log, at)),
{
    lemma_replay_stops(log, at, 0);
}

/// A count that meets `stops_at` is the cutoff.
pub proof fn lemma_cutoff_is<T>(log: Seq<Event<T>>, at: u64, n: int)
    requires
        stops_at(log, at, n),
    ensures
        cutoff(log, at) == n,
{
    let m = cutoff(log, at);
    lemma_cutoff(log, at);
    if m < n {
        assert(log[m].date <= at);
    } else if n < m {
        assert(log[n].date <= at);
    }
}

/// At most one position answers to the name `wanted`.
pub proof fn lemma_found_at_unique<T: PartialEq>(s: Seq<T>, wanted: T, i: int, k: int)
    requires
        found_at(s, wanted, i),
        found_at(s, wanted, k),
    ensures
        i == k,
{
}

/// An entry that equals `wanted` and has none before it is the position of
/// `wanted`.
pub proof fn lemma_position_is<T: PartialEq>(s: Seq<T>, wanted: T, i: int)
    requires
        found_at(s, wanted, i),
    ensures
        position(s, wanted) == Some(i),
{
    let k = choose|k: int| found_at(s, wanted, k);
    lemma_found_at_unique(s, wanted, i, k);
}

/// If any entry equals `wanted`, there is a first one.
pub proof fn lemma_some_match_has_position<T: PartialEq>(s: Seq<T>, wanted: T, j: int)
    requires
        0 <= j < s.len(),
        s[j].eq_spec(&wanted),
    ensures
        position(s, wanted) is Some,
    decreases j,
{
    if exists|k: int| 0 <= k < j && (#[trigger] s[k]).eq_spec(&wanted) {
        let k = choose|k: int| 0 <= k < j && (#[trigger] s[k]).eq_spec(&wanted);
        lemma_some_match_has_position(s, wanted, k);
    } else {
        assert(found_at(s, wanted, j));
    }
}

/// What `position` returns: the first entry that equals `wanted`, or
/// nothing exactly when no entry does.
pub proof fn lemma_position<T: PartialEq>(s: Seq<T>, wanted: T)
    ensures
        match position(s, wanted) {
            Some(i) => found_at(s, wanted, i),
            None => forall|j: int| 0 <= j < s.len() ==> !(#[trigger] s[j]).eq_spec(&wanted),
        },
{
    if position(s, wanted) is None {
        assert forall|j: int| 0 <= j < s.len() implies !(#[trigger] s[j]).eq_spec(&wanted) by {
            if s[j].eq_spec(&wanted) {
                lemma_some_match_has_position(s, wanted, j);
            }
        }
    }
}

/// Folding a log with one more event is folding that event into the fold
/// of the log.
pub proof fn lemma_fold_push<T: PartialEq>(log: Seq<Event<T>>, event: Event<T>)
    ensures
        fold(log.push(event)) == apply(fold(log), event),
{
    assert(log.push(event).drop_last() == log);
}

/// No entry equals `wanted` exactly when `wanted` occurs zero times.
pub proof fn lemma_occurrences_none<T: PartialEq>(s: Seq<T>, wanted: T)
    ensures
        occurrences(s, wanted) == 0 <==> forall|j: int|
            0 <= j < s.len() ==> !(#[trigger] s[j]).eq_spec(&wanted),
    decreases s.len(),
{
    if s.len() > 0 {
        let front = s.drop_last();
        lemma_occurrences_none(front, wanted);
        if occurrences(s, wanted) == 0 {
            assert forall|j: int| 0 <= j < s.len() implies !(#[trigger] s[j]).eq_spec(
                &wanted,
            ) by {
                if j < front.len() {
                    assert(front[j] == s[j]);
                }
            }
        } else if !s.last().eq_spec(&wanted) {
            let j = choose|j: int| 0 <= j < front.len() && (#[trigger] front[j]).eq_spec(&wanted);
            assert(s[j] == front[j]);
        }
    }
}

/// One more entry adds one occurrence if it equals `wanted`, none if not.
pub proof fn lemma_occurrences_push<T: PartialEq>(s: Seq<T>, entry: T, wanted: T)
    ensures
        occurrences(s.push(entry), wanted) == occurrences(s, wanted) + if entry.eq_spec(&wanted) {
            1nat
        } else {
            0nat
        },
{
    assert(s.push(entry).drop_last() == s);
}

/// Taking one entry out takes one occurrence away if that entry equals
/// `wanted`, none if not.
pub proof fn lemma_occurrences_remove<T: PartialEq>(s: Seq<T>, i: int, wanted: T)
    requires
        0 <= i < s.len(),
    ensures
        occurrences(s, wanted) == occurrences(s.remove(i), wanted) + if s[i].eq_spec(&wanted) {
            1nat
        } else {
            0nat
        },
    decreases s.len(),
{
    if i == s.len() - 1 {
        assert(s.remove(i) == s.drop_last());
    } else {
        lemma_occurrences_remove(s.drop_last(), i, wanted);
        assert(s.remove(i).drop_last() == s.drop_last().remove(i));
        assert(s.remove(i).last() == s.last());
    }
}

} // verus!
