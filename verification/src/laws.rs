//! What holds of every log, every event and every projector.

use vstd::prelude::*;
use vstd::std_specs::cmp::PartialEqSpec;

use crate::error::ProjectionError;
use crate::projection::{
    apply, cutoff, dates_ascend, fold, fold_until, found_at, history_until, lemma_cutoff,
    lemma_cutoff_is, lemma_fold_push, lemma_occurrences_none, lemma_occurrences_push,
    lemma_occurrences_remove, lemma_position, lemma_position_is, occurrences, position, stops_at,
    verdict,
};
use crate::projector::Projector;
use crate::typings::{Event, CRUD};

verus! {

/// Equality on `T` is symmetric and transitive.
pub open spec fn equality_is_consistent<T: PartialEq>() -> bool {
    &&& forall|a: T, b: T| #[trigger] a.eq_spec(&b) ==> b.eq_spec(&a)
    &&& forall|a: T, b: T, c: T|
        #![trigger a.eq_spec(&b), b.eq_spec(&c)]
        a.eq_spec(&b) && b.eq_spec(&c) ==> a.eq_spec(&c)
}

/// No two entries of `s` equal each other.
pub open spec fn all_apart<T: PartialEq>(s: Seq<T>) -> bool {
    forall|i: int, j: int|
        #![trigger s[i], s[j]]
        0 <= i < s.len() && 0 <= j < s.len() && i != j ==> !s[i].eq_spec(&s[j])
}

/// Construction is repeatable: two consistent projectors with the same log
/// hold the same projection, the fold of that log.
pub proof fn law_same_log_same_projection<T: Clone + PartialEq>(a: Projector<T>, b: Projector<T>)
    requires
        a.wf(),
        b.wf(),
        a.history() == b.history(),
    ensures
        a.projection() == b.projection(),
        a.projection() == fold(a.history()),
{
}

/// Replaying a log up to the date of its last event folds the whole log,
/// provided its dates never go back.
pub proof fn law_replay_to_last_date_folds_all<T: PartialEq>(log: Seq<Event<T>>, event: Event<T>)
    requires
        dates_ascend(log.push(event)),
    ensures
        history_until(log.push(event), event.date) == log.push(event),
        fold_until(log.push(event), event.date) == apply(fold(log), event),
{
    let longer = log.push(event);
    assert forall|j: int| 0 <= j < longer.len() implies (#[trigger] longer[j]).date
        <= event.date by {
        assert(longer[longer.len() - 1] == event);
    }
    assert(stops_at(longer, event.date, longer.len() as int));
    lemma_cutoff_is(longer, event.date, longer.len() as int);
    assert(longer.take(longer.len() as int) == longer);
    lemma_fold_push(log, event);
}

/// The incremental path and the historical path agree: when a projector
/// takes in one more event, a replay of the longer log up to that event's
/// date gives what folding the event into the live projection gives, and
/// that is the new live projection. The dates of the longer log must never
/// go back.
pub proof fn law_incremental_is_historical<T: Clone + PartialEq>(
    before: Projector<T>,
    after: Projector<T>,
    event: Event<T>,
)
    requires
        before.wf(),
        after.wf(),
        after.history() == before.history().push(event),
        dates_ascend(after.history()),
    ensures
        fold_until(after.history(), event.date) == apply(before.projection(), event),
        fold_until(after.history(), event.date) == after.projection(),
{
    law_replay_to_last_date_folds_all(before.history(), event);
}

/// An earlier replay lies within a later one: for `t1 <= t2`, the events
/// folded up to `t1` are a prefix of those folded up to `t2`, and replaying
/// only the latter up to `t1` gives the projection at `t1`.
pub proof fn law_earlier_replay_within_later<T: PartialEq>(log: Seq<Event<T>>, t1: u64, t2: u64)
    requires
        t1 <= t2,
    ensures
        cutoff(log, t1) <= cutoff(log, t2),
        history_until(log, t1) == history_until(log, t2).take(cutoff(log, t1)),
        history_until(history_until(log, t2), t1) == history_until(log, t1),
        fold_until(history_until(log, t2), t1) == fold_until(log, t1),
{
    let n1 = cutoff(log, t1);
    let n2 = cutoff(log, t2);
    lemma_cutoff(log, t1);
    lemma_cutoff(log, t2);
    if n2 < n1 {
        assert(log[n2].date <= t1);
    }
    let later = log.take(n2);
    assert(later.take(n1) == log.take(n1));
    assert forall|j: int| 0 <= j < n1 implies (#[trigger] later[j]).date <= t1 by {
        assert(later[j] == log[j]);
    }
    if n1 < later.len() {
        assert(later[n1] == log[n1]);
    }
    assert(stops_at(later, t1, n1));
    lemma_cutoff_is(later, t1, n1);
}

/// In a log whose dates never go back, a replay up to `at` folds every
/// event dated no later than `at`, and no other.
pub proof fn law_replay_folds_what_is_in_time<T>(log: Seq<Event<T>>, at: u64)
    requires
        dates_ascend(log),
    ensures
        forall|j: int|
            0 <= j < log.len() ==> (j < cutoff(log, at) <==> (#[trigger] log[j]).date <= at),
{
    lemma_cutoff(log, at);
    let n = cutoff(log, at);
    assert forall|j: int| 0 <= j < log.len() implies (j < n <==> (#[trigger] log[j]).date
        <= at) by {
        if n <= j {
            assert(log[n].date <= log[j].date);
        }
    }
}

/// A create of an entity that no entry equals appends it, and the
/// projection then holds it exactly once. The entity must equal itself.
pub proof fn law_create_absent<T: PartialEq>(s: Seq<T>, event: Event<T>)
    requires
        event.operation == CRUD::Create,
        forall|j: int| 0 <= j < s.len() ==> !(#[trigger] s[j]).eq_spec(&event.data),
        event.data.eq_spec(&event.data),
    ensures
        apply(s, event) == s.push(event.data),
        verdict(s, event) == Ok::<(), ProjectionError>(()),
        occurrences(apply(s, event), event.data) == 1,
{
    lemma_position(s, event.data);
    lemma_occurrences_none(s, event.data);
    lemma_occurrences_push(s, event.data, event.data);
}

/// A create of an entity that some entry equals changes nothing.
pub proof fn law_create_present<T: PartialEq>(s: Seq<T>, event: Event<T>, i: int)
    requires
        event.operation == CRUD::Create,
        0 <= i < s.len(),
        s[i].eq_spec(&event.data),
    ensures
        apply(s, event) == s,
        verdict(s, event) == Err::<(), ProjectionError>(ProjectionError::DuplicateCreate),
{
    lemma_position(s, event.data);
}

/// An update puts the entity where it is found, at the first entry that
/// equals it: the length stays, that entry becomes the entity, every other
/// entry stays.
pub proof fn law_update_found<T: PartialEq>(s: Seq<T>, event: Event<T>, i: int)
    requires
        event.operation == CRUD::Update,
        found_at(s, event.data, i),
    ensures
        apply(s, event) == s.update(i, event.data),
        verdict(s, event) == Ok::<(), ProjectionError>(()),
        apply(s, event).len() == s.len(),
        apply(s, event)[i] == event.data,
        forall|k: int| 0 <= k < s.len() && k != i ==> #[trigger] apply(s, event)[k] == s[k],
{
    lemma_position_is(s, event.data, i);
}

/// An update of an entity that no entry equals changes nothing.
pub proof fn law_update_missing<T: PartialEq>(s: Seq<T>, event: Event<T>)
    requires
        event.operation == CRUD::Update,
        forall|j: int| 0 <= j < s.len() ==> !(#[trigger] s[j]).eq_spec(&event.data),
    ensures
        apply(s, event) == s,
        verdict(s, event) == Err::<(), ProjectionError>(ProjectionError::MissingUpdateTarget),
{
    lemma_position(s, event.data);
}

/// A delete removes the entry where the entity is found, the first that
/// equals it, and nothing else: the projection is one shorter and holds one
/// occurrence of the entity less.
pub proof fn law_delete_found<T: PartialEq>(s: Seq<T>, event: Event<T>, i: int)
    requires
        event.operation == CRUD::Delete,
        found_at(s, event.data, i),
    ensures
        apply(s, event) == s.remove(i),
        verdict(s, event) == Ok::<(), ProjectionError>(()),
        apply(s, event).len() == s.len() - 1,
        occurrences(apply(s, event), event.data) == occurrences(s, event.data) - 1,
        forall|k: int| 0 <= k < i ==> #[trigger] apply(s, event)[k] == s[k],
        forall|k: int| i <= k < s.len() - 1 ==> #[trigger] apply(s, event)[k] == s[k + 1],
{
    lemma_position_is(s, event.data, i);
    lemma_occurrences_remove(s, i, event.data);
}

/// A delete of an entity that no entry equals changes nothing.
pub proof fn law_delete_missing<T: PartialEq>(s: Seq<T>, event: Event<T>)
    requires
        event.operation == CRUD::Delete,
        forall|j: int| 0 <= j < s.len() ==> !(#[trigger] s[j]).eq_spec(&event.data),
    ensures
        apply(s, event) == s,
        verdict(s, event) == Err::<(), ProjectionError>(ProjectionError::MissingDeleteTarget),
{
    lemma_position(s, event.data);
}

/// Folding an event into a projection whose entries are all apart leaves
/// them all apart, where equality is symmetric and transitive.
pub proof fn law_apply_keeps_apart<T: PartialEq>(s: Seq<T>, event: Event<T>)
    requires
        equality_is_consistent::<T>(),
        all_apart(s),
    ensures
        all_apart(apply(s, event)),
{
    lemma_position(s, event.data);
    let after = apply(s, event);
    match (event.operation, position(s, event.data)) {
        (CRUD::Create, None) => {
            assert forall|i: int, j: int|
                #![trigger after[i], after[j]]
                0 <= i < after.len() && 0 <= j < after.len() && i != j implies !after[i].eq_spec(
                &after[j],
            ) by {
                if i < s.len() && j < s.len() {
                    assert(after[i] == s[i] && after[j] == s[j]);
                } else if i < s.len() {
                    assert(after[i] == s[i]);
                } else {
                    assert(after[j] == s[j]);
                    if after[i].eq_spec(&after[j]) {
                        assert(s[j].eq_spec(&event.data));
                    }
                }
            }
        },
        (CRUD::Update, Some(p)) => {
            assert forall|i: int, j: int|
                #![trigger after[i], after[j]]
                0 <= i < after.len() && 0 <= j < after.len() && i != j implies !after[i].eq_spec(
                &after[j],
            ) by {
                if i != p && j != p {
                    assert(after[i] == s[i] && after[j] == s[j]);
                } else if i == p {
                    assert(after[j] == s[j]);
                    if after[i].eq_spec(&after[j]) {
                        assert(s[p].eq_spec(&event.data));
                        assert(event.data.eq_spec(&s[j]));
                        assert(s[p].eq_spec(&s[j]));
                    }
                } else {
                    assert(after[i] == s[i]);
                    if after[i].eq_spec(&after[j]) {
                        assert(s[i].eq_spec(&event.data));
                        assert(s[p].eq_spec(&event.data));
                        assert(event.data.eq_spec(&s[p]));
                        assert(s[i].eq_spec(&s[p]));
                    }
                }
            }
        },
        (CRUD::Delete, Some(p)) => {
            assert forall|i: int, j: int|
                #![trigger after[i], after[j]]
                0 <= i < after.len() && 0 <= j < after.len() && i != j implies !after[i].eq_spec(
                &after[j],
            ) by {
                let i0 = if i < p { i } else { i + 1 };
                let j0 = if j < p { j } else { j + 1 };
                assert(after[i] == s[i0] && after[j] == s[j0]);
            }
        },
        _ => {},
    }
}

/// The projection of a log never holds two entries that equal each other,
/// where equality is symmetric and transitive.
pub proof fn law_fold_keeps_apart<T: PartialEq>(log: Seq<Event<T>>)
    requires
        equality_is_consistent::<T>(),
    ensures
        all_apart(fold(log)),
    decreases log.len(),
{
    if log.len() > 0 {
        law_fold_keeps_apart(log.drop_last());
        law_apply_keeps_apart(fold(log.drop_last()), log.last());
    }
}

/// Where no two entries equal each other and equality is symmetric and
/// transitive, an entity occurs at most once.
pub proof fn law_apart_occurs_at_most_once<T: PartialEq>(s: Seq<T>, wanted: T)
    requires
        equality_is_consistent::<T>(),
        all_apart(s),
    ensures
        occurrences(s, wanted) <= 1,
    decreases s.len(),
{
    if s.len() > 0 {
        let front = s.drop_last();
        let last = s.len() - 1;
        assert forall|i: int, j: int|
            #![trigger front[i], front[j]]
            0 <= i < front.len() && 0 <= j < front.len() && i != j implies !front[i].eq_spec(
            &front[j],
        ) by {
            assert(front[i] == s[i] && front[j] == s[j]);
        }
        law_apart_occurs_at_most_once(front, wanted);
        if s.last().eq_spec(&wanted) {
            assert forall|j: int| 0 <= j < front.len() implies !(#[trigger] front[j]).eq_spec(
                &wanted,
            ) by {
                assert(front[j] == s[j]);
                if s[j].eq_spec(&wanted) {
                    assert(wanted.eq_spec(&s[last]));
                    assert(s[j].eq_spec(&s[last]));
                }
            }
            lemma_occurrences_none(front, wanted);
        }
    }
}

/// After a delete that found its entity, no entry of the projection equals
/// that entity any more, where the entries were all apart and equality is
/// symmetric and transitive.
pub proof fn law_delete_leaves_none<T: PartialEq>(s: Seq<T>, event: Event<T>, i: int)
    requires
        equality_is_consistent::<T>(),
        all_apart(s),
        event.operation == CRUD::Delete,
        found_at(s, event.data, i),
    ensures
        occurrences(apply(s, event), event.data) == 0,
        position(apply(s, event), event.data) is None,
{
    law_delete_found(s, event, i);
    law_apart_occurs_at_most_once(s, event.data);
    lemma_occurrences_none(apply(s, event), event.data);
    lemma_position(apply(s, event), event.data);
}

} // verus!
