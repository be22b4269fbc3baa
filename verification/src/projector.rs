//! The projector: an event log together with the projection it folds to.

use vstd::prelude::*;
use vstd::std_specs::cmp::PartialEqSpec;

use crate::error::ProjectionError;
use crate::projection::{
    apply, fold, fold_until, lawful_entity, lemma_cutoff_is, lemma_position_is, position, verdict,
};
use crate::typings::{Event, CRUD};

verus! {

/// An append-only event log and the list of entities it amounts to.
///
/// The list is a cache: it is never changed on its own, only by folding
/// the events that enter the log.
pub struct Projector<T: Clone + PartialEq> {
    event_log: Vec<Event<T>>,
    projection: Vec<T>,
}

/// The index of the first entry of `list` that equals `wanted`.
fn find<T: PartialEq>(list: &Vec<T>, wanted: &T) -> (found: Option<usize>)
    requires
        T::obeys_eq_spec(),
    ensures
        match found {
            Some(i) => position(list@, *wanted) == Some(i as int),
            None => position(list@, *wanted) is None,
        },
{
    let mut i: usize = 0;
    while i < list.len()
        invariant
            T::obeys_eq_spec(),
            i <= list.len(),
            forall|j: int| 0 <= j < i ==> !(#[trigger] list@[j]).eq_spec(wanted),
        decreases list.len() - i,
    {
        if list[i] == *wanted {
            proof {
                lemma_position_is(list@, *wanted, i as int);
            }
            return Some(i);
        }
        i += 1;
    }
    None
}

impl<T: Clone + PartialEq> Projector<T> {
    /// The events recorded so far, oldest first.
    pub closed spec fn history(&self) -> Seq<Event<T>> {
        self.event_log@
    }

    /// The entities the projector currently holds.
    pub closed spec fn projection(&self) -> Seq<T> {
        self.projection@
    }

    /// The projector is consistent: what it holds is what its log folds to.
    pub open spec fn wf(&self) -> bool {
        self.projection() == fold(self.history())
    }

    /// Takes over an existing log and folds it into the initial projection.
    pub fn new(event_log: Vec<Event<T>>) -> (projector: Projector<T>)
        requires
            lawful_entity::<T>(),
        ensures
            projector.wf(),
            projector.history() == event_log@,
            projector.projection() == fold(event_log@),
    {
        Projector { projection: Self::project_all(&event_log), event_log }
    }

    /// Folds an event into the projection and appends it to the log.
    ///
    /// The event is recorded whatever it does to the projection. The result
    /// tells whether it took effect there.
    pub fn add_event(&mut self, event: Event<T>) -> (outcome: Result<(), ProjectionError>)
        requires
            lawful_entity::<T>(),
            old(self).wf(),
        ensures
            final(self).wf(),
            final(self).history() == old(self).history().push(event),
            final(self).projection() == apply(old(self).projection(), event),
            outcome == verdict(old(self).projection(), event),
    {
        let outcome = Self::project_one(&mut self.projection, &event);
        self.event_log.push(event);
        proof {
            assert(self.history().drop_last() == old(self).history());
        }
        outcome
    }

    /// The projection as it stood at `at`: the fold of the events from the
    /// start of the log up to, not including, the first one dated after `at`.
    pub fn project_at(&self, at: u64) -> (list: Vec<T>)
        requires
            lawful_entity::<T>(),
        ensures
            list@ == fold_until(self.history(), at),
    {
        let mut list: Vec<T> = Vec::new();
        let mut i: usize = 0;
        while i < self.event_log.len() && self.event_log[i].date <= at
            invariant
                lawful_entity::<T>(),
                i <= self.event_log.len(),
                forall|j: int| 0 <= j < i ==> (#[trigger] self.event_log@[j]).date <= at,
                list@ == fold(self.event_log@.take(i as int)),
            decreases self.event_log.len() - i,
        {
            let _ = Self::project_one(&mut list, &self.event_log[i]);
            proof {
                assert(self.event_log@.take(i + 1).drop_last() == self.event_log@.take(i as int));
            }
            i += 1;
        }
        proof {
            lemma_cutoff_is(self.event_log@, at, i as int);
        }
        list
    }

    /// The current projection.
    pub fn get_projection(&self) -> (list: &Vec<T>)
        ensures
            list@ == self.projection(),
    {
        &self.projection
    }

    /// The event log, oldest event first.
    pub fn event_log(&self) -> (log: &Vec<Event<T>>)
        ensures
            log@ == self.history(),
    {
        &self.event_log
    }

    /// Folds a whole log, starting from nothing.
    pub fn project_all(event_log: &Vec<Event<T>>) -> (list: Vec<T>)
        requires
            lawful_entity::<T>(),
        ensures
            list@ == fold(event_log@),
    {
        let mut list: Vec<T> = Vec::new();
        let mut i: usize = 0;
        while i < event_log.len()
            invariant
                lawful_entity::<T>(),
                i <= event_log.len(),
                list@ == fold(event_log@.take(i as int)),
            decreases event_log.len() - i,
        {
            let _ = Self::project_one(&mut list, &event_log[i]);
            proof {
                assert(event_log@.take(i + 1).drop_last() == event_log@.take(i as int));
            }
            i += 1;
        }
        proof {
            assert(event_log@.take(i as int) == event_log@);
        }
        list
    }

    /// Folds one event into `list`.
    ///
    /// The entry the event speaks of is the first one that equals its
    /// entity. An event that finds no entry to act on, or a create that
    /// finds one, leaves `list` as it is and is reported as an error.
    pub fn project_one(list: &mut Vec<T>, event: &Event<T>) -> (outcome: Result<
        (),
        ProjectionError,
    >)
        requires
            lawful_entity::<T>(),
        ensures
            final(list)@ == apply(old(list)@, *event),
            outcome == verdict(old(list)@, *event),
    {
        let found = find(list, &event.data);
        match event.operation {
            CRUD::Create => match found {
                Some(_) => Err(ProjectionError::DuplicateCreate),
                None => {
                    let entity = event.data.clone();
                    assert(cloned::<T>(event.data, entity));
                    list.push(entity);
                    Ok(())
                },
            },
            CRUD::Update => match found {
                Some(i) => {
                    let entity = event.data.clone();
                    assert(cloned::<T>(event.data, entity));
                    list.set(i, entity);
                    Ok(())
                },
                None => Err(ProjectionError::MissingUpdateTarget),
            },
            CRUD::Delete => match found {
                Some(i) => {
                    let _ = list.remove(i);
                    Ok(())
                },
                None => Err(ProjectionError::MissingDeleteTarget),
            },
        }
    }
}

} // verus!
