//! The executable engine.

use crate::event::{Awaiting, Event, Step};
use crate::model::State;
use vstd::prelude::*;
use vstd::std_specs::cmp::PartialEqSpec;

verus! {

/// Groups consecutive items whose keys are equal.
///
/// The engine buffers the open group and the item whose key is being computed.
pub struct GroupBy<K, T> {
    open: Option<(K, Vec<T>)>,
    pending: Option<T>,
}

impl<K, T> View for GroupBy<K, T> {
    type V = State<K, T>;

    closed spec fn view(&self) -> State<K, T> {
        State {
            open: match self.open {
                Some(group) => Some((group.0, group.1@)),
                None => None,
            },
            pending: self.pending,
        }
    }
}

impl<K, T> GroupBy<K, T> {
    #[verifier::type_invariant]
    spec fn inv(self) -> bool {
        self@.wf()
    }
}

impl<K: PartialEq, T> GroupBy<K, T> {
    /// An engine with no open group and no key awaited.
    pub fn new() -> (engine: Self)
        ensures
            engine@ == State::<K, T>::initial(),
    {
        GroupBy { open: None, pending: None }
    }

    /// The outside operation to poll next.
    pub fn awaiting(&self) -> (a: Awaiting)
        ensures
            a == (if self@.pending is Some {
                Awaiting::Key
            } else {
                Awaiting::Item
            }),
    {
        if self.pending.is_some() {
            Awaiting::Key
        } else {
            Awaiting::Item
        }
    }

    /// Takes what polling the outstanding operation gave, and says what the pull does.
    pub fn poll_next(&mut self, event: Event<K, T>) -> (step: Step<K, T>)
        requires
            old(self)@.accepts(event),
        ensures
            final(self)@.wf(),
            (final(self)@, step@) == old(self)@.step_with(event, true) || (final(self)@, step@)
                == old(self)@.step_with(event, false),
            K::obeys_eq_spec() ==> (final(self)@, step@) == old(self)@.step(event),
    {
        proof {
            use_type_invariant(&*self);
        }
        match event {
            Event::NotReady => Step::Pending,
            Event::Item(item) => {
                self.pending = Some(item);
                Step::Continue
            },
            Event::End => match self.take_open() {
                Some((key, items)) => Step::Group(key, items),
                None => Step::End,
            },
            Event::Key(key) => {
                let mut pending = None;
                core::mem::swap(&mut self.pending, &mut pending);
                let item = pending.unwrap();
                let ghost first = seq![item];
                match self.take_open() {
                    None => {
                        let items = vec![item];
                        assert(items@ =~= first);
                        self.open = Some((key, items));
                        Step::Continue
                    },
                    Some((head, mut items)) => {
                        if head == key {
                            items.push(item);
                            self.open = Some((head, items));
                            Step::Continue
                        } else {
                            let fresh = vec![item];
                            assert(fresh@ =~= first);
                            self.open = Some((key, fresh));
                            Step::Group(head, items)
                        }
                    },
                }
            },
        }
    }

    /// Bounds on the number of outputs that remain, from the bounds `source` that
    /// the source gives on the number of items that it still yields.
    pub fn size_hint(&self, source: (usize, Option<usize>)) -> (hint: (usize, Option<usize>))
        ensures
            hint == self@.estimate(source),
    {
        let owed: usize = if self.open.is_some() {
            1
        } else {
            0
        };
        let lower = source.0.saturating_add(owed);
        let upper = match source.1 {
            Some(upper) => Some(upper.saturating_add(owed)),
            None => None,
        };
        (lower, upper)
    }

    /// Takes the open group out of the buffer.
    fn take_open(&mut self) -> (group: Option<(K, Vec<T>)>)
        ensures
            group == old(self).open,
            final(self).open is None,
            final(self).pending == old(self).pending,
    {
        let mut open = None;
        core::mem::swap(&mut self.open, &mut open);
        open
    }
}

} // verus!
