//! The engine as a mathematical state machine.

use crate::event::{Event, Outcome};
use vstd::prelude::*;
use vstd::std_specs::cmp::PartialEqSpec;

verus! {

/// `n`, or the largest `usize` where `n` is beyond it.
pub open spec fn capped(n: int) -> usize {
    if n > usize::MAX {
        usize::MAX
    } else {
        n as usize
    }
}

/// The group that `outcome` hands out, as a sequence of one group or none.
pub open spec fn emitted<K, T>(outcome: Outcome<K, T>) -> Seq<(K, Seq<T>)> {
    match outcome {
        Outcome::Group(key, items) => seq![(key, items)],
        _ => Seq::empty(),
    }
}

/// The state of the engine: the open group, and the item whose key is being computed.
pub struct State<K, T> {
    /// The key of the first item of the open group, and the items gathered so far.
    pub open: Option<(K, Seq<T>)>,
    /// The item that was pulled and awaits its key.
    pub pending: Option<T>,
}

impl<K, T> State<K, T> {
    /// The state of a new engine: no group is open and no key is awaited.
    pub open spec fn initial() -> Self {
        State { open: None, pending: None }
    }

    /// An open group holds at least one item.
    pub open spec fn wf(self) -> bool {
        self.open matches Some(group) ==> group.1.len() > 0
    }

    /// The events that can come in this state: a key only while one is awaited,
    /// an item or the end of the source only while none is.
    pub open spec fn accepts(self, event: Event<K, T>) -> bool {
        match event {
            Event::NotReady => true,
            Event::Key(_) => self.pending is Some,
            Event::Item(_) | Event::End => self.pending is None,
        }
    }

    /// The number of outputs that the open group stands for: one if a group is open.
    pub open spec fn owed(self) -> nat {
        if self.open is Some {
            1
        } else {
            0
        }
    }

    /// The key of the open group.
    pub open spec fn open_key(self) -> Option<K> {
        match self.open {
            Some(group) => Some(group.0),
            None => None,
        }
    }

    /// The bounds on the number of outputs that remain, from the bounds `source`
    /// on the number of items that the source still yields: each bound grows by
    /// the output that an open group stands for, and stops at the largest `usize`.
    pub open spec fn estimate(self, source: (usize, Option<usize>)) -> (usize, Option<usize>) {
        (
            capped(source.0 + self.owed()),
            match source.1 {
                Some(upper) => Some(capped(upper + self.owed())),
                None => None,
            },
        )
    }

    /// The state after `event`, and what the pull does, where `same` is the
    /// outcome of comparing the open group's key with the key that resolved.
    pub open spec fn step_with(self, event: Event<K, T>, same: bool) -> (Self, Outcome<K, T>) {
        match event {
            Event::NotReady => (self, Outcome::Pending),
            Event::Item(item) => (State { open: self.open, pending: Some(item) }, Outcome::Continue),
            Event::End => (
                State { open: None, pending: self.pending },
                match self.open {
                    Some(group) => Outcome::Group(group.0, group.1),
                    None => Outcome::End,
                },
            ),
            Event::Key(key) => {
                let item = self.pending->0;
                let fresh = State { open: Some((key, seq![item])), pending: None };
                match self.open {
                    None => (fresh, Outcome::Continue),
                    Some(group) => if same {
                        (
                            State { open: Some((group.0, group.1.push(item))), pending: None },
                            Outcome::Continue,
                        )
                    } else {
                        (fresh, Outcome::Group(group.0, group.1))
                    },
                }
            },
        }
    }
}

impl<K: PartialEq, T> State<K, T> {
    /// Whether an item with key `key` belongs to the open group.
    pub open spec fn joins(self, key: K) -> bool {
        self.open matches Some(group) && group.0.eq_spec(&key)
    }

    /// The state after `event`, and what the pull does.
    pub open spec fn step(self, event: Event<K, T>) -> (Self, Outcome<K, T>) {
        match event {
            Event::Key(key) => self.step_with(event, self.joins(key)),
            _ => self.step_with(event, true),
        }
    }

    /// The state after the source yielded `item` and its key resolved to `key`,
    /// and what the pull does then.
    pub open spec fn absorb(self, key: K, item: T) -> (Self, Outcome<K, T>) {
        self.step(Event::Item(item)).0.step(Event::Key(key))
    }

    /// The state after the source yielded `items`, whose keys resolved to `keys`,
    /// and the groups handed out on the way.
    pub open spec fn feed(self, keys: Seq<K>, items: Seq<T>) -> (Self, Seq<(K, Seq<T>)>)
        recommends
            keys.len() == items.len(),
        decreases keys.len(),
    {
        if keys.len() == 0 {
            (self, Seq::empty())
        } else {
            let (mid, out) = self.feed(keys.drop_last(), items.drop_last());
            let (next, outcome) = mid.absorb(keys.last(), items.last());
            (next, out + emitted(outcome))
        }
    }

    /// The groups handed out while the source yields `items`, whose keys resolve
    /// to `keys`, and then ends.
    pub open spec fn drain(self, keys: Seq<K>, items: Seq<T>) -> Seq<(K, Seq<T>)>
        recommends
            keys.len() == items.len(),
    {
        let (last, out) = self.feed(keys, items);
        out + emitted(last.step(Event::End).1)
    }

    /// The state after `pulls` pulls that each met the end of the source.
    pub open spec fn after_ends(self, pulls: nat) -> Self
        decreases pulls,
    {
        if pulls == 0 {
            self
        } else {
            self.after_ends((pulls - 1) as nat).step(Event::End).0
        }
    }

    /// The groups that are still to come out of an engine in this state, where
    /// the source goes on to yield `items` and then ends. `keys` holds the keys
    /// to come: first that of the item in flight, if there is one, then those of
    /// `items`.
    pub open spec fn remaining(self, keys: Seq<K>, items: Seq<T>) -> Seq<(K, Seq<T>)>
        recommends
            keys.len() == items.len() + (if self.pending is Some { 1nat } else { 0nat }),
    {
        if self.pending is Some {
            let (next, outcome) = self.step(Event::Key(keys.first()));
            emitted(outcome) + next.drain(keys.drop_first(), items)
        } else {
            self.drain(keys, items)
        }
    }
}

} // verus!
