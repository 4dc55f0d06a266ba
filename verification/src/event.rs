//! What the caller reports to the engine, and what the engine answers.

use vstd::prelude::*;

verus! {

/// The one outside operation that is outstanding.
#[derive(Clone, Copy, Debug, PartialEq, Eq)]
pub enum Awaiting {
    /// The next item of the source.
    Item,
    /// The key of the item that was pulled last.
    Key,
}

/// What polling the outstanding operation gave.
#[derive(Debug, PartialEq, Eq)]
pub enum Event<K, T> {
    /// The operation is not ready yet.
    NotReady,
    /// The source yielded an item, and its key computation was started.
    Item(T),
    /// The source has ended.
    End,
    /// The key computation resolved.
    Key(K),
}

/// What a pull does after one event.
#[derive(Debug, PartialEq, Eq)]
pub enum Step<K, T> {
    /// Nothing to hand out yet: poll the operation that is outstanding now.
    Continue,
    /// Suspend: the outstanding operation is not ready.
    Pending,
    /// Hand out a finished group: its key, and its items in the order they were pulled.
    Group(K, Vec<T>),
    /// Hand out the end of the output.
    End,
}

/// A [`Step`] as a mathematical value.
pub enum Outcome<K, T> {
    /// Nothing to hand out yet.
    Continue,
    /// Suspend.
    Pending,
    /// Hand out a finished group.
    Group(K, Seq<T>),
    /// Hand out the end of the output.
    End,
}

impl<K, T> View for Step<K, T> {
    type V = Outcome<K, T>;

    open spec fn view(&self) -> Outcome<K, T> {
        match *self {
            Step::Continue => Outcome::Continue,
            Step::Pending => Outcome::Pending,
            Step::Group(key, items) => Outcome::Group(key, items@),
            Step::End => Outcome::End,
        }
    }
}

} // verus!
