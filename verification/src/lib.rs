//! Grouping of consecutive items by key, for a pull-based asynchronous source.
//!
//! The engine in [`engine`] holds the buffer of the open group and decides, event
//! by event, what a pull hands out. It performs no outside operation itself: the
//! caller polls the source or the key computation that is outstanding and reports
//! what came back. [`model`] is the mathematical state machine that the engine
//! implements, [`runs`] defines the partition of a sequence into maximal runs of
//! equal keys, and [`laws`] proves that the two agree.
//!
//! A pull asks the engine which operation is outstanding ([`GroupBy::awaiting`]),
//! polls it, and hands what came back to [`GroupBy::poll_next`] as an [`Event`].
//! It repeats that while the engine answers [`Step::Continue`], and returns
//! what any other answer says: suspend, a finished group, or the end.

pub mod engine;
pub mod event;
pub mod laws;
pub mod model;
pub mod runs;

pub use engine::GroupBy;
pub use event::{Awaiting, Event, Step};
