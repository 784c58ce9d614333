//! Replayable trace of a distinct-permutation enumeration.
//!
//! The engine enumerates the distinct permutations of a multiset of
//! characters by backtracking and records every transition it makes as a
//! [`step::Step`] in an append-only [`trace::Trace`].  A [`player::Player`]
//! then scrubs through the finished trace: forward, backward, and through
//! the completed permutations alone.  [`loader`] reads the pool from the
//! line-oriented input text and [`digits`] renders numbers for display.
//!
//! The data kept by the accompanying chat demo lives here too: its message
//! values and per-recipient queues in [`message`], the server's routing
//! store in [`server`], and the client's recency-ordered recipient list in
//! [`lazy_list`].

pub mod command;
pub mod digits;
pub mod engine;
pub mod lazy_list;
pub mod loader;
pub mod message;
pub mod player;
pub mod server;
pub mod step;
pub mod trace;

use vstd::prelude::*;

verus! {

/// The failure conditions of the library.
#[derive(Clone, Copy, Debug, PartialEq, Eq, Structural)]
pub enum CoreError {
    /// The input text is malformed: its first line is not a decimal number
    /// that fits in `usize`.
    InputFormatError,
    /// A trace was read outside `[0, len)`.
    IndexOutOfRange,
}

} // verus!
