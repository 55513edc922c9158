//! The analysis, as a walk over the entries of a log with a stack.
//!
//! The log is a preorder walk, so at every moment the entries that are still
//! open form one chain from the root of the tree down to the line just read.
//! That chain is the stack. A new line closes every entry on the stack that
//! it does not lie under, innermost first, and is then opened itself; the end
//! of the log closes what is left. An entry's duration is the time from its
//! own line to the line that closed it.

use vstd::prelude::*;
use crate::line::LogEntry;

verus! {

/// Each entry of `stack` is a root of those above it.
pub open spec fn is_chain(stack: Seq<LogEntry>) -> bool {
    forall|a: int, b: int| 0 <= a <= b < stack.len() ==> stack[a].is_root_of(stack[b])
}

/// The pairs that the arrival of `this` yields: each entry on top of `stack`
/// that is no root of `this`, from the top down, with the time from its own
/// line to that of `this`.
pub open spec fn closed_by(stack: Seq<LogEntry>, this: LogEntry) -> Seq<(LogEntry, int)>
    decreases stack.len(),
{
    if stack.len() == 0 || stack.last().is_root_of(this) {
        Seq::empty()
    } else {
        seq![(stack.last(), this.time - stack.last().time)] + closed_by(stack.drop_last(), this)
    }
}

/// What the arrival of `this` leaves on `stack`: everything up to the topmost
/// root of `this`.
pub open spec fn still_open(stack: Seq<LogEntry>, this: LogEntry) -> Seq<LogEntry>
    decreases stack.len(),
{
    if stack.len() == 0 || stack.last().is_root_of(this) {
        stack
    } else {
        still_open(stack.drop_last(), this)
    }
}

/// The pairs that closing all of `stack` at `time` yields, from the top down.
pub open spec fn drained(stack: Seq<LogEntry>, time: int) -> Seq<(LogEntry, int)>
    decreases stack.len(),
{
    if stack.len() == 0 {
        Seq::empty()
    } else {
        seq![(stack.last(), time - stack.last().time)] + drained(stack.drop_last(), time)
    }
}

/// The pairs that the end of the log yields: all of `stack` is closed at the
/// time of its top, which is the last entry that was read.
pub open spec fn closed_at_end(stack: Seq<LogEntry>) -> Seq<(LogEntry, int)> {
    if stack.len() == 0 {
        Seq::empty()
    } else {
        drained(stack, stack.last().time)
    }
}

/// All pairs that are yielded from the moment when `stack` holds the open
/// entries and `input` is still to be read.
///
/// Each entry of `input` closes what it does not lie under and is pushed, and
/// the end of the input closes what is left.
pub open spec fn emitted(stack: Seq<LogEntry>, input: Seq<LogEntry>) -> Seq<(LogEntry, int)>
    decreases input.len(),
{
    if input.len() == 0 {
        closed_at_end(stack)
    } else {
        let this = input.first();
        closed_by(stack, this) + emitted(still_open(stack, this).push(this), input.drop_first())
    }
}

/// The entries of `input`, each with its duration, in the order in which they
/// are closed.
pub open spec fn durations(input: Seq<LogEntry>) -> Seq<(LogEntry, int)> {
    emitted(Seq::empty(), input)
}

} // verus!
