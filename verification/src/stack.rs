//! The chain of open entries, moved on one line at a time.
//!
//! This is the analysis for a caller that reads the log itself: it hands over
//! each line as it comes, says when the log has ended, and takes the pairs out
//! in between. Only the open entries and the pairs not yet taken are held.

use std::collections::VecDeque;
use vstd::prelude::*;
use crate::closing::lemma_chain_step;
use crate::line::{parse_line, LogEntry, RsyncLogLine};
use crate::model::{closed_at_end, closed_by, drained, is_chain, still_open};
use crate::timestamp::in_timestamp_range;

verus! {

/// The open entries of a log that is being read, and the pairs of the entries
/// that were closed and have not been taken out yet.
#[derive(Debug)]
pub struct AncestorStack {
    /// The open entries, outermost first.
    stack: Vec<RsyncLogLine>,
    /// Pairs that are ready to be taken out, the next one in front.
    buffer: VecDeque<(RsyncLogLine, i64)>,
}

impl AncestorStack {
    /// The timestamps of the open entries are such that their differences
    /// fit the machine.
    spec fn times_in_range(self) -> bool {
        forall|i: int|
            0 <= i < self.stack@.len() ==> in_timestamp_range(
                (#[trigger] self.stack@[i]).time as int,
            )
    }

    /// The open entries, outermost first.
    pub closed spec fn open_entries(self) -> Seq<LogEntry> {
        self.stack@.map_values(|line: RsyncLogLine| line@)
    }

    /// The pairs that are ready to be taken out, the next one first.
    pub closed spec fn ready(self) -> Seq<(LogEntry, int)> {
        self.buffer@.map_values(|pair: (RsyncLogLine, i64)| (pair.0@, pair.1 as int))
    }

    /// What every stack that `new` made keeps to: the open entries form a
    /// chain, each the root of those above it, and their timestamps are ones
    /// that calendar date-times have.
    pub closed spec fn well_formed(self) -> bool {
        self.times_in_range() && is_chain(self.open_entries())
    }

    /// The open entries of a well-formed stack form a chain.
    pub proof fn lemma_open_entries_chain(self)
        requires
            self.well_formed(),
        ensures
            is_chain(self.open_entries()),
    {
    }

    /// Makes a stack for a log of which nothing has been read.
    pub fn new() -> (r: Self)
        ensures
            r.well_formed(),
            r.open_entries() == Seq::<LogEntry>::empty(),
            r.ready() == Seq::<(LogEntry, int)>::empty(),
    {
        let r = AncestorStack {
            // the stack grows with the depth of the paths,
            stack: Vec::with_capacity(100),
            // and one arrival closes no more than the stack holds.
            buffer: VecDeque::with_capacity(100),
        };
        assert(r.open_entries() =~= Seq::empty());
        assert(r.ready() =~= Seq::empty());
        r
    }

    /// The number of open entries.
    pub fn depth(&self) -> (r: usize)
        ensures
            r == self.open_entries().len(),
    {
        self.stack.len()
    }

    /// The number of pairs that are ready to be taken out.
    pub fn ready_len(&self) -> (r: usize)
        ensures
            r == self.ready().len(),
    {
        self.buffer.len()
    }

    /// Takes in the next entry of the log: closes every open entry that
    /// `this` does not lie under, innermost first, and opens `this`.
    pub fn open(&mut self, this: RsyncLogLine)
        requires
            old(self).well_formed(),
            in_timestamp_range(this.time as int),
        ensures
            final(self).well_formed(),
            final(self).ready() == old(self).ready() + closed_by(old(self).open_entries(), this@),
            final(self).open_entries() == still_open(old(self).open_entries(), this@).push(this@),
    {
        while self.stack.len() > 0 && !self.stack[self.stack.len() - 1].is_root_of(&this)
            invariant
                in_timestamp_range(this.time as int),
                self.times_in_range(),
                self.ready() + closed_by(self.open_entries(), this@) == old(self).ready()
                    + closed_by(old(self).open_entries(), this@),
                still_open(self.open_entries(), this@) == still_open(
                    old(self).open_entries(),
                    this@,
                ),
            decreases self.stack@.len(),
        {
            let ghost open = self.open_entries();
            let ghost ready = self.ready();
            let last = self.stack.pop().unwrap();
            let duration = this.time - last.time;
            self.buffer.push_back((last, duration));
            proof {
                assert(self.open_entries() =~= open.drop_last());
                assert(self.ready() =~= ready.push((last@, duration as int)));
                assert(self.ready() + closed_by(self.open_entries(), this@) =~= ready + closed_by(
                    open,
                    this@,
                ));
            }
        }
        let ghost open = self.open_entries();
        self.stack.push(this);
        proof {
            assert(self.open_entries() =~= open.push(this@));
            assert(self.ready() =~= old(self).ready() + closed_by(old(self).open_entries(), this@));
            lemma_chain_step(old(self).open_entries(), this@);
        }
    }

    /// Takes in the next line of the log. A line that is an entry is opened;
    /// any other line is passed over and changes nothing.
    pub fn read_line(&mut self, line: &[u8])
        requires
            old(self).well_formed(),
        ensures
            final(self).well_formed(),
            match parse_line(line@) {
                Some(this) => {
                    &&& final(self).ready() == old(self).ready() + closed_by(
                        old(self).open_entries(),
                        this,
                    )
                    &&& final(self).open_entries() == still_open(
                        old(self).open_entries(),
                        this,
                    ).push(this)
                },
                None => {
                    &&& final(self).ready() == old(self).ready()
                    &&& final(self).open_entries() == old(self).open_entries()
                },
            },
    {
        match RsyncLogLine::new(line) {
            Some(this) => self.open(this),
            None => {},
        }
    }

    /// Takes in the end of the log: closes every open entry, innermost first,
    /// at the time of the last entry that was read.
    pub fn close_all(&mut self)
        requires
            old(self).well_formed(),
        ensures
            final(self).well_formed(),
            final(self).ready() == old(self).ready() + closed_at_end(old(self).open_entries()),
            final(self).open_entries() == Seq::<LogEntry>::empty(),
    {
        if self.stack.len() == 0 {
            assert(self.open_entries() =~= Seq::empty());
            assert(self.ready() =~= old(self).ready() + closed_at_end(old(self).open_entries()));
            return ;
        }
        let time = self.stack[self.stack.len() - 1].time;
        assert(time as int == old(self).open_entries().last().time);
        while self.stack.len() > 0
            invariant
                in_timestamp_range(time as int),
                self.times_in_range(),
                self.ready() + drained(self.open_entries(), time as int) == old(self).ready()
                    + drained(old(self).open_entries(), time as int),
            decreases self.stack@.len(),
        {
            let ghost open = self.open_entries();
            let ghost ready = self.ready();
            let last = self.stack.pop().unwrap();
            let duration = time - last.time;
            self.buffer.push_back((last, duration));
            proof {
                assert(self.open_entries() =~= open.drop_last());
                assert(self.ready() =~= ready.push((last@, duration as int)));
                assert(self.ready() + drained(self.open_entries(), time as int) =~= ready
                    + drained(open, time as int));
            }
        }
        proof {
            assert(self.open_entries() =~= Seq::empty());
            assert(self.ready() =~= old(self).ready() + closed_at_end(old(self).open_entries()));
        }
    }

    /// Takes out the next pair that is ready: an entry that was closed, and
    /// its duration in seconds.
    pub fn pop(&mut self) -> (r: Option<(RsyncLogLine, i64)>)
        requires
            old(self).well_formed(),
        ensures
            final(self).well_formed(),
            final(self).open_entries() == old(self).open_entries(),
            match r {
                Some(pair) => {
                    &&& old(self).ready().len() > 0
                    &&& (pair.0@, pair.1 as int) == old(self).ready().first()
                    &&& final(self).ready() == old(self).ready().drop_first()
                },
                None => {
                    &&& old(self).ready().len() == 0
                    &&& final(self).ready().len() == 0
                },
            },
    {
        let r = self.buffer.pop_front();
        proof {
            if r is Some {
                assert(self.ready() =~= old(self).ready().drop_first());
            }
        }
        r
    }
}

} // verus!
