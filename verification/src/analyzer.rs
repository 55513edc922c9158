//! The iterator that yields each entry of a log with its duration.

use vstd::prelude::*;
use crate::closing::{
    entries_of, held, lemma_cascade_keeps, lemma_drained_keeps, lemma_front_to_multiset,
    lemma_none_to_multiset,
};
use crate::line::{parse_line, LogEntry, RsyncLogLine};
use crate::logfile::{
    first_line_len, lemma_log_entries_step, lemma_next_entry, log_entries, next_entry,
    RsyncLogFile,
};
use crate::model::{closed_at_end, closed_by, durations, emitted, still_open};
use crate::stack::AncestorStack;

verus! {

/// What reading on makes of the open entries and the unread bytes, when no
/// pair is ready: the entries that are open then, the pairs that are ready
/// then, and the bytes that are still unread.
///
/// Lines are read one by one. A line that is no entry is passed over. An entry
/// that lies under the top of the stack is pushed, and reading goes on. The
/// first entry that closes anything ends the reading: the pairs of what it
/// closes are ready, it is pushed, and the reader stands behind its line.
/// Where the log ends first, all that is open is closed, and nothing stays
/// open or unread.
pub open spec fn refilled(open: Seq<LogEntry>, unread: Seq<u8>) -> (
    Seq<LogEntry>,
    Seq<(LogEntry, int)>,
    Seq<u8>,
)
    decreases unread.len(),
{
    if unread.len() == 0 {
        (Seq::empty(), closed_at_end(open), Seq::empty())
    } else {
        let n = first_line_len(unread);
        match parse_line(unread.take(n)) {
            None => refilled(open, unread.skip(n)),
            Some(this) => {
                if closed_by(open, this).len() > 0 {
                    (still_open(open, this).push(this), closed_by(open, this), unread.skip(n))
                } else {
                    refilled(still_open(open, this).push(this), unread.skip(n))
                }
            },
        }
    }
}

/// Reading on, told by the next entry of the log: without one, all that is
/// open is closed; an entry that closes anything ends the reading; any other
/// entry is pushed, and reading goes on behind it.
pub proof fn lemma_refilled(open: Seq<LogEntry>, unread: Seq<u8>)
    ensures
        match next_entry(unread) {
            None => refilled(open, unread) == (
                Seq::<LogEntry>::empty(),
                closed_at_end(open),
                Seq::<u8>::empty(),
            ),
            Some((this, rest)) => refilled(open, unread) == if closed_by(open, this).len() > 0 {
                (still_open(open, this).push(this), closed_by(open, this), rest)
            } else {
                refilled(still_open(open, this).push(this), rest)
            },
        },
    decreases unread.len(),
{
    if unread.len() > 0 {
        let n = first_line_len(unread);
        if parse_line(unread.take(n)) is None {
            lemma_refilled(open, unread.skip(n));
        }
    }
}

/// The entries that were read between a moment when `before` was still to
/// come and a later one when `after` is.
pub open spec fn entries_read(before: Seq<LogEntry>, after: Seq<LogEntry>) -> Seq<LogEntry> {
    before.take(before.len() - after.len())
}

/// Reading on loses no entry and makes none: the entries that are open or
/// ready afterwards are those that were open before and those that were read,
/// each once.
pub proof fn lemma_refilled_keeps(open: Seq<LogEntry>, unread: Seq<u8>)
    ensures
        ({
            let (kept, ready, rest) = refilled(open, unread);
            let read = entries_read(log_entries(unread), log_entries(rest));
            &&& log_entries(unread) == read + log_entries(rest)
            &&& held(kept, ready) == open.to_multiset().add(read.to_multiset())
        }),
    decreases unread.len(),
{
    let (kept, ready, rest) = refilled(open, unread);
    let all = log_entries(unread);
    let read = entries_read(all, log_entries(rest));
    let none = Seq::<LogEntry>::empty();
    lemma_none_to_multiset(none);
    if unread.len() == 0 {
        lemma_next_entry(unread);
        assert(read =~= none);
        assert(all =~= read + log_entries(rest));
        lemma_none_to_multiset(kept);
        if open.len() == 0 {
            lemma_none_to_multiset(open);
            assert(entries_of(ready) =~= none);
        } else {
            lemma_drained_keeps(open, open.last().time);
        }
        assert(held(kept, ready) =~= open.to_multiset().add(read.to_multiset()));
    } else {
        let n = first_line_len(unread);
        lemma_log_entries_step(unread);
        match parse_line(unread.take(n)) {
            None => {
                lemma_refilled_keeps(open, unread.skip(n));
            },
            Some(this) => {
                let pushed = still_open(open, this).push(this);
                lemma_cascade_keeps(open, this);
                if closed_by(open, this).len() > 0 {
                    assert(read =~= seq![this]);
                    assert(all =~= read + log_entries(rest));
                    lemma_front_to_multiset(this, none);
                    assert(seq![this] + none =~= seq![this]);
                    assert(held(kept, ready) =~= open.to_multiset().add(read.to_multiset()));
                } else {
                    lemma_refilled_keeps(pushed, unread.skip(n));
                    let later = entries_read(log_entries(unread.skip(n)), log_entries(rest));
                    assert(read =~= seq![this] + later);
                    assert(all =~= read + log_entries(rest));
                    lemma_front_to_multiset(this, later);
                    lemma_none_to_multiset(entries_of(closed_by(open, this)));
                    assert(pushed.to_multiset() =~= open.to_multiset().insert(this));
                    assert(held(kept, ready) =~= open.to_multiset().add(read.to_multiset()));
                }
            },
        }
    }
}

/// An iterator over pairs of an entry and its duration in seconds.
///
/// The pairs come in the order in which the entries are closed, which is not
/// the order of the log: what lies under a directory comes before it.
#[derive(Debug)]
pub struct RsyncLogAnalyzer {
    file: RsyncLogFile,
    state: AncestorStack,
}

impl RsyncLogAnalyzer {
    /// What every analyzer that `new` made keeps to: the open entries form a
    /// chain, each the root of those above it, and their timestamps are ones
    /// that calendar date-times have.
    pub closed spec fn well_formed(self) -> bool {
        self.state.well_formed()
    }

    /// The open entries, outermost first.
    pub closed spec fn open_entries(self) -> Seq<LogEntry> {
        self.state.open_entries()
    }

    /// The pairs that have been made and not yet yielded, the next one first.
    pub closed spec fn ready(self) -> Seq<(LogEntry, int)> {
        self.state.ready()
    }

    /// The bytes of the log that have not been read yet.
    pub closed spec fn unread(self) -> Seq<u8> {
        self.file.unread()
    }

    /// The entries of the log that have not been read yet.
    pub open spec fn remaining(self) -> Seq<LogEntry> {
        log_entries(self.unread())
    }

    /// Every pair that the iterator has yet to yield, in order: those that
    /// are ready, then those that the open entries and the rest of the log
    /// will give.
    pub open spec fn pending(self) -> Seq<(LogEntry, int)> {
        self.ready() + emitted(self.open_entries(), self.remaining())
    }

    /// Makes an iterator over the entries of `log` and their durations.
    /// Nothing of the log has been read: no entry is open and no pair ready.
    pub fn new(log: Vec<u8>) -> (r: Self)
        ensures
            r.well_formed(),
            r.open_entries() == Seq::<LogEntry>::empty(),
            r.ready() == Seq::<(LogEntry, int)>::empty(),
            r.unread() == log@,
            r.pending() == durations(log_entries(log@)),
    {
        RsyncLogAnalyzer { file: RsyncLogFile::new(log), state: AncestorStack::new() }
    }

    /// Reads on until a pair is ready or the log is exhausted. With a pair
    /// ready nothing is read.
    #[verifier::loop_isolation(false)]
    fn refill(&mut self)
        requires
            old(self).well_formed(),
        ensures
            final(self).well_formed(),
            final(self).pending() == old(self).pending(),
            // with a pair ready, nothing changes.
            old(self).ready().len() > 0 ==> {
                &&& final(self).open_entries() == old(self).open_entries()
                &&& final(self).ready() == old(self).ready()
                &&& final(self).unread() == old(self).unread()
            },
            // without one, the log is read as far as `refilled` says.
            old(self).ready().len() == 0 ==> (
                final(self).open_entries(),
                final(self).ready(),
                final(self).unread(),
            ) == refilled(old(self).open_entries(), old(self).unread()),
            // at the end of the log all that is open is closed.
            old(self).ready().len() == 0 && old(self).remaining().len() == 0 ==> {
                &&& final(self).open_entries() == Seq::<LogEntry>::empty()
                &&& final(self).ready() == closed_at_end(old(self).open_entries())
                &&& final(self).unread() == Seq::<u8>::empty()
            },
            // an entry that does not lie under the top is the only one read.
            old(self).ready().len() == 0 && old(self).remaining().len() > 0 && closed_by(
                old(self).open_entries(),
                old(self).remaining().first(),
            ).len() > 0 ==> {
                let this = old(self).remaining().first();
                &&& next_entry(old(self).unread()) == Some((this, final(self).unread()))
                &&& final(self).remaining() == old(self).remaining().drop_first()
                &&& final(self).ready() == closed_by(old(self).open_entries(), this)
                &&& final(self).open_entries() == still_open(old(self).open_entries(), this).push(
                    this,
                )
            },
            // no entry is lost and none is made.
            old(self).ready().len() == 0 ==> {
                let read = entries_read(old(self).remaining(), final(self).remaining());
                &&& old(self).remaining() == read + final(self).remaining()
                &&& held(final(self).open_entries(), final(self).ready()) == old(
                    self,
                ).open_entries().to_multiset().add(read.to_multiset())
            },
            // no pair is ready only when nothing is left.
            final(self).ready().len() == 0 ==> {
                &&& final(self).open_entries() == Seq::<LogEntry>::empty()
                &&& final(self).unread() == Seq::<u8>::empty()
                &&& final(self).pending() == Seq::<(LogEntry, int)>::empty()
            },
    {
        let ghost goal = refilled(old(self).open_entries(), old(self).unread());
        proof {
            lemma_refilled(old(self).open_entries(), old(self).unread());
            lemma_refilled_keeps(old(self).open_entries(), old(self).unread());
            lemma_next_entry(old(self).unread());
            if old(self).remaining().len() > 0 {
                let rest = next_entry(old(self).unread()).unwrap().1;
                assert(old(self).remaining().drop_first() =~= log_entries(rest));
            }
        }
        while self.state.ready_len() == 0
            invariant
                self.well_formed(),
                self.pending() == old(self).pending(),
                old(self).ready().len() > 0 ==> {
                    &&& self.open_entries() == old(self).open_entries()
                    &&& self.ready() == old(self).ready()
                    &&& self.unread() == old(self).unread()
                },
                old(self).ready().len() == 0 ==> if self.ready().len() == 0 {
                    refilled(self.open_entries(), self.unread()) == goal
                } else {
                    (self.open_entries(), self.ready(), self.unread()) == goal
                },
            decreases
                    2 * self.remaining().len() + (if self.open_entries().len() > 0 {
                        1int
                    } else {
                        0
                    }),
        {
            let ghost open = self.open_entries();
            let ghost unread = self.unread();
            proof {
                lemma_refilled(open, unread);
                lemma_next_entry(unread);
                assert(self.ready() =~= Seq::empty());
            }
            match self.file.next() {
                Some(this) => {
                    self.state.open(this);
                    assert(self.ready() =~= closed_by(open, this@));
                },
                None => {
                    if self.state.depth() == 0 {
                        assert(self.open_entries() =~= Seq::empty());
                        assert(self.pending() =~= Seq::empty());
                        return ;
                    }
                    self.state.close_all();
                    assert(self.ready() =~= closed_at_end(open));
                },
            }
        }
    }

    /// Returns the next entry that was closed, with its duration in seconds,
    /// or `None` when every entry of the log has been returned.
    ///
    /// A pair that is ready is handed out as it stands. Without one the log
    /// is read on as `refilled` says, and the first pair that this makes is
    /// handed out.
    pub fn next(&mut self) -> (r: Option<(RsyncLogLine, i64)>)
        requires
            old(self).well_formed(),
        ensures
            final(self).well_formed(),
            match r {
                Some(pair) => {
                    &&& old(self).pending().len() > 0
                    &&& (pair.0@, pair.1 as int) == old(self).pending().first()
                    &&& final(self).pending() == old(self).pending().drop_first()
                },
                None => {
                    &&& old(self).pending().len() == 0
                    &&& final(self).pending().len() == 0
                },
            },
            ({
                let (open, ready, unread) = if old(self).ready().len() > 0 {
                    (old(self).open_entries(), old(self).ready(), old(self).unread())
                } else {
                    refilled(old(self).open_entries(), old(self).unread())
                };
                &&& final(self).open_entries() == open
                &&& final(self).unread() == unread
                &&& final(self).ready() == if ready.len() > 0 {
                    ready.drop_first()
                } else {
                    ready
                }
                &&& r is Some <==> ready.len() > 0
            }),
    {
        if self.state.ready_len() == 0 {
            self.refill();
        }
        let ghost ready = self.ready();
        let ghost rest = emitted(self.open_entries(), self.remaining());
        let r = self.state.pop();
        proof {
            if r is Some {
                assert((ready + rest).drop_first() =~= ready.drop_first() + rest);
            } else {
                assert(self.ready() =~= ready);
            }
        }
        r
    }
}

} // verus!
