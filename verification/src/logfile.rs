//! The entries of a whole log, read line by line.

use vstd::prelude::*;
use vstd::slice::slice_subrange;
use crate::line::{find_byte, first_at, parse_line, position, LogEntry, RsyncLogLine, NEWLINE};

verus! {

/// The length of the first line of `bytes`: it ends behind the first line
/// terminator, or, where there is none, with the bytes.
pub open spec fn first_line_len(bytes: Seq<u8>) -> int {
    match position(bytes, NEWLINE) {
        Some(i) => i + 1,
        None => bytes.len() as int,
    }
}

/// The lines of a log, each with its terminator. Bytes behind the last
/// terminator make a line of their own.
pub open spec fn log_lines(bytes: Seq<u8>) -> Seq<Seq<u8>>
    decreases bytes.len(),
{
    if bytes.len() == 0 {
        Seq::empty()
    } else {
        let n = first_line_len(bytes);
        seq![bytes.take(n)] + log_lines(bytes.skip(n))
    }
}

/// The entries among `lines`, in their order. Lines that are no entries are
/// passed over.
pub open spec fn parsed_entries(lines: Seq<Seq<u8>>) -> Seq<LogEntry>
    decreases lines.len(),
{
    if lines.len() == 0 {
        Seq::empty()
    } else {
        match parse_line(lines.first()) {
            Some(entry) => seq![entry] + parsed_entries(lines.drop_first()),
            None => parsed_entries(lines.drop_first()),
        }
    }
}

/// The entries of a log.
pub open spec fn log_entries(bytes: Seq<u8>) -> Seq<LogEntry> {
    parsed_entries(log_lines(bytes))
}

/// The first entry of a log, and the bytes that stand behind its line. Lines
/// in front of it that are no entries are passed over.
pub open spec fn next_entry(bytes: Seq<u8>) -> Option<(LogEntry, Seq<u8>)>
    decreases bytes.len(),
{
    if bytes.len() == 0 {
        None
    } else {
        let n = first_line_len(bytes);
        match parse_line(bytes.take(n)) {
            Some(entry) => Some((entry, bytes.skip(n))),
            None => next_entry(bytes.skip(n)),
        }
    }
}

/// `bytes` consists of whole lines: it is empty or ends with a terminator.
pub open spec fn ends_lines(bytes: Seq<u8>) -> bool {
    bytes.len() == 0 || bytes.last() == NEWLINE
}

/// `line` is one line of a log, with its terminator or, at the end of the
/// log, without.
pub open spec fn is_line(line: Seq<u8>) -> bool {
    line.len() > 0 && first_line_len(line) == line.len()
}

/// The first `byte` of `s` is found at the one place that `first_at` allows.
pub proof fn lemma_position(s: Seq<u8>, byte: u8, i: int)
    requires
        first_at(s, byte, i),
    ensures
        position(s, byte) == Some(i),
{
    let found = choose|k: int| first_at(s, byte, k);
    assert(first_at(s, byte, found));
}

/// The entries of a log are the entry of its first line, if that is one, and
/// the entries of what stands behind the line.
pub proof fn lemma_log_entries_step(bytes: Seq<u8>)
    requires
        bytes.len() > 0,
    ensures
        log_entries(bytes) == match parse_line(bytes.take(first_line_len(bytes))) {
            Some(entry) => seq![entry] + log_entries(bytes.skip(first_line_len(bytes))),
            None => log_entries(bytes.skip(first_line_len(bytes))),
        },
{
    let n = first_line_len(bytes);
    let lines = log_lines(bytes);
    assert(lines.first() == bytes.take(n));
    assert(lines.drop_first() =~= log_lines(bytes.skip(n)));
}

/// The entries of a log are its first entry and the entries of what stands
/// behind it; a log without a first entry has none.
pub proof fn lemma_next_entry(bytes: Seq<u8>)
    ensures
        match next_entry(bytes) {
            Some((entry, rest)) => {
                &&& log_entries(bytes) == seq![entry] + log_entries(rest)
                &&& rest.len() < bytes.len()
            },
            None => log_entries(bytes) == Seq::<LogEntry>::empty(),
        },
    decreases bytes.len(),
{
    if bytes.len() > 0 {
        lemma_log_entries_step(bytes);
        if parse_line(bytes.take(first_line_len(bytes))) is None {
            lemma_next_entry(bytes.skip(first_line_len(bytes)));
        }
    }
}

/// The entries among `front` and `back` together are those of `front`, then
/// those of `back`.
pub proof fn lemma_parsed_entries_concat(front: Seq<Seq<u8>>, back: Seq<Seq<u8>>)
    ensures
        parsed_entries(front + back) == parsed_entries(front) + parsed_entries(back),
    decreases front.len(),
{
    if front.len() == 0 {
        assert(front + back =~= back);
        assert(parsed_entries(front) + parsed_entries(back) =~= parsed_entries(back));
    } else {
        lemma_parsed_entries_concat(front.drop_first(), back);
        assert((front + back).drop_first() =~= front.drop_first() + back);
        assert((front + back).first() == front.first());
        assert(parsed_entries(front + back) =~= parsed_entries(front) + parsed_entries(back));
    }
}

/// The lines of two logs written one behind the other are the lines of the
/// first, then those of the second, if the first ends with a whole line.
pub proof fn lemma_log_lines_concat(front: Seq<u8>, back: Seq<u8>)
    requires
        ends_lines(front),
    ensures
        log_lines(front + back) == log_lines(front) + log_lines(back),
    decreases front.len(),
{
    if front.len() == 0 {
        assert(front + back =~= back);
        assert(log_lines(front) + log_lines(back) =~= log_lines(back));
    } else {
        let whole = front + back;
        assert(front[front.len() - 1] == NEWLINE);
        assert(front.contains(NEWLINE));
        front.index_of_first_ensures(NEWLINE);
        let i = front.index_of_first(NEWLINE).unwrap();
        assert(first_at(front, NEWLINE, i));
        assert(first_at(whole, NEWLINE, i)) by {
            assert forall|j: int| 0 <= j < i implies whole[j] != NEWLINE by {
                assert(whole[j] == front[j]);
            }
        }
        lemma_position(front, NEWLINE, i);
        lemma_position(whole, NEWLINE, i);
        let n = i + 1;
        assert(whole.take(n) =~= front.take(n));
        assert(whole.skip(n) =~= front.skip(n) + back);
        lemma_log_lines_concat(front.skip(n), back);
        assert(log_lines(whole) =~= log_lines(front) + log_lines(back));
    }
}

/// A line is the one line of the log that holds nothing else.
pub proof fn lemma_log_lines_single(line: Seq<u8>)
    requires
        is_line(line),
    ensures
        log_lines(line) == seq![line],
{
    assert(line.take(line.len() as int) =~= line);
    assert(log_lines(line.skip(line.len() as int)) =~= Seq::empty());
    assert(log_lines(line) =~= seq![line]);
}

/// An iterator over the entries of a log.
///
/// It holds the bytes of the log and walks them once, front to back.
#[derive(Debug)]
pub struct RsyncLogFile {
    /// The log.
    data: Vec<u8>,
    /// Where the next line starts.
    pos: usize,
}

impl RsyncLogFile {
    #[verifier::type_invariant]
    spec fn in_bounds(self) -> bool {
        self.pos <= self.data@.len()
    }

    /// The bytes that have not been read yet.
    pub closed spec fn unread(self) -> Seq<u8> {
        self.data@.skip(self.pos as int)
    }

    /// The entries that are still to come.
    pub open spec fn remaining(self) -> Seq<LogEntry> {
        log_entries(self.unread())
    }

    /// Makes an iterator over the entries of `log`.
    pub fn new(log: Vec<u8>) -> (r: Self)
        ensures
            r.unread() == log@,
    {
        RsyncLogFile { data: log, pos: 0 }
    }

    /// Reads on to the next line that is an entry and returns it, or `None`
    /// when the log is exhausted. A line that is no entry is skipped, and
    /// changes nothing in what comes after it. The reader then stands behind
    /// the line of the entry, or at the end of the log.
    pub fn next(&mut self) -> (r: Option<RsyncLogLine>)
        ensures
            match r {
                Some(entry) => {
                    &&& next_entry(old(self).unread()) == Some((entry@, final(self).unread()))
                    &&& entry@.well_formed()
                    &&& old(self).remaining().len() > 0
                    &&& entry@ == old(self).remaining().first()
                    &&& final(self).remaining() == old(self).remaining().drop_first()
                },
                None => {
                    &&& next_entry(old(self).unread()) is None
                    &&& old(self).remaining().len() == 0
                    &&& final(self).unread() == Seq::<u8>::empty()
                },
            },
    {
        proof {
            use_type_invariant(&*self);
        }
        while self.pos < self.data.len()
            invariant
                self.pos <= self.data@.len(),
                next_entry(self.unread()) == next_entry(old(self).unread()),
            decreases self.data@.len() - self.pos,
        {
            let unread = slice_subrange(self.data.as_slice(), self.pos, self.data.len());
            let len = match find_byte(unread, NEWLINE) {
                Some(i) => i + 1,
                None => unread.len(),
            };
            let parsed = RsyncLogLine::new(slice_subrange(unread, 0, len));
            proof {
                assert(unread@ =~= self.unread());
                assert(unread@.skip(len as int) =~= self.data@.skip(self.pos + len));
            }
            self.pos = self.pos + len;
            if let Some(entry) = parsed {
                proof {
                    lemma_next_entry(old(self).unread());
                    assert((seq![entry@] + log_entries(self.unread())).drop_first()
                        =~= log_entries(self.unread()));
                }
                return Some(entry);
            }
        }
        proof {
            assert(self.unread() =~= Seq::<u8>::empty());
            lemma_next_entry(old(self).unread());
        }
        None
    }
}

} // verus!
