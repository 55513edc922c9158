//! One line of a transfer log.
//!
//! ```text
//! 2023/07/04 03:50:55 [14417] cd+++++++++ projects/boost/serialization/
//! ^~~~~~~~~~~~~~~~~~~ ^~~~~~~^~~~~~~~~~~~ ^~~~~~~~~~~~~~~~~~~~~~~~~~~~~
//! timestamp           number kind         path
//! ```
//!
//! A line is cut at the first `[`, at the first `]` after it, and at the fixed
//! width of the kind token; nothing is tokenised. One space stands between
//! each field and the next. Lines of any other shape (banners, summaries,
//! progress reports) are not entries and are rejected.

use vstd::prelude::*;
use vstd::slice::{slice_subrange, slice_to_vec};
use crate::timestamp::{field_timestamp, in_timestamp_range, read_timestamp};

verus! {

/// The operation that a line records for its path.
#[derive(Clone, Copy, Debug, PartialEq, Eq, Structural)]
pub enum RsyncLogKind {
    /// `cd+++++++++`: a directory was created.
    CD,
    /// `>f+++++++++`: a file was transferred.
    FP,
}

/// The byte that ends a line.
pub const NEWLINE: u8 = 0x0a;

/// The byte that parts the fields of a line.
pub const SPACE: u8 = 0x20;

/// The byte `[`, which opens the bracketed number.
pub const BRACKET_OPEN: u8 = 0x5b;

/// The byte `]`, which closes the bracketed number.
pub const BRACKET_CLOSE: u8 = 0x5d;

/// The byte `+`.
pub const PLUS: u8 = 0x2b;

/// The byte `>`.
pub const GREATER: u8 = 0x3e;

/// The byte `c`.
pub const LOWER_C: u8 = 0x63;

/// The byte `d`.
pub const LOWER_D: u8 = 0x64;

/// The byte `f`.
pub const LOWER_F: u8 = 0x66;

/// The width of a kind token, the space in front of it included.
pub const KIND_WIDTH: usize = 12;

/// The recognised kind tokens. Each starts with the space that parts it from
/// the bracketed number.
pub open spec fn kind_token(kind: RsyncLogKind) -> Seq<u8> {
    match kind {
        RsyncLogKind::CD => seq![
            SPACE, LOWER_C, LOWER_D, PLUS, PLUS, PLUS, PLUS, PLUS, PLUS, PLUS, PLUS, PLUS,
        ],
        RsyncLogKind::FP => seq![
            SPACE, GREATER, LOWER_F, PLUS, PLUS, PLUS, PLUS, PLUS, PLUS, PLUS, PLUS, PLUS,
        ],
    }
}

/// The kind that `token` stands for, if it is a recognised token.
pub open spec fn kind_of(token: Seq<u8>) -> Option<RsyncLogKind> {
    if token == kind_token(RsyncLogKind::CD) {
        Some(RsyncLogKind::CD)
    } else if token == kind_token(RsyncLogKind::FP) {
        Some(RsyncLogKind::FP)
    } else {
        None
    }
}

/// `i` is the place of the first `byte` in `s`.
pub open spec fn first_at(s: Seq<u8>, byte: u8, i: int) -> bool {
    &&& 0 <= i < s.len()
    &&& s[i] == byte
    &&& forall|j: int| 0 <= j < i ==> s[j] != byte
}

/// The place of the first `byte` in `s`.
pub open spec fn position(s: Seq<u8>, byte: u8) -> Option<int> {
    if exists|i: int| first_at(s, byte, i) {
        Some(choose|i: int| first_at(s, byte, i))
    } else {
        None
    }
}

/// A line without its terminator, if it has one.
pub open spec fn line_body(line: Seq<u8>) -> Seq<u8> {
    if line.len() > 0 && line.last() == NEWLINE {
        line.drop_last()
    } else {
        line
    }
}

/// The three fields that a line is cut into: the bytes of the timestamp, the
/// kind, and the path.
///
/// The timestamp is what stands before the first `[`, less the one space that
/// parts the two. Behind the first `]` after it come the kind token, which
/// begins with a space, one more space, and the path, which runs to the end
/// of the line and is not empty. A line that lacks a bracket or one of the
/// spaces, stops short of its path, or carries an unknown kind token has no
/// fields.
pub open spec fn line_fields(line: Seq<u8>) -> Option<(Seq<u8>, RsyncLogKind, Seq<u8>)> {
    let body = line_body(line);
    match position(body, BRACKET_OPEN) {
        None => None,
        Some(open) => {
            let tail = body.skip(open);
            match position(tail, BRACKET_CLOSE) {
                None => None,
                Some(close) => {
                    let rest = tail.skip(close + 1);
                    if open == 0 || body[open - 1] != SPACE {
                        None
                    } else if rest.len() <= KIND_WIDTH + 1 || rest[KIND_WIDTH as int] != SPACE {
                        None
                    } else {
                        match kind_of(rest.take(KIND_WIDTH as int)) {
                            None => None,
                            Some(kind) => Some(
                                (body.take(open - 1), kind, rest.skip(KIND_WIDTH as int + 1)),
                            ),
                        }
                    }
                },
            }
        },
    }
}

/// An entry of the log: when a path was reached, and what was done there.
pub struct LogEntry {
    /// Seconds since 1970-01-01 00:00:00.
    pub time: int,
    pub kind: RsyncLogKind,
    pub path: Seq<u8>,
}

impl LogEntry {
    /// Whether `other` lies at or below `self`: the path of `self` is a prefix
    /// of the path of `other`.
    pub open spec fn is_root_of(self, other: LogEntry) -> bool {
        self.path.is_prefix_of(other.path)
    }

    /// What holds of every entry that was read from a line: its timestamp is
    /// one that a calendar date-time has, and its path is not empty.
    pub open spec fn well_formed(self) -> bool {
        in_timestamp_range(self.time) && self.path.len() > 0
    }
}

/// The entry that a line stands for, if it is one.
pub open spec fn parse_line(line: Seq<u8>) -> Option<LogEntry> {
    match line_fields(line) {
        None => None,
        Some((stamp, kind, path)) => match field_timestamp(stamp) {
            None => None,
            Some(time) => Some(LogEntry { time: time as int, kind, path }),
        },
    }
}

/// Finds the first `byte` in `s`.
pub fn find_byte(s: &[u8], byte: u8) -> (r: Option<usize>)
    ensures
        r matches Some(i) ==> position(s@, byte) == Some(i as int),
        r is None ==> position(s@, byte) is None,
{
    let mut i: usize = 0;
    while i < s.len()
        invariant
            i <= s.len(),
            forall|j: int| 0 <= j < i ==> s@[j] != byte,
        decreases s.len() - i,
    {
        if s[i] == byte {
            assert(first_at(s@, byte, i as int));
            return Some(i);
        }
        i += 1;
    }
    None
}

/// Whether `s` begins with `prefix`.
pub fn starts_with(s: &[u8], prefix: &[u8]) -> (r: bool)
    ensures
        r == prefix@.is_prefix_of(s@),
{
    if prefix.len() > s.len() {
        return false;
    }
    let mut i: usize = 0;
    while i < prefix.len()
        invariant
            i <= prefix.len() <= s.len(),
            forall|j: int| 0 <= j < i ==> prefix@[j] == s@[j],
        decreases prefix.len() - i,
    {
        if prefix[i] != s[i] {
            assert(s@.subrange(0, prefix@.len() as int)[i as int] != prefix@[i as int]);
            return false;
        }
        i += 1;
    }
    assert(prefix@ =~= s@.subrange(0, prefix@.len() as int));
    true
}

/// The token of `kind`, as bytes.
pub fn token_of(kind: RsyncLogKind) -> (r: [u8; 12])
    ensures
        r@ == kind_token(kind),
{
    let r = match kind {
        RsyncLogKind::CD => [
            SPACE, LOWER_C, LOWER_D, PLUS, PLUS, PLUS, PLUS, PLUS, PLUS, PLUS, PLUS, PLUS,
        ],
        RsyncLogKind::FP => [
            SPACE, GREATER, LOWER_F, PLUS, PLUS, PLUS, PLUS, PLUS, PLUS, PLUS, PLUS, PLUS,
        ],
    };
    assert(r@ =~= kind_token(kind));
    r
}

/// Reads a kind token.
pub fn read_kind(token: &[u8]) -> (r: Option<RsyncLogKind>)
    ensures
        r == kind_of(token@),
{
    if token.len() != KIND_WIDTH {
        return None;
    }
    let cd = token_of(RsyncLogKind::CD);
    let fp = token_of(RsyncLogKind::FP);
    if starts_with(token, cd.as_slice()) {
        assert(token@ =~= kind_token(RsyncLogKind::CD));
        Some(RsyncLogKind::CD)
    } else if starts_with(token, fp.as_slice()) {
        assert(token@ =~= kind_token(RsyncLogKind::FP));
        Some(RsyncLogKind::FP)
    } else {
        None
    }
}

/// Cuts a line into the bytes of its timestamp, its kind and its path.
pub fn split_fields(line: &[u8]) -> (r: Option<(&[u8], RsyncLogKind, &[u8])>)
    ensures
        match r {
            Some(fields) => line_fields(line@) == Some((fields.0@, fields.1, fields.2@)),
            None => line_fields(line@) is None,
        },
{
    let n = line.len();
    let body = if n > 0 && line[n - 1] == NEWLINE {
        slice_subrange(line, 0, n - 1)
    } else {
        line
    };
    assert(body@ =~= line_body(line@));
    let open = match find_byte(body, BRACKET_OPEN) {
        Some(i) => i,
        None => { return None; },
    };
    if open == 0 || body[open - 1] != SPACE {
        return None;
    }
    let tail = slice_subrange(body, open, body.len());
    assert(tail@ =~= body@.skip(open as int));
    let close = match find_byte(tail, BRACKET_CLOSE) {
        Some(i) => i,
        None => { return None; },
    };
    let rest = slice_subrange(tail, close + 1, tail.len());
    assert(rest@ =~= tail@.skip(close + 1));
    if rest.len() <= KIND_WIDTH + 1 || rest[KIND_WIDTH] != SPACE {
        return None;
    }
    let token = slice_subrange(rest, 0, KIND_WIDTH);
    assert(token@ =~= rest@.take(KIND_WIDTH as int));
    let kind = match read_kind(token) {
        Some(kind) => kind,
        None => { return None; },
    };
    let stamp = slice_subrange(body, 0, open - 1);
    let path = slice_subrange(rest, KIND_WIDTH + 1, rest.len());
    assert(stamp@ =~= body@.take(open - 1));
    assert(path@ =~= rest@.skip(KIND_WIDTH as int + 1));
    Some((stamp, kind, path))
}

/// A single line of the log file.
#[derive(Debug)]
pub struct RsyncLogLine {
    /// When the line was written, in seconds since 1970-01-01 00:00:00.
    pub time: i64,
    /// What the line records.
    pub kind: RsyncLogKind,
    /// The path that the line is about, as the raw bytes of the log.
    pub path: Vec<u8>,
}

impl View for RsyncLogLine {
    type V = LogEntry;

    open spec fn view(&self) -> LogEntry {
        LogEntry { time: self.time as int, kind: self.kind, path: self.path@ }
    }
}

impl Clone for RsyncLogLine {
    fn clone(&self) -> (r: Self)
        ensures
            r@ == self@,
    {
        RsyncLogLine {
            time: self.time,
            kind: self.kind,
            path: slice_to_vec(self.path.as_slice()),
        }
    }
}

impl RsyncLogLine {
    /// Parses the line and returns the entry it stands for.
    ///
    /// Returns `None` if the line is not an entry. The terminator of the line
    /// may be there or not.
    pub fn new(line: &[u8]) -> (r: Option<Self>)
        ensures
            match r {
                Some(entry) => parse_line(line@) == Some(entry@) && entry@.well_formed(),
                None => parse_line(line@) is None,
            },
    {
        match split_fields(line) {
            None => None,
            Some((stamp, kind, path)) => match read_timestamp(stamp) {
                None => None,
                Some(time) => Some(RsyncLogLine { time, kind, path: slice_to_vec(path) }),
            },
        }
    }

    /// Determines whether the path of `self` is the root of `other`'s.
    ///
    /// For example, `"projects/boost/"` is root of
    /// - `"projects/boost/signals2/detail/"`
    /// - `"projects/boost/signals2/detail/auto_buffer.hpp"`
    pub fn is_root_of(&self, other: &Self) -> (r: bool)
        ensures
            r == self@.is_root_of(other@),
    {
        starts_with(other.path.as_slice(), self.path.as_slice())
    }
}

} // verus!
