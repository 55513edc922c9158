//! Timestamps of log lines, as whole seconds since 1970-01-01 00:00:00.
//!
//! A timestamp field is written `YYYY/MM/DD HH:MM:SS`: digits, with the
//! separators in their places. The calendar arithmetic is chrono's: a field
//! of that shape is handed to `chrono::NaiveDateTime::parse_from_str`, and the
//! date-time it returns is kept as the second count that chrono reports for
//! it.

use vstd::prelude::*;
use vstd::utf8::{decode_utf8, valid_utf8};

verus! {

/// The second count of the earliest date-time chrono can hold,
/// -262143-01-01 00:00:00.
pub const TIMESTAMP_MIN: i64 = -8_334_601_228_800;

/// The second count of the latest date-time chrono can hold,
/// +262142-12-31 23:59:59.
pub const TIMESTAMP_MAX: i64 = 8_210_266_876_799;

/// The layout of a timestamp field, in chrono's format syntax.
pub open spec fn timestamp_format() -> Seq<char> {
    "%Y/%m/%d %H:%M:%S"@
}

/// What `chrono::NaiveDateTime::parse_from_str` makes of `text` under
/// `format`: the seconds from 1970-01-01 00:00:00 to the date-time it reads,
/// leap seconds not counted, or `None` where it reports an error.
pub uninterp spec fn parsed_timestamp(text: Seq<char>, format: Seq<char>) -> Option<i64>;

/// The width of a timestamp field.
pub const TIMESTAMP_WIDTH: usize = 19;

/// The byte `/`, which parts year, month and day.
pub const SLASH: u8 = 0x2f;

/// The byte `:`, which parts hour, minute and second.
pub const COLON: u8 = 0x3a;

/// The byte that parts the date from the time of day.
pub const BLANK: u8 = 0x20;

/// Whether `byte` is one of the digits `0` to `9`.
pub open spec fn is_digit(byte: u8) -> bool {
    0x30 <= byte <= 0x39
}

/// The separator that stands at place `i` of a timestamp field, or `None`
/// where a digit stands.
pub open spec fn separator_at(i: int) -> Option<u8> {
    if i == 4 || i == 7 {
        Some(SLASH)
    } else if i == 10 {
        Some(BLANK)
    } else if i == 13 || i == 16 {
        Some(COLON)
    } else {
        None
    }
}

/// Whether `field` is written `YYYY/MM/DD HH:MM:SS`: nineteen bytes, digits
/// but for the separators in their places.
pub open spec fn has_timestamp_shape(field: Seq<u8>) -> bool {
    &&& field.len() == TIMESTAMP_WIDTH
    &&& forall|i: int|
        0 <= i < TIMESTAMP_WIDTH ==> match separator_at(i) {
            Some(separator) => #[trigger] field[i] == separator,
            None => is_digit(field[i]),
        }
}

/// The timestamp that a field of raw bytes stands for: the field is written
/// `YYYY/MM/DD HH:MM:SS`, and chrono reads a date-time from it.
pub open spec fn field_timestamp(field: Seq<u8>) -> Option<i64> {
    if has_timestamp_shape(field) && valid_utf8(field) {
        parsed_timestamp(decode_utf8(field), timestamp_format())
    } else {
        None
    }
}

/// Whether `time` lies in the range of second counts that chrono's date-times
/// cover.
pub open spec fn in_timestamp_range(time: int) -> bool {
    TIMESTAMP_MIN <= time <= TIMESTAMP_MAX
}

/// Calls `std::str::from_utf8`. The contract claims what its documentation
/// says: the bytes are accepted exactly when they are valid UTF-8, and the
/// string then holds the characters they encode.
#[verifier::external_body]
fn utf8_text(bytes: &[u8]) -> (r: Option<&str>)
    ensures
        r is Some <==> valid_utf8(bytes@),
        r matches Some(text) ==> text@ == decode_utf8(bytes@),
{
    std::str::from_utf8(bytes).ok()
}

/// Calls `chrono::NaiveDateTime::parse_from_str` and converts the date-time
/// with `and_utc().timestamp()`. The contract names the result, and claims
/// that it lies between the second counts of `NaiveDateTime::MIN` and
/// `NaiveDateTime::MAX`, which bound every value of that type.
#[verifier::external_body]
fn parse_timestamp(text: &str, format: &str) -> (r: Option<i64>)
    ensures
        r == parsed_timestamp(text@, format@),
        r matches Some(time) ==> in_timestamp_range(time as int),
{
    match chrono::NaiveDateTime::parse_from_str(text, format) {
        Ok(time) => Some(time.and_utc().timestamp()),
        Err(_) => None,
    }
}

/// The separator that stands at place `i` of a timestamp field.
pub fn separator(i: usize) -> (r: Option<u8>)
    ensures
        r == separator_at(i as int),
{
    if i == 4 || i == 7 {
        Some(SLASH)
    } else if i == 10 {
        Some(BLANK)
    } else if i == 13 || i == 16 {
        Some(COLON)
    } else {
        None
    }
}

/// Whether `field` is written `YYYY/MM/DD HH:MM:SS`.
pub fn is_timestamp_shaped(field: &[u8]) -> (r: bool)
    ensures
        r == has_timestamp_shape(field@),
{
    if field.len() != TIMESTAMP_WIDTH {
        return false;
    }
    let mut i: usize = 0;
    while i < TIMESTAMP_WIDTH
        invariant
            i <= TIMESTAMP_WIDTH == field@.len(),
            forall|k: int|
                0 <= k < i ==> match separator_at(k) {
                    Some(separator) => #[trigger] field@[k] == separator,
                    None => is_digit(field@[k]),
                },
        decreases TIMESTAMP_WIDTH - i,
    {
        let fits = match separator(i) {
            Some(separator) => field[i] == separator,
            None => 0x30 <= field[i] && field[i] <= 0x39,
        };
        if !fits {
            return false;
        }
        i += 1;
    }
    true
}

/// Reads the timestamp field of a log line.
pub fn read_timestamp(field: &[u8]) -> (r: Option<i64>)
    ensures
        r == field_timestamp(field@),
        r matches Some(time) ==> in_timestamp_range(time as int),
{
    if !is_timestamp_shaped(field) {
        return None;
    }
    match utf8_text(field) {
        Some(text) => parse_timestamp(text, "%Y/%m/%d %H:%M:%S"),
        None => None,
    }
}

} // verus!
