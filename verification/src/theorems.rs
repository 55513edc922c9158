//! What holds of the durations of every log.

use vstd::prelude::*;
use vstd::relations::injective_on;
use vstd::set_lib::{lemma_int_range, lemma_map_size, lemma_subset_equality, set_int_range};
use crate::closing::{
    closing_index, closing_time, depth, emit_position, emitted_before, lemma_closed_at,
    lemma_closes_open_entry, lemma_closing_index, lemma_drained, lemma_emitted_before_grows,
    lemma_open_chain, lemma_split, lemma_stays_open, open_after,
};
use crate::line::{parse_line, LogEntry};
use crate::logfile::{
    ends_lines, is_line, lemma_log_lines_concat, lemma_log_lines_single,
    lemma_parsed_entries_concat, log_entries, log_lines, parsed_entries,
};
use crate::model::{closed_at_end, durations};

verus! {

/// The timestamps of `input` never go back.
pub open spec fn is_time_ordered(input: Seq<LogEntry>) -> bool {
    forall|a: int, b: int| 0 <= a <= b < input.len() ==> input[a].time <= input[b].time
}

/// The pair at `place` is that of an entry of `input`.
pub open spec fn has_entry(input: Seq<LogEntry>, place: int) -> bool {
    exists|i: int| 0 <= i < input.len() && emit_position(input, i) == place
}

/// The durations of a log are what comes of it entry by entry: the pairs
/// that the entries close on their arrival, one after the other, and then the
/// pairs of what the last of them leaves open.
pub proof fn theorem_entry_by_entry(input: Seq<LogEntry>)
    ensures
        durations(input) == emitted_before(input, input.len() as int) + closed_at_end(
            open_after(input, input.len() as int),
        ),
{
    lemma_split(input, input.len() as int);
    assert(input.skip(input.len() as int) =~= Seq::empty());
}

/// As many pairs are yielded as there are entries.
pub proof fn theorem_pair_count(input: Seq<LogEntry>)
    ensures
        durations(input).len() == input.len(),
{
    let open = open_after(input, input.len() as int);
    theorem_entry_by_entry(input);
    lemma_split(input, input.len() as int);
    if open.len() > 0 {
        lemma_drained(open, open.last().time);
    }
}

/// The duration of an entry is the time from its own line to the line that
/// closes it: the first later entry that does not lie under it, or, if there
/// is none, the last entry of the log. Its pair stands at `emit_position`.
pub proof fn theorem_pair_of_entry(input: Seq<LogEntry>, i: int)
    requires
        0 <= i < input.len(),
    ensures
        0 <= emit_position(input, i) < durations(input).len(),
        durations(input)[emit_position(input, i)] == (
            input[i],
            closing_time(input, i) - input[i].time,
        ),
{
    let c = closing_index(input, i);
    let stack = open_after(input, i + 1);
    let rest = input.skip(i + 1);
    let m = c - i - 1;
    lemma_closing_index(input, i);
    lemma_open_chain(input, i + 1);
    lemma_split(input, i + 1);
    assert(stack.last() == input[i]);
    assert forall|k: int| 0 <= k < m implies stack[stack.len() - 1].is_root_of(
        #[trigger] rest[k],
    ) by {
        assert(rest[k] == input[i + 1 + k]);
    }
    if m < rest.len() {
        assert(rest[m] == input[c]);
    }
    lemma_closes_open_entry(stack, stack.len() - 1, rest, m);
    if rest.len() > 0 {
        assert(rest.last() == input.last());
    }
}

/// The pairs come in the order in which the entries are closed, and of the
/// entries that one arrival closes the later one comes first.
pub proof fn theorem_emission_order(input: Seq<LogEntry>, first: int, second: int)
    requires
        0 <= first < input.len(),
        0 <= second < input.len(),
        closing_index(input, first) < closing_index(input, second) || (closing_index(
            input,
            first,
        ) == closing_index(input, second) && second < first),
    ensures
        emit_position(input, first) < emit_position(input, second),
{
    let c1 = closing_index(input, first);
    let c2 = closing_index(input, second);
    lemma_closing_index(input, first);
    lemma_closing_index(input, second);
    if c1 < c2 {
        // the pair of `first` is out once its closing entry has been read,
        // and nothing of `second` is out before the entry that closes it.
        lemma_closed_at(input, first);
        lemma_split(input, c1 + 1);
        lemma_emitted_before_grows(input, c1 + 1, c2);
        lemma_split(input, c2);
        lemma_stays_open(input, second, c2);
    } else {
        // `first` was read while `second` was open, and stands above it.
        lemma_stays_open(input, second, first + 1);
    }
}

/// No two entries share a pair.
pub proof fn theorem_positions_differ(input: Seq<LogEntry>, i: int, j: int)
    requires
        0 <= i < input.len(),
        0 <= j < input.len(),
        i != j,
    ensures
        emit_position(input, i) != emit_position(input, j),
{
    let ci = closing_index(input, i);
    let cj = closing_index(input, j);
    if ci < cj || (ci == cj && j < i) {
        theorem_emission_order(input, i, j);
    } else {
        theorem_emission_order(input, j, i);
    }
}

/// Every pair that is yielded is the pair of an entry.
pub proof fn theorem_pair_has_entry(input: Seq<LogEntry>, place: int) -> (i: int)
    requires
        0 <= place < durations(input).len(),
    ensures
        0 <= i < input.len(),
        emit_position(input, i) == place,
{
    let n = input.len() as int;
    theorem_pair_count(input);
    let places = set_int_range(0, n);
    let position = |i: int| emit_position(input, i);
    let taken = places.map(position);
    lemma_int_range(0, n);
    assert(injective_on(position, places)) by {
        assert forall|a: int, b: int|
            places.contains(a) && places.contains(b) && #[trigger] position(a) == #[trigger] position(
                b,
            ) implies a == b by {
            if a != b {
                theorem_positions_differ(input, a, b);
            }
        }
    }
    lemma_map_size(places, taken, position);
    assert(taken.subset_of(places)) by {
        assert forall|p: int| taken.contains(p) implies places.contains(p) by {
            let a = choose|a: int| places.contains(a) && position(a) == p;
            theorem_pair_of_entry(input, a);
        }
    }
    lemma_subset_equality(taken, places);
    assert(taken.contains(place));
    choose|i: int| places.contains(i) && position(i) == place
}

/// Each entry of the log is yielded exactly once: there are as many pairs as
/// entries, each entry has its pair, no two entries share one, and no pair is
/// without an entry.
pub proof fn theorem_complete(input: Seq<LogEntry>)
    ensures
        durations(input).len() == input.len(),
        forall|i: int|
            0 <= i < input.len() ==> 0 <= #[trigger] emit_position(input, i) < input.len()
                && durations(input)[emit_position(input, i)].0 == input[i],
        forall|i: int, j: int|
            0 <= i < j < input.len() ==> #[trigger] emit_position(input, i) != #[trigger] emit_position(
                input,
                j,
            ),
        forall|place: int| 0 <= place < input.len() ==> #[trigger] has_entry(input, place),
{
    theorem_pair_count(input);
    assert forall|i: int| 0 <= i < input.len() implies 0 <= #[trigger] emit_position(input, i)
        < input.len() && durations(input)[emit_position(input, i)].0 == input[i] by {
        theorem_pair_of_entry(input, i);
    }
    assert forall|i: int, j: int| 0 <= i < j < input.len() implies #[trigger] emit_position(
        input,
        i,
    ) != #[trigger] emit_position(input, j) by {
        theorem_positions_differ(input, i, j);
    }
    assert forall|place: int| 0 <= place < input.len() implies #[trigger] has_entry(
        input,
        place,
    ) by {
        let i = theorem_pair_has_entry(input, place);
    }
}

/// Where the timestamps of the log never go back, no duration is negative.
pub proof fn theorem_durations_not_negative(input: Seq<LogEntry>)
    requires
        is_time_ordered(input),
    ensures
        forall|place: int|
            0 <= place < durations(input).len() ==> (#[trigger] durations(input)[place]).1 >= 0,
{
    assert forall|place: int| 0 <= place < durations(input).len() implies (#[trigger] durations(
        input,
    )[place]).1 >= 0 by {
        let i = theorem_pair_has_entry(input, place);
        theorem_pair_of_entry(input, i);
        lemma_closing_index(input, i);
    }
}

/// What lies under an entry is yielded before it.
///
/// Let `inner` lie under `outer`, and let it be closed no later. Then the pair
/// of `inner` comes before that of `outer`. Left out is the one case where
/// this cannot be: `outer` repeats the path of `inner` while `inner` is still
/// open. The two are then closed together, and `outer`, which stands above
/// `inner`, goes first.
pub proof fn theorem_nested_before(input: Seq<LogEntry>, outer: int, inner: int)
    requires
        0 <= outer < input.len(),
        0 <= inner < input.len(),
        outer != inner,
        input[outer].is_root_of(input[inner]),
        closing_index(input, inner) <= closing_index(input, outer),
        !(inner < outer < closing_index(input, inner)),
    ensures
        emit_position(input, inner) < emit_position(input, outer),
{
    lemma_closing_index(input, inner);
    lemma_closing_index(input, outer);
    theorem_emission_order(input, inner, outer);
}

/// An entry under which all the rest of the log lies is closed by the end of
/// the log: its duration runs to the last entry. If it lies under no other
/// entry itself, its pair is the last.
pub proof fn theorem_open_until_end(input: Seq<LogEntry>, i: int)
    requires
        0 <= i < input.len(),
        forall|k: int| i < k < input.len() ==> input[i].is_root_of(#[trigger] input[k]),
    ensures
        emit_position(input, i) == input.len() - depth(input, i),
        depth(input, i) == 1 ==> emit_position(input, i) == durations(input).len() - 1,
        durations(input)[emit_position(input, i)] == (input[i], input.last().time - input[i].time),
{
    lemma_closing_index(input, i);
    theorem_pair_of_entry(input, i);
    theorem_pair_count(input);
}

/// An entry that the very next entry does not lie under is closed by it: its
/// duration is the time from its own line to the next.
pub proof fn theorem_closed_by_next(input: Seq<LogEntry>, i: int)
    requires
        0 <= i,
        i + 1 < input.len(),
        !input[i].is_root_of(input[i + 1]),
    ensures
        emit_position(input, i) == i + 1 - depth(input, i),
        durations(input)[emit_position(input, i)] == (
            input[i],
            input[i + 1].time - input[i].time,
        ),
{
    theorem_pair_of_entry(input, i);
}

/// A line that is no entry is passed over in silence: the entries of the
/// lines, and with them every pair and every duration, are the same as without
/// it.
pub proof fn theorem_rejected_line_is_silent(
    before: Seq<Seq<u8>>,
    line: Seq<u8>,
    after: Seq<Seq<u8>>,
)
    requires
        parse_line(line) is None,
    ensures
        parsed_entries(before + seq![line] + after) == parsed_entries(before + after),
        durations(parsed_entries(before + seq![line] + after)) == durations(
            parsed_entries(before + after),
        ),
{
    lemma_parsed_entries_concat(before + seq![line], after);
    lemma_parsed_entries_concat(before, seq![line]);
    lemma_parsed_entries_concat(before, after);
    assert(seq![line].first() == line);
    assert(parsed_entries(seq![line].drop_first()) =~= Seq::<LogEntry>::empty());
    assert(parsed_entries(seq![line]) =~= Seq::<LogEntry>::empty());
    assert(parsed_entries(before) + Seq::<LogEntry>::empty() =~= parsed_entries(before));
}

/// The same of the bytes of a log: a line that is no entry can be cut out
/// of the log, and the log yields the same pairs.
pub proof fn theorem_rejected_line_in_log(head: Seq<u8>, line: Seq<u8>, tail: Seq<u8>)
    requires
        ends_lines(head),
        is_line(line),
        ends_lines(line) || tail.len() == 0,
        parse_line(line) is None,
    ensures
        log_entries(head + line + tail) == log_entries(head + tail),
        durations(log_entries(head + line + tail)) == durations(log_entries(head + tail)),
{
    lemma_log_lines_concat(head, line + tail);
    lemma_log_lines_concat(head, tail);
    lemma_log_lines_single(line);
    if ends_lines(line) {
        lemma_log_lines_concat(line, tail);
    } else {
        assert(line + tail =~= line);
        assert(log_lines(tail) =~= Seq::<Seq<u8>>::empty());
        assert(seq![line] + log_lines(tail) =~= seq![line]);
    }
    assert(head + line + tail =~= head + (line + tail));
    assert(log_lines(head) + (seq![line] + log_lines(tail)) =~= log_lines(head) + seq![line]
        + log_lines(tail));
    theorem_rejected_line_is_silent(log_lines(head), line, log_lines(tail));
}

} // verus!
