//! When an entry is closed, and where its pair stands among those yielded.
//!
//! The analysis is stated as a walk over the log with a stack. This module
//! says the same without the stack: an entry is closed by the first later
//! entry that does not lie under it, or by the end of the log, and before its
//! pair come the pairs of everything that was read earlier than its closing
//! entry, but for the entry itself and the entries it lies under.

use vstd::prelude::*;
use vstd::multiset::Multiset;
use vstd::seq_lib::{lemma_multiset_commutative, to_multiset_build, to_multiset_contains};
use crate::line::LogEntry;
use crate::model::{closed_by, drained, durations, emitted, is_chain, still_open};

verus! {

/// The open entries once the first `k` entries of `input` have been read,
/// outermost first.
pub open spec fn open_after(input: Seq<LogEntry>, k: int) -> Seq<LogEntry>
    decreases k,
{
    if k <= 0 {
        Seq::empty()
    } else {
        still_open(open_after(input, k - 1), input[k - 1]).push(input[k - 1])
    }
}

/// The pairs that are yielded while the first `k` entries of `input` are
/// read.
pub open spec fn emitted_before(input: Seq<LogEntry>, k: int) -> Seq<(LogEntry, int)>
    decreases k,
{
    if k <= 0 {
        Seq::empty()
    } else {
        emitted_before(input, k - 1) + closed_by(open_after(input, k - 1), input[k - 1])
    }
}

/// The first place from `k` on whose entry does not lie under `input[i]`,
/// or the length of `input` if there is none.
pub open spec fn first_outside(input: Seq<LogEntry>, i: int, k: int) -> int
    decreases input.len() - k,
{
    if k >= input.len() {
        input.len() as int
    } else if !input[i].is_root_of(input[k]) {
        k
    } else {
        first_outside(input, i, k + 1)
    }
}

/// The place of the entry that closes `input[i]`: the first later entry that
/// does not lie under it. Where every later entry lies under it, this is the
/// length of `input`, and the end of the log closes the entry.
pub open spec fn closing_index(input: Seq<LogEntry>, i: int) -> int {
    first_outside(input, i, i + 1)
}

/// The time at which `input[i]` is closed: the time of the entry that closes
/// it, or, at the end of the log, that of the last entry.
pub open spec fn closing_time(input: Seq<LogEntry>, i: int) -> int {
    let c = closing_index(input, i);
    if c < input.len() {
        input[c].time
    } else {
        input.last().time
    }
}

/// How deep `input[i]` lies: the number of entries that are open once it has
/// been read, which are the entry itself and those it lies under.
pub open spec fn depth(input: Seq<LogEntry>, i: int) -> int {
    open_after(input, i + 1).len() as int
}

/// The place of the pair of `input[i]` among the pairs yielded.
///
/// When the entry is closed, the entries before its closing entry have all
/// been read. Of these the entry and those it lies under are still open; all
/// the others have been closed, and their pairs come first.
pub open spec fn emit_position(input: Seq<LogEntry>, i: int) -> int {
    closing_index(input, i) - depth(input, i)
}

/// Being a root of is transitive.
pub proof fn lemma_root_transitive(a: LogEntry, b: LogEntry, c: LogEntry)
    requires
        a.is_root_of(b),
        b.is_root_of(c),
    ensures
        a.is_root_of(c),
{
    assert(a.path =~= c.path.subrange(0, a.path.len() as int)) by {
        assert forall|k: int| 0 <= k < a.path.len() implies a.path[k] == c.path[k] by {
            assert(a.path[k] == b.path.subrange(0, a.path.len() as int)[k]);
            assert(b.path[k] == c.path.subrange(0, b.path.len() as int)[k]);
        }
    }
}

/// What one arrival does to the stack: it closes a top part of it, from the
/// top down, and none of the closed entries is a root of the new one.
pub proof fn lemma_cascade(stack: Seq<LogEntry>, this: LogEntry)
    ensures
        closed_by(stack, this).len() + still_open(stack, this).len() == stack.len(),
        still_open(stack, this) == stack.take(still_open(stack, this).len() as int),
        still_open(stack, this).len() > 0 ==> still_open(stack, this).last().is_root_of(this),
        forall|j: int|
            still_open(stack, this).len() <= j < stack.len() ==> !(#[trigger] stack[j]).is_root_of(
                this,
            ),
        forall|j: int|
            0 <= j < closed_by(stack, this).len() ==> #[trigger] closed_by(stack, this)[j] == (
                stack[stack.len() - 1 - j],
                this.time - stack[stack.len() - 1 - j].time,
            ),
    decreases stack.len(),
{
    if stack.len() == 0 || stack.last().is_root_of(this) {
        assert(stack =~= stack.take(stack.len() as int));
    } else {
        let below = stack.drop_last();
        lemma_cascade(below, this);
        let kept = still_open(below, this);
        assert(kept =~= stack.take(kept.len() as int));
        assert forall|j: int| kept.len() <= j < stack.len() implies !(#[trigger] stack[j]).is_root_of(
            this,
        ) by {
            if j < below.len() {
                assert(stack[j] == below[j]);
            }
        }
        assert forall|j: int| 0 <= j < closed_by(stack, this).len() implies #[trigger] closed_by(
            stack,
            this,
        )[j] == (stack[stack.len() - 1 - j], this.time - stack[stack.len() - 1 - j].time) by {
            if j > 0 {
                assert(closed_by(stack, this)[j] == closed_by(below, this)[j - 1]);
                assert(below[below.len() - 1 - (j - 1)] == stack[stack.len() - 1 - j]);
            }
        }
    }
}

/// Closing a whole stack yields its entries from the top down.
pub proof fn lemma_drained(stack: Seq<LogEntry>, time: int)
    ensures
        drained(stack, time).len() == stack.len(),
        forall|j: int|
            0 <= j < stack.len() ==> #[trigger] drained(stack, time)[j] == (
                stack[stack.len() - 1 - j],
                time - stack[stack.len() - 1 - j].time,
            ),
    decreases stack.len(),
{
    if stack.len() > 0 {
        let below = stack.drop_last();
        lemma_drained(below, time);
        assert forall|j: int| 0 <= j < stack.len() implies #[trigger] drained(stack, time)[j] == (
            stack[stack.len() - 1 - j],
            time - stack[stack.len() - 1 - j].time,
        ) by {
            if j > 0 {
                assert(drained(stack, time)[j] == drained(below, time)[j - 1]);
                assert(below[below.len() - 1 - (j - 1)] == stack[stack.len() - 1 - j]);
            }
        }
    }
}

/// An arrival leaves a chain a chain.
pub proof fn lemma_chain_step(stack: Seq<LogEntry>, this: LogEntry)
    requires
        is_chain(stack),
    ensures
        is_chain(still_open(stack, this).push(this)),
{
    lemma_cascade(stack, this);
    let kept = still_open(stack, this);
    let next = kept.push(this);
    assert forall|a: int, b: int| 0 <= a <= b < next.len() implies next[a].is_root_of(next[b]) by {
        if b < kept.len() {
            assert(next[a] == stack[a] && next[b] == stack[b]);
        } else if a < kept.len() {
            assert(next[a] == stack[a]);
            assert(kept.last() == stack[kept.len() - 1]);
            assert(stack[a].is_root_of(stack[kept.len() - 1]));
            lemma_root_transitive(next[a], kept.last(), this);
        } else {
            assert(this.path =~= this.path.subrange(0, this.path.len() as int));
        }
    }
}

/// The open entries always form a chain.
pub proof fn lemma_open_chain(input: Seq<LogEntry>, k: int)
    requires
        0 <= k <= input.len(),
    ensures
        is_chain(open_after(input, k)),
    decreases k,
{
    if k > 0 {
        lemma_open_chain(input, k - 1);
        lemma_chain_step(open_after(input, k - 1), input[k - 1]);
    }
}

/// The pairs of a log are those yielded while its first `k` entries are read,
/// and then those yielded from the state reached there. Every entry read is
/// either closed or open.
pub proof fn lemma_split(input: Seq<LogEntry>, k: int)
    requires
        0 <= k <= input.len(),
    ensures
        durations(input) == emitted_before(input, k) + emitted(
            open_after(input, k),
            input.skip(k),
        ),
        emitted_before(input, k).len() + open_after(input, k).len() == k,
    decreases k,
{
    if k == 0 {
        assert(input.skip(0) =~= input);
        assert(durations(input) =~= emitted_before(input, 0) + emitted(
            open_after(input, 0),
            input.skip(0),
        ));
    } else {
        lemma_split(input, k - 1);
        let stack = open_after(input, k - 1);
        let this = input[k - 1];
        lemma_cascade(stack, this);
        assert(input.skip(k - 1).first() == this);
        assert(input.skip(k - 1).drop_first() =~= input.skip(k));
        assert(durations(input) =~= emitted_before(input, k) + emitted(
            open_after(input, k),
            input.skip(k),
        ));
    }
}

/// What `first_outside` finds from `k` on: everything from `k` up to it lies
/// under `input[i]`, and the entry at it, if there is one, does not.
pub proof fn lemma_first_outside(input: Seq<LogEntry>, i: int, k: int)
    requires
        0 <= i < k <= input.len(),
    ensures
        k <= first_outside(input, i, k) <= input.len(),
        forall|l: int|
            k <= l < first_outside(input, i, k) ==> input[i].is_root_of(#[trigger] input[l]),
        first_outside(input, i, k) < input.len() ==> !input[i].is_root_of(
            input[first_outside(input, i, k)],
        ),
    decreases input.len() - k,
{
    if k < input.len() && input[i].is_root_of(input[k]) {
        lemma_first_outside(input, i, k + 1);
    }
}

/// An open entry is closed by the first arrival that does not lie under it.
///
/// Let `stack` be a chain of open entries and `rest` what is still to be
/// read, of which the first `m` entries lie under `stack[d]` and the next one,
/// if there is one, does not. Then the pair of `stack[d]` is yielded when that
/// entry arrives or, without it, at the end; before it come one pair for each
/// of the `m` entries and for each entry above `stack[d]`.
pub proof fn lemma_closes_open_entry(stack: Seq<LogEntry>, d: int, rest: Seq<LogEntry>, m: int)
    requires
        is_chain(stack),
        0 <= d < stack.len(),
        0 <= m <= rest.len(),
        forall|k: int| 0 <= k < m ==> stack[d].is_root_of(#[trigger] rest[k]),
        m < rest.len() ==> !stack[d].is_root_of(rest[m]),
    ensures
        0 <= m + stack.len() - 1 - d < emitted(stack, rest).len(),
        emitted(stack, rest)[m + stack.len() - 1 - d] == (
            stack[d],
            (if m < rest.len() {
                rest[m].time
            } else if rest.len() > 0 {
                rest.last().time
            } else {
                stack.last().time
            }) - stack[d].time,
        ),
    decreases rest.len(),
{
    let place = m + stack.len() - 1 - d;
    if rest.len() == 0 {
        lemma_drained(stack, stack.last().time);
    } else {
        let this = rest.first();
        let kept = still_open(stack, this);
        let next = kept.push(this);
        let later = rest.drop_first();
        lemma_cascade(stack, this);
        if m == 0 {
            // none of `stack[d..]` is a root of `this`.
            if kept.len() > d {
                assert(kept.last() == stack[kept.len() - 1]);
                lemma_root_transitive(stack[d], kept.last(), this);
            }
            assert(closed_by(stack, this)[place] == (stack[d], this.time - stack[d].time));
        } else {
            assert(stack[d].is_root_of(rest[0]));
            assert(kept.len() > d);
            lemma_chain_step(stack, this);
            assert(next[d] == stack[d]);
            assert forall|k: int| 0 <= k < m - 1 implies next[d].is_root_of(
                #[trigger] later[k],
            ) by {
                assert(later[k] == rest[k + 1]);
            }
            if m - 1 < later.len() {
                assert(later[m - 1] == rest[m]);
            }
            lemma_closes_open_entry(next, d, later, m - 1);
            let shifted = (m - 1) + next.len() - 1 - d;
            assert(emitted(stack, rest)[closed_by(stack, this).len() + shifted] == emitted(
                next,
                later,
            )[shifted]);
            if later.len() > 0 {
                assert(later.last() == rest.last());
            }
        }
    }
}

/// The entry that closes `input[i]` comes after it, and everything between
/// the two lies under `input[i]`.
pub proof fn lemma_closing_index(input: Seq<LogEntry>, i: int)
    requires
        0 <= i < input.len(),
    ensures
        i < closing_index(input, i) <= input.len(),
        forall|l: int|
            i < l < closing_index(input, i) ==> input[i].is_root_of(#[trigger] input[l]),
        closing_index(input, i) < input.len() ==> !input[i].is_root_of(
            input[closing_index(input, i)],
        ),
{
    lemma_first_outside(input, i, i + 1);
}

/// An entry stays where it was pushed until it is closed, and what is read
/// in between is pushed above it.
pub proof fn lemma_stays_open(input: Seq<LogEntry>, i: int, k: int)
    requires
        0 <= i < k <= closing_index(input, i),
        i < input.len(),
    ensures
        open_after(input, k).len() >= depth(input, i) >= 1,
        open_after(input, k)[depth(input, i) - 1] == input[i],
        k > i + 1 ==> open_after(input, k).len() > depth(input, i),
    decreases k,
{
    if k > i + 1 {
        lemma_closing_index(input, i);
        lemma_stays_open(input, i, k - 1);
        let stack = open_after(input, k - 1);
        let this = input[k - 1];
        lemma_cascade(stack, this);
        assert(stack[depth(input, i) - 1].is_root_of(this));
    }
}

/// The arrival that closes an entry leaves the stack no higher than the entry
/// stood.
pub proof fn lemma_closed_at(input: Seq<LogEntry>, i: int)
    requires
        0 <= i < input.len(),
        closing_index(input, i) < input.len(),
    ensures
        open_after(input, closing_index(input, i) + 1).len() <= depth(input, i),
{
    let c = closing_index(input, i);
    lemma_closing_index(input, i);
    lemma_stays_open(input, i, c);
    lemma_open_chain(input, c);
    let stack = open_after(input, c);
    let this = input[c];
    let kept = still_open(stack, this);
    lemma_cascade(stack, this);
    if kept.len() >= depth(input, i) {
        assert(kept.last() == stack[kept.len() - 1]);
        lemma_root_transitive(stack[depth(input, i) - 1], kept.last(), this);
    }
}

/// The longer one reads, the more pairs have been yielded.
pub proof fn lemma_emitted_before_grows(input: Seq<LogEntry>, k: int, l: int)
    requires
        0 <= k <= l <= input.len(),
    ensures
        emitted_before(input, k).len() <= emitted_before(input, l).len(),
    decreases l,
{
    if k < l {
        lemma_emitted_before_grows(input, k, l - 1);
    }
}

/// The entries of `pairs`, in their order.
pub open spec fn entries_of(pairs: Seq<(LogEntry, int)>) -> Seq<LogEntry> {
    pairs.map_values(|pair: (LogEntry, int)| pair.0)
}

/// The entries that are held at one moment, each as often as it is held: the
/// open ones, and those of the pairs that are ready.
pub open spec fn held(open: Seq<LogEntry>, ready: Seq<(LogEntry, int)>) -> Multiset<LogEntry> {
    open.to_multiset().add(entries_of(ready).to_multiset())
}

/// No entries make an empty multiset.
pub proof fn lemma_none_to_multiset(none: Seq<LogEntry>)
    requires
        none.len() == 0,
    ensures
        none.to_multiset() == Multiset::<LogEntry>::empty(),
{
    assert forall|entry: LogEntry| none.to_multiset().count(entry) == 0 by {
        to_multiset_contains(none, entry);
    }
    assert(none.to_multiset() =~= Multiset::<LogEntry>::empty());
}

/// A sequence with one entry in front holds that entry and the rest.
pub proof fn lemma_front_to_multiset(first: LogEntry, rest: Seq<LogEntry>)
    ensures
        (seq![first] + rest).to_multiset() == rest.to_multiset().insert(first),
{
    lemma_multiset_commutative(seq![first], rest);
    to_multiset_build(Seq::<LogEntry>::empty(), first);
    assert(Seq::<LogEntry>::empty().push(first) =~= seq![first]);
    lemma_none_to_multiset(Seq::<LogEntry>::empty());
    assert((seq![first] + rest).to_multiset() =~= rest.to_multiset().insert(first));
}

/// An arrival loses no entry and makes none: what it closes and what it
/// leaves open are the entries that were open, each once.
pub proof fn lemma_cascade_keeps(stack: Seq<LogEntry>, this: LogEntry)
    ensures
        held(still_open(stack, this), closed_by(stack, this)) == stack.to_multiset(),
        held(still_open(stack, this).push(this), closed_by(stack, this))
            == stack.to_multiset().insert(this),
    decreases stack.len(),
{
    let kept = still_open(stack, this);
    let closed = closed_by(stack, this);
    if stack.len() == 0 || stack.last().is_root_of(this) {
        lemma_none_to_multiset(entries_of(closed));
        assert(held(kept, closed) =~= stack.to_multiset());
    } else {
        let below = stack.drop_last();
        lemma_cascade_keeps(below, this);
        assert(stack =~= below.push(stack.last()));
        to_multiset_build(below, stack.last());
        assert(entries_of(closed) =~= seq![stack.last()] + entries_of(closed_by(below, this)));
        lemma_front_to_multiset(stack.last(), entries_of(closed_by(below, this)));
        assert(held(kept, closed) =~= stack.to_multiset());
    }
    to_multiset_build(kept, this);
    assert(held(kept.push(this), closed) =~= stack.to_multiset().insert(this));
}

/// Closing a whole stack loses no entry and makes none.
pub proof fn lemma_drained_keeps(stack: Seq<LogEntry>, time: int)
    ensures
        entries_of(drained(stack, time)).to_multiset() == stack.to_multiset(),
    decreases stack.len(),
{
    if stack.len() == 0 {
        assert(entries_of(drained(stack, time)) =~= stack);
    } else {
        let below = stack.drop_last();
        lemma_drained_keeps(below, time);
        assert(stack =~= below.push(stack.last()));
        to_multiset_build(below, stack.last());
        assert(entries_of(drained(stack, time)) =~= seq![stack.last()] + entries_of(
            drained(below, time),
        ));
        lemma_front_to_multiset(stack.last(), entries_of(drained(below, time)));
    }
}

} // verus!
