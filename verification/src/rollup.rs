//! Absorbing the entries that a widened accumulator entry now reaches.
use crate::interval::{contains, holds};
use crate::order::{larger, total_order, upper};
use core::ops::Range;
use vstd::prelude::*;

verus! {

/// `bound` takes `e` in: it holds the start or the end of `e`.
pub open spec fn absorbs<T: Ord>(bound: Range<T>, e: Range<T>) -> bool {
    contains(bound, e.start) || contains(bound, e.end)
}

/// The end that `bound` has after the entries of `tail` were offered to it
/// from left to right, each absorbed entry widening it to the later end.
pub open spec fn reach<T: Ord>(tail: Seq<Range<T>>, bound: Range<T>) -> T
    decreases tail.len(),
{
    if tail.len() == 0 {
        bound.end
    } else {
        let far = reach(tail.drop_last(), bound);
        if absorbs(Range { start: bound.start, end: far }, tail.last()) {
            upper(far, tail.last().end)
        } else {
            far
        }
    }
}

/// The entries of `tail` that `bound` did not absorb, in their order.
pub open spec fn kept<T: Ord>(tail: Seq<Range<T>>, bound: Range<T>) -> Seq<Range<T>>
    decreases tail.len(),
{
    if tail.len() == 0 {
        Seq::empty()
    } else {
        let far = reach(tail.drop_last(), bound);
        if absorbs(Range { start: bound.start, end: far }, tail.last()) {
            kept(tail.drop_last(), bound)
        } else {
            kept(tail.drop_last(), bound).push(tail.last())
        }
    }
}

/// The accumulator after a rollup at `from`: the entries before `from` as
/// they were, the entry at `from` with its end moved to where `bound` reaches,
/// then the entries behind `from` that `bound` did not absorb.
pub open spec fn rolled<T: Ord>(acc: Seq<Range<T>>, from: int, bound: Range<T>) -> Seq<Range<T>>
    recommends
        0 <= from < acc.len(),
{
    let tail = acc.skip(from + 1);
    acc.take(from).push(Range { start: acc[from].start, end: reach(tail, bound) }) + kept(
        tail,
        bound,
    )
}

/// Lets the entry at `from`, widened to `bound`, absorb the entries behind it
/// that it now reaches.
///
/// The entries behind `from` are offered to `bound` from left to right. One
/// of which `bound` holds the start or the end is absorbed: it leaves the
/// accumulator, and `bound` ends at the later of the two ends from then on.
/// The others stay, in their order. The entries before `from` stay as they
/// are, and the entry at `from` keeps its start and gets the end that `bound`
/// has reached.
pub fn rollup<T: Ord + Copy>(intervals: Vec<Range<T>>, from: usize, bound: Range<T>) -> (result:
    Vec<Range<T>>)
    requires
        total_order::<T>(),
        from < intervals.len(),
    ensures
        result@ == rolled(intervals@, from as int, bound),
        result@.len() > from,
        result@.take(from as int) == intervals@.take(from as int),
        result@[from as int].start == intervals@[from as int].start,
{
    let ghost tail = intervals@.skip(from + 1);
    let mut entries = intervals;
    let mut reached = Range { start: bound.start, end: bound.end };
    let mut right: Vec<Range<T>> = Vec::new();
    let mut k: usize = from + 1;
    while k < entries.len()
        invariant
            total_order::<T>(),
            from < k <= entries.len(),
            entries@ == intervals@,
            tail == intervals@.skip(from + 1),
            reached.start == bound.start,
            reached.end == reach(tail.take(k - from - 1), bound),
            right@ == kept(tail.take(k - from - 1), bound),
        decreases entries.len() - k,
    {
        let start = entries[k].start;
        let end = entries[k].end;
        proof {
            let seen = tail.take(k - from);
            assert(seen.drop_last() == tail.take(k - from - 1));
            assert(seen.last() == entries@[k as int]);
        }
        if holds(&reached, start) || holds(&reached, end) {
            reached.end = larger(reached.end, end);
        } else {
            right.push(Range { start, end });
        }
        k += 1;
    }
    proof {
        assert(tail.take(k - from - 1) == tail);
    }
    entries[from].end = reached.end;
    entries.truncate(from + 1);
    entries.append(&mut right);
    proof {
        assert(entries@ == rolled(intervals@, from as int, bound));
        assert(entries@.take(from as int) == intervals@.take(from as int));
    }
    entries
}

} // verus!
