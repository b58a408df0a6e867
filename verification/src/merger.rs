//! The fold that merges intervals one at a time into a sorted accumulator.
use crate::interval::{all_proper, contains, holds};
use crate::laws::{lemma_merge_of_one, lemma_merge_reduces, lemma_merge_sorted_disjoint_covering};
use crate::order::{at_most, larger, le, lower, smaller, total_order, upper};
use crate::reduced::{apart, ascending, reduces, same_points};
use crate::rollup::{rolled, rollup};
use core::ops::Range;
use vstd::prelude::*;

verus! {

/// The scan for `x` stops at the entry `i`: `x` ends at or before the start of
/// `i`, or `i` holds an endpoint of `x`, or `x` holds the start of `i`.
pub open spec fn engages<T: Ord>(i: Range<T>, x: Range<T>) -> bool {
    le(x.end, i.start) || contains(i, x.start) || contains(i, x.end) || contains(x, i.start)
}

/// The position of the first entry of `acc` at which the scan for `x` stops,
/// or the length of `acc` if it stops at none.
pub open spec fn first_engaged<T: Ord>(acc: Seq<Range<T>>, x: Range<T>) -> int
    decreases acc.len(),
{
    if acc.len() == 0 || engages(acc[0], x) {
        0
    } else {
        1 + first_engaged(acc.skip(1), x)
    }
}

/// The scan of `acc` for `x` passes every entry before `n` and stops at `n`.
pub open spec fn stops_at<T: Ord>(acc: Seq<Range<T>>, x: Range<T>, n: int) -> bool {
    &&& 0 <= n <= acc.len()
    &&& forall|j: int| 0 <= j < n ==> !engages(#[trigger] acc[j], x)
    &&& n < acc.len() ==> engages(acc[n], x)
}

/// The entry `i` with its end moved to the later of its own end and the end
/// of `x`.
pub open spec fn widened_right<T: Ord>(i: Range<T>, x: Range<T>) -> Range<T> {
    Range { start: i.start, end: upper(i.end, x.end) }
}

/// The entry `i` with its start moved to the earlier of its own start and
/// the start of `x`.
pub open spec fn widened_left<T: Ord>(i: Range<T>, x: Range<T>) -> Range<T> {
    Range { start: lower(i.start, x.start), end: i.end }
}

/// The accumulator `acc` after `x` was folded into it.
///
/// With `i` the first entry at which the scan for `x` stops: where `x` ends
/// at or before the start of `i`, `x` is put in front of `i`; where `i` holds
/// the start of `x`, `i` is widened to the later end and rolled up; where `i`
/// holds the end of `x`, `i` is widened to the earlier start; otherwise `x`
/// takes the place of `i` and is rolled up. Where the scan stops at no entry,
/// `x` is put at the end.
pub open spec fn folded<T: Ord>(acc: Seq<Range<T>>, x: Range<T>) -> Seq<Range<T>> {
    let n = first_engaged(acc, x);
    if n >= acc.len() {
        acc.push(x)
    } else {
        let i = acc[n];
        if le(x.end, i.start) {
            acc.insert(n, x)
        } else if contains(i, x.start) {
            rolled(acc.update(n, widened_right(i, x)), n, widened_right(i, x))
        } else if contains(i, x.end) {
            acc.update(n, widened_left(i, x))
        } else {
            rolled(acc.update(n, x), n, x)
        }
    }
}

/// The accumulator after the intervals of `xs` were folded into the empty
/// accumulator, first to last.
pub open spec fn merged<T: Ord>(xs: Seq<Range<T>>) -> Seq<Range<T>>
    decreases xs.len(),
{
    if xs.len() == 0 {
        Seq::empty()
    } else {
        folded(merged(xs.drop_last()), xs.last())
    }
}

/// The scan stops at `first_engaged`, and nowhere else.
pub proof fn lemma_first_engaged<T: Ord>(acc: Seq<Range<T>>, x: Range<T>)
    ensures
        stops_at(acc, x, first_engaged(acc, x)),
        forall|n: int| stops_at(acc, x, n) ==> n == first_engaged(acc, x),
    decreases acc.len(),
{
    if acc.len() == 0 || engages(acc[0], x) {
        assert forall|n: int| stops_at(acc, x, n) implies n == 0 by {
            if n > 0 {
                assert(!engages(acc[0], x));
            }
        }
    } else {
        let rest = acc.skip(1);
        lemma_first_engaged(rest, x);
        let m = first_engaged(rest, x);
        assert forall|j: int| 0 <= j < m + 1 implies !engages(#[trigger] acc[j], x) by {
            if j > 0 {
                assert(acc[j] == rest[j - 1]);
            }
        }
        if m + 1 < acc.len() {
            assert(acc[m + 1] == rest[m]);
        }
        assert forall|n: int| stops_at(acc, x, n) implies n == m + 1 by {
            assert(n > 0);
            assert forall|j: int| 0 <= j < n - 1 implies !engages(#[trigger] rest[j], x) by {
                assert(rest[j] == acc[j + 1]);
            }
            if n - 1 < rest.len() {
                assert(rest[n - 1] == acc[n]);
            }
            assert(stops_at(rest, x, n - 1));
        }
    }
}

/// Folds one interval into an accumulator.
pub fn fold_in<T: Ord + Copy>(acc: Vec<Range<T>>, interval: Range<T>) -> (result: Vec<Range<T>>)
    requires
        total_order::<T>(),
    ensures
        result@ == folded(acc@, interval),
{
    let ghost before = acc@;
    let mut entries = acc;
    let mut n: usize = 0;
    while n < entries.len()
        invariant
            total_order::<T>(),
            entries@ == before,
            before == acc@,
            n <= entries.len(),
            forall|j: int| 0 <= j < n ==> !engages(#[trigger] before[j], interval),
        decreases entries.len() - n,
    {
        let start = entries[n].start;
        let end = entries[n].end;
        if at_most(interval.end, start) {
            proof {
                assert(stops_at(before, interval, n as int));
                lemma_first_engaged(before, interval);
            }
            entries.insert(n, interval);
            return entries;
        }
        if holds(&entries[n], interval.start) {
            proof {
                assert(stops_at(before, interval, n as int));
                lemma_first_engaged(before, interval);
            }
            let wide = Range { start, end: larger(end, interval.end) };
            entries[n].end = wide.end;
            assert(entries@ == before.update(n as int, wide));
            return rollup(entries, n, wide);
        }
        if holds(&entries[n], interval.end) {
            proof {
                assert(stops_at(before, interval, n as int));
                lemma_first_engaged(before, interval);
            }
            entries[n].start = smaller(start, interval.start);
            assert(entries@ == before.update(n as int, widened_left(before[n as int], interval)));
            return entries;
        }
        if holds(&interval, start) {
            proof {
                assert(stops_at(before, interval, n as int));
                lemma_first_engaged(before, interval);
            }
            entries[n].start = interval.start;
            entries[n].end = interval.end;
            assert(entries@ == before.update(n as int, interval));
            return rollup(entries, n, interval);
        }
        n += 1;
    }
    proof {
        assert(stops_at(before, interval, n as int));
        lemma_first_engaged(before, interval);
    }
    entries.push(interval);
    entries
}

/// Merges all intervals: the result of folding them, first to last, into an
/// empty accumulator.
///
/// No intervals merge to none, and a single interval to itself. Where every
/// interval holds a point, the result is the reduced form of the input: its
/// entries start in strictly ascending order, none reaches past the start of
/// the next, and together they hold exactly the points of the input.
pub fn merge<T: Ord + Copy>(intervals: Vec<Range<T>>) -> (result: Vec<Range<T>>)
    requires
        total_order::<T>(),
    ensures
        result@ == merged(intervals@),
        intervals@.len() == 0 ==> result@ == Seq::<Range<T>>::empty(),
        intervals@.len() == 1 ==> result@ == intervals@,
        all_proper(intervals@) ==> reduces(intervals@, result@),
        all_proper(intervals@) ==> ascending(result@),
        all_proper(intervals@) ==> apart(result@),
        all_proper(intervals@) ==> same_points(intervals@, result@),
{
    let mut acc: Vec<Range<T>> = Vec::new();
    let mut k: usize = 0;
    while k < intervals.len()
        invariant
            total_order::<T>(),
            k <= intervals.len(),
            acc@ == merged(intervals@.take(k as int)),
        decreases intervals.len() - k,
    {
        let interval = Range { start: intervals[k].start, end: intervals[k].end };
        proof {
            let seen = intervals@.take(k + 1);
            assert(seen.drop_last() == intervals@.take(k as int));
            assert(seen.last() == interval);
        }
        acc = fold_in(acc, interval);
        k += 1;
    }
    proof {
        assert(intervals@.take(k as int) == intervals@);
        if intervals@.len() == 1 {
            lemma_merge_of_one(intervals@);
        }
        if all_proper(intervals@) {
            lemma_merge_reduces(intervals@);
            lemma_merge_sorted_disjoint_covering(intervals@);
        }
    }
    acc
}

} // verus!
