//! How a rollup and a fold keep the accumulator the reduced form of what was
//! folded into it.
use crate::interval::{contains, engulfs, proper};
use crate::merger::{
    engages, first_engaged, folded, lemma_first_engaged, widened_left, widened_right,
};
use crate::order::{le, lemma_order_chain, lemma_strict_order, lt, total_order};
use crate::reduced::{anchored, chained, housed, reduced, reduces, straddled};
use crate::rollup::{absorbs, kept, reach, rolled};
use core::ops::Range;
use vstd::prelude::*;

verus! {

/// What is behind position `n` of a reduced accumulator is reduced, and
/// starts at or after the end of the entry at `n`.
proof fn lemma_reduced_tail<T: Ord>(acc: Seq<Range<T>>, n: int)
    requires
        reduced(acc),
        0 <= n < acc.len(),
    ensures
        reduced(acc.skip(n + 1)),
        forall|j: int|
            0 <= j < acc.skip(n + 1).len() ==> le(
                acc[n].end,
                (#[trigger] acc.skip(n + 1)[j]).start,
            ),
{
    let tail = acc.skip(n + 1);
    assert forall|j: int| 0 <= j < tail.len() implies proper(#[trigger] tail[j]) by {
        assert(proper(acc[j + n + 1]));
    }
    assert forall|i: int, j: int| 0 <= i < j < tail.len() implies le(
        tail[i].end,
        tail[j].start,
    ) by {
        assert(le(acc[i + n + 1].end, acc[j + n + 1].start));
    }
    assert forall|j: int| 0 <= j < tail.len() implies le(
        acc[n].end,
        (#[trigger] tail[j]).start,
    ) by {
        assert(le(acc[n].end, acc[j + n + 1].start));
    }
}

/// How many entries a rollup takes out of `tail`.
pub open spec fn absorbed<T: Ord>(tail: Seq<Range<T>>, bound: Range<T>) -> int {
    tail.len() - kept(tail, bound).len()
}

/// On a reduced tail that starts at or after `bound`, a rollup absorbs a run
/// of entries at the front and keeps the rest: the absorbed entries end at or
/// before the end that `bound` reaches, the kept ones start at or after it,
/// and where that end is not the one `bound` had, it is the end of the last
/// absorbed entry, which starts before the end that `bound` had.
proof fn lemma_rollup_of_reduced<T: Ord>(tail: Seq<Range<T>>, bound: Range<T>)
    requires
        total_order::<T>(),
        reduced(tail),
        forall|j: int| 0 <= j < tail.len() ==> le(bound.start, (#[trigger] tail[j]).start),
    ensures
        0 <= absorbed(tail, bound) <= tail.len(),
        kept(tail, bound) == tail.skip(absorbed(tail, bound)),
        le(bound.end, reach(tail, bound)),
        forall|j: int|
            0 <= j < absorbed(tail, bound) ==> le((#[trigger] tail[j]).end, reach(tail, bound)),
        forall|j: int|
            absorbed(tail, bound) <= j < tail.len() ==> le(
                reach(tail, bound),
                (#[trigger] tail[j]).start,
            ),
        reach(tail, bound) == bound.end || (absorbed(tail, bound) > 0 && reach(tail, bound)
            == tail[absorbed(tail, bound) - 1].end && lt(
            tail[absorbed(tail, bound) - 1].start,
            bound.end,
        )),
    decreases tail.len(),
{
    lemma_strict_order::<T>();
    if tail.len() > 0 {
        let front = tail.drop_last();
        let e = tail.last();
        assert forall|j: int| 0 <= j < front.len() implies front[j] == tail[j] by {}
        assert(reduced(front));
        lemma_rollup_of_reduced(front, bound);
        let m = absorbed(front, bound);
        let far = reach(front, bound);
        if absorbs(Range { start: bound.start, end: far }, e) {
            if m < front.len() {
                let g = front[m];
                assert(g == tail[m]);
                assert(proper(g));
                assert(le(far, g.start));
                assert(le(g.end, e.start));
                assert(false);
            }
            assert(kept(front, bound) == Seq::<Range<T>>::empty());
            assert(kept(tail, bound) == tail.skip(tail.len() as int));
            if far != bound.end {
                assert(m > 0);
                assert(tail[m - 1] == front[m - 1]);
                assert(le(tail[m - 1].end, e.start));
                assert(false);
            }
            assert(proper(e));
        } else {
            assert(kept(tail, bound) == front.skip(m).push(e));
            assert(front.skip(m).push(e) == tail.skip(m));
            if m > 0 {
                assert(tail[m - 1] == front[m - 1]);
            }
        }
    } else {
        assert(kept(tail, bound) == tail.skip(0));
    }
}

/// Replacing a run of entries of a reduced sequence by one non-empty
/// interval that fits between the entries around the run gives a reduced
/// sequence.
proof fn lemma_splice_reduced<T: Ord>(acc: Seq<Range<T>>, n: int, k: int, r: Range<T>)
    requires
        reduced(acc),
        0 <= n <= k <= acc.len(),
        proper(r),
        forall|j: int| 0 <= j < n ==> le((#[trigger] acc[j]).end, r.start),
        forall|j: int| k <= j < acc.len() ==> le(r.end, (#[trigger] acc[j]).start),
    ensures
        reduced(acc.take(n).push(r) + acc.skip(k)),
{
    let out = acc.take(n).push(r) + acc.skip(k);
    assert forall|j: int| 0 <= j < out.len() implies proper(#[trigger] out[j]) by {
        if j < n {
            assert(proper(acc[j]));
        } else if j > n {
            assert(proper(acc[j - n - 1 + k]));
        }
    }
    assert forall|i: int, j: int| 0 <= i < j < out.len() implies le(
        out[i].end,
        out[j].start,
    ) by {
        if j < n {
            assert(le(acc[i].end, acc[j].start));
        } else if j == n {
            assert(le(acc[i].end, r.start));
        } else if i < n {
            assert(le(acc[i].end, acc[j - n - 1 + k].start));
        } else if i == n {
            assert(le(r.end, acc[j - n - 1 + k].start));
        } else {
            assert(le(acc[i - n - 1 + k].end, acc[j - n - 1 + k].start));
        }
    }
}

/// What a rollup does to a reduced accumulator whose entry at `from` was
/// widened to `w`, which reaches over it: the entries that it takes out are a
/// run right behind `from`, each of them within the widened entry as the
/// rollup leaves it; the entries behind the run start at or after the end of
/// that entry; and where that end is not the end of `w`, it is the end of the
/// last entry of the run, which starts before the end of `w`.
pub proof fn lemma_rollup_on_reduced<T: Ord>(acc: Seq<Range<T>>, from: int, w: Range<T>)
    requires
        total_order::<T>(),
        reduced(acc),
        0 <= from < acc.len(),
        engulfs(w, acc[from]),
    ensures
        ({
            let tail = acc.skip(from + 1);
            let far = reach(tail, w);
            let k = from + 1 + absorbed(tail, w);
            &&& from < k <= acc.len()
            &&& rolled(acc.update(from, w), from, w) == acc.take(from).push(
                (Range { start: w.start, end: far }),
            ) + acc.skip(k)
            &&& le(w.end, far)
            &&& forall|j: int|
                from < j < k ==> le(w.start, (#[trigger] acc[j]).start) && le(acc[j].end, far)
            &&& forall|j: int| k <= j < acc.len() ==> le(far, (#[trigger] acc[j]).start)
            &&& far == w.end || (from + 1 < k && far == acc[k - 1].end && lt(
                acc[k - 1].start,
                w.end,
            ))
        }),
{
    let i = acc[from];
    let tail = acc.skip(from + 1);
    assert(proper(i));
    lemma_reduced_tail(acc, from);
    assert forall|j: int| 0 <= j < tail.len() implies le(w.start, (#[trigger] tail[j]).start) by {
        lemma_order_chain(i.start, i.end, tail[j].start);
        lemma_order_chain(w.start, i.start, tail[j].start);
    }
    lemma_rollup_of_reduced(tail, w);
    let m = absorbed(tail, w);
    let far = reach(tail, w);
    let k = from + 1 + m;
    assert(acc.update(from, w).skip(from + 1) == tail);
    assert(acc.update(from, w).take(from) == acc.take(from));
    assert(tail.skip(m) == acc.skip(k));
    assert forall|j: int| from < j < k implies le(w.start, (#[trigger] acc[j]).start) && le(
        acc[j].end,
        far,
    ) by {
        assert(acc[j] == tail[j - from - 1]);
    }
    assert forall|j: int| k <= j < acc.len() implies le(far, (#[trigger] acc[j]).start) by {
        assert(acc[j] == tail[j - from - 1]);
    }
    if m > 0 {
        assert(acc[k - 1] == tail[m - 1]);
    }
}

/// A rollup keeps a reduced accumulator reduced: where the entry at `from`
/// was widened to `w`, which reaches over it and starts at or after the end
/// of every entry in front, the rollup at `from` with `w` gives a reduced
/// sequence.
pub proof fn lemma_rollup_keeps_reduced<T: Ord>(acc: Seq<Range<T>>, from: int, w: Range<T>)
    requires
        total_order::<T>(),
        reduced(acc),
        0 <= from < acc.len(),
        engulfs(w, acc[from]),
        forall|j: int| 0 <= j < from ==> le((#[trigger] acc[j]).end, w.start),
    ensures
        reduced(rolled(acc.update(from, w), from, w)),
{
    let i = acc[from];
    let tail = acc.skip(from + 1);
    let r = Range { start: w.start, end: reach(tail, w) };
    let k = from + 1 + absorbed(tail, w);
    lemma_rollup_on_reduced(acc, from, w);
    assert(proper(r)) by {
        assert(proper(i));
        lemma_order_chain(w.start, i.start, i.end);
        lemma_order_chain(w.start, i.end, w.end);
        lemma_order_chain(w.start, w.end, r.end);
    }
    lemma_splice_reduced(acc, from, k, r);
}

/// What holds an interval together still does so after one more interval
/// has joined the collection.
proof fn lemma_chained_grows<T: Ord>(xs: Seq<Range<T>>, x: Range<T>, r: Range<T>)
    requires
        chained(xs, r),
    ensures
        chained(xs.push(x), r),
{
    let more = xs.push(x);
    let k = choose|k: int| 0 <= k < xs.len() && (#[trigger] xs[k]).start == r.start;
    assert(more[k] == xs[k]);
    assert forall|p: T| lt(r.start, p) && lt(p, r.end) implies #[trigger] straddled(more, p) by {
        assert(straddled(xs, p));
        let s = choose|s: int|
            0 <= s < xs.len() && lt((#[trigger] xs[s]).start, p) && lt(p, xs[s].end);
        assert(more[s] == xs[s]);
    }
}

/// Replacing a run of entries of a reduced form by one interval gives the
/// reduced form of the collection with `x` added, provided that the interval
/// fits between the entries around the run, reaches over the run and over
/// `x`, and is held together by the enlarged collection.
proof fn lemma_splice<T: Ord>(
    xs: Seq<Range<T>>,
    acc: Seq<Range<T>>,
    x: Range<T>,
    n: int,
    k: int,
    r: Range<T>,
)
    requires
        total_order::<T>(),
        reduces(xs, acc),
        0 <= n <= k <= acc.len(),
        proper(r),
        forall|j: int| 0 <= j < n ==> le((#[trigger] acc[j]).end, r.start),
        forall|j: int| k <= j < acc.len() ==> le(r.end, (#[trigger] acc[j]).start),
        forall|j: int| n <= j < k ==> engulfs(r, #[trigger] acc[j]),
        engulfs(r, x),
        chained(xs.push(x), r),
    ensures
        reduces(xs.push(x), acc.take(n).push(r) + acc.skip(k)),
{
    let more = xs.push(x);
    let out = acc.take(n).push(r) + acc.skip(k);
    lemma_splice_reduced(acc, n, k, r);
    assert forall|s: int| 0 <= s < more.len() implies #[trigger] housed(out, more[s]) by {
        if s == xs.len() {
            assert(engulfs(out[n], more[s]));
        } else {
            assert(more[s] == xs[s]);
            assert(housed(acc, xs[s]));
            let j = choose|j: int| 0 <= j < acc.len() && engulfs(#[trigger] acc[j], xs[s]);
            if j < n {
                assert(engulfs(out[j], more[s]));
            } else if j < k {
                assert(engulfs(r, acc[j]));
                lemma_order_chain(r.start, acc[j].start, xs[s].start);
                lemma_order_chain(xs[s].end, acc[j].end, r.end);
                assert(engulfs(out[n], more[s]));
            } else {
                assert(out[j - k + n + 1] == acc[j]);
                assert(engulfs(out[j - k + n + 1], more[s]));
            }
        }
    }
    assert forall|j: int| 0 <= j < out.len() implies #[trigger] chained(more, out[j]) by {
        if j < n {
            assert(chained(xs, acc[j]));
            lemma_chained_grows(xs, x, acc[j]);
        } else if j > n {
            assert(chained(xs, acc[j - n - 1 + k]));
            lemma_chained_grows(xs, x, acc[j - n - 1 + k]);
        }
    }
}

/// An entry that the scan for `x` passes ends at or before the start of `x`.
proof fn lemma_passed_entry<T: Ord>(i: Range<T>, x: Range<T>)
    requires
        total_order::<T>(),
        !engages(i, x),
    ensures
        le(i.end, x.start),
        lt(i.start, x.start),
{
    lemma_strict_order::<T>();
}

/// Widening the entry at `n` to `w` and rolling it up gives the reduced form
/// of the collection with `x` added, provided that `w` fits behind the
/// entries before `n`, reaches over the entry at `n` and over `x`, starts
/// where one of the two starts, and is held together up to its own end.
proof fn lemma_widen_and_roll<T: Ord>(
    xs: Seq<Range<T>>,
    acc: Seq<Range<T>>,
    x: Range<T>,
    n: int,
    w: Range<T>,
)
    requires
        total_order::<T>(),
        reduces(xs, acc),
        0 <= n < acc.len(),
        forall|j: int| 0 <= j < n ==> le((#[trigger] acc[j]).end, w.start),
        engulfs(w, acc[n]),
        engulfs(w, x),
        w.start == acc[n].start || w.start == x.start,
        forall|p: T| lt(w.start, p) && lt(p, w.end) ==> #[trigger] straddled(xs.push(x), p),
    ensures
        reduces(xs.push(x), rolled(acc.update(n, w), n, w)),
{
    let more = xs.push(x);
    let i = acc[n];
    let tail = acc.skip(n + 1);
    let far = reach(tail, w);
    let r = Range { start: w.start, end: far };
    let k = n + 1 + absorbed(tail, w);
    lemma_rollup_on_reduced(acc, n, w);
    assert(proper(r)) by {
        assert(proper(i));
        lemma_order_chain(w.start, i.start, i.end);
        lemma_order_chain(w.start, i.end, w.end);
        lemma_order_chain(w.start, w.end, far);
    }
    assert(anchored(more, r)) by {
        if w.start == x.start {
            assert(more[xs.len() as int] == x);
        } else {
            assert(chained(xs, i));
            lemma_chained_grows(xs, x, i);
        }
    }
    assert forall|p: T| lt(r.start, p) && lt(p, r.end) implies #[trigger] straddled(more, p) by {
        if !lt(p, w.end) {
            let last = acc[k - 1];
            assert(chained(xs, last));
            lemma_chained_grows(xs, x, last);
            lemma_order_chain(last.start, w.end, p);
            assert(lt(last.start, p) && lt(p, last.end));
        }
    }
    assert forall|j: int| n <= j < k implies engulfs(r, #[trigger] acc[j]) by {
        if j == n {
            lemma_order_chain(i.end, w.end, far);
        }
    }
    assert(engulfs(r, x)) by {
        lemma_order_chain(x.end, w.end, far);
    }
    lemma_splice(xs, acc, x, n, k, r);
}

/// The entries from the one at which the scan stops start at or after the
/// end of an interval that ends at or before the start of that entry.
proof fn lemma_fits_in_front<T: Ord>(acc: Seq<Range<T>>, x: Range<T>, n: int)
    requires
        total_order::<T>(),
        reduced(acc),
        0 <= n < acc.len(),
        le(x.end, acc[n].start),
    ensures
        forall|j: int| n <= j < acc.len() ==> le(x.end, (#[trigger] acc[j]).start),
{
    assert forall|j: int| n <= j < acc.len() implies le(x.end, (#[trigger] acc[j]).start) by {
        if j > n {
            assert(proper(acc[n]));
            assert(le(acc[n].end, acc[j].start));
            lemma_order_chain(acc[n].start, acc[n].end, acc[j].start);
            lemma_order_chain(x.end, acc[n].start, acc[j].start);
        }
    }
}

/// An entry that holds the start of `x`, widened to the later of the two
/// ends, reaches over both; a point strictly inside the widened entry is
/// strictly inside the entry or strictly inside `x`.
proof fn lemma_widened_right<T: Ord>(i: Range<T>, x: Range<T>, p: T)
    requires
        total_order::<T>(),
        proper(i),
        proper(x),
        contains(i, x.start),
    ensures
        engulfs(widened_right(i, x), i),
        engulfs(widened_right(i, x), x),
        lt(i.start, p) && lt(p, widened_right(i, x).end) ==> (lt(i.start, p) && lt(p, i.end)) || (
        lt(x.start, p) && lt(p, x.end)),
{
    lemma_strict_order::<T>();
}

/// An entry that holds the end of `x` but not its start, and does not start
/// at or after that end, starts where `x` starts once it is widened to the
/// earlier start, and then reaches over both; a point strictly inside the
/// widened entry is strictly inside the entry or strictly inside `x`.
proof fn lemma_widened_left<T: Ord>(i: Range<T>, x: Range<T>, p: T)
    requires
        total_order::<T>(),
        proper(i),
        proper(x),
        !le(x.end, i.start),
        !contains(i, x.start),
        contains(i, x.end),
    ensures
        widened_left(i, x).start == x.start,
        proper(widened_left(i, x)),
        engulfs(widened_left(i, x), i),
        engulfs(widened_left(i, x), x),
        lt(x.start, p) && lt(p, i.end) ==> (lt(i.start, p) && lt(p, i.end)) || (lt(x.start, p)
            && lt(p, x.end)),
{
    lemma_strict_order::<T>();
}

/// An interval that holds the start of an entry which holds neither of its
/// endpoints reaches over that entry.
proof fn lemma_reaches_over<T: Ord>(i: Range<T>, x: Range<T>)
    requires
        total_order::<T>(),
        proper(i),
        proper(x),
        !le(x.end, i.start),
        !contains(i, x.start),
        !contains(i, x.end),
        contains(x, i.start),
    ensures
        engulfs(x, i),
        engulfs(x, x),
{
    lemma_strict_order::<T>();
}

/// An interval holds itself together, and reaches over itself.
proof fn lemma_own_chain<T: Ord>(xs: Seq<Range<T>>, x: Range<T>)
    requires
        total_order::<T>(),
    ensures
        chained(xs.push(x), x),
        engulfs(x, x),
        forall|p: T| lt(x.start, p) && lt(p, x.end) ==> #[trigger] straddled(xs.push(x), p),
{
    let more = xs.push(x);
    assert(more[xs.len() as int] == x);
    assert forall|p: T| lt(x.start, p) && lt(p, x.end) implies #[trigger] straddled(more, p) by {
        assert(lt(more[xs.len() as int].start, p));
    }
    assert(engulfs(x, x)) by {
        lemma_strict_order::<T>();
    }
}

/// Folding a non-empty interval into the reduced form of a collection gives
/// the reduced form of the collection with that interval added.
pub proof fn lemma_fold_keeps_reduced_form<T: Ord>(
    xs: Seq<Range<T>>,
    acc: Seq<Range<T>>,
    x: Range<T>,
)
    requires
        total_order::<T>(),
        reduces(xs, acc),
        proper(x),
    ensures
        reduces(xs.push(x), folded(acc, x)),
{
    lemma_first_engaged(acc, x);
    lemma_own_chain(xs, x);
    let more = xs.push(x);
    let n = first_engaged(acc, x);
    assert forall|j: int| 0 <= j < n implies le((#[trigger] acc[j]).end, x.start) by {
        lemma_passed_entry(acc[j], x);
    }
    if n >= acc.len() {
        lemma_splice(xs, acc, x, n, n, x);
        assert(acc.take(n).push(x) + acc.skip(n) == acc.push(x));
    } else {
        let i = acc[n];
        assert(proper(i));
        assert(chained(xs, i));
        lemma_chained_grows(xs, x, i);
        if le(x.end, i.start) {
            lemma_fits_in_front(acc, x, n);
            lemma_splice(xs, acc, x, n, n, x);
            assert(acc.take(n).push(x) + acc.skip(n) == acc.insert(n, x));
        } else if contains(i, x.start) {
            let w = widened_right(i, x);
            lemma_widened_right(i, x, x.start);
            assert forall|j: int| 0 <= j < n implies le((#[trigger] acc[j]).end, w.start) by {
                assert(le(acc[j].end, acc[n].start));
            }
            assert forall|p: T| lt(w.start, p) && lt(p, w.end) implies #[trigger] straddled(
                more,
                p,
            ) by {
                lemma_widened_right(i, x, p);
                if lt(i.start, p) && lt(p, i.end) {
                    assert(straddled(more, p));
                } else {
                    assert(lt(more[xs.len() as int].start, p));
                }
            }
            lemma_widen_and_roll(xs, acc, x, n, w);
        } else if contains(i, x.end) {
            let r = widened_left(i, x);
            lemma_widened_left(i, x, x.start);
            assert(anchored(more, r)) by {
                assert(more[xs.len() as int].start == r.start);
            }
            assert forall|p: T| lt(r.start, p) && lt(p, r.end) implies #[trigger] straddled(
                more,
                p,
            ) by {
                lemma_widened_left(i, x, p);
                if lt(i.start, p) && lt(p, i.end) {
                    assert(straddled(more, p));
                } else {
                    assert(lt(more[xs.len() as int].start, p));
                }
            }
            assert(chained(more, r));
            assert forall|j: int| n + 1 <= j < acc.len() implies le(
                r.end,
                (#[trigger] acc[j]).start,
            ) by {
                assert(le(acc[n].end, acc[j].start));
            }
            assert forall|j: int| 0 <= j < n implies le((#[trigger] acc[j]).end, r.start) by {}
            lemma_splice(xs, acc, x, n, n + 1, r);
            assert(acc.take(n).push(r) + acc.skip(n + 1) == acc.update(n, r));
        } else {
            lemma_reaches_over(i, x);
            lemma_widen_and_roll(xs, acc, x, n, x);
        }
    }
}

} // verus!
