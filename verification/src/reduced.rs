//! The reduced form of a collection of intervals, and why it is unique.
use crate::interval::{all_proper, contains, covered, engulfs, proper};
use crate::order::{le, lemma_order_chain, lemma_strict_order, lt, total_order};
use core::ops::Range;
use vstd::prelude::*;

verus! {

/// Every entry of `rs` holds a point and ends at or before the start of
/// every later entry.
pub open spec fn reduced<T: Ord>(rs: Seq<Range<T>>) -> bool {
    &&& all_proper(rs)
    &&& forall|i: int, j: int|
        #![trigger rs[i], rs[j]]
        0 <= i < j < rs.len() ==> le(rs[i].end, rs[j].start)
}

/// Some interval of `xs` holds `p` strictly inside: it starts before `p` and
/// ends after it.
pub open spec fn straddled<T: Ord>(xs: Seq<Range<T>>, p: T) -> bool {
    exists|k: int| 0 <= k < xs.len() && lt((#[trigger] xs[k]).start, p) && lt(p, xs[k].end)
}

/// Some interval of `xs` starts where `r` starts.
pub open spec fn anchored<T: Ord>(xs: Seq<Range<T>>, r: Range<T>) -> bool {
    exists|k: int| 0 <= k < xs.len() && (#[trigger] xs[k]).start == r.start
}

/// The intervals of `xs` hold `r` together: one of them starts where `r`
/// starts, and every point strictly inside `r` is strictly inside one of
/// them, so that `r` cannot be cut in two between intervals of `xs`.
pub open spec fn chained<T: Ord>(xs: Seq<Range<T>>, r: Range<T>) -> bool {
    &&& anchored(xs, r)
    &&& forall|p: T| lt(r.start, p) && lt(p, r.end) ==> #[trigger] straddled(xs, p)
}

/// Some entry of `rs` reaches at least as far as `x` on both sides.
pub open spec fn housed<T: Ord>(rs: Seq<Range<T>>, x: Range<T>) -> bool {
    exists|j: int| 0 <= j < rs.len() && engulfs(#[trigger] rs[j], x)
}

/// `rs` is the reduced form of `xs`: its entries are sorted and pairwise
/// disjoint, every interval of `xs` lies within one entry, and every entry is
/// held together by intervals of `xs`.
pub open spec fn reduces<T: Ord>(xs: Seq<Range<T>>, rs: Seq<Range<T>>) -> bool {
    &&& reduced(rs)
    &&& forall|k: int| 0 <= k < xs.len() ==> #[trigger] housed(rs, xs[k])
    &&& forall|j: int| 0 <= j < rs.len() ==> #[trigger] chained(xs, rs[j])
}

/// The entries of a reduced form start in strictly ascending order.
pub open spec fn ascending<T: Ord>(rs: Seq<Range<T>>) -> bool {
    forall|i: int, j: int|
        #![trigger rs[i], rs[j]]
        0 <= i < j < rs.len() ==> lt(rs[i].start, rs[j].start)
}

/// Each entry ends at or before the start of the entry that follows it.
pub open spec fn apart<T: Ord>(rs: Seq<Range<T>>) -> bool {
    forall|j: int| 0 <= j < rs.len() - 1 ==> le((#[trigger] rs[j]).end, rs[j + 1].start)
}

/// The two collections hold the same points.
pub open spec fn same_points<T: Ord>(xs: Seq<Range<T>>, rs: Seq<Range<T>>) -> bool {
    forall|p: T| #[trigger] covered(xs, p) <==> covered(rs, p)
}

/// A reduced sequence is strictly ascending by start, and its neighbours do
/// not overlap.
pub proof fn lemma_reduced_is_sorted<T: Ord>(rs: Seq<Range<T>>)
    requires
        total_order::<T>(),
        reduced(rs),
    ensures
        ascending(rs),
        apart(rs),
{
    assert forall|i: int, j: int| 0 <= i < j < rs.len() implies lt(rs[i].start, rs[j].start) by {
        assert(proper(rs[i]));
        assert(le(rs[i].end, rs[j].start));
        lemma_order_chain(rs[i].start, rs[i].end, rs[j].start);
    }
    assert forall|j: int| 0 <= j < rs.len() - 1 implies le(
        (#[trigger] rs[j]).end,
        rs[j + 1].start,
    ) by {
        assert(le(rs[j].end, rs[j + 1].start));
    }
}

/// A reduced form holds exactly the points that the collection holds.
pub proof fn lemma_reduced_form_same_points<T: Ord>(xs: Seq<Range<T>>, rs: Seq<Range<T>>)
    requires
        total_order::<T>(),
        all_proper(xs),
        reduces(xs, rs),
    ensures
        same_points(xs, rs),
{
    assert forall|p: T| #[trigger] covered(xs, p) <==> covered(rs, p) by {
        if covered(xs, p) {
            let k = choose|k: int| 0 <= k < xs.len() && contains(#[trigger] xs[k], p);
            assert(housed(rs, xs[k]));
            let j = choose|j: int| 0 <= j < rs.len() && engulfs(#[trigger] rs[j], xs[k]);
            lemma_order_chain(rs[j].start, xs[k].start, p);
            lemma_order_chain(p, xs[k].end, rs[j].end);
            assert(contains(rs[j], p));
        }
        if covered(rs, p) {
            let j = choose|j: int| 0 <= j < rs.len() && contains(#[trigger] rs[j], p);
            assert(chained(xs, rs[j]));
            if lt(rs[j].start, p) {
                assert(straddled(xs, p));
                let k = choose|k: int|
                    0 <= k < xs.len() && lt((#[trigger] xs[k]).start, p) && lt(p, xs[k].end);
                assert(contains(xs[k], p)) by {
                    lemma_strict_order::<T>();
                }
            } else {
                let k = choose|k: int| 0 <= k < xs.len() && (#[trigger] xs[k]).start == rs[j].start;
                assert(proper(xs[k]));
                assert(contains(xs[k], p)) by {
                    lemma_strict_order::<T>();
                }
            }
        }
    }
}

/// A reduced sequence is the reduced form of itself.
pub proof fn lemma_reduced_form_of_itself<T: Ord>(rs: Seq<Range<T>>)
    requires
        total_order::<T>(),
        reduced(rs),
    ensures
        reduces(rs, rs),
{
    assert forall|k: int| 0 <= k < rs.len() implies #[trigger] housed(rs, rs[k]) by {
        assert(engulfs(rs[k], rs[k])) by {
            lemma_strict_order::<T>();
        }
    }
    assert forall|j: int| 0 <= j < rs.len() implies #[trigger] chained(rs, rs[j]) by {
        assert(rs[j].start == rs[j].start);
        assert forall|p: T| lt(rs[j].start, p) && lt(p, rs[j].end) implies #[trigger] straddled(
            rs,
            p,
        ) by {
            assert(lt(rs[j].start, p) && lt(p, rs[j].end));
        }
    }
}

/// Whether a sequence is the reduced form of a collection depends only on
/// which intervals the collection holds, not on their order or number.
pub proof fn lemma_reduced_form_of_same_entries<T: Ord>(
    xs: Seq<Range<T>>,
    ys: Seq<Range<T>>,
    rs: Seq<Range<T>>,
)
    requires
        reduces(xs, rs),
        forall|k: int| 0 <= k < xs.len() ==> ys.contains(#[trigger] xs[k]),
        forall|k: int| 0 <= k < ys.len() ==> xs.contains(#[trigger] ys[k]),
    ensures
        reduces(ys, rs),
{
    assert forall|k: int| 0 <= k < ys.len() implies #[trigger] housed(rs, ys[k]) by {
        assert(xs.contains(ys[k]));
        let i = choose|i: int| 0 <= i < xs.len() && xs[i] == ys[k];
        assert(housed(rs, xs[i]));
    }
    assert forall|j: int| 0 <= j < rs.len() implies #[trigger] chained(ys, rs[j]) by {
        assert(chained(xs, rs[j]));
        let k = choose|k: int| 0 <= k < xs.len() && (#[trigger] xs[k]).start == rs[j].start;
        assert(ys.contains(xs[k]));
        let i = choose|i: int| 0 <= i < ys.len() && ys[i] == xs[k];
        assert(ys[i].start == rs[j].start);
        assert forall|p: T| lt(rs[j].start, p) && lt(p, rs[j].end) implies #[trigger] straddled(
            ys,
            p,
        ) by {
            assert(straddled(xs, p));
            let s = choose|s: int|
                0 <= s < xs.len() && lt((#[trigger] xs[s]).start, p) && lt(p, xs[s].end);
            assert(ys.contains(xs[s]));
            let t = choose|t: int| 0 <= t < ys.len() && ys[t] == xs[s];
            assert(lt(ys[t].start, p) && lt(p, ys[t].end));
        }
    }
}

/// An entry of one reduced form of a collection lies within an entry of any
/// other reduced form of it.
proof fn lemma_entry_engulfed<T: Ord>(
    xs: Seq<Range<T>>,
    a: Seq<Range<T>>,
    b: Seq<Range<T>>,
    j: int,
) -> (j2: int)
    requires
        total_order::<T>(),
        all_proper(xs),
        reduces(xs, a),
        reduces(xs, b),
        0 <= j < a.len(),
    ensures
        0 <= j2 < b.len(),
        engulfs(b[j2], a[j]),
{
    let r = a[j];
    assert(chained(xs, r));
    let k = choose|k: int| 0 <= k < xs.len() && (#[trigger] xs[k]).start == r.start;
    assert(housed(b, xs[k]));
    let j2 = choose|j2: int| 0 <= j2 < b.len() && engulfs(#[trigger] b[j2], xs[k]);
    let h = b[j2];
    assert(proper(xs[k]));
    if lt(h.end, r.end) {
        let p = h.end;
        lemma_order_chain(xs[k].start, xs[k].end, h.end);
        assert(straddled(xs, p));
        let k2 = choose|k2: int|
            0 <= k2 < xs.len() && lt((#[trigger] xs[k2]).start, p) && lt(p, xs[k2].end);
        assert(housed(b, xs[k2]));
        let j3 = choose|j3: int| 0 <= j3 < b.len() && engulfs(#[trigger] b[j3], xs[k2]);
        let g = b[j3];
        lemma_order_chain(g.start, xs[k2].start, p);
        lemma_order_chain(p, xs[k2].end, g.end);
        assert(lt(g.start, h.end) && lt(h.end, g.end));
        assert(proper(h));
        if j3 < j2 {
            assert(le(b[j3].end, b[j2].start));
        } else if j3 > j2 {
            assert(le(b[j2].end, b[j3].start));
        }
        assert(false) by {
            lemma_strict_order::<T>();
        }
    }
    j2
}

/// An entry of one reduced form of a collection is an entry of any other
/// reduced form of it.
proof fn lemma_entry_shared<T: Ord>(
    xs: Seq<Range<T>>,
    a: Seq<Range<T>>,
    b: Seq<Range<T>>,
    j: int,
) -> (j2: int)
    requires
        total_order::<T>(),
        all_proper(xs),
        reduces(xs, a),
        reduces(xs, b),
        0 <= j < a.len(),
    ensures
        0 <= j2 < b.len(),
        b[j2] == a[j],
{
    let j2 = lemma_entry_engulfed(xs, a, b, j);
    let j3 = lemma_entry_engulfed(xs, b, a, j2);
    assert(proper(a[j]));
    assert(proper(a[j3]));
    if j3 < j {
        assert(le(a[j3].end, a[j].start));
    } else if j3 > j {
        assert(le(a[j].end, a[j3].start));
    }
    assert(j3 == j && b[j2].start == a[j].start && b[j2].end == a[j].end) by {
        lemma_strict_order::<T>();
    }
    j2
}

/// Two reduced sequences with the same entries are the same sequence.
proof fn lemma_same_entries_same_sequence<T: Ord>(a: Seq<Range<T>>, b: Seq<Range<T>>)
    requires
        total_order::<T>(),
        reduced(a),
        reduced(b),
        forall|j: int| 0 <= j < a.len() ==> b.contains(#[trigger] a[j]),
        forall|j: int| 0 <= j < b.len() ==> a.contains(#[trigger] b[j]),
    ensures
        a == b,
    decreases a.len(),
{
    lemma_reduced_is_sorted(a);
    lemma_reduced_is_sorted(b);
    if a.len() == 0 {
        if b.len() > 0 {
            assert(a.contains(b[0]));
        }
        assert(a =~= b);
    } else {
        if b.len() == 0 {
            assert(b.contains(a[0]));
        }
        let la = a.len() - 1;
        let lb = b.len() - 1;
        assert(b.contains(a[la]));
        let ia = choose|i: int| 0 <= i < b.len() && b[i] == a[la];
        assert(a.contains(b[lb]));
        let ib = choose|i: int| 0 <= i < a.len() && a[i] == b[lb];
        if ia < lb {
            assert(lt(b[ia].start, b[lb].start));
        }
        if ib < la {
            assert(lt(a[ib].start, a[la].start));
        }
        assert(ia == lb) by {
            lemma_strict_order::<T>();
        }
        let a0 = a.drop_last();
        let b0 = b.drop_last();
        assert forall|j: int| 0 <= j < a0.len() implies b0.contains(#[trigger] a0[j]) by {
            assert(a0[j] == a[j]);
            assert(b.contains(a[j]));
            let i = choose|i: int| 0 <= i < b.len() && b[i] == a[j];
            assert(lt(a[j].start, a[la].start));
            assert(i != lb) by {
                lemma_strict_order::<T>();
            }
            assert(b0[i] == a0[j]);
        }
        assert forall|j: int| 0 <= j < b0.len() implies a0.contains(#[trigger] b0[j]) by {
            assert(b0[j] == b[j]);
            assert(a.contains(b[j]));
            let i = choose|i: int| 0 <= i < a.len() && a[i] == b[j];
            assert(lt(b[j].start, b[lb].start));
            assert(i != la) by {
                lemma_strict_order::<T>();
            }
            assert(a0[i] == b0[j]);
        }
        assert(reduced(a0)) by {
            assert forall|j: int| 0 <= j < a0.len() implies proper(#[trigger] a0[j]) by {
                assert(proper(a[j]));
            }
            assert forall|i: int, j: int| 0 <= i < j < a0.len() implies le(
                a0[i].end,
                a0[j].start,
            ) by {
                assert(le(a[i].end, a[j].start));
            }
        }
        assert(reduced(b0)) by {
            assert forall|j: int| 0 <= j < b0.len() implies proper(#[trigger] b0[j]) by {
                assert(proper(b[j]));
            }
            assert forall|i: int, j: int| 0 <= i < j < b0.len() implies le(
                b0[i].end,
                b0[j].start,
            ) by {
                assert(le(b[i].end, b[j].start));
            }
        }
        lemma_same_entries_same_sequence(a0, b0);
        assert(a == a0.push(a[la]));
        assert(b == b0.push(b[lb]));
    }
}

/// A collection of non-empty intervals has at most one reduced form.
pub proof fn lemma_reduced_form_unique<T: Ord>(
    xs: Seq<Range<T>>,
    a: Seq<Range<T>>,
    b: Seq<Range<T>>,
)
    requires
        total_order::<T>(),
        all_proper(xs),
        reduces(xs, a),
        reduces(xs, b),
    ensures
        a == b,
{
    assert forall|j: int| 0 <= j < a.len() implies b.contains(#[trigger] a[j]) by {
        let j2 = lemma_entry_shared(xs, a, b, j);
    }
    assert forall|j: int| 0 <= j < b.len() implies a.contains(#[trigger] b[j]) by {
        let j2 = lemma_entry_shared(xs, b, a, j);
    }
    lemma_same_entries_same_sequence(a, b);
}

} // verus!
