//! Half-open intervals and what it means for one to hold a point.
use crate::order::{le, lemma_comparison_outcomes, lt, total_order};
use core::ops::Range;
use vstd::prelude::*;

verus! {

/// `p` lies in `r`: at or after its start, strictly before its end.
pub open spec fn contains<T: Ord>(r: Range<T>, p: T) -> bool {
    le(r.start, p) && lt(p, r.end)
}

/// `r` holds at least one point: its start comes strictly before its end.
pub open spec fn proper<T: Ord>(r: Range<T>) -> bool {
    lt(r.start, r.end)
}

/// Every interval of `xs` holds at least one point.
pub open spec fn all_proper<T: Ord>(xs: Seq<Range<T>>) -> bool {
    forall|k: int| 0 <= k < xs.len() ==> proper(#[trigger] xs[k])
}

/// `r` reaches at least as far as `x` on both sides.
pub open spec fn engulfs<T: Ord>(r: Range<T>, x: Range<T>) -> bool {
    le(r.start, x.start) && le(x.end, r.end)
}

/// Some interval of `xs` holds `p`.
pub open spec fn covered<T: Ord>(xs: Seq<Range<T>>, p: T) -> bool {
    exists|k: int| 0 <= k < xs.len() && contains(#[trigger] xs[k], p)
}

/// Whether `p` lies in `r`.
pub fn holds<T: Ord + Copy>(r: &Range<T>, p: T) -> (b: bool)
    requires
        total_order::<T>(),
    ensures
        b == contains(*r, p),
{
    proof {
        lemma_comparison_outcomes::<T>();
    }
    r.contains(&p)
}

} // verus!
