//! What holds of every merge, and what holds where every interval merged
//! holds a point.
use crate::interval::{all_proper, proper};
use crate::merger::{first_engaged, merged};
use crate::order::total_order;
use crate::reduced::{
    apart, ascending, lemma_reduced_form_of_itself, lemma_reduced_form_of_same_entries,
    lemma_reduced_form_same_points, lemma_reduced_form_unique, lemma_reduced_is_sorted, reduces,
    same_points,
};
use crate::upkeep::lemma_fold_keeps_reduced_form;
use core::ops::Range;
use vstd::prelude::*;

verus! {

/// The merge of non-empty intervals is their reduced form.
pub proof fn lemma_merge_reduces<T: Ord>(xs: Seq<Range<T>>)
    requires
        total_order::<T>(),
        all_proper(xs),
    ensures
        reduces(xs, merged(xs)),
    decreases xs.len(),
{
    if xs.len() > 0 {
        let front = xs.drop_last();
        assert forall|k: int| 0 <= k < front.len() implies proper(#[trigger] front[k]) by {
            assert(front[k] == xs[k]);
        }
        lemma_merge_reduces(front);
        assert(proper(xs[xs.len() - 1]));
        lemma_fold_keeps_reduced_form(front, merged(front), xs.last());
        assert(front.push(xs.last()) == xs);
    }
}

/// The merge of non-empty intervals is the only reduced form they have.
pub proof fn lemma_merge_is_the_reduced_form<T: Ord>(xs: Seq<Range<T>>, rs: Seq<Range<T>>)
    requires
        total_order::<T>(),
        all_proper(xs),
        reduces(xs, rs),
    ensures
        rs == merged(xs),
{
    lemma_merge_reduces(xs);
    lemma_reduced_form_unique(xs, rs, merged(xs));
}

/// Merging nothing gives nothing.
pub proof fn lemma_merge_of_none<T: Ord>(xs: Seq<Range<T>>)
    requires
        xs.len() == 0,
    ensures
        merged(xs) == Seq::<Range<T>>::empty(),
{
}

/// Merging a single interval gives that interval, whatever its bounds.
pub proof fn lemma_merge_of_one<T: Ord>(xs: Seq<Range<T>>)
    requires
        xs.len() == 1,
    ensures
        merged(xs) == xs,
{
    let none = xs.drop_last();
    assert(merged(none) == Seq::<Range<T>>::empty());
    assert(first_engaged(merged(none), xs.last()) == 0);
    assert(merged(xs) == Seq::<Range<T>>::empty().push(xs.last()));
    assert(Seq::<Range<T>>::empty().push(xs.last()) =~= xs);
}

/// The merge of non-empty intervals starts its entries in strictly ascending
/// order, lets no entry reach past the start of the next, and holds exactly
/// the points that the intervals hold.
pub proof fn lemma_merge_sorted_disjoint_covering<T: Ord>(xs: Seq<Range<T>>)
    requires
        total_order::<T>(),
        all_proper(xs),
    ensures
        ascending(merged(xs)),
        apart(merged(xs)),
        same_points(xs, merged(xs)),
{
    lemma_merge_reduces(xs);
    lemma_reduced_is_sorted(merged(xs));
    lemma_reduced_form_same_points(xs, merged(xs));
}

/// Merging the merge of non-empty intervals once more changes nothing.
pub proof fn lemma_merge_idempotent<T: Ord>(xs: Seq<Range<T>>)
    requires
        total_order::<T>(),
        all_proper(xs),
    ensures
        merged(merged(xs)) == merged(xs),
{
    let rs = merged(xs);
    lemma_merge_reduces(xs);
    lemma_merge_reduces(rs);
    lemma_reduced_form_of_itself(rs);
    lemma_reduced_form_unique(rs, merged(rs), rs);
}

/// The merge of non-empty intervals depends only on which intervals are
/// given: two collections in which the same intervals occur, however often
/// and in whatever order, merge to the same sequence.
pub proof fn lemma_merge_of_same_entries<T: Ord>(xs: Seq<Range<T>>, ys: Seq<Range<T>>)
    requires
        total_order::<T>(),
        all_proper(xs),
        forall|k: int| 0 <= k < xs.len() ==> ys.contains(#[trigger] xs[k]),
        forall|k: int| 0 <= k < ys.len() ==> xs.contains(#[trigger] ys[k]),
    ensures
        merged(xs) == merged(ys),
{
    assert forall|k: int| 0 <= k < ys.len() implies proper(#[trigger] ys[k]) by {
        assert(xs.contains(ys[k]));
        let i = choose|i: int| 0 <= i < xs.len() && xs[i] == ys[k];
        assert(proper(xs[i]));
    }
    lemma_merge_reduces(xs);
    lemma_merge_reduces(ys);
    lemma_reduced_form_of_same_entries(ys, xs, merged(ys));
    lemma_reduced_form_unique(xs, merged(xs), merged(ys));
}

/// The merge of non-empty intervals does not depend on the order in which
/// they are given: any rearrangement of them merges to the same sequence.
pub proof fn lemma_merge_order_independent<T: Ord>(xs: Seq<Range<T>>, ys: Seq<Range<T>>)
    requires
        total_order::<T>(),
        all_proper(xs),
        xs.to_multiset() == ys.to_multiset(),
    ensures
        merged(xs) == merged(ys),
{
    assert forall|k: int| 0 <= k < xs.len() implies ys.contains(#[trigger] xs[k]) by {
        assert(xs.contains(xs[k]));
        vstd::seq_lib::to_multiset_contains(xs, xs[k]);
        vstd::seq_lib::to_multiset_contains(ys, xs[k]);
    }
    assert forall|k: int| 0 <= k < ys.len() implies xs.contains(#[trigger] ys[k]) by {
        assert(ys.contains(ys[k]));
        vstd::seq_lib::to_multiset_contains(xs, ys[k]);
        vstd::seq_lib::to_multiset_contains(ys, ys[k]);
    }
    lemma_merge_of_same_entries(xs, ys);
}

} // verus!
