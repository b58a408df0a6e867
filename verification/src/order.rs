//! The order on interval bounds, as contracts see it.
use core::cmp::Ordering;
use vstd::laws_cmp::obeys_cmp;
use vstd::laws_eq::obeys_concrete_eq;
use vstd::prelude::*;
use vstd::std_specs::cmp::{OrdSpec, PartialEqSpec, PartialOrdSpec};

verus! {

/// The comparison of `T` is a total order: any two values are comparable, the
/// comparison is transitive, and only identical values compare as equal.
///
/// For the integer types both parts are lemmas of vstd, which its groups
/// `vstd::laws_cmp::group_laws_cmp` and `vstd::laws_eq::group_laws_eq` bring
/// in.
pub open spec fn total_order<T: Ord>() -> bool {
    obeys_cmp::<T>() && obeys_concrete_eq::<T>()
}

/// `a` comes strictly before `b`.
pub open spec fn lt<T: Ord>(a: T, b: T) -> bool {
    a.cmp_spec(&b) == Ordering::Less
}

/// `a` does not come after `b`.
pub open spec fn le<T: Ord>(a: T, b: T) -> bool {
    !lt(b, a)
}

/// The later of two bounds.
pub open spec fn upper<T: Ord>(a: T, b: T) -> T {
    if lt(b, a) {
        a
    } else {
        b
    }
}

/// The earlier of two bounds.
pub open spec fn lower<T: Ord>(a: T, b: T) -> T {
    if lt(b, a) {
        b
    } else {
        a
    }
}

/// What a total order gives for the three outcomes of a comparison: the
/// comparison operators of `T` agree with `lt`, and only identical values
/// compare as equal.
pub proof fn lemma_comparison_outcomes<T: Ord>()
    requires
        total_order::<T>(),
    ensures
        T::obeys_eq_spec(),
        T::obeys_partial_cmp_spec(),
        T::obeys_cmp_spec(),
        forall|a: T, b: T| #[trigger] a.partial_cmp_spec(&b) == Some(a.cmp_spec(&b)),
        forall|a: T, b: T| (#[trigger] a.cmp_spec(&b) == Ordering::Greater) <==> lt(b, a),
        forall|a: T, b: T| (#[trigger] a.cmp_spec(&b) == Ordering::Equal) <==> a == b,
{
    reveal(vstd::laws_cmp::obeys_cmp_partial_ord);
    reveal(vstd::laws_cmp::obeys_cmp_ord);
    reveal(vstd::laws_cmp::obeys_partial_cmp_spec_properties);
    reveal(vstd::laws_eq::obeys_eq_spec_properties);
    reveal(vstd::laws_eq::obeys_concrete_eq);
}

/// Under a total order `lt` is irreflexive, asymmetric and transitive, and
/// two different values are ordered one way or the other.
pub proof fn lemma_strict_order<T: Ord>()
    requires
        total_order::<T>(),
    ensures
        forall|a: T| !#[trigger] lt(a, a),
        forall|a: T, b: T| #[trigger] lt(a, b) ==> !lt(b, a),
        forall|a: T, b: T| a != b ==> #[trigger] lt(a, b) || lt(b, a),
        forall|a: T, b: T, c: T| #[trigger] lt(a, b) && #[trigger] lt(b, c) ==> lt(a, c),
{
    lemma_comparison_outcomes::<T>();
    reveal(vstd::laws_cmp::obeys_partial_cmp_spec_properties);
    assert forall|a: T, b: T, c: T| #[trigger] lt(a, b) && #[trigger] lt(b, c) implies lt(a, c) by {
        assert(a.partial_cmp_spec(&b) == Some(Ordering::Less));
        assert(b.partial_cmp_spec(&c) == Some(Ordering::Less));
        assert(a.partial_cmp_spec(&c) == Some(a.cmp_spec(&c)));
    }
}

/// Comparisons compose along a chain of three bounds.
pub proof fn lemma_order_chain<T: Ord>(a: T, b: T, c: T)
    requires
        total_order::<T>(),
    ensures
        le(a, b) && le(b, c) ==> le(a, c),
        lt(a, b) && le(b, c) ==> lt(a, c) && le(a, c),
        le(a, b) && lt(b, c) ==> lt(a, c) && le(a, c),
{
    lemma_strict_order::<T>();
}

/// Whether `a` does not come after `b`.
pub fn at_most<T: Ord + Copy>(a: T, b: T) -> (r: bool)
    requires
        total_order::<T>(),
    ensures
        r == le(a, b),
{
    proof {
        lemma_comparison_outcomes::<T>();
    }
    a <= b
}

/// The later of two bounds.
pub fn larger<T: Ord + Copy>(a: T, b: T) -> (r: T)
    requires
        total_order::<T>(),
    ensures
        r == upper(a, b),
{
    proof {
        lemma_comparison_outcomes::<T>();
    }
    T::max(a, b)
}

/// The earlier of two bounds.
pub fn smaller<T: Ord + Copy>(a: T, b: T) -> (r: T)
    requires
        total_order::<T>(),
    ensures
        r == lower(a, b),
{
    proof {
        lemma_comparison_outcomes::<T>();
    }
    T::min(a, b)
}

} // verus!
