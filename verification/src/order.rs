//! The total order on data that the tree relies on, and what follows from it.

use core::cmp::Ordering;
use vstd::prelude::*;
use vstd::std_specs::cmp::OrdSpec;
use vstd::std_specs::cmp::PartialEqSpec;
use vstd::std_specs::cmp::PartialOrdSpec;

verus! {

/// The comparison of `D` is a total order, and two values compare equal only
/// if they are the same value. For the integer types this follows from the
/// laws that `vstd::laws_cmp::group_laws_cmp` and `vstd::laws_eq::group_laws_eq`
/// hold; `lemma_total_order_u64` shows it for one of them.
pub open spec fn total_order<D: Ord>() -> bool {
    &&& vstd::laws_cmp::obeys_cmp::<D>()
    &&& vstd::laws_eq::obeys_concrete_eq::<D>()
}

/// `a` comes strictly before `b`.
pub open spec fn lt<D: Ord>(a: D, b: D) -> bool {
    a.cmp_spec(&b) == Ordering::Less
}

/// `a` comes before `b` or is `b`.
pub open spec fn le<D: Ord>(a: D, b: D) -> bool {
    lt(a, b) || a == b
}

/// Of two values exactly one holds: the first comes first, they are the same,
/// or the second comes first.
pub proof fn lemma_trichotomy<D: Ord>(a: D, b: D)
    requires
        total_order::<D>(),
    ensures
        lt(a, b) || a == b || lt(b, a),
        !(lt(a, b) && a == b),
        !(lt(b, a) && a == b),
        !(lt(a, b) && lt(b, a)),
{
    lemma_three_way(a, b);
}

/// What each outcome of the three-way comparison means.
proof fn lemma_three_way<D: Ord>(a: D, b: D)
    requires
        total_order::<D>(),
    ensures
        a.cmp_spec(&b) == Ordering::Less <==> lt(a, b),
        a.cmp_spec(&b) == Ordering::Equal <==> a == b,
        a.cmp_spec(&b) == Ordering::Greater <==> lt(b, a),
{
    reveal(vstd::laws_cmp::obeys_cmp_partial_ord);
    reveal(vstd::laws_cmp::obeys_cmp_ord);
    reveal(vstd::laws_cmp::obeys_partial_cmp_spec_properties);
    reveal(vstd::laws_eq::obeys_concrete_eq);
    assert(a.partial_cmp_spec(&b) == Some(a.cmp_spec(&b)));
    assert(b.partial_cmp_spec(&a) == Some(b.cmp_spec(&a)));
    assert(a.eq_spec(&b) <==> a == b);
    assert(b.eq_spec(&a) <==> b == a);
}

/// The order is transitive.
pub proof fn lemma_lt_transitive<D: Ord>(a: D, b: D, c: D)
    requires
        total_order::<D>(),
        lt(a, b),
        lt(b, c),
    ensures
        lt(a, c),
{
    reveal(vstd::laws_cmp::obeys_cmp_partial_ord);
    reveal(vstd::laws_cmp::obeys_cmp_ord);
    reveal(vstd::laws_cmp::obeys_partial_cmp_spec_properties);
    assert(a.partial_cmp_spec(&b) == Some(a.cmp_spec(&b)));
    assert(b.partial_cmp_spec(&c) == Some(b.cmp_spec(&c)));
    assert(a.partial_cmp_spec(&c) == Some(a.cmp_spec(&c)));
}

/// `le` is transitive.
pub proof fn lemma_le_transitive<D: Ord>(a: D, b: D, c: D)
    requires
        total_order::<D>(),
        le(a, b),
        le(b, c),
    ensures
        le(a, c),
{
    if lt(a, b) && lt(b, c) {
        lemma_lt_transitive(a, b, c);
    }
}

/// Whether `a` comes strictly before `b`.
pub fn is_lt<D: Ord>(a: &D, b: &D) -> (r: bool)
    requires
        total_order::<D>(),
    ensures
        r == lt(*a, *b),
{
    proof {
        reveal(vstd::laws_cmp::obeys_cmp_ord);
    }
    match a.cmp(b) {
        Ordering::Less => true,
        _ => false,
    }
}

/// Whether `a` and `b` are the same value.
pub fn is_same<D: Ord>(a: &D, b: &D) -> (r: bool)
    requires
        total_order::<D>(),
    ensures
        r == (*a == *b),
{
    proof {
        reveal(vstd::laws_cmp::obeys_cmp_ord);
        lemma_three_way(*a, *b);
    }
    match a.cmp(b) {
        Ordering::Equal => true,
        _ => false,
    }
}

/// Whether `a` comes before `b` or is `b`.
pub fn is_le<D: Ord>(a: &D, b: &D) -> (r: bool)
    requires
        total_order::<D>(),
    ensures
        r == le(*a, *b),
{
    proof {
        reveal(vstd::laws_cmp::obeys_cmp_ord);
        lemma_three_way(*a, *b);
    }
    match a.cmp(b) {
        Ordering::Greater => false,
        _ => true,
    }
}

/// The unsigned 64-bit integers are totally ordered, by their size.
pub proof fn lemma_total_order_u64()
    ensures
        total_order::<u64>(),
        forall|a: u64, b: u64| #[trigger] lt(a, b) <==> a < b,
        forall|a: u64, b: u64| #[trigger] le(a, b) <==> a <= b,
{
    broadcast use vstd::laws_cmp::group_laws_cmp;
    broadcast use vstd::laws_eq::group_laws_eq;

}

} // verus!
