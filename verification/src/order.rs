//! Total orders on element types.
//!
//! The containers of this crate compare their elements with the operators of
//! `Ord`. Their contracts are stated over the relations `le` and `lt` below, and
//! hold for every element type whose comparison is a total order
//! (`total_order`). The primitive integers and tuples of them are such types.
use vstd::prelude::*;
use vstd::std_specs::cmp::{OrdSpec, PartialOrdSpec, PartialEqSpec};
use vstd::laws_cmp::obeys_cmp;
use vstd::laws_eq::obeys_concrete_eq;
use core::cmp::Ordering;

verus! {

/// The comparison operators of `T` form a total order, and two values compare
/// equal exactly when they are the same value.
pub open spec fn total_order<T: Ord>() -> bool {
    obeys_cmp::<T>() && obeys_concrete_eq::<T>()
}

/// `a` is ordered strictly before `b`.
pub open spec fn lt<T: Ord>(a: T, b: T) -> bool {
    a.cmp_spec(&b) == Ordering::Less
}

/// `a` is ordered before `b`, or is `b`.
pub open spec fn le<T: Ord>(a: T, b: T) -> bool {
    a.cmp_spec(&b) != Ordering::Greater
}

/// `lt` is the strict part of `le`, and of two values one is `le` the other.
pub broadcast proof fn lemma_lt_le<T: Ord>(a: T, b: T)
    requires
        total_order::<T>(),
    ensures
        #![trigger lt(a, b)]
        #![trigger le(a, b)]
        lt(a, b) <==> (le(a, b) && a != b),
        le(a, b) <==> !lt(b, a),
{
    reveal(vstd::laws_cmp::obeys_cmp_ord);
    reveal(vstd::laws_cmp::obeys_cmp_partial_ord);
    reveal(vstd::laws_cmp::obeys_partial_cmp_spec_properties);
    reveal(vstd::laws_eq::obeys_concrete_eq);
    reveal(vstd::laws_eq::obeys_eq_spec_properties);
    assert(a.partial_cmp_spec(&b) == Some(a.cmp_spec(&b)));
    assert(b.partial_cmp_spec(&a) == Some(b.cmp_spec(&a)));
}

/// `le` is reflexive.
pub broadcast proof fn lemma_le_refl<T: Ord>(a: T)
    requires
        total_order::<T>(),
    ensures
        #[trigger] le(a, a),
{
    lemma_lt_le(a, a);
}

/// `le` is transitive.
pub broadcast proof fn lemma_le_trans<T: Ord>(a: T, b: T, c: T)
    requires
        total_order::<T>(),
        #[trigger] le(a, b),
        #[trigger] le(b, c),
    ensures
        le(a, c),
{
    reveal(vstd::laws_cmp::obeys_cmp_ord);
    reveal(vstd::laws_cmp::obeys_cmp_partial_ord);
    reveal(vstd::laws_cmp::obeys_partial_cmp_spec_properties);
    reveal(vstd::laws_eq::obeys_concrete_eq);
    reveal(vstd::laws_eq::obeys_eq_spec_properties);
    assert(a.partial_cmp_spec(&b) == Some(a.cmp_spec(&b)));
    assert(b.partial_cmp_spec(&c) == Some(b.cmp_spec(&c)));
    assert(a.partial_cmp_spec(&c) == Some(a.cmp_spec(&c)));
    assert(c.partial_cmp_spec(&a) == Some(c.cmp_spec(&a)));
    assert(b.partial_cmp_spec(&a) == Some(b.cmp_spec(&a)));
    assert(c.partial_cmp_spec(&b) == Some(c.cmp_spec(&b)));
}

/// `lt` is transitive.
pub broadcast proof fn lemma_lt_trans<T: Ord>(a: T, b: T, c: T)
    requires
        total_order::<T>(),
        #[trigger] lt(a, b),
        #[trigger] lt(b, c),
    ensures
        lt(a, c),
{
    lemma_lt_le(a, b);
    lemma_lt_le(b, c);
    lemma_lt_le(a, c);
    lemma_lt_le(c, b);
    lemma_lt_le(b, a);
    lemma_le_trans(a, b, c);
    if a == c {
        lemma_le_trans(c, b, a);
    }
}

/// The facts about `le` and `lt` that hold in every total order.
pub broadcast group group_order {
    lemma_lt_le,
    lemma_le_refl,
    lemma_le_trans,
    lemma_lt_trans,
}

/// How one value stands to another in the order.
pub enum Rank {
    /// Ordered strictly before the other.
    Before,
    /// The same value as the other.
    Same,
    /// Ordered strictly after the other.
    After,
}

/// How `a` stands to `b` in the order.
pub fn compare<T: Ord>(a: &T, b: &T) -> (r: Rank)
    requires
        total_order::<T>(),
    ensures
        r is Before <==> lt(*a, *b),
        r is Same <==> *a == *b,
        r is After <==> lt(*b, *a),
{
    proof {
        lemma_lt_le(*a, *b);
        lemma_lt_le(*b, *a);
        reveal(vstd::laws_cmp::obeys_cmp_ord);
        reveal(vstd::laws_cmp::obeys_cmp_partial_ord);
        reveal(vstd::laws_cmp::obeys_partial_cmp_spec_properties);
        reveal(vstd::laws_eq::obeys_concrete_eq);
        reveal(vstd::laws_eq::obeys_eq_spec_properties);
        assert(a.partial_cmp_spec(b) == Some(a.cmp_spec(b)));
        assert(b.partial_cmp_spec(a) == Some(b.cmp_spec(a)));
    }
    match a.cmp(b) {
        Ordering::Less => Rank::Before,
        Ordering::Equal => Rank::Same,
        Ordering::Greater => Rank::After,
    }
}

/// Whether `a` is ordered strictly before `b`.
pub fn less<T: Ord>(a: &T, b: &T) -> (r: bool)
    requires
        total_order::<T>(),
    ensures
        r == lt(*a, *b),
{
    proof {
        reveal(vstd::laws_cmp::obeys_cmp_ord);
        reveal(vstd::laws_cmp::obeys_cmp_partial_ord);
    }
    *a < *b
}

/// The primitive integers are totally ordered by `<=`.
pub proof fn lemma_integers_total_order()
    ensures
        total_order::<u8>(),
        total_order::<u16>(),
        total_order::<u32>(),
        total_order::<u64>(),
        total_order::<usize>(),
        total_order::<i8>(),
        total_order::<i16>(),
        total_order::<i32>(),
        total_order::<i64>(),
        total_order::<isize>(),
        forall|a: u64, b: u64| #[trigger] le(a, b) <==> a <= b,
        forall|a: u64, b: u64| #[trigger] lt(a, b) <==> a < b,
        forall|a: i32, b: i32| #[trigger] le(a, b) <==> a <= b,
        forall|a: i32, b: i32| #[trigger] lt(a, b) <==> a < b,
        forall|a: i64, b: i64| #[trigger] le(a, b) <==> a <= b,
        forall|a: i64, b: i64| #[trigger] lt(a, b) <==> a < b,
        forall|a: usize, b: usize| #[trigger] le(a, b) <==> a <= b,
        forall|a: usize, b: usize| #[trigger] lt(a, b) <==> a < b,
{
    broadcast use vstd::laws_cmp::group_laws_cmp;
    broadcast use vstd::laws_eq::group_laws_eq;
}

/// Pairs of a `usize` and a `u64` are totally ordered by their first parts,
/// and by their second parts where the first parts are the same.
pub proof fn lemma_pairs_total_order()
    ensures
        total_order::<(usize, u64)>(),
        forall|a: (usize, u64), b: (usize, u64)|
            #[trigger] le(a, b) <==> (a.0 < b.0 || (a.0 == b.0 && a.1 <= b.1)),
{
    broadcast use vstd::laws_cmp::group_laws_cmp;
    broadcast use vstd::laws_eq::group_laws_eq;
}

} // verus!
