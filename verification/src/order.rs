//! The total order that the containers of this crate ask of their element and key types.
//!
//! The containers compare with the operators of `Ord`. Their contracts speak of that order
//! through [`less`] and [`less_eq`], and hold for every type whose comparisons are lawful
//! in the sense of [`lawful_order`]; the maps ask in addition, with [`total_order`], that
//! two keys compare equal only if they are the same value.

use core::cmp::Ordering;
use vstd::laws_cmp::{
    obeys_cmp,
    obeys_cmp_ord,
    obeys_cmp_partial_ord,
    obeys_partial_cmp_spec_properties,
};
use vstd::laws_eq::{obeys_concrete_eq, obeys_eq_spec_properties};
use vstd::prelude::*;
use vstd::std_specs::cmp::{OrdSpec, PartialEqSpec, PartialOrdSpec};

verus! {

/// The comparisons of `T` are consistent with one another and order all values of `T`:
/// every two values are comparable, and `<` is transitive and compatible with `==`.
pub open spec fn lawful_order<T: Ord>() -> bool {
    obeys_cmp::<T>()
}

/// `==` on `T` holds of two values exactly when they are the same value.
pub open spec fn exact_equality<T: PartialEq>() -> bool {
    obeys_concrete_eq::<T>()
}

/// [`lawful_order`] and [`exact_equality`]: two values rank the same only if they are the
/// same value.
pub open spec fn total_order<T: Ord>() -> bool {
    lawful_order::<T>() && exact_equality::<T>()
}

/// `a` comes strictly before `b`.
pub open spec fn less<T: Ord>(a: T, b: T) -> bool {
    a.cmp_spec(&b) == Ordering::Less
}

/// `a` does not come after `b`.
pub open spec fn less_eq<T: Ord>(a: T, b: T) -> bool {
    a.cmp_spec(&b) != Ordering::Greater
}

/// `a` and `b` rank the same.
pub open spec fn same_rank<T: Ord>(a: T, b: T) -> bool {
    a.cmp_spec(&b) == Ordering::Equal
}

/// Exactly one of `less(a, b)`, `same_rank(a, b)`, `less(b, a)` holds.
pub proof fn lemma_trichotomy<T: Ord>(a: T, b: T)
    requires
        lawful_order::<T>(),
    ensures
        less(a, b) <==> !less_eq(b, a),
        same_rank(a, b) <==> less_eq(a, b) && less_eq(b, a),
        same_rank(a, b) <==> same_rank(b, a),
        less_eq(a, b) || less_eq(b, a),
        less_eq(a, a),
{
    reveal(obeys_cmp_ord);
    reveal(obeys_cmp_partial_ord);
    reveal(obeys_partial_cmp_spec_properties);
    reveal(obeys_eq_spec_properties);
    assert(a.partial_cmp_spec(&b) == Some(a.cmp_spec(&b)));
    assert(b.partial_cmp_spec(&a) == Some(b.cmp_spec(&a)));
    assert(a.partial_cmp_spec(&a) == Some(a.cmp_spec(&a)));
    assert(a.eq_spec(&b) <==> b.eq_spec(&a));
}

/// `less_eq` is transitive, and strictly so when either step is strict.
pub proof fn lemma_transitive<T: Ord>(a: T, b: T, c: T)
    requires
        lawful_order::<T>(),
        less_eq(a, b),
        less_eq(b, c),
    ensures
        less_eq(a, c),
        less(a, b) || less(b, c) ==> less(a, c),
{
    reveal(obeys_cmp_ord);
    reveal(obeys_cmp_partial_ord);
    reveal(obeys_partial_cmp_spec_properties);
    reveal(obeys_eq_spec_properties);
    assert(a.partial_cmp_spec(&b) == Some(a.cmp_spec(&b)));
    assert(b.partial_cmp_spec(&a) == Some(b.cmp_spec(&a)));
    assert(b.partial_cmp_spec(&c) == Some(b.cmp_spec(&c)));
    assert(c.partial_cmp_spec(&b) == Some(c.cmp_spec(&b)));
    assert(a.partial_cmp_spec(&c) == Some(a.cmp_spec(&c)));
    assert(c.partial_cmp_spec(&a) == Some(c.cmp_spec(&a)));
    assert(a.eq_spec(&b) <==> b.eq_spec(&a));
    assert(b.eq_spec(&c) <==> c.eq_spec(&b));
    assert(a.eq_spec(&c) <==> c.eq_spec(&a));
}

/// Under a total order, values of the same rank are one value.
pub proof fn lemma_same_rank_is_equal<T: Ord>(a: T, b: T)
    requires
        total_order::<T>(),
    ensures
        same_rank(a, b) <==> a == b,
{
    reveal(obeys_cmp_ord);
    reveal(obeys_cmp_partial_ord);
    reveal(obeys_concrete_eq);
    assert(a.partial_cmp_spec(&b) == Some(a.cmp_spec(&b)));
}

/// The integer types are totally ordered.
pub proof fn lemma_integers_are_totally_ordered()
    ensures
        total_order::<u8>(),
        total_order::<u16>(),
        total_order::<u32>(),
        total_order::<u64>(),
        total_order::<usize>(),
        total_order::<i8>(),
        total_order::<i16>(),
        total_order::<i32>(),
        total_order::<i64>(),
        total_order::<isize>(),
{
    broadcast use vstd::laws_cmp::group_laws_cmp;
    broadcast use vstd::laws_eq::group_laws_eq;

}

/// Tests `a < b`.
pub fn is_less<T: Ord>(a: &T, b: &T) -> (r: bool)
    requires
        lawful_order::<T>(),
    ensures
        r == less(*a, *b),
{
    proof {
        reveal(obeys_cmp_ord);
        reveal(obeys_cmp_partial_ord);
        assert(a.partial_cmp_spec(b) == Some(a.cmp_spec(b)));
    }
    *a < *b
}

/// Tests `a <= b`.
pub fn is_less_eq<T: Ord>(a: &T, b: &T) -> (r: bool)
    requires
        lawful_order::<T>(),
    ensures
        r == less_eq(*a, *b),
{
    proof {
        reveal(obeys_cmp_ord);
        reveal(obeys_cmp_partial_ord);
        assert(a.partial_cmp_spec(b) == Some(a.cmp_spec(b)));
    }
    *a <= *b
}

/// Tests `a == b`.
pub fn is_equal<T: PartialEq>(a: &T, b: &T) -> (r: bool)
    requires
        exact_equality::<T>(),
    ensures
        r == (*a == *b),
{
    proof {
        reveal(obeys_concrete_eq);
    }
    *a == *b
}

/// Triples of integers are ordered by their first numbers, then their second, then their
/// third; so of two triples in order, the first numbers are in order.
pub proof fn lemma_triples_are_ordered(a: (u64, usize, usize), b: (u64, usize, usize))
    ensures
        lawful_order::<(u64, usize, usize)>(),
        less_eq(a, b) ==> a.0 <= b.0,
{
    broadcast use vstd::laws_cmp::group_laws_cmp;

}

} // verus!
