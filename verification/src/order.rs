//! The order on items, as the heap sees it.
//!
//! The heap compares items with `<` and `>=`. What those operators return is
//! given by the spec functions that `vstd` attaches to the comparison traits;
//! this module names the relations the heap needs and derives, from the laws
//! of comparison, that `le` is a total preorder: any two items are related,
//! and items that are tied need not be equal.

use core::cmp::Ordering;
use vstd::laws_cmp::{
    obeys_cmp, obeys_cmp_ord, obeys_cmp_partial_ord, obeys_partial_cmp_spec_properties,
};
use vstd::laws_eq::obeys_eq_spec_properties;
use vstd::prelude::*;
use vstd::std_specs::cmp::{OrdSpec, PartialEqSpec, PartialOrdSpec};

verus! {

/// `T`'s comparison operators compute a lawful order: `<`, `>=` and the
/// others agree with one comparison function, which relates any two items,
/// and whose "less" and "greater" are transitive and converse to each other.
pub open spec fn total_order<T: Ord>() -> bool {
    obeys_cmp::<T>()
}

/// `a` is strictly below `b`: what `a < b` computes.
pub open spec fn lt<T: Ord>(a: T, b: T) -> bool {
    a.partial_cmp_spec(&b) == Some(Ordering::Less)
}

/// `a` is below or equivalent to `b`: what `a <= b` and `b >= a` compute.
pub open spec fn le<T: Ord>(a: T, b: T) -> bool {
    a.partial_cmp_spec(&b) == Some(Ordering::Less) || a.partial_cmp_spec(&b) == Some(
        Ordering::Equal,
    )
}

/// `a` is above or equivalent to `b`: what `a >= b` computes.
pub open spec fn ge<T: Ord>(a: T, b: T) -> bool {
    a.partial_cmp_spec(&b) == Some(Ordering::Greater) || a.partial_cmp_spec(&b) == Some(
        Ordering::Equal,
    )
}

/// `a` and `b` are tied: neither is strictly below the other.
pub open spec fn tied<T: Ord>(a: T, b: T) -> bool {
    le(a, b) && le(b, a)
}

/// The comparison operators of a lawful order compute `lt`, `le` and `ge`.
pub proof fn lemma_operators_obey<T: Ord>()
    requires
        total_order::<T>(),
    ensures
        T::obeys_partial_cmp_spec(),
{
    reveal(obeys_cmp_partial_ord);
}

/// Any two items are related: if `a` is not strictly below `b`, then `b` is
/// below or equivalent to `a`; and `ge(a, b)` says the same as `le(b, a)`.
pub proof fn lemma_le_total<T: Ord>(a: T, b: T)
    requires
        total_order::<T>(),
    ensures
        lt(a, b) || le(b, a),
        lt(a, b) ==> le(a, b) && !le(b, a),
        le(b, a) <==> ge(a, b),
{
    reveal(obeys_cmp_partial_ord);
    reveal(obeys_cmp_ord);
    reveal(obeys_partial_cmp_spec_properties);
    reveal(obeys_eq_spec_properties);
    assert(a.partial_cmp_spec(&b) == Some(a.cmp_spec(&b)));
    assert(b.partial_cmp_spec(&a) == Some(b.cmp_spec(&a)));
}

/// Every item is below or equivalent to itself.
pub proof fn lemma_le_reflexive<T: Ord>(a: T)
    requires
        total_order::<T>(),
    ensures
        le(a, a),
{
    lemma_le_total(a, a);
}

/// `le` is transitive.
pub proof fn lemma_le_transitive<T: Ord>(a: T, b: T, c: T)
    requires
        total_order::<T>(),
        le(a, b),
        le(b, c),
    ensures
        le(a, c),
{
    lemma_le_total(a, b);
    lemma_le_total(b, a);
    lemma_le_total(b, c);
    lemma_le_total(c, b);
    lemma_le_total(a, c);
    lemma_le_total(c, a);
    reveal(obeys_cmp_partial_ord);
    reveal(obeys_cmp_ord);
    reveal(obeys_partial_cmp_spec_properties);
    reveal(obeys_eq_spec_properties);
    if !le(a, c) {
        // then c < a
        assert(lt(c, a));
        if lt(a, b) {
            // c < a < b, so c < b, against b <= c
            assert(lt(c, b));
        } else if lt(b, c) {
            // b < c < a, so b < a, against a <= b
            assert(lt(b, a));
        } else {
            // a ~ b ~ c, so a ~ c
            assert(a.eq_spec(&b));
            assert(b.eq_spec(&c));
            assert(a.eq_spec(&c));
        }
    }
}

} // verus!
