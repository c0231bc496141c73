//! The order on keys that the tree relies on.
use vstd::prelude::*;
use std::cmp::Ordering;
use vstd::laws_cmp::obeys_cmp;
use vstd::std_specs::cmp::{OrdSpec, PartialOrdSpec, PartialEqSpec};

verus! {

/// The key type's `Ord` keeps the laws that `Ord` documents: `cmp`,
/// `partial_cmp` and `==` agree, and they form a total order.
pub open spec fn lawful_order<T: Ord>() -> bool {
    obeys_cmp::<T>()
}

/// `a` comes strictly before `b` in the key order.
pub open spec fn key_lt<T: Ord>(a: T, b: T) -> bool {
    a.cmp_spec(&b) == Ordering::Less
}

/// Neither of `a` and `b` comes before the other: they compare equal.
pub open spec fn key_equiv<T: Ord>(a: T, b: T) -> bool {
    !key_lt(a, b) && !key_lt(b, a)
}

/// `key_lt` is irreflexive and asymmetric.
pub proof fn lemma_key_order<T: Ord>()
    requires
        lawful_order::<T>(),
    ensures
        forall|a: T| !#[trigger] key_lt(a, a),
        forall|a: T, b: T| #[trigger] key_lt(a, b) ==> !key_lt(b, a),
{
    lemma_cmp_agrees::<T>();
}

/// What a lawful order gives: `cmp` agrees with `key_lt` and `key_equiv`,
/// and `key_lt` is irreflexive and asymmetric.
pub proof fn lemma_cmp_agrees<T: Ord>()
    requires
        lawful_order::<T>(),
    ensures
        T::obeys_cmp_spec(),
        forall|a: T, b: T| #[trigger] a.cmp_spec(&b) == Ordering::Equal <==> key_equiv(a, b),
        forall|a: T, b: T| #[trigger] a.cmp_spec(&b) == Ordering::Greater <==> key_lt(b, a),
        forall|a: T| !#[trigger] key_lt(a, a),
        forall|a: T, b: T| #[trigger] key_lt(a, b) ==> !key_lt(b, a),
{
    reveal(vstd::laws_cmp::obeys_cmp_partial_ord);
    reveal(vstd::laws_cmp::obeys_cmp_ord);
    reveal(vstd::laws_cmp::obeys_partial_cmp_spec_properties);
    assert forall|a: T, b: T| #[trigger] a.cmp_spec(&b) == Ordering::Greater <==> key_lt(b, a) by {
        assert(a.partial_cmp_spec(&b) == Some(a.cmp_spec(&b)));
        assert(b.partial_cmp_spec(&a) == Some(b.cmp_spec(&a)));
    }
    assert forall|a: T| !#[trigger] key_lt(a, a) by {
        assert(a.partial_cmp_spec(&a) == Some(a.cmp_spec(&a)));
    }
}

/// `key_lt` is transitive.
pub proof fn lemma_key_lt_trans<T: Ord>(a: T, b: T, c: T)
    requires
        lawful_order::<T>(),
        key_lt(a, b),
        key_lt(b, c),
    ensures
        key_lt(a, c),
{
    reveal(vstd::laws_cmp::obeys_cmp_ord);
    reveal(vstd::laws_cmp::obeys_partial_cmp_spec_properties);
    assert(a.partial_cmp_spec(&b) == Some(a.cmp_spec(&b)));
    assert(b.partial_cmp_spec(&c) == Some(b.cmp_spec(&c)));
    assert(a.partial_cmp_spec(&c) == Some(a.cmp_spec(&c)));
}

/// Keys that compare equal are interchangeable in `key_lt`: what lies below
/// one lies below the other, and what lies above one lies above the other.
pub proof fn lemma_key_equiv_subst<T: Ord>(a: T, b: T, x: T)
    requires
        lawful_order::<T>(),
        key_equiv(a, b),
    ensures
        key_lt(x, a) ==> key_lt(x, b),
        key_lt(a, x) ==> key_lt(b, x),
        key_equiv(b, a),
{
    reveal(vstd::laws_cmp::obeys_cmp_partial_ord);
    reveal(vstd::laws_cmp::obeys_cmp_ord);
    reveal(vstd::laws_cmp::obeys_partial_cmp_spec_properties);
    reveal(vstd::laws_eq::obeys_eq_spec_properties);
    lemma_cmp_agrees::<T>();
    assert(a.partial_cmp_spec(&b) == Some(a.cmp_spec(&b)));
    assert(b.partial_cmp_spec(&a) == Some(b.cmp_spec(&a)));
    assert(x.partial_cmp_spec(&a) == Some(x.cmp_spec(&a)));
    assert(x.partial_cmp_spec(&b) == Some(x.cmp_spec(&b)));
    assert(a.partial_cmp_spec(&x) == Some(a.cmp_spec(&x)));
    assert(b.partial_cmp_spec(&x) == Some(b.cmp_spec(&x)));
    assert(a.eq_spec(&b));
    if key_lt(x, a) && !key_lt(x, b) {
        if key_lt(b, x) {
            lemma_key_lt_trans(b, x, a);
        } else {
            assert(x.eq_spec(&b));
            assert(b.eq_spec(&a));
            assert(x.eq_spec(&a));
        }
    }
    if key_lt(a, x) && !key_lt(b, x) {
        if key_lt(x, b) {
            lemma_key_lt_trans(a, x, b);
        } else {
            assert(b.eq_spec(&x));
            assert(a.eq_spec(&x));
        }
    }
}

/// The built-in integer types order their keys lawfully.
pub proof fn lemma_integer_orders_lawful()
    ensures
        lawful_order::<u8>(),
        lawful_order::<u16>(),
        lawful_order::<u32>(),
        lawful_order::<u64>(),
        lawful_order::<u128>(),
        lawful_order::<usize>(),
        lawful_order::<i8>(),
        lawful_order::<i16>(),
        lawful_order::<i32>(),
        lawful_order::<i64>(),
        lawful_order::<i128>(),
        lawful_order::<isize>(),
{
}

} // verus!
