//! What the library asks of an element type's `Ord`: that it is a total
//! order whose `Equal` means equality of values.

use std::cmp::Ordering;
use vstd::laws_cmp::obeys_cmp;
use vstd::laws_eq::obeys_concrete_eq;
use super::sorted::strict_order;
use vstd::prelude::*;
use vstd::std_specs::cmp::OrdSpec;
use vstd::std_specs::cmp::PartialEqSpec;
use vstd::std_specs::cmp::PartialOrdSpec;

verus! {

/// `a` sorts strictly before `b`.
pub open spec fn lt<T: Ord>(a: T, b: T) -> bool {
    a.cmp_spec(&b) == Ordering::Less
}

/// `a` sorts before `b`, or is `b`.
pub open spec fn le<T: Ord>(a: T, b: T) -> bool {
    lt(a, b) || a == b
}

/// The comparison operators of `T` follow its specification, the
/// specification is a total order, and two values compare equal only if they
/// are the same value.
pub open spec fn total_order<T: Ord>() -> bool {
    obeys_cmp::<T>() && obeys_concrete_eq::<T>()
}

/// The order laws in the form the proofs of this crate use them.
pub proof fn lemma_total_order<T: Ord>()
    requires
        total_order::<T>(),
    ensures
        forall|a: T| !#[trigger] lt(a, a),
        forall|a: T, b: T| #[trigger] lt(a, b) ==> !lt(b, a),
        forall|a: T, b: T| #[trigger] lt(a, b) || a == b || lt(b, a),
        forall|a: T, b: T, c: T| #[trigger] lt(a, b) && #[trigger] lt(b, c) ==> lt(a, c),
{
    reveal(vstd::laws_cmp::obeys_cmp_ord);
    reveal(vstd::laws_cmp::obeys_cmp_partial_ord);
    reveal(vstd::laws_cmp::obeys_partial_cmp_spec_properties);
    reveal(vstd::laws_eq::obeys_concrete_eq);
    assert forall|a: T, b: T| #[trigger] lt(a, b) || a == b || lt(b, a) by {
        let _ = a.partial_cmp_spec(&b);
        let _ = b.partial_cmp_spec(&a);
    }
    assert forall|a: T, b: T| #[trigger] lt(a, b) implies !lt(b, a) by {
        let _ = a.partial_cmp_spec(&b);
        let _ = b.partial_cmp_spec(&a);
    }
    assert forall|a: T| !#[trigger] lt(a, a) by {
        let _ = a.partial_cmp_spec(&a);
    }
    assert forall|a: T, b: T, c: T| #[trigger] lt(a, b) && #[trigger] lt(b, c) implies lt(a, c) by {
        let _ = a.partial_cmp_spec(&b);
        let _ = b.partial_cmp_spec(&c);
        let _ = a.partial_cmp_spec(&c);
    }
}

/// The order of `T` as a relation.
pub open spec fn key_order<T: Ord>() -> spec_fn(T, T) -> bool {
    |a: T, b: T| lt(a, b)
}

/// The order of a lawful `T` is a strict total order.
pub proof fn lemma_key_order<T: Ord>()
    requires
        total_order::<T>(),
    ensures
        strict_order(key_order::<T>()),
{
    lemma_total_order::<T>();
    let less = key_order::<T>();
    assert forall|a: T, b: T| #[trigger] less(a, b) implies !less(b, a) by {
        assert(lt(a, b));
    }
    assert forall|a: T, b: T| #[trigger] less(a, b) || a == b || less(b, a) by {
        assert(lt(a, b) || a == b || lt(b, a));
    }
    assert forall|a: T, b: T, c: T| #[trigger] less(a, b) && #[trigger] less(b, c) implies less(
        a,
        c,
    ) by {
        assert(lt(a, b) && lt(b, c));
    }
}

/// Whether `a` sorts strictly before `b`, by the operators of `T`. The
/// answer is the specified one where `T` keeps the order laws.
pub fn is_lt<T: Ord>(a: &T, b: &T) -> (r: bool)
    ensures
        total_order::<T>() ==> r == lt(*a, *b),
{
    proof {
        reveal(vstd::laws_cmp::obeys_cmp_ord);
        reveal(vstd::laws_cmp::obeys_cmp_partial_ord);
    }
    *a < *b
}

/// Whether `a` and `b` are the same value.
pub fn is_eq<T: Ord>(a: &T, b: &T) -> (r: bool)
    ensures
        total_order::<T>() ==> r == (*a == *b),
{
    proof {
        reveal(vstd::laws_cmp::obeys_cmp_partial_ord);
        reveal(vstd::laws_eq::obeys_concrete_eq);
    }
    *a == *b
}

/// Whether `a` sorts before `b` or is `b`.
pub fn is_le<T: Ord>(a: &T, b: &T) -> (r: bool)
    ensures
        total_order::<T>() ==> r == le(*a, *b),
{
    proof {
        if total_order::<T>() {
            lemma_total_order::<T>();
        }
    }
    !is_lt(b, a)
}

} // verus!
