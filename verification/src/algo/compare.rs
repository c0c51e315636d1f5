//! What the algorithms of this crate ask of a comparison function that their
//! caller hands in, and what its answers mean.
//!
//! A comparison function is executable code: all that is known of it is
//! which answers it may give. The contracts here speak of every order that
//! the function's answers agree with; for the comparison of an `Ord` type
//! that is the order of the type.

use crate::util::order::key_order;
use crate::util::order::lemma_total_order;
use crate::util::order::lt;
use crate::util::order::total_order;
use std::cmp::Ordering;
use vstd::prelude::*;
use vstd::std_specs::cmp::OrdSpec;
use vstd::std_specs::cmp::PartialOrdSpec;

verus! {

/// `compare` may answer `o` when asked about `a` and `b`.
pub open spec fn says<T, F: Fn(&T, &T) -> Ordering>(compare: F, a: T, b: T, o: Ordering) -> bool {
    call_ensures(compare, (&a, &b), o)
}

/// `compare` can be asked about any two values.
pub open spec fn callable<T, F: Fn(&T, &T) -> Ordering>(compare: F) -> bool {
    forall|a: T, b: T| #[trigger] call_requires(compare, (&a, &b))
}

/// `less` orders values, some of which may sort alike: no value sorts on
/// both sides of another, and both "sorts before" and "does not sort after"
/// are transitive.
pub open spec fn weak_order<T>(less: spec_fn(T, T) -> bool) -> bool {
    &&& forall|a: T, b: T| #[trigger] less(a, b) ==> !less(b, a)
    &&& forall|a: T, b: T, c: T| #[trigger] less(a, b) && #[trigger] less(b, c) ==> less(a, c)
    &&& forall|a: T, b: T, c: T|
        !#[trigger] less(b, a) && !#[trigger] less(c, b) ==> !less(c, a)
}

/// The answers of `compare` agree with the order `less`: it answers `Less`
/// only where the first value sorts before the second, `Greater` only where
/// it sorts after, and `Equal` only where they sort alike.
pub open spec fn agrees<T, F: Fn(&T, &T) -> Ordering>(
    compare: F,
    less: spec_fn(T, T) -> bool,
) -> bool {
    &&& weak_order(less)
    &&& forall|a: T, b: T, o: Ordering| #[trigger]
        says(compare, a, b, o) ==> (o == Ordering::Less <==> less(a, b)) && (o
            == Ordering::Greater <==> less(b, a))
}

/// `a` and `b` sort alike in the order `less`.
pub open spec fn alike<T>(less: spec_fn(T, T) -> bool, a: T, b: T) -> bool {
    !less(a, b) && !less(b, a)
}

/// No element of `s` sorts before an earlier one.
pub open spec fn sorted<T>(s: Seq<T>, less: spec_fn(T, T) -> bool) -> bool {
    forall|i: int, j: int| 0 <= i < j < s.len() ==> !less(#[trigger] s[j], #[trigger] s[i])
}

/// `o` is how `a` compares with `b` in the order of `T`.
pub open spec fn natural<T: Ord>(a: T, b: T, o: Ordering) -> bool {
    o == a.cmp_spec(&b)
}

/// `compare` can always be asked and answers as the order of `T` does.
pub open spec fn follows_order<T: Ord, F: Fn(&T, &T) -> Ordering>(compare: F) -> bool {
    &&& callable(compare)
    &&& forall|a: T, b: T, o: Ordering| #[trigger] says(compare, a, b, o) ==> natural(a, b, o)
}

/// A comparison that answers as a lawful order of `T` does agrees with that
/// order, in which only a value and itself sort alike.
pub proof fn lemma_follows_order<T: Ord, F: Fn(&T, &T) -> Ordering>(compare: F)
    requires
        total_order::<T>(),
        follows_order(compare),
    ensures
        agrees(compare, key_order::<T>()),
        forall|a: T, b: T| #[trigger] alike(key_order::<T>(), a, b) <==> a == b,
{
    lemma_total_order::<T>();
    let less = key_order::<T>();
    assert forall|a: T, b: T| #[trigger] alike(less, a, b) <==> a == b by {
        assert(lt(a, b) || a == b || lt(b, a));
        assert(!lt(a, a));
    }
    assert forall|a: T, b: T| #[trigger] less(a, b) implies !less(b, a) by {
        assert(lt(a, b));
    }
    assert forall|a: T, b: T, c: T| #[trigger] less(a, b) && #[trigger] less(b, c) implies less(
        a,
        c,
    ) by {
        assert(lt(a, b) && lt(b, c));
    }
    assert forall|a: T, b: T, c: T| !#[trigger] less(b, a) && !#[trigger] less(c, b) implies !less(
        c,
        a,
    ) by {
        assert(lt(a, b) || a == b || lt(b, a));
        assert(lt(b, c) || b == c || lt(c, b));
        if lt(c, a) {
            if lt(a, b) {
                assert(lt(c, b));
            } else if lt(b, c) {
                assert(lt(b, a));
            }
        }
    }
    assert forall|a: T, b: T, o: Ordering| #[trigger] says(compare, a, b, o) implies (o
        == Ordering::Less <==> less(a, b)) && (o == Ordering::Greater <==> less(b, a)) by {
        lemma_natural(a, b, o);
    }
}

/// What a three-way comparison in a lawful order of `T` says.
pub proof fn lemma_natural<T: Ord>(a: T, b: T, o: Ordering)
    requires
        total_order::<T>(),
        natural(a, b, o),
    ensures
        o == Ordering::Less <==> lt(a, b),
        o == Ordering::Greater <==> lt(b, a),
        o == Ordering::Equal <==> a == b,
{
    lemma_total_order::<T>();
    assert(lt(a, b) || a == b || lt(b, a));
    assert(!lt(a, a));
    if lt(a, b) {
        assert(!lt(b, a));
    }
    reveal(vstd::laws_cmp::obeys_cmp_ord);
    reveal(vstd::laws_cmp::obeys_cmp_partial_ord);
    reveal(vstd::laws_cmp::obeys_partial_cmp_spec_properties);
    let _ = a.partial_cmp_spec(&b);
    let _ = b.partial_cmp_spec(&a);
}

/// The answer of `compare` about `a` and `b`.
pub fn ask<T, F: Fn(&T, &T) -> Ordering>(compare: &F, a: &T, b: &T) -> (o: Ordering)
    requires
        callable(*compare),
    ensures
        says(*compare, *a, *b, o),
{
    compare(a, b)
}

/// The three-way comparison of `T` itself.
pub fn order_of<T: Ord>(a: &T, b: &T) -> (o: Ordering)
    ensures
        total_order::<T>() ==> natural(*a, *b, o),
{
    proof {
        reveal(vstd::laws_cmp::obeys_cmp_ord);
    }
    a.cmp(b)
}

} // verus!
