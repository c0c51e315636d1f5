//! Search from the front, one element after the other.

use crate::algo::compare::agrees;
use crate::algo::compare::alike;
use crate::algo::compare::ask;
use crate::algo::compare::callable;
use crate::algo::compare::lemma_follows_order;
use crate::algo::compare::natural;
use crate::algo::compare::order_of;
use crate::algo::compare::says;
use crate::util::items::int_of;
use crate::util::order::key_order;
use crate::util::order::total_order;
use std::cmp::Ordering;
use vstd::prelude::*;

verus! {

/// `found` is the index of the first element of `s` that sorts like `item`
/// in the order `less`, or nothing where there is none.
pub open spec fn first_alike<T>(
    s: Seq<T>,
    item: T,
    less: spec_fn(T, T) -> bool,
    found: Option<usize>,
) -> bool {
    match found {
        Some(i) => i < s.len() && alike(less, s[int_of(i)], item) && forall|j: int|
            0 <= j < i ==> !alike(less, #[trigger] s[j], item),
        None => forall|j: int| 0 <= j < s.len() ==> !alike(less, #[trigger] s[j], item),
    }
}

/// The index of the first element of `slice` that is `item`, if there is
/// one.
pub fn linear_search<T: Ord>(slice: &[T], item: &T) -> (r: Option<usize>)
    requires
        total_order::<T>(),
    ensures
        r matches Some(i) ==> i < slice@.len() && slice@[int_of(i)] == *item && forall|j: int|
            0 <= j < i ==> slice@[j] != *item,
        r is None ==> forall|j: int| 0 <= j < slice@.len() ==> slice@[j] != *item,
{
    let by_order = |x1: &T, x2: &T| -> (o: Ordering)
        ensures
            natural(*x1, *x2, o),
        { order_of(x1, x2) };
    proof {
        lemma_follows_order(by_order);
    }
    let r = linear_search_with(slice, item, &by_order);
    proof {
        assert(first_alike(slice@, *item, key_order::<T>(), r));
        assert forall|j: int| 0 <= j < slice@.len() && alike(
            key_order::<T>(),
            #[trigger] slice@[j],
            *item,
        ) implies slice@[j] == *item by {
        }
    }
    r
}

/// The index of the first element of `slice` about which `compare` answers
/// `Equal` when asked about it and `item`, if there is one. In every order
/// that the answers agree with, that is the first element that sorts like
/// `item`.
pub fn linear_search_with<T, F>(slice: &[T], item: &T, compare: &F) -> (r: Option<usize>) where
    F: Fn(&T, &T) -> Ordering,

    requires
        callable(*compare),
    ensures
        r matches Some(i) ==> i < slice@.len() && says(
            *compare,
            slice@[int_of(i)],
            *item,
            Ordering::Equal,
        ),
        forall|less: spec_fn(T, T) -> bool| #[trigger]
            agrees(*compare, less) ==> first_alike(slice@, *item, less, r),
{
    let mut i: usize = 0;
    while i < slice.len()
        invariant
            callable(*compare),
            i <= slice@.len(),
            forall|less: spec_fn(T, T) -> bool| #[trigger]
                agrees(*compare, less) ==> forall|j: int|
                    0 <= j < i ==> !alike(less, #[trigger] slice@[j], *item),
        decreases slice@.len() - i,
    {
        match ask(compare, &slice[i], item) {
            Ordering::Equal => {
                return Some(i);
            },
            _ => {},
        }
        i += 1;
    }
    None
}

} // verus!
