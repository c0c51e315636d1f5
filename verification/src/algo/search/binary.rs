//! Search in a sorted slice by halving.

use crate::algo::compare::agrees;
use crate::algo::compare::alike;
use crate::algo::compare::ask;
use crate::algo::compare::callable;
use crate::algo::compare::lemma_follows_order;
use crate::algo::compare::natural;
use crate::algo::compare::order_of;
use crate::algo::compare::says;
use crate::algo::compare::sorted;
use crate::util::items::int_of;
use crate::util::order::key_order;
use crate::util::order::total_order;
use std::cmp::Ordering;
use vstd::prelude::*;

verus! {

/// `found` is the index of an element of `s` that sorts like `item` in the
/// order `less`, or nothing where there is none.
pub open spec fn some_alike<T>(
    s: Seq<T>,
    item: T,
    less: spec_fn(T, T) -> bool,
    found: Option<usize>,
) -> bool {
    match found {
        Some(i) => i < s.len() && alike(less, s[int_of(i)], item),
        None => forall|j: int| 0 <= j < s.len() ==> !alike(less, #[trigger] s[j], item),
    }
}

/// Every element of `s` before position `upto` sorts before `item`.
pub open spec fn below<T>(s: Seq<T>, upto: int, item: T, less: spec_fn(T, T) -> bool) -> bool {
    forall|j: int| 0 <= j < upto && j < s.len() ==> less(#[trigger] s[j], item)
}

/// Every element of `s` after position `from` sorts after `item`.
pub open spec fn above<T>(s: Seq<T>, from: int, item: T, less: spec_fn(T, T) -> bool) -> bool {
    forall|j: int| from < j < s.len() ==> less(item, #[trigger] s[j])
}

/// In a sorted sequence, what comes before an element that sorts before
/// `item` sorts before `item` too.
pub proof fn lemma_below<T>(s: Seq<T>, at: int, item: T, less: spec_fn(T, T) -> bool)
    requires
        crate::algo::compare::weak_order(less),
        sorted(s, less),
        0 <= at < s.len(),
        less(s[at], item),
    ensures
        below(s, at + 1, item, less),
{
    assert forall|j: int| 0 <= j < at + 1 && j < s.len() implies less(#[trigger] s[j], item) by {
        if j < at {
            assert(!less(s[at], s[j]));
            if !less(s[j], item) {
                assert(!less(s[at], item));
            }
        }
    }
}

/// In a sorted sequence, what comes after an element that sorts after
/// `item` sorts after `item` too.
pub proof fn lemma_above<T>(s: Seq<T>, at: int, item: T, less: spec_fn(T, T) -> bool)
    requires
        crate::algo::compare::weak_order(less),
        sorted(s, less),
        0 <= at < s.len(),
        less(item, s[at]),
    ensures
        above(s, at - 1, item, less),
{
    assert forall|j: int| at - 1 < j < s.len() implies less(item, #[trigger] s[j]) by {
        if j > at {
            assert(!less(s[j], s[at]));
            if !less(item, s[j]) {
                assert(!less(item, s[at]));
            }
        }
    }
}

/// The index of an element of the sorted `slice` that is `item`, if there
/// is one.
pub fn binary_search<T: Ord>(slice: &[T], item: &T) -> (r: Option<usize>)
    requires
        total_order::<T>(),
        sorted(slice@, key_order::<T>()),
        slice@.len() > 0,
        2 * slice@.len() <= usize::MAX,
    ensures
        r matches Some(i) ==> i < slice@.len() && slice@[int_of(i)] == *item,
        r is None ==> forall|j: int| 0 <= j < slice@.len() ==> slice@[j] != *item,
{
    let by_order = |x1: &T, x2: &T| -> (o: Ordering)
        ensures
            natural(*x1, *x2, o),
        { order_of(x1, x2) };
    proof {
        lemma_follows_order(by_order);
    }
    let r = binary_search_with(slice, item, &by_order);
    proof {
        assert(some_alike(slice@, *item, key_order::<T>(), r));
        assert forall|j: int| 0 <= j < slice@.len() && alike(
            key_order::<T>(),
            #[trigger] slice@[j],
            *item,
        ) implies slice@[j] == *item by {
        }
    }
    r
}

/// The index of an element of `slice` about which `compare` answers `Equal`
/// when asked about it and `item`, found by halving. In every order that
/// the answers agree with and in which `slice` is sorted, the result is an
/// element that sorts like `item`, and there is one unless the result is
/// `None`.
pub fn binary_search_with<T, F>(slice: &[T], item: &T, compare: &F) -> (r: Option<usize>) where
    F: Fn(&T, &T) -> Ordering,

    requires
        callable(*compare),
        slice@.len() > 0,
        2 * slice@.len() <= usize::MAX,
    ensures
        r matches Some(i) ==> i < slice@.len() && says(
            *compare,
            slice@[int_of(i)],
            *item,
            Ordering::Equal,
        ),
        forall|less: spec_fn(T, T) -> bool|
            agrees(*compare, less) && #[trigger] sorted(slice@, less) ==> some_alike(
                slice@,
                *item,
                less,
                r,
            ),
{
    let mut left: usize = 0;
    let mut right: usize = slice.len() - 1;
    while left <= right
        invariant
            callable(*compare),
            slice@.len() > 0,
            2 * slice@.len() <= usize::MAX,
            right < slice@.len(),
            left <= right + 1,
            forall|less: spec_fn(T, T) -> bool|
                agrees(*compare, less) && #[trigger] sorted(slice@, less) ==> below(
                    slice@,
                    int_of(left),
                    *item,
                    less,
                ) && above(slice@, int_of(right), *item, less),
        decreases right + 1 - left,
    {
        let mid: usize;
        if right == 0 {
            mid = right;
            match ask(compare, &slice[mid], item) {
                Ordering::Equal => {
                    return Some(mid);
                },
                _ => {
                    return None;
                },
            }
        } else {
            mid = (left + (right - 1)) / 2 + 1;
        }
        match ask(compare, &slice[mid], item) {
            Ordering::Equal => {
                return Some(mid);
            },
            _ => {},
        }
        match ask(compare, &slice[mid], item) {
            Ordering::Less => {
                proof {
                    assert forall|less: spec_fn(T, T) -> bool|
                        agrees(*compare, less) && #[trigger] sorted(slice@, less) implies below(
                        slice@,
                        mid + 1,
                        *item,
                        less,
                    ) by {
                        lemma_below(slice@, int_of(mid), *item, less);
                    }
                }
                left = mid + 1;
            },
            _ => {
                proof {
                    assert forall|less: spec_fn(T, T) -> bool|
                        agrees(*compare, less) && #[trigger] sorted(slice@, less) implies above(
                        slice@,
                        mid - 1,
                        *item,
                        less,
                    ) by {
                        lemma_above(slice@, int_of(mid), *item, less);
                    }
                }
                right = mid - 1;
            },
        }
    }
    None
}

} // verus!
