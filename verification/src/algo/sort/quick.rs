//! Sorting by arranging the slice around a pivot and sorting both sides.

use crate::algo::compare::agrees;
use crate::algo::compare::callable;
use crate::algo::compare::lemma_follows_order;
use crate::algo::compare::natural;
use crate::algo::compare::order_of;
use crate::algo::compare::sorted;
use crate::algo::find::kth::median_with;
use crate::algo::transform::partition::parted;
use crate::algo::transform::partition::partition_with;
use crate::util::items::int_of;
use crate::util::items::lemma_all_same_items;
use crate::util::items::lemma_joined_multiset;
use crate::util::items::len_of;
use crate::util::order::key_order;
use crate::util::order::total_order;
use std::cmp::Ordering;
use vstd::prelude::*;

verus! {

/// Sorts `slice`.
pub fn quick_sort<T: Ord>(slice: &mut [T])
    requires
        total_order::<T>(),
    ensures
        final(slice)@.len() == old(slice)@.len(),
        final(slice)@.to_multiset() == old(slice)@.to_multiset(),
        sorted(final(slice)@, key_order::<T>()),
{
    let by_order = |x1: &T, x2: &T| -> (o: Ordering)
        ensures
            natural(*x1, *x2, o),
        { order_of(x1, x2) };
    proof {
        lemma_follows_order(by_order);
    }
    quick_sort_with(slice, &by_order);
}

/// Arranges `slice` so that it is sorted in every order that the answers of
/// `compare` agree with.
pub fn quick_sort_with<T, F>(slice: &mut [T], compare: &F) where F: Fn(&T, &T) -> Ordering
    requires
        callable(*compare),
    ensures
        final(slice)@.len() == old(slice)@.len(),
        final(slice)@.to_multiset() == old(slice)@.to_multiset(),
        forall|less: spec_fn(T, T) -> bool| #[trigger]
            agrees(*compare, less) ==> sorted(final(slice)@, less),
    decreases old(slice)@.len(),
{
    if slice.len() == 0 || slice.len() == 1 {
        return ;
    }
    let low: usize = 0;
    let high = slice.len() - 1;
    if low < high {
        let pivot_index = median_with(slice, compare);
        let pivot_index = partition_with(slice, pivot_index, compare);
        let ghost parted_items = slice@;
        let ghost p = int_of(pivot_index);
        let ghost n = len_of(slice@);
        let (left, rest) = slice.split_at_mut(pivot_index);
        let ghost rest_items = rest@;
        let ghost left_before = left@;
        quick_sort_with(left, compare);
        let ghost left_items = left@;
        proof {
            assert(slice@ == left_items + rest_items);
            assert(parted_items =~= left_before + rest_items);
            lemma_joined_multiset(left_items, rest_items);
            lemma_joined_multiset(left_before, rest_items);
        }
        let ghost half_sorted = slice@;
        let (front, right) = slice.split_at_mut(pivot_index + 1);
        let ghost front_items = front@;
        let ghost right_before = right@;
        quick_sort_with(right, compare);
        let ghost right_items = right@;
        proof {
            let now = slice@;
            assert(now == front_items + right_items);
            assert(half_sorted =~= front_items + right_before);
            lemma_joined_multiset(front_items, right_items);
            lemma_joined_multiset(front_items, right_before);
            assert forall|less: spec_fn(T, T) -> bool| #[trigger]
                agrees(*compare, less) implies sorted(now, less) by {
                assert(parted(parted_items, p, less));
                assert(sorted(left_items, less));
                assert(sorted(right_items, less));
                let pivot = parted_items[p];
                let small = |x: T| less(x, pivot);
                let large = |x: T| !less(x, pivot);
                assert forall|a: int| 0 <= a < left_before.len() implies small(
                    #[trigger] left_before[a],
                ) by {
                    assert(left_before[a] == parted_items[a]);
                }
                lemma_all_same_items(left_before, left_items, small);
                assert forall|a: int| 0 <= a < right_before.len() implies large(
                    #[trigger] right_before[a],
                ) by {
                    assert(right_before[a] == half_sorted[p + 1 + a]);
                    assert(half_sorted[p + 1 + a] == parted_items[p + 1 + a]);
                }
                lemma_all_same_items(right_before, right_items, large);
                assert(now[p] == pivot) by {
                    assert(now[p] == front_items[p]);
                    assert(front_items[p] == half_sorted[p]);
                    assert(half_sorted[p] == rest_items[0]);
                }
                assert forall|i: int, j: int| 0 <= i < j < now.len() implies !less(
                    #[trigger] now[j],
                    #[trigger] now[i],
                ) by {
                    if j < p {
                        assert(now[i] == left_items[i] && now[j] == left_items[j]) by {
                            assert(now[i] == front_items[i]);
                            assert(now[j] == front_items[j]);
                            assert(front_items[i] == half_sorted[i]);
                            assert(front_items[j] == half_sorted[j]);
                        }
                    } else if i > p {
                        assert(now[i] == right_items[i - p - 1]);
                        assert(now[j] == right_items[j - p - 1]);
                    } else {
                        // i <= p <= j
                        if i < p {
                            assert(now[i] == left_items[i]) by {
                                assert(now[i] == front_items[i]);
                                assert(front_items[i] == half_sorted[i]);
                            }
                            assert(small(left_items[i]));
                        }
                        if j > p {
                            assert(now[j] == right_items[j - p - 1]);
                            assert(large(right_items[j - p - 1]));
                        }
                        if less(now[j], now[i]) {
                            if i < p && j > p {
                                assert(less(now[j], pivot));
                            }
                        }
                    }
                }
            }
        }
    }
}

} // verus!
