//! Selection: the element that would stand at a given position if the slice
//! were sorted.

use crate::algo::compare::agrees;
use crate::algo::compare::ask;
use crate::algo::compare::callable;
use crate::algo::compare::lemma_follows_order;
use crate::algo::compare::natural;
use crate::algo::compare::order_of;
use crate::algo::compare::sorted;
use crate::algo::transform::partition::parted;
use crate::algo::transform::partition::partition_with;
use crate::util::items::int_of;
use crate::util::items::len_of;
use crate::util::items::lemma_all_same_items;
use crate::util::items::lemma_joined_multiset;
use crate::util::items::lemma_parts_multiset;
use crate::util::items::lemma_swapped_multiset;
use crate::util::items::swap_items;
use crate::util::items::swapped;
use crate::util::order::key_order;
use crate::util::order::lt;
use crate::util::order::total_order;
use std::cmp::Ordering;
use vstd::prelude::*;

verus! {

/// The element at position `k` of `s` stands where it would stand if `s`
/// were sorted: nothing before it sorts after it, and nothing after it
/// sorts before it.
pub open spec fn selected<T>(s: Seq<T>, k: int, less: spec_fn(T, T) -> bool) -> bool {
    &&& forall|j: int| 0 <= j < k ==> !less(s[k], #[trigger] s[j])
    &&& forall|j: int| k < j < s.len() ==> !less(#[trigger] s[j], s[k])
}

/// From position `from` on, no element of `s` sorts before an element that
/// stands before it.
pub open spec fn settled<T>(s: Seq<T>, from: int, less: spec_fn(T, T) -> bool) -> bool {
    forall|a: int, b: int|
        0 <= a < b < s.len() && from <= b ==> !less(#[trigger] s[b], #[trigger] s[a])
}

/// The element at position `at` of `s` does not sort before any element that
/// stands before it.
pub open spec fn leading<T>(s: Seq<T>, at: int, less: spec_fn(T, T) -> bool) -> bool {
    forall|a: int| 0 <= a < at ==> !less(s[at], #[trigger] s[a])
}

/// `s` is a sorted arrangement of the elements of `before`, but for the
/// first element and the one in the middle, which have changed places.
pub open spec fn median_first<T>(s: Seq<T>, before: Seq<T>, less: spec_fn(T, T) -> bool) -> bool {
    exists|t: Seq<T>| #[trigger]
        sorted(t, less) && t.to_multiset() == before.to_multiset() && t.len() == before.len() && s
            == swapped(t, 0, t.len() as int / 2)
}

/// Arranges `slice` so that the element at position `k` is the one that
/// would stand there if `slice` were sorted. The result is `k`.
pub fn kth<T: Ord>(slice: &mut [T], k: usize) -> (r: usize)
    requires
        total_order::<T>(),
        k < old(slice)@.len(),
    ensures
        r == k,
        final(slice)@.len() == old(slice)@.len(),
        final(slice)@.to_multiset() == old(slice)@.to_multiset(),
        forall|j: int| 0 <= j < k ==> !lt(final(slice)@[int_of(k)], #[trigger] final(slice)@[j]),
        forall|j: int|
            k < j < final(slice)@.len() ==> !lt(
                #[trigger] final(slice)@[j],
                final(slice)@[int_of(k)],
            ),
{
    let by_order = |x1: &T, x2: &T| -> (o: Ordering)
        ensures
            natural(*x1, *x2, o),
        { order_of(x1, x2) };
    proof {
        lemma_follows_order(by_order);
    }
    let r = kth_with(slice, k, &by_order);
    proof {
        assert(selected(slice@, int_of(k), key_order::<T>()));
    }
    r
}

/// Arranges `slice` so that, in every order that the answers of `compare`
/// agree with, the element at position `k` is one that would stand there if
/// `slice` were sorted. The result is `k`.
pub fn kth_with<T, F>(slice: &mut [T], k: usize, compare: &F) -> (r: usize) where
    F: Fn(&T, &T) -> Ordering,

    requires
        callable(*compare),
        k < old(slice)@.len(),
    ensures
        r == k,
        final(slice)@.len() == old(slice)@.len(),
        final(slice)@.to_multiset() == old(slice)@.to_multiset(),
        forall|less: spec_fn(T, T) -> bool| #[trigger]
            agrees(*compare, less) ==> selected(final(slice)@, int_of(k), less),
    decreases old(slice)@.len(),
{
    // the median of the medians of groups of five comes to the front
    let mut size = slice.len();
    while size != 1
        invariant
            callable(*compare),
            1 <= size <= slice@.len(),
            slice@.len() == old(slice)@.len(),
            slice@.to_multiset() == old(slice)@.to_multiset(),
        decreases size,
    {
        let mut index: usize = 0;
        let mut i: usize = 0;
        while i < size
            invariant
                callable(*compare),
                2 <= size <= slice@.len(),
                slice@.len() == old(slice)@.len(),
                slice@.to_multiset() == old(slice)@.to_multiset(),
                i == 5 * index || (i == size && 5 * index >= size && 5 * index < size + 5),
                i <= size,
                index <= i,
            decreases size - i,
        {
            let upper = if size - i > 5 {
                i + 5
            } else {
                size
            };
            let ghost before = slice@;
            let (front, rest) = slice.split_at_mut(i);
            let (group, tail) = rest.split_at_mut(upper - i);
            let ghost front_items = front@;
            let ghost tail_items = tail@;
            let ghost group_before = group@;
            set_median_with(group, compare);
            let ghost group_items = group@;
            proof {
                assert(before =~= front_items + (group_before + tail_items));
                assert(slice@ == front_items + (group_items + tail_items));
                lemma_joined_multiset(front_items, group_before + tail_items);
                lemma_joined_multiset(group_before, tail_items);
                lemma_joined_multiset(front_items, group_items + tail_items);
                lemma_joined_multiset(group_items, tail_items);
                lemma_swapped_multiset(slice@, int_of(index), int_of(i));
            }
            swap_items(slice, index, i);
            index += 1;
            i = upper;
        }
        size = index;
    }
    let pivot_index = partition_with(slice, 0, compare);
    let ghost parted_items = slice@;
    if k < pivot_index {
        proof {
            lemma_parts_multiset(parted_items, int_of(pivot_index));
        }
        let (left, rest) = slice.split_at_mut(pivot_index);
        let ghost rest_items = rest@;
        let r = kth_with(left, k, compare);
        let ghost left_items = left@;
        proof {
            let now = slice@;
            let n = len_of(now);
            let p = int_of(pivot_index);
            let l0 = parted_items.subrange(0, p);
            let l1 = now.subrange(0, p);
            assert(now == left_items + rest_items);
            assert(l1 =~= left_items);
            assert(now.subrange(p, n) =~= parted_items.subrange(p, n));
            assert(now =~= l1 + now.subrange(p, n));
            lemma_joined_multiset(l1, now.subrange(p, n));
            assert forall|less: spec_fn(T, T) -> bool| #[trigger]
                agrees(*compare, less) implies selected(now, int_of(k), less) by {
                assert(parted(parted_items, p, less));
                assert(selected(l1, int_of(k), less));
                let pivot = parted_items[p];
                let small = |x: T| less(x, pivot);
                assert forall|a: int| 0 <= a < l0.len() implies small(#[trigger] l0[a]) by {
                    assert(l0[a] == parted_items[a]);
                }
                lemma_all_same_items(l0, l1, small);
                assert(small(l1[int_of(k)]));
                assert forall|j: int| 0 <= j < k implies !less(
                    now[int_of(k)],
                    #[trigger] now[j],
                ) by {
                    assert(now[j] == l1[j]);
                    assert(now[int_of(k)] == l1[int_of(k)]);
                }
                assert forall|j: int| k < j < n implies !less(
                    #[trigger] now[j],
                    now[int_of(k)],
                ) by {
                    assert(now[int_of(k)] == l1[int_of(k)]);
                    if j < p {
                        assert(now[j] == l1[j]);
                    } else {
                        assert(now[j] == parted_items[j]);
                        if j > p {
                            assert(!less(parted_items[j], pivot));
                        } else {
                            assert(!less(pivot, pivot));
                        }
                        if less(now[j], now[int_of(k)]) {
                            assert(less(now[j], pivot));
                        }
                    }
                }
            }
        }
        return r;
    } else if k > pivot_index {
        proof {
            lemma_parts_multiset(parted_items, pivot_index + 1);
        }
        let (front, right) = slice.split_at_mut(pivot_index + 1);
        let ghost front_items = front@;
        let r = kth_with(right, k - pivot_index - 1, compare);
        let ghost right_items = right@;
        proof {
            let now = slice@;
            let n = len_of(now);
            let p = int_of(pivot_index);
            let r0 = parted_items.subrange(p + 1, n);
            let r1 = now.subrange(p + 1, n);
            assert(now == front_items + right_items);
            assert(r1 =~= right_items);
            assert(now.subrange(0, p + 1) =~= parted_items.subrange(0, p + 1));
            assert(now =~= now.subrange(0, p + 1) + r1);
            lemma_joined_multiset(now.subrange(0, p + 1), r1);
            assert forall|less: spec_fn(T, T) -> bool| #[trigger]
                agrees(*compare, less) implies selected(now, int_of(k), less) by {
                assert(parted(parted_items, p, less));
                assert(selected(r1, k - p - 1, less));
                let pivot = parted_items[p];
                let large = |x: T| !less(x, pivot);
                assert forall|a: int| 0 <= a < r0.len() implies large(#[trigger] r0[a]) by {
                    assert(r0[a] == parted_items[p + 1 + a]);
                }
                lemma_all_same_items(r0, r1, large);
                assert(now[int_of(k)] == r1[k - p - 1]);
                assert(large(r1[k - p - 1]));
                assert forall|j: int| 0 <= j < k implies !less(
                    now[int_of(k)],
                    #[trigger] now[j],
                ) by {
                    if j > p {
                        assert(now[j] == r1[j - p - 1]);
                    } else {
                        assert(now[j] == parted_items[j]);
                        if j < p {
                            assert(less(parted_items[j], pivot));
                            if less(now[int_of(k)], now[j]) {
                                assert(less(now[int_of(k)], pivot));
                            }
                        }
                    }
                }
                assert forall|j: int| k < j < n implies !less(
                    #[trigger] now[j],
                    now[int_of(k)],
                ) by {
                    assert(now[j] == r1[j - p - 1]);
                }
            }
        }
        return pivot_index + 1 + r;
    } else {
        proof {
            assert forall|less: spec_fn(T, T) -> bool| #[trigger]
                agrees(*compare, less) implies selected(slice@, int_of(k), less) by {
                assert(parted(slice@, int_of(pivot_index), less));
            }
        }
        return pivot_index;
    }
}

/// Arranges `slice` so that its smallest element stands first. The result
/// is 0.
pub fn min<T: Ord>(slice: &mut [T]) -> (r: usize)
    requires
        total_order::<T>(),
        old(slice)@.len() > 0,
    ensures
        r == 0,
        final(slice)@.len() == old(slice)@.len(),
        final(slice)@.to_multiset() == old(slice)@.to_multiset(),
        forall|j: int|
            0 < j < final(slice)@.len() ==> !lt(#[trigger] final(slice)@[j], final(slice)@[0]),
{
    kth(slice, 0)
}

/// Arranges `slice` so that, in every order that the answers of `compare`
/// agree with, no element sorts before the first. The result is 0.
pub fn min_with<T, F>(slice: &mut [T], compare: &F) -> (r: usize) where F: Fn(&T, &T) -> Ordering
    requires
        callable(*compare),
        old(slice)@.len() > 0,
    ensures
        r == 0,
        final(slice)@.len() == old(slice)@.len(),
        final(slice)@.to_multiset() == old(slice)@.to_multiset(),
        forall|less: spec_fn(T, T) -> bool| #[trigger]
            agrees(*compare, less) ==> selected(final(slice)@, 0, less),
{
    kth_with(slice, 0, compare)
}

/// Arranges `slice` so that its largest element stands last. The result is
/// the last position.
pub fn max<T: Ord>(slice: &mut [T]) -> (r: usize)
    requires
        total_order::<T>(),
        old(slice)@.len() > 0,
    ensures
        r == old(slice)@.len() - 1,
        final(slice)@.len() == old(slice)@.len(),
        final(slice)@.to_multiset() == old(slice)@.to_multiset(),
        forall|j: int| 0 <= j < r ==> !lt(final(slice)@[int_of(r)], #[trigger] final(slice)@[j]),
{
    let last = slice.len() - 1;
    kth(slice, last)
}

/// Arranges `slice` so that, in every order that the answers of `compare`
/// agree with, the last element sorts before no other. The result is the
/// last position.
pub fn max_with<T, F>(slice: &mut [T], compare: &F) -> (r: usize) where F: Fn(&T, &T) -> Ordering
    requires
        callable(*compare),
        old(slice)@.len() > 0,
    ensures
        r == old(slice)@.len() - 1,
        final(slice)@.len() == old(slice)@.len(),
        final(slice)@.to_multiset() == old(slice)@.to_multiset(),
        forall|less: spec_fn(T, T) -> bool| #[trigger]
            agrees(*compare, less) ==> selected(final(slice)@, int_of(r), less),
{
    let last = slice.len() - 1;
    kth_with(slice, last, compare)
}

/// Arranges `slice` so that the element in the middle is the one that would
/// stand there if `slice` were sorted. The result is the middle position,
/// half the length rounded down.
pub fn median<T: Ord>(slice: &mut [T]) -> (r: usize)
    requires
        total_order::<T>(),
        old(slice)@.len() > 0,
    ensures
        r == old(slice)@.len() / 2,
        final(slice)@.len() == old(slice)@.len(),
        final(slice)@.to_multiset() == old(slice)@.to_multiset(),
        forall|j: int| 0 <= j < r ==> !lt(final(slice)@[int_of(r)], #[trigger] final(slice)@[j]),
        forall|j: int|
            r < j < final(slice)@.len() ==> !lt(
                #[trigger] final(slice)@[j],
                final(slice)@[int_of(r)],
            ),
{
    let middle = slice.len() / 2;
    kth(slice, middle)
}

/// Arranges `slice` so that, in every order that the answers of `compare`
/// agree with, the element in the middle is one that would stand there if
/// `slice` were sorted. The result is the middle position, half the length
/// rounded down.
pub fn median_with<T, F>(slice: &mut [T], compare: &F) -> (r: usize) where
    F: Fn(&T, &T) -> Ordering,

    requires
        callable(*compare),
        old(slice)@.len() > 0,
    ensures
        r == old(slice)@.len() / 2,
        final(slice)@.len() == old(slice)@.len(),
        final(slice)@.to_multiset() == old(slice)@.to_multiset(),
        forall|less: spec_fn(T, T) -> bool| #[trigger]
            agrees(*compare, less) ==> selected(final(slice)@, int_of(r), less),
{
    let middle = slice.len() / 2;
    kth_with(slice, middle, compare)
}

/// Sorts `slice`, then lets its first element and the one in the middle
/// change places: the median of a short slice comes to the front.
pub fn set_median_with<T, F>(slice: &mut [T], compare: &F) where F: Fn(&T, &T) -> Ordering
    requires
        callable(*compare),
        old(slice)@.len() > 0,
    ensures
        final(slice)@.len() == old(slice)@.len(),
        final(slice)@.to_multiset() == old(slice)@.to_multiset(),
        forall|less: spec_fn(T, T) -> bool| #[trigger]
            agrees(*compare, less) ==> median_first(final(slice)@, old(slice)@, less),
{
    let size = slice.len();
    let mut i: usize = 0;
    while i < size
        invariant
            callable(*compare),
            i <= size,
            size == slice@.len(),
            slice@.len() == old(slice)@.len(),
            slice@.to_multiset() == old(slice)@.to_multiset(),
            forall|less: spec_fn(T, T) -> bool| #[trigger]
                agrees(*compare, less) ==> settled(slice@, size - i, less),
        decreases size - i,
    {
        let mut j: usize = 0;
        while j < size - i - 1
            invariant
                callable(*compare),
                i < size,
                j <= size - i - 1,
                size == slice@.len(),
                slice@.len() == old(slice)@.len(),
                slice@.to_multiset() == old(slice)@.to_multiset(),
                forall|less: spec_fn(T, T) -> bool| #[trigger]
                    agrees(*compare, less) ==> settled(slice@, size - i, less) && leading(
                        slice@,
                        int_of(j),
                        less,
                    ),
            decreases size - i - 1 - j,
        {
            let ghost before = slice@;
            match ask(compare, &slice[j], &slice[j + 1]) {
                Ordering::Greater => {
                    proof {
                        lemma_swapped_multiset(slice@, int_of(j), j + 1);
                    }
                    swap_items(slice, j, j + 1);
                    proof {
                        assert forall|less: spec_fn(T, T) -> bool| #[trigger]
                            agrees(*compare, less) implies settled(slice@, size - i, less)
                            && leading(slice@, j + 1, less) by {
                            assert(settled(before, size - i, less) && leading(
                                before,
                                int_of(j),
                                less,
                            ));
                            assert forall|a: int, b: int|
                                0 <= a < b < slice@.len() && size - i <= b implies !less(
                                #[trigger] slice@[b],
                                #[trigger] slice@[a],
                            ) by {
                                assert(slice@[b] == before[b]);
                                if a == j {
                                    assert(slice@[a] == before[j + 1]);
                                } else if a == j + 1 {
                                    assert(slice@[a] == before[int_of(j)]);
                                } else {
                                    assert(slice@[a] == before[a]);
                                }
                            }
                            assert forall|a: int| 0 <= a < j + 1 implies !less(
                                slice@[j + 1],
                                #[trigger] slice@[a],
                            ) by {
                                assert(slice@[j + 1] == before[int_of(j)]);
                                if a < j {
                                    assert(slice@[a] == before[a]);
                                } else {
                                    assert(slice@[a] == before[j + 1]);
                                }
                            }
                        }
                    }
                },
                _ => {
                    proof {
                        assert forall|less: spec_fn(T, T) -> bool| #[trigger]
                            agrees(*compare, less) implies leading(slice@, j + 1, less) by {
                            assert(leading(before, int_of(j), less));
                            assert forall|a: int| 0 <= a < j + 1 implies !less(
                                slice@[j + 1],
                                #[trigger] slice@[a],
                            ) by {
                                if a < j {
                                    assert(!less(slice@[int_of(j)], slice@[a]));
                                }
                            }
                        }
                    }
                },
            }
            j += 1;
        }
        proof {
            assert forall|less: spec_fn(T, T) -> bool| #[trigger]
                agrees(*compare, less) implies settled(slice@, size - (i + 1), less) by {
                assert(settled(slice@, size - i, less) && leading(slice@, int_of(j), less));
            }
        }
        i += 1;
    }
    let ghost in_order = slice@;
    proof {
        lemma_swapped_multiset(slice@, 0, int_of(size) / 2);
    }
    swap_items(slice, 0, size / 2);
    proof {
        assert forall|less: spec_fn(T, T) -> bool| #[trigger]
            agrees(*compare, less) implies median_first(slice@, old(slice)@, less) by {
            assert(settled(in_order, 0, less));
            assert(sorted(in_order, less));
        }
    }
}

} // verus!
