//! Arranging a slice around one of its elements.

use crate::algo::compare::agrees;
use crate::algo::compare::ask;
use crate::algo::compare::callable;
use crate::algo::compare::lemma_follows_order;
use crate::algo::compare::natural;
use crate::algo::compare::order_of;
use crate::util::items::int_of;
use crate::util::items::lemma_swapped_multiset;
use crate::util::items::swap_items;
use crate::util::order::key_order;
use crate::util::order::lt;
use crate::util::order::total_order;
use std::cmp::Ordering;
use vstd::prelude::*;

verus! {

/// The elements of `s` before position `at` sort before the one at `at`,
/// and none after it does.
pub open spec fn parted<T>(s: Seq<T>, at: int, less: spec_fn(T, T) -> bool) -> bool {
    &&& forall|j: int| 0 <= j < at ==> less(#[trigger] s[j], s[at])
    &&& forall|j: int| at < j < s.len() ==> !less(#[trigger] s[j], s[at])
}

/// While the slice is gone through: the elements before `small` sort before
/// the pivot at `high`, and those from `small` to before `seen` do not.
pub open spec fn parting<T>(
    s: Seq<T>,
    small: int,
    seen: int,
    high: int,
    less: spec_fn(T, T) -> bool,
) -> bool {
    &&& forall|j: int| 0 <= j < small ==> less(#[trigger] s[j], s[high])
    &&& forall|j: int| small <= j < seen ==> !less(#[trigger] s[j], s[high])
}

/// Arranges `slice` around the element at `pivot_index`: what is smaller
/// comes before it, everything else after it. The result is where that
/// element stands then.
pub fn partition<T: Ord>(slice: &mut [T], pivot_index: usize) -> (r: usize)
    requires
        total_order::<T>(),
        old(slice)@.len() > 0,
        pivot_index < old(slice)@.len(),
    ensures
        r < final(slice)@.len(),
        final(slice)@.len() == old(slice)@.len(),
        final(slice)@.to_multiset() == old(slice)@.to_multiset(),
        final(slice)@[int_of(r)] == old(slice)@[int_of(pivot_index)],
        forall|j: int| 0 <= j < r ==> lt(final(slice)@[j], final(slice)@[int_of(r)]),
        forall|j: int|
            r < j < final(slice)@.len() ==> !lt(final(slice)@[j], final(slice)@[int_of(r)]),
{
    let by_order = |x1: &T, x2: &T| -> (o: Ordering)
        ensures
            natural(*x1, *x2, o),
        { order_of(x1, x2) };
    proof {
        lemma_follows_order(by_order);
    }
    let r = partition_with(slice, pivot_index, &by_order);
    proof {
        assert(parted(slice@, int_of(r), key_order::<T>()));
    }
    r
}

/// Arranges `slice` around the element at `pivot_index` and says where that
/// element stands then. In every order that the answers of `compare` agree
/// with, what sorts before that element comes before it and everything else
/// after it.
pub fn partition_with<T, F>(slice: &mut [T], pivot_index: usize, compare: &F) -> (r: usize) where
    F: Fn(&T, &T) -> Ordering,

    requires
        callable(*compare),
        old(slice)@.len() > 0,
        pivot_index < old(slice)@.len(),
    ensures
        r < final(slice)@.len(),
        final(slice)@.len() == old(slice)@.len(),
        final(slice)@.to_multiset() == old(slice)@.to_multiset(),
        final(slice)@[int_of(r)] == old(slice)@[int_of(pivot_index)],
        forall|less: spec_fn(T, T) -> bool| #[trigger]
            agrees(*compare, less) ==> parted(final(slice)@, int_of(r), less),
{
    let high = slice.len() - 1;
    proof {
        lemma_swapped_multiset(slice@, int_of(high), int_of(pivot_index));
    }
    swap_items(slice, high, pivot_index);
    let mut i: usize = 0;
    let mut j: usize = 0;
    while j < high
        invariant
            callable(*compare),
            i <= j <= high,
            high == slice@.len() - 1,
            slice@.len() == old(slice)@.len(),
            slice@.to_multiset() == old(slice)@.to_multiset(),
            slice@[int_of(high)] == old(slice)@[int_of(pivot_index)],
            forall|less: spec_fn(T, T) -> bool| #[trigger]
                agrees(*compare, less) ==> parting(
                    slice@,
                    int_of(i),
                    int_of(j),
                    int_of(high),
                    less,
                ),
        decreases high - j,
    {
        let ghost before = slice@;
        match ask(compare, &slice[j], &slice[high]) {
            Ordering::Less => {
                proof {
                    lemma_swapped_multiset(slice@, int_of(i), int_of(j));
                }
                swap_items(slice, i, j);
                proof {
                    assert forall|less: spec_fn(T, T) -> bool| #[trigger]
                        agrees(*compare, less) implies parting(
                        slice@,
                        i + 1,
                        j + 1,
                        int_of(high),
                        less,
                    ) by {
                        assert(parting(before, int_of(i), int_of(j), int_of(high), less));
                        assert forall|a: int| 0 <= a < i + 1 implies less(
                            #[trigger] slice@[a],
                            slice@[int_of(high)],
                        ) by {
                            if a < i {
                                assert(slice@[a] == before[a]);
                            }
                        }
                        assert forall|a: int| i + 1 <= a < j + 1 implies !less(
                            #[trigger] slice@[a],
                            slice@[int_of(high)],
                        ) by {
                            if a < j {
                                assert(slice@[a] == before[a]);
                            } else {
                                assert(slice@[a] == before[int_of(i)]);
                            }
                        }
                    }
                }
                i += 1;
            },
            _ => {
                proof {
                    assert forall|less: spec_fn(T, T) -> bool| #[trigger]
                        agrees(*compare, less) implies parting(
                        slice@,
                        int_of(i),
                        j + 1,
                        int_of(high),
                        less,
                    ) by {
                        assert(parting(before, int_of(i), int_of(j), int_of(high), less));
                    }
                }
            },
        }
        j += 1;
    }
    let ghost before = slice@;
    proof {
        lemma_swapped_multiset(slice@, int_of(i), int_of(high));
    }
    swap_items(slice, i, high);
    proof {
        assert forall|less: spec_fn(T, T) -> bool| #[trigger]
            agrees(*compare, less) implies parted(slice@, int_of(i), less) by {
            assert(parting(before, int_of(i), int_of(j), int_of(high), less));
            assert forall|a: int| 0 <= a < i implies less(
                #[trigger] slice@[a],
                slice@[int_of(i)],
            ) by {
                assert(slice@[a] == before[a]);
            }
            assert forall|a: int| i < a < slice@.len() implies !less(
                #[trigger] slice@[a],
                slice@[int_of(i)],
            ) by {
                if a < high {
                    assert(slice@[a] == before[a]);
                } else {
                    assert(slice@[a] == before[int_of(i)]);
                    if i < high {
                    } else {
                        assert(!less(before[int_of(high)], before[int_of(high)]));
                    }
                }
            }
        }
    }
    i
}

} // verus!
