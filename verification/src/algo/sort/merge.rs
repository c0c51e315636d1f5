//! Sorting by halving the slice, sorting the halves and merging them.

use crate::algo::compare::agrees;
use crate::algo::compare::ask;
use crate::algo::compare::callable;
use crate::algo::compare::lemma_follows_order;
use crate::algo::compare::natural;
use crate::algo::compare::order_of;
use crate::algo::compare::sorted;
use crate::util::items::int_of;
use crate::util::items::lemma_joined_multiset;
use crate::util::order::key_order;
use crate::util::order::total_order;
use std::cmp::Ordering;
use vstd::prelude::*;
use vstd::slice::slice_to_vec;

verus! {

/// The first `count` elements of `s`.
pub open spec fn head<T>(s: Seq<T>, count: int) -> Seq<T> {
    s.subrange(0, count)
}

/// No element of `s` from position `from` on sorts before an element of
/// `out`.
pub open spec fn follows<T>(out: Seq<T>, s: Seq<T>, from: int, less: spec_fn(T, T) -> bool) -> bool {
    forall|a: int, b: int|
        0 <= a < out.len() && from <= b < s.len() ==> !less(#[trigger] s[b], #[trigger] out[a])
}

/// One more element at the head of a sequence.
proof fn lemma_head_next<T>(s: Seq<T>, count: int)
    requires
        0 <= count < s.len(),
    ensures
        head(s, count + 1) == head(s, count).push(s[count]),
        head(s, count + 1).to_multiset() == head(s, count).to_multiset().insert(s[count]),
{
    assert(head(s, count + 1) =~= head(s, count).push(s[count]));
    vstd::seq_lib::to_multiset_build(head(s, count), s[count]);
}

/// Sorts `slice`.
pub fn merge_sort<T: Copy + Ord>(slice: &mut [T])
    requires
        total_order::<T>(),
    ensures
        final(slice)@.len() == old(slice)@.len(),
        final(slice)@.to_multiset() == old(slice)@.to_multiset(),
        sorted(final(slice)@, key_order::<T>()),
{
    let by_order = |x1: &T, x2: &T| -> (o: Ordering)
        ensures
            natural(*x1, *x2, o),
        { order_of(x1, x2) };
    proof {
        lemma_follows_order(by_order);
    }
    merge_sort_with(slice, &by_order);
}

/// Arranges `slice` so that it is sorted in every order that the answers of
/// `compare` agree with.
pub fn merge_sort_with<T: Copy, F>(slice: &mut [T], compare: &F) where F: Fn(&T, &T) -> Ordering
    requires
        callable(*compare),
    ensures
        final(slice)@.len() == old(slice)@.len(),
        final(slice)@.to_multiset() == old(slice)@.to_multiset(),
        forall|less: spec_fn(T, T) -> bool| #[trigger]
            agrees(*compare, less) ==> sorted(final(slice)@, less),
    decreases old(slice)@.len(),
{
    let slice_len = slice.len();
    let middle = slice_len / 2;
    if slice_len <= 1 {
        return ;
    }
    let (left, right) = slice.split_at_mut(middle);
    let ghost left_before = left@;
    let ghost right_before = right@;
    merge_sort_with(left, compare);
    merge_sort_with(right, compare);
    let ghost left_items = left@;
    let ghost right_items = right@;
    proof {
        assert(slice@ == left_items + right_items);
        assert(old(slice)@ =~= left_before + right_before);
        lemma_joined_multiset(left_items, right_items);
        lemma_joined_multiset(left_before, right_before);
    }
    let mut merge: Vec<T> = slice_to_vec(slice);
    merge_with(&slice[0..middle], &slice[middle..slice_len], merge.as_mut_slice(), compare);
    proof {
        assert(slice@.subrange(0, int_of(middle)) =~= left_items);
        assert(slice@.subrange(int_of(middle), int_of(slice_len)) =~= right_items);
    }
    let mut i: usize = 0;
    while i < slice_len
        invariant
            i <= slice_len,
            slice_len == slice@.len(),
            slice_len == merge@.len(),
            forall|j: int| 0 <= j < i ==> slice@[j] == merge@[j],
        decreases slice_len - i,
    {
        slice[i] = merge[i];
        i += 1;
    }
    proof {
        assert(slice@ =~= merge@);
    }
}

/// Merges `left` and `right` into `merge`: the elements of the two, those
/// of `left` first where `compare` does not put one of `right` before them.
/// In every order that the answers of `compare` agree with and in which
/// `left` and `right` are sorted, `merge` is sorted then.
pub fn merge_with<T: Copy, F>(left: &[T], right: &[T], merge: &mut [T], compare: &F) where
    F: Fn(&T, &T) -> Ordering,

    requires
        callable(*compare),
        left@.len() + right@.len() == old(merge)@.len(),
    ensures
        final(merge)@.len() == old(merge)@.len(),
        final(merge)@.to_multiset() == left@.to_multiset().add(right@.to_multiset()),
        forall|less: spec_fn(T, T) -> bool|
            #![trigger agrees(*compare, less)]
            agrees(*compare, less) && sorted(left@, less) && sorted(right@, less) ==> sorted(
                final(merge)@,
                less,
            ),
{
    let mut left_index: usize = 0;
    let mut right_index: usize = 0;
    let mut merged_index: usize = 0;
    proof {
        broadcast use vstd::seq_lib::group_to_multiset_ensures;

        assert(head(left@, 0) =~= Seq::<T>::empty());
        assert(head(right@, 0) =~= Seq::<T>::empty());
        assert(head(merge@, 0) =~= Seq::<T>::empty());
        assert(Seq::<T>::empty().to_multiset() =~= vstd::multiset::Multiset::<T>::empty());
        assert(head(merge@, 0).to_multiset() =~= head(left@, 0).to_multiset().add(
            head(right@, 0).to_multiset(),
        ));
    }
    while left_index < left.len() && right_index < right.len()
        invariant
            callable(*compare),
            left@.len() + right@.len() == merge@.len(),
            merge@.len() == old(merge)@.len(),
            left_index <= left@.len(),
            right_index <= right@.len(),
            merged_index == left_index + right_index,
            head(merge@, int_of(merged_index)).to_multiset() == head(
                left@,
                int_of(left_index),
            ).to_multiset().add(head(right@, int_of(right_index)).to_multiset()),
            forall|less: spec_fn(T, T) -> bool|
                #![trigger agrees(*compare, less)]
                agrees(*compare, less) && sorted(left@, less) && sorted(right@, less) ==> sorted(
                    head(merge@, int_of(merged_index)),
                    less,
                ) && follows(head(merge@, int_of(merged_index)), left@, int_of(left_index), less)
                    && follows(
                    head(merge@, int_of(merged_index)),
                    right@,
                    int_of(right_index),
                    less,
                ),
        decreases left@.len() + right@.len() - merged_index,
    {
        let ghost before = merge@;
        let ghost out = head(before, int_of(merged_index));
        match ask(compare, &left[left_index], &right[right_index]) {
            Ordering::Less => {
                merge[merged_index] = left[left_index];
                proof {
                    let x = left@[int_of(left_index)];
                    assert(head(merge@, merged_index + 1) =~= out.push(x));
                    vstd::seq_lib::to_multiset_build(out, x);
                    lemma_head_next(left@, int_of(left_index));
                    assert(head(merge@, merged_index + 1).to_multiset() =~= head(
                        left@,
                        left_index + 1,
                    ).to_multiset().add(head(right@, int_of(right_index)).to_multiset()));
                    assert forall|less: spec_fn(T, T) -> bool|
                        #![trigger agrees(*compare, less)]
                        agrees(*compare, less) && sorted(left@, less) && sorted(
                            right@,
                            less,
                        ) implies sorted(head(merge@, merged_index + 1), less) && follows(
                        head(merge@, merged_index + 1),
                        left@,
                        left_index + 1,
                        less,
                    ) && follows(
                        head(merge@, merged_index + 1),
                        right@,
                        int_of(right_index),
                        less,
                    ) by {
                        let next = head(merge@, merged_index + 1);
                        let y = right@[int_of(right_index)];
                        assert(sorted(out, less));
                        assert(follows(out, left@, int_of(left_index), less));
                        assert(follows(out, right@, int_of(right_index), less));
                        assert(less(x, y));
                        assert forall|i: int, j: int| 0 <= i < j < next.len() implies !less(
                            #[trigger] next[j],
                            #[trigger] next[i],
                        ) by {
                            if j < merged_index {
                                assert(next[i] == out[i] && next[j] == out[j]);
                            } else {
                                assert(next[i] == out[i]);
                                assert(next[j] == left@[int_of(left_index)]);
                            }
                        }
                        assert forall|a: int, b: int|
                            0 <= a < next.len() && left_index + 1 <= b < left@.len() implies !less(
                            #[trigger] left@[b],
                            #[trigger] next[a],
                        ) by {
                            if a < merged_index {
                                assert(next[a] == out[a]);
                            } else {
                                assert(next[a] == left@[int_of(left_index)]);
                            }
                        }
                        assert forall|a: int, b: int|
                            0 <= a < next.len() && right_index <= b < right@.len() implies !less(
                            #[trigger] right@[b],
                            #[trigger] next[a],
                        ) by {
                            if a < merged_index {
                                assert(next[a] == out[a]);
                            } else {
                                assert(next[a] == x);
                                if b > right_index {
                                    assert(!less(right@[b], y));
                                }
                                if less(right@[b], x) {
                                    assert(less(right@[b], y));
                                }
                            }
                        }
                    }
                }
                merged_index += 1;
                left_index += 1;
            },
            _ => {
                merge[merged_index] = right[right_index];
                proof {
                    let x = left@[int_of(left_index)];
                    let y = right@[int_of(right_index)];
                    assert(head(merge@, merged_index + 1) =~= out.push(y));
                    vstd::seq_lib::to_multiset_build(out, y);
                    lemma_head_next(right@, int_of(right_index));
                    assert(head(merge@, merged_index + 1).to_multiset() =~= head(
                        left@,
                        int_of(left_index),
                    ).to_multiset().add(head(right@, right_index + 1).to_multiset()));
                    assert forall|less: spec_fn(T, T) -> bool|
                        #![trigger agrees(*compare, less)]
                        agrees(*compare, less) && sorted(left@, less) && sorted(
                            right@,
                            less,
                        ) implies sorted(head(merge@, merged_index + 1), less) && follows(
                        head(merge@, merged_index + 1),
                        left@,
                        int_of(left_index),
                        less,
                    ) && follows(
                        head(merge@, merged_index + 1),
                        right@,
                        right_index + 1,
                        less,
                    ) by {
                        let next = head(merge@, merged_index + 1);
                        assert(sorted(out, less));
                        assert(follows(out, left@, int_of(left_index), less));
                        assert(follows(out, right@, int_of(right_index), less));
                        assert(!less(x, y));
                        assert forall|i: int, j: int| 0 <= i < j < next.len() implies !less(
                            #[trigger] next[j],
                            #[trigger] next[i],
                        ) by {
                            if j < merged_index {
                                assert(next[i] == out[i] && next[j] == out[j]);
                            } else {
                                assert(next[i] == out[i]);
                                assert(next[j] == right@[int_of(right_index)]);
                            }
                        }
                        assert forall|a: int, b: int|
                            0 <= a < next.len() && right_index + 1 <= b < right@.len() implies !less(
                            #[trigger] right@[b],
                            #[trigger] next[a],
                        ) by {
                            if a < merged_index {
                                assert(next[a] == out[a]);
                            } else {
                                assert(next[a] == right@[int_of(right_index)]);
                            }
                        }
                        assert forall|a: int, b: int|
                            0 <= a < next.len() && left_index <= b < left@.len() implies !less(
                            #[trigger] left@[b],
                            #[trigger] next[a],
                        ) by {
                            if a < merged_index {
                                assert(next[a] == out[a]);
                            } else {
                                assert(next[a] == y);
                                if b > left_index {
                                    assert(!less(left@[b], x));
                                }
                            }
                        }
                    }
                }
                merged_index += 1;
                right_index += 1;
            },
        }
    }
    while left_index < left.len()
        invariant
            left@.len() + right@.len() == merge@.len(),
            merge@.len() == old(merge)@.len(),
            left_index <= left@.len(),
            right_index <= right@.len(),
            left_index < left@.len() ==> right_index == right@.len(),
            merged_index == left_index + right_index,
            head(merge@, int_of(merged_index)).to_multiset() == head(
                left@,
                int_of(left_index),
            ).to_multiset().add(head(right@, int_of(right_index)).to_multiset()),
            forall|less: spec_fn(T, T) -> bool|
                #![trigger agrees(*compare, less)]
                agrees(*compare, less) && sorted(left@, less) && sorted(right@, less) ==> sorted(
                    head(merge@, int_of(merged_index)),
                    less,
                ) && follows(head(merge@, int_of(merged_index)), left@, int_of(left_index), less)
                    && follows(
                    head(merge@, int_of(merged_index)),
                    right@,
                    int_of(right_index),
                    less,
                ),
        decreases left@.len() - left_index,
    {
        let ghost before = merge@;
        let ghost out = head(before, int_of(merged_index));
        merge[merged_index] = left[left_index];
        proof {
            let x = left@[int_of(left_index)];
            assert(head(merge@, merged_index + 1) =~= out.push(x));
            vstd::seq_lib::to_multiset_build(out, x);
            lemma_head_next(left@, int_of(left_index));
            assert(head(merge@, merged_index + 1).to_multiset() =~= head(
                left@,
                left_index + 1,
            ).to_multiset().add(head(right@, int_of(right_index)).to_multiset()));
            assert forall|less: spec_fn(T, T) -> bool|
                #![trigger agrees(*compare, less)]
                agrees(*compare, less) && sorted(left@, less) && sorted(
                    right@,
                    less,
                ) implies sorted(head(merge@, merged_index + 1), less) && follows(
                head(merge@, merged_index + 1),
                left@,
                left_index + 1,
                less,
            ) && follows(head(merge@, merged_index + 1), right@, int_of(right_index), less) by {
                let next = head(merge@, merged_index + 1);
                assert(sorted(out, less));
                assert(follows(out, left@, int_of(left_index), less));
                assert forall|i: int, j: int| 0 <= i < j < next.len() implies !less(
                    #[trigger] next[j],
                    #[trigger] next[i],
                ) by {
                    if j < merged_index {
                        assert(next[i] == out[i] && next[j] == out[j]);
                    } else {
                        assert(next[i] == out[i]);
                        assert(next[j] == left@[int_of(left_index)]);
                    }
                }
                assert forall|a: int, b: int|
                    0 <= a < next.len() && left_index + 1 <= b < left@.len() implies !less(
                    #[trigger] left@[b],
                    #[trigger] next[a],
                ) by {
                    if a < merged_index {
                        assert(next[a] == out[a]);
                    } else {
                        assert(next[a] == left@[int_of(left_index)]);
                    }
                }
            }
        }
        merged_index += 1;
        left_index += 1;
    }
    while right_index < right.len()
        invariant
            left@.len() + right@.len() == merge@.len(),
            merge@.len() == old(merge)@.len(),
            left_index == left@.len(),
            right_index <= right@.len(),
            merged_index == left_index + right_index,
            head(merge@, int_of(merged_index)).to_multiset() == head(
                left@,
                int_of(left_index),
            ).to_multiset().add(head(right@, int_of(right_index)).to_multiset()),
            forall|less: spec_fn(T, T) -> bool|
                #![trigger agrees(*compare, less)]
                agrees(*compare, less) && sorted(left@, less) && sorted(right@, less) ==> sorted(
                    head(merge@, int_of(merged_index)),
                    less,
                ) && follows(
                    head(merge@, int_of(merged_index)),
                    right@,
                    int_of(right_index),
                    less,
                ),
        decreases right@.len() - right_index,
    {
        let ghost before = merge@;
        let ghost out = head(before, int_of(merged_index));
        merge[merged_index] = right[right_index];
        proof {
            let y = right@[int_of(right_index)];
            assert(head(merge@, merged_index + 1) =~= out.push(y));
            vstd::seq_lib::to_multiset_build(out, y);
            lemma_head_next(right@, int_of(right_index));
            assert(head(merge@, merged_index + 1).to_multiset() =~= head(
                left@,
                int_of(left_index),
            ).to_multiset().add(head(right@, right_index + 1).to_multiset()));
            assert forall|less: spec_fn(T, T) -> bool|
                #![trigger agrees(*compare, less)]
                agrees(*compare, less) && sorted(left@, less) && sorted(
                    right@,
                    less,
                ) implies sorted(head(merge@, merged_index + 1), less) && follows(
                head(merge@, merged_index + 1),
                right@,
                right_index + 1,
                less,
            ) by {
                let next = head(merge@, merged_index + 1);
                assert(sorted(out, less));
                assert(follows(out, right@, int_of(right_index), less));
                assert forall|i: int, j: int| 0 <= i < j < next.len() implies !less(
                    #[trigger] next[j],
                    #[trigger] next[i],
                ) by {
                    if j < merged_index {
                        assert(next[i] == out[i] && next[j] == out[j]);
                    } else {
                        assert(next[i] == out[i]);
                        assert(next[j] == right@[int_of(right_index)]);
                    }
                }
                assert forall|a: int, b: int|
                    0 <= a < next.len() && right_index + 1 <= b < right@.len() implies !less(
                    #[trigger] right@[b],
                    #[trigger] next[a],
                ) by {
                    if a < merged_index {
                        assert(next[a] == out[a]);
                    } else {
                        assert(next[a] == right@[int_of(right_index)]);
                    }
                }
            }
        }
        merged_index += 1;
        right_index += 1;
    }
    proof {
        assert(head(merge@, int_of(merged_index)) =~= merge@);
        assert(head(left@, int_of(left_index)) =~= left@);
        assert(head(right@, int_of(right_index)) =~= right@);
    }
}

} // verus!
