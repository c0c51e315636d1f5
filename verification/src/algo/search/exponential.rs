//! Search in a sorted slice by doubling the stride, then halving.

use crate::algo::compare::agrees;
use crate::algo::compare::alike;
use crate::algo::compare::ask;
use crate::algo::compare::callable;
use crate::algo::compare::lemma_follows_order;
use crate::algo::compare::natural;
use crate::algo::compare::order_of;
use crate::algo::compare::says;
use crate::algo::compare::sorted;
use crate::algo::search::binary::binary_search_with;
use crate::algo::search::binary::lemma_above;
use crate::algo::search::binary::some_alike;
use crate::util::items::index_of;
use crate::util::items::int_of;
use crate::util::order::key_order;
use crate::util::order::total_order;
use std::cmp::Ordering;
use vstd::prelude::*;

verus! {

/// The index of an element of the sorted `slice` that is `item`, if there
/// is one.
pub fn exponential_search<T: Ord>(slice: &[T], item: &T) -> (r: Option<usize>)
    requires
        total_order::<T>(),
        sorted(slice@, key_order::<T>()),
        slice@.len() > 0,
        2 * slice@.len() <= usize::MAX,
    ensures
        r matches Some(i) ==> i < slice@.len() && slice@[int_of(i)] == *item,
        r is None ==> forall|j: int| 0 <= j < slice@.len() ==> slice@[j] != *item,
{
    let by_order = |x1: &T, x2: &T| -> (o: Ordering)
        ensures
            natural(*x1, *x2, o),
        { order_of(x1, x2) };
    proof {
        lemma_follows_order(by_order);
    }
    let r = exponential_search_with(slice, item, &by_order);
    proof {
        assert(some_alike(slice@, *item, key_order::<T>(), r));
        assert forall|j: int| 0 <= j < slice@.len() && alike(
            key_order::<T>(),
            #[trigger] slice@[j],
            *item,
        ) implies slice@[j] == *item by {
        }
    }
    r
}

/// The index of an element of `slice` about which `compare` answers `Equal`
/// when asked about it and `item`, found by doubling the stride and then
/// halving. In every order that the answers agree with and in which `slice`
/// is sorted, the result is an element that sorts like `item`, and there is
/// one unless the result is `None`.
pub fn exponential_search_with<T, F>(slice: &[T], item: &T, compare: &F) -> (r: Option<
    usize,
>) where F: Fn(&T, &T) -> Ordering
    requires
        callable(*compare),
        slice@.len() > 0,
        2 * slice@.len() <= usize::MAX,
    ensures
        r matches Some(i) ==> i < slice@.len() && says(
            *compare,
            slice@[int_of(i)],
            *item,
            Ordering::Equal,
        ),
        forall|less: spec_fn(T, T) -> bool|
            agrees(*compare, less) && #[trigger] sorted(slice@, less) ==> some_alike(
                slice@,
                *item,
                less,
                r,
            ),
{
    let n = slice.len();
    match ask(compare, &slice[0], item) {
        Ordering::Equal => {
            return Some(0);
        },
        _ => {},
    }
    let mut i: usize = 1;
    let mut growing = true;
    while growing && i < n
        invariant
            callable(*compare),
            n == slice@.len(),
            2 * n <= usize::MAX,
            1 <= i,
            i / 2 < n,
            forall|less: spec_fn(T, T) -> bool| #[trigger]
                agrees(*compare, less) ==> (i > 1 ==> !less(*item, slice@[int_of(i) / 2])),
            !growing ==> i < n && forall|less: spec_fn(T, T) -> bool| #[trigger]
                agrees(*compare, less) ==> less(*item, slice@[int_of(i)]),
        decreases
                if growing {
                    2 * n - i
                } else {
                    0
                },
    {
        let mut more = false;
        match ask(compare, &slice[i], item) {
            Ordering::Less => {
                more = true;
            },
            _ => {
                match ask(compare, &slice[i], item) {
                    Ordering::Equal => {
                        more = true;
                    },
                    _ => {},
                }
            },
        }
        if more {
            i *= 2;
        } else {
            growing = false;
        }
    }
    let upper = if i + 1 < n {
        i + 1
    } else {
        n
    };
    let start = i / 2;
    let part = &slice[start..upper];
    let index = binary_search_with(part, item, compare);
    proof {
        assert forall|less: spec_fn(T, T) -> bool|
            agrees(*compare, less) && #[trigger] sorted(slice@, less) implies some_alike(
            slice@,
            *item,
            less,
            match index {
                Some(k) => Some(index_of(k + start)),
                None => None,
            },
        ) by {
            assert forall|a: int, b: int| 0 <= a < b < part@.len() implies !less(
                #[trigger] part@[b],
                #[trigger] part@[a],
            ) by {
                assert(part@[a] == slice@[start + a]);
                assert(part@[b] == slice@[start + b]);
            }
            assert(sorted(part@, less));
            assert(some_alike(part@, *item, less, index));
            match index {
                Some(k) => {
                    assert(part@[int_of(k)] == slice@[start + k]);
                },
                None => {
                    if upper < n {
                        lemma_above(slice@, int_of(i), *item, less);
                    }
                    assert forall|j: int| 0 <= j < slice@.len() implies !alike(
                        less,
                        #[trigger] slice@[j],
                        *item,
                    ) by {
                        if j < start {
                            assert(!less(slice@[int_of(start)], slice@[j]));
                            assert(part@[0] == slice@[start + 0]);
                            assert(!alike(less, part@[0], *item));
                        } else if j < upper {
                            assert(part@[j - start] == slice@[start + (j - start)]);
                            assert(!alike(less, part@[j - start], *item));
                        }
                    }
                },
            }
        }
    }
    if index.is_some() {
        let k = index.unwrap();
        proof {
            assert(part@[int_of(k)] == slice@[start + k]);
        }
        return Some(k + start);
    } else {
        return None;
    }
}

} // verus!
