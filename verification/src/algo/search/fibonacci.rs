//! Search in a sorted slice with strides that are Fibonacci numbers.

use crate::algo::compare::agrees;
use crate::algo::compare::alike;
use crate::algo::compare::ask;
use crate::algo::compare::callable;
use crate::algo::compare::lemma_follows_order;
use crate::algo::compare::natural;
use crate::algo::compare::order_of;
use crate::algo::compare::sorted;
use crate::algo::search::binary::above;
use crate::algo::search::binary::below;
use crate::algo::search::binary::lemma_above;
use crate::algo::search::binary::lemma_below;
use crate::algo::search::binary::some_alike;
use crate::util::items::int_of;
use crate::util::items::minus;
use crate::util::order::key_order;
use crate::util::order::total_order;
use std::cmp::Ordering;
use vstd::prelude::*;

verus! {

/// The Fibonacci numbers: 0, 1, 1, 2, 3, 5, ...
pub open spec fn fibo(k: nat) -> nat
    decreases k,
{
    if k == 0 {
        0
    } else if k == 1 {
        1
    } else {
        fibo((k - 1) as nat) + fibo((k - 2) as nat)
    }
}

proof fn lemma_fibo_grows(k: nat)
    ensures
        fibo(k) <= fibo(k + 1),
        k >= 1 ==> fibo(k) >= 1,
    decreases k,
{
    if k >= 2 {
        lemma_fibo_grows(minus(k, 1));
        lemma_fibo_grows(minus(k, 2));
    }
}

/// The index of an element of the sorted `slice` that is `item`, if there
/// is one.
pub fn fibonacci_search<T: Ord>(slice: &[T], item: &T) -> (r: Option<usize>)
    requires
        total_order::<T>(),
        sorted(slice@, key_order::<T>()),
        slice@.len() > 0,
        2 * slice@.len() <= usize::MAX,
    ensures
        r matches Some(i) ==> i < slice@.len() && slice@[int_of(i)] == *item,
        r is None ==> forall|j: int| 0 <= j < slice@.len() ==> slice@[j] != *item,
{
    let by_order = |x1: &T, x2: &T| -> (o: Ordering)
        ensures
            natural(*x1, *x2, o),
        { order_of(x1, x2) };
    proof {
        lemma_follows_order(by_order);
    }
    let r = fibonacci_search_with(slice, item, &by_order);
    proof {
        assert(some_alike(slice@, *item, key_order::<T>(), r));
        assert forall|j: int| 0 <= j < slice@.len() && alike(
            key_order::<T>(),
            #[trigger] slice@[j],
            *item,
        ) implies slice@[j] == *item by {
        }
    }
    r
}

/// The index of an element of `slice` about which `compare` answers neither
/// `Less` nor `Greater` when asked about it and `item`, found with strides
/// that are Fibonacci numbers. In every order that the answers agree with
/// and in which `slice` is sorted, the result is an element that sorts like
/// `item`, and there is one unless the result is `None`.
pub fn fibonacci_search_with<T, F>(slice: &[T], item: &T, compare: &F) -> (r: Option<usize>) where
    F: Fn(&T, &T) -> Ordering,

    requires
        callable(*compare),
        slice@.len() > 0,
        2 * slice@.len() <= usize::MAX,
    ensures
        r matches Some(i) ==> i < slice@.len(),
        forall|less: spec_fn(T, T) -> bool|
            agrees(*compare, less) && #[trigger] sorted(slice@, less) ==> some_alike(
                slice@,
                *item,
                less,
                r,
            ),
{
    let n = slice.len();
    let mut fib2: usize = 0;
    let mut fib1: usize = 1;
    let mut fib: usize = fib2 + fib1;
    let ghost mut k: nat = 0;
    proof {
        assert(fibo(0) == 0);
        assert(fibo(1) == 1);
        assert(fibo(2) == 1);
    }
    while fib < n
        invariant
            n == slice@.len(),
            2 * n <= usize::MAX,
            fib2 == fibo(k),
            fib1 == fibo(k + 1),
            fib == fibo(k + 2),
            fib1 <= n,
            fib1 <= fib,
        decreases 2 * n - fib,
    {
        proof {
            lemma_fibo_grows(k);
            lemma_fibo_grows(k + 1);
            lemma_fibo_grows(k + 2);
            assert(fibo(k + 3) == fibo(k + 2) + fibo(k + 1));
            assert(fib1 >= 1);
            k = k + 1;
        }
        fib2 = fib1;
        fib1 = fib;
        fib = fib2 + fib1;
    }
    // one more than the last index known to hold an element before `item`
    let mut next: usize = 0;
    while fib > 1
        invariant
            callable(*compare),
            n == slice@.len(),
            n > 0,
            2 * n <= usize::MAX,
            next <= n,
            fib <= 2 * n,
            fib > 1 ==> fib2 == fibo(k) && fib1 == fibo(k + 1) && fib == fibo(k + 2),
            forall|less: spec_fn(T, T) -> bool|
                agrees(*compare, less) && #[trigger] sorted(slice@, less) ==> below(
                    slice@,
                    int_of(next),
                    *item,
                    less,
                ) && above(slice@, next + fib - 1, *item, less),
        decreases fib,
    {
        proof {
            lemma_fibo_grows(k);
            lemma_fibo_grows(k + 1);
            if k == 0 {
                assert(fibo(0) == 0);
                assert(fibo(1) == 1);
                assert(fibo(2) == 1);
            }
        }
        let i = if next + fib2 - 1 < n - 1 {
            next + fib2 - 1
        } else {
            n - 1
        };
        match ask(compare, &slice[i], item) {
            Ordering::Less => {
                proof {
                    assert forall|less: spec_fn(T, T) -> bool|
                        agrees(*compare, less) && #[trigger] sorted(slice@, less) implies below(
                        slice@,
                        i + 1,
                        *item,
                        less,
                    ) && above(slice@, i + 1 + fib1 - 1, *item, less) by {
                        lemma_below(slice@, int_of(i), *item, less);
                    }
                    if k >= 1 {
                        lemma_fibo_grows(minus(k, 1));
                    }
                    k = minus(k, 1);
                }
                fib = fib1;
                fib1 = fib2;
                fib2 = fib - fib1;
                next = i + 1;
            },
            _ => {
                match ask(compare, &slice[i], item) {
                    Ordering::Greater => {
                        proof {
                            assert forall|less: spec_fn(T, T) -> bool|
                                agrees(*compare, less) && #[trigger] sorted(
                                    slice@,
                                    less,
                                ) implies above(slice@, next + fib2 - 1, *item, less) by {
                                lemma_above(slice@, int_of(i), *item, less);
                            }
                            if k >= 2 {
                                lemma_fibo_grows(minus(k, 2));
                                lemma_fibo_grows(minus(k, 1));
                            }
                            if k == 1 {
                                assert(fibo(0) == 0);
                                assert(fibo(1) == 1);
                                assert(fibo(2) == 1);
                            }
                            k = minus(k, 2);
                        }
                        fib = fib2;
                        fib1 = fib1 - fib2;
                        fib2 = fib - fib1;
                    },
                    _ => {
                        return Some(i);
                    },
                }
            },
        }
    }
    let upper = if next < n - 1 {
        next
    } else {
        n - 1
    };
    match ask(compare, &slice[upper], item) {
        Ordering::Equal => {
            return Some(upper);
        },
        _ => {},
    }
    None
}

} // verus!
