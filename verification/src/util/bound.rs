//! Endpoints of intervals, and the two orders on them: one for endpoints that
//! open an interval, one for endpoints that close it.

use super::order::is_eq;
use super::order::is_le;
use super::order::is_lt;
use super::order::le;
use super::order::lemma_total_order;
use super::order::lt;
use super::order::total_order;
use std::cmp::Ordering;
use std::rc::Rc;
use vstd::prelude::*;

verus! {

/// One endpoint of an interval.
#[derive(Debug)]
pub enum Bound<T> {
    /// The endpoint's value belongs to the interval.
    Included(T),
    /// The interval goes up to the value, without it.
    Excluded(T),
    /// The interval has no end on this side.
    Unbounded,
}

/// `a` starts strictly further left than `b`, both read as lower endpoints.
/// No endpoint starts further left than `Unbounded`; at one value the
/// included endpoint starts before the excluded one.
pub open spec fn low_lt<T: Ord>(a: Bound<T>, b: Bound<T>) -> bool {
    match (a, b) {
        (_, Bound::Unbounded) => false,
        (Bound::Unbounded, _) => true,
        (Bound::Included(x), Bound::Excluded(y)) => le(x, y),
        (Bound::Included(x), Bound::Included(y)) => lt(x, y),
        (Bound::Excluded(x), Bound::Included(y)) => lt(x, y),
        (Bound::Excluded(x), Bound::Excluded(y)) => lt(x, y),
    }
}

/// `a` ends strictly further left than `b`, both read as upper endpoints.
/// No endpoint ends further right than `Unbounded`; at one value the excluded
/// endpoint ends before the included one.
pub open spec fn high_lt<T: Ord>(a: Bound<T>, b: Bound<T>) -> bool {
    match (a, b) {
        (Bound::Unbounded, _) => false,
        (_, Bound::Unbounded) => true,
        (Bound::Excluded(x), Bound::Included(y)) => le(x, y),
        (Bound::Included(x), Bound::Included(y)) => lt(x, y),
        (Bound::Included(x), Bound::Excluded(y)) => lt(x, y),
        (Bound::Excluded(x), Bound::Excluded(y)) => lt(x, y),
    }
}

/// The larger of two upper endpoints; the first where neither is larger.
pub open spec fn high_max<T: Ord>(a: Bound<T>, b: Bound<T>) -> Bound<T> {
    if high_lt(a, b) {
        b
    } else {
        a
    }
}

/// The smaller of two upper endpoints; the first where neither is smaller.
pub open spec fn high_min<T: Ord>(a: Bound<T>, b: Bound<T>) -> Bound<T> {
    if high_lt(b, a) {
        b
    } else {
        a
    }
}

/// The larger of two lower endpoints; the first where neither is larger.
pub open spec fn low_max<T: Ord>(a: Bound<T>, b: Bound<T>) -> Bound<T> {
    if low_lt(a, b) {
        b
    } else {
        a
    }
}

/// A range that ends at `high` extends at least to where a range that starts
/// at `low` begins: the two have a point in common, or, at one value, both
/// endpoints include it.
pub open spec fn reaches<T: Ord>(high: Bound<T>, low: Bound<T>) -> bool {
    match (high, low) {
        (Bound::Unbounded, _) => true,
        (_, Bound::Unbounded) => true,
        (Bound::Included(h), Bound::Included(l)) => le(l, h),
        (Bound::Included(h), Bound::Excluded(l)) => lt(l, h),
        (Bound::Excluded(h), Bound::Included(l)) => lt(l, h),
        (Bound::Excluded(h), Bound::Excluded(l)) => lt(l, h),
    }
}

/// Of two lower endpoints exactly one holds: the first starts further left,
/// they are the same endpoint, or the second starts further left.
pub proof fn lemma_low_trichotomy<T: Ord>(a: Bound<T>, b: Bound<T>)
    requires
        total_order::<T>(),
    ensures
        low_lt(a, b) || a == b || low_lt(b, a),
        !(low_lt(a, b) && low_lt(b, a)),
        !(low_lt(a, b) && a == b),
{
    lemma_total_order::<T>();
}

/// `low_lt` is transitive.
pub proof fn lemma_low_transitive<T: Ord>(a: Bound<T>, b: Bound<T>, c: Bound<T>)
    requires
        total_order::<T>(),
        low_lt(a, b),
        low_lt(b, c),
    ensures
        low_lt(a, c),
{
    lemma_total_order::<T>();
}

/// Of two upper endpoints exactly one holds: the first ends further left,
/// they are the same endpoint, or the second ends further left.
pub proof fn lemma_high_trichotomy<T: Ord>(a: Bound<T>, b: Bound<T>)
    requires
        total_order::<T>(),
    ensures
        high_lt(a, b) || a == b || high_lt(b, a),
        !(high_lt(a, b) && high_lt(b, a)),
        !(high_lt(a, b) && a == b),
{
    lemma_total_order::<T>();
}

/// `high_lt` is transitive.
pub proof fn lemma_high_transitive<T: Ord>(a: Bound<T>, b: Bound<T>, c: Bound<T>)
    requires
        total_order::<T>(),
        high_lt(a, b),
        high_lt(b, c),
    ensures
        high_lt(a, c),
{
    lemma_total_order::<T>();
}

/// An upper endpoint that reaches a lower endpoint still reaches it when the
/// upper endpoint moves right or the lower endpoint moves left.
pub proof fn lemma_reaches_monotone<T: Ord>(
    high: Bound<T>,
    low: Bound<T>,
    higher: Bound<T>,
    lower: Bound<T>,
)
    requires
        total_order::<T>(),
        reaches(high, low),
        !high_lt(higher, high),
        !low_lt(low, lower),
    ensures
        reaches(higher, lower),
{
    lemma_total_order::<T>();
}

/// Whether two endpoints are the same: the same kind, and the same value
/// where they have one.
pub fn bound_eq<T: Ord>(b1: &Bound<T>, b2: &Bound<T>) -> (r: bool)
    ensures
        total_order::<T>() ==> r == (*b1 == *b2),
{
    match (b1, b2) {
        (Bound::Included(x), Bound::Included(y)) => is_eq(x, y),
        (Bound::Excluded(x), Bound::Excluded(y)) => is_eq(x, y),
        (Bound::Unbounded, Bound::Unbounded) => true,
        _ => false,
    }
}

/// Whether `b1` starts strictly further left than `b2`.
pub fn lt_as_low<T: Ord>(b1: &Bound<T>, b2: &Bound<T>) -> (r: bool)
    ensures
        total_order::<T>() ==> r == low_lt(*b1, *b2),
{
    match (b1, b2) {
        (_, Bound::Unbounded) => false,
        (Bound::Unbounded, _) => true,
        (Bound::Included(x), Bound::Excluded(y)) => is_le(x, y),
        (Bound::Included(x), Bound::Included(y)) => is_lt(x, y),
        (Bound::Excluded(x), Bound::Included(y)) => is_lt(x, y),
        (Bound::Excluded(x), Bound::Excluded(y)) => is_lt(x, y),
    }
}

/// Whether `b1` ends strictly further left than `b2`.
pub fn lt_as_high<T: Ord>(b1: &Bound<T>, b2: &Bound<T>) -> (r: bool)
    ensures
        total_order::<T>() ==> r == high_lt(*b1, *b2),
{
    match (b1, b2) {
        (Bound::Unbounded, _) => false,
        (_, Bound::Unbounded) => true,
        (Bound::Excluded(x), Bound::Included(y)) => is_le(x, y),
        (Bound::Included(x), Bound::Included(y)) => is_lt(x, y),
        (Bound::Included(x), Bound::Excluded(y)) => is_lt(x, y),
        (Bound::Excluded(x), Bound::Excluded(y)) => is_lt(x, y),
    }
}

/// Three-way comparison of two lower endpoints.
pub fn compare_as_low<T: Ord>(b1: &Bound<T>, b2: &Bound<T>) -> (r: Ordering)
    requires
        total_order::<T>(),
    ensures
        r == Ordering::Less <==> low_lt(*b1, *b2),
        r == Ordering::Equal <==> *b1 == *b2,
        r == Ordering::Greater <==> low_lt(*b2, *b1),
{
    proof {
        lemma_low_trichotomy(*b1, *b2);
    }
    if lt_as_low(b1, b2) {
        Ordering::Less
    } else if lt_as_low(b2, b1) {
        Ordering::Greater
    } else {
        Ordering::Equal
    }
}

/// Three-way comparison of two upper endpoints.
pub fn compare_as_high<T: Ord>(b1: &Bound<T>, b2: &Bound<T>) -> (r: Ordering)
    requires
        total_order::<T>(),
    ensures
        r == Ordering::Less <==> high_lt(*b1, *b2),
        r == Ordering::Equal <==> *b1 == *b2,
        r == Ordering::Greater <==> high_lt(*b2, *b1),
{
    proof {
        lemma_high_trichotomy(*b1, *b2);
    }
    if lt_as_high(b1, b2) {
        Ordering::Less
    } else if lt_as_high(b2, b1) {
        Ordering::Greater
    } else {
        Ordering::Equal
    }
}

/// The larger of two upper endpoints, by handle; the first on a tie.
pub fn max_as_high<T: Ord>(b1: Rc<Bound<T>>, b2: Rc<Bound<T>>) -> (r: Rc<Bound<T>>)
    requires
        total_order::<T>(),
    ensures
        *r == high_max(*b1, *b2),
{
    if lt_as_high(&*b1, &*b2) {
        b2
    } else {
        b1
    }
}

/// Whether a range that ends at `b1` extends to where a range that starts at
/// `b2` begins.
pub fn ge_as_high<T: Ord>(b1: &Bound<T>, b2: &Bound<T>) -> (r: bool)
    ensures
        total_order::<T>() ==> r == reaches(*b1, *b2),
{
    match (b1, b2) {
        (Bound::Unbounded, _) => true,
        (_, Bound::Unbounded) => true,
        (Bound::Included(h), Bound::Included(l)) => is_le(l, h),
        (Bound::Included(h), Bound::Excluded(l)) => is_lt(l, h),
        (Bound::Excluded(h), Bound::Included(l)) => is_lt(l, h),
        (Bound::Excluded(h), Bound::Excluded(l)) => is_lt(l, h),
    }
}

} // verus!
