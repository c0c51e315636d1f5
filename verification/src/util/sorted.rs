//! Sequences kept in strictly increasing order: what the search trees of this
//! crate hold, read from left to right.

use vstd::prelude::*;

verus! {

/// `less` is a strict total order: of two values exactly one sorts first
/// unless they are the same value, and the order is transitive.
pub open spec fn strict_order<A>(less: spec_fn(A, A) -> bool) -> bool {
    &&& forall|a: A, b: A| #[trigger] less(a, b) ==> !less(b, a)
    &&& forall|a: A, b: A| #[trigger] less(a, b) || a == b || less(b, a)
    &&& forall|a: A, b: A, c: A| #[trigger] less(a, b) && #[trigger] less(b, c) ==> less(a, c)
}

/// Every element of `s` sorts before `x`.
pub open spec fn all_before<A>(s: Seq<A>, x: A, less: spec_fn(A, A) -> bool) -> bool {
    forall|i: int| 0 <= i < s.len() ==> less(#[trigger] s[i], x)
}

/// Every element of `s` sorts after `x`.
pub open spec fn all_after<A>(s: Seq<A>, x: A, less: spec_fn(A, A) -> bool) -> bool {
    forall|i: int| 0 <= i < s.len() ==> less(x, #[trigger] s[i])
}

/// `s` is strictly increasing.
pub open spec fn ascending<A>(s: Seq<A>, less: spec_fn(A, A) -> bool) -> bool {
    forall|i: int, j: int| 0 <= i < j < s.len() ==> less(#[trigger] s[i], #[trigger] s[j])
}

/// The number of elements of `s` that sort before `x`.
pub open spec fn rank_of<A>(s: Seq<A>, x: A, less: spec_fn(A, A) -> bool) -> nat
    decreases s.len(),
{
    if s.len() == 0 {
        0
    } else {
        rank_of(s.drop_last(), x, less) + if less(s.last(), x) {
            1nat
        } else {
            0nat
        }
    }
}

/// `s` with `x` at its place in the order, unless `s` holds `x` already.
pub open spec fn with_item<A>(s: Seq<A>, x: A, less: spec_fn(A, A) -> bool) -> Seq<A> {
    if s.contains(x) {
        s
    } else {
        s.insert(rank_of(s, x, less) as int, x)
    }
}

/// `s` without `x`, if `s` holds `x`.
pub open spec fn without_item<A>(s: Seq<A>, x: A, less: spec_fn(A, A) -> bool) -> Seq<A> {
    if s.contains(x) {
        s.remove(rank_of(s, x, less) as int)
    } else {
        s
    }
}

/// The elements of `s` from `low` on and before `high`.
pub open spec fn between<A>(s: Seq<A>, low: A, high: A, less: spec_fn(A, A) -> bool) -> Seq<A> {
    s.filter(|x: A| !less(x, low) && less(x, high))
}

pub proof fn lemma_join_contains<A>(a: Seq<A>, x: A, b: Seq<A>, y: A)
    ensures
        (a + seq![x] + b).contains(y) <==> (a.contains(y) || x == y || b.contains(y)),
{
    let s = a + seq![x] + b;
    if s.contains(y) {
        let i = choose|i: int| 0 <= i < s.len() && s[i] == y;
        if i < a.len() {
            assert(a[i] == y);
        } else if i > a.len() {
            assert(b[i - a.len() - 1] == y);
        }
    }
    if a.contains(y) {
        let i = choose|i: int| 0 <= i < a.len() && a[i] == y;
        assert(s[i] == y);
    }
    if b.contains(y) {
        let i = choose|i: int| 0 <= i < b.len() && b[i] == y;
        assert(s[a.len() + 1 + i] == y);
    }
    assert(s[a.len() as int] == x);
}

pub proof fn lemma_join_before<A>(a: Seq<A>, x: A, b: Seq<A>, y: A, less: spec_fn(A, A) -> bool)
    ensures
        all_before(a + seq![x] + b, y, less) <==> (all_before(a, y, less) && less(x, y)
            && all_before(b, y, less)),
{
    let s = a + seq![x] + b;
    if all_before(s, y, less) {
        assert forall|i: int| 0 <= i < a.len() implies less(#[trigger] a[i], y) by {
            assert(s[i] == a[i]);
        }
        assert(s[a.len() as int] == x);
        assert forall|i: int| 0 <= i < b.len() implies less(#[trigger] b[i], y) by {
            assert(s[a.len() + 1 + i] == b[i]);
        }
    }
    if all_before(a, y, less) && less(x, y) && all_before(b, y, less) {
        assert forall|i: int| 0 <= i < s.len() implies less(#[trigger] s[i], y) by {
            if i < a.len() {
                assert(s[i] == a[i]);
            } else if i > a.len() {
                assert(s[i] == b[i - a.len() - 1]);
            }
        }
    }
}

pub proof fn lemma_join_after<A>(a: Seq<A>, x: A, b: Seq<A>, y: A, less: spec_fn(A, A) -> bool)
    ensures
        all_after(a + seq![x] + b, y, less) <==> (all_after(a, y, less) && less(y, x) && all_after(
            b,
            y,
            less,
        )),
{
    let s = a + seq![x] + b;
    if all_after(s, y, less) {
        assert forall|i: int| 0 <= i < a.len() implies less(y, #[trigger] a[i]) by {
            assert(s[i] == a[i]);
        }
        assert(s[a.len() as int] == x);
        assert forall|i: int| 0 <= i < b.len() implies less(y, #[trigger] b[i]) by {
            assert(s[a.len() + 1 + i] == b[i]);
        }
    }
    if all_after(a, y, less) && less(y, x) && all_after(b, y, less) {
        assert forall|i: int| 0 <= i < s.len() implies less(y, #[trigger] s[i]) by {
            if i < a.len() {
                assert(s[i] == a[i]);
            } else if i > a.len() {
                assert(s[i] == b[i - a.len() - 1]);
            }
        }
    }
}

pub proof fn lemma_before_further<A>(s: Seq<A>, x: A, y: A, less: spec_fn(A, A) -> bool)
    requires
        strict_order(less),
        all_before(s, x, less),
        less(x, y),
    ensures
        all_before(s, y, less),
{
    assert forall|i: int| 0 <= i < s.len() implies less(#[trigger] s[i], y) by {
        assert(less(s[i], x));
    }
}

pub proof fn lemma_after_further<A>(s: Seq<A>, x: A, y: A, less: spec_fn(A, A) -> bool)
    requires
        strict_order(less),
        all_after(s, x, less),
        less(y, x),
    ensures
        all_after(s, y, less),
{
    assert forall|i: int| 0 <= i < s.len() implies less(y, #[trigger] s[i]) by {
        assert(less(x, s[i]));
    }
}

pub proof fn lemma_join_ascending<A>(a: Seq<A>, x: A, b: Seq<A>, less: spec_fn(A, A) -> bool)
    requires
        strict_order(less),
        ascending(a, less),
        ascending(b, less),
        all_before(a, x, less),
        all_after(b, x, less),
    ensures
        ascending(a + seq![x] + b, less),
{
    let s = a + seq![x] + b;
    assert forall|i: int, j: int| 0 <= i < j < s.len() implies less(
        #[trigger] s[i],
        #[trigger] s[j],
    ) by {
        if j < a.len() {
            assert(s[i] == a[i] && s[j] == a[j]);
        } else if j == a.len() {
            assert(s[i] == a[i]);
        } else {
            assert(s[j] == b[j - a.len() - 1]);
            assert(less(x, s[j]));
            if i < a.len() {
                assert(s[i] == a[i]);
                assert(less(s[i], x));
            } else if i > a.len() {
                assert(s[i] == b[i - a.len() - 1]);
            }
        }
    }
}

/// In a sequence in increasing order no value occurs twice.
pub proof fn lemma_ascending_no_duplicates<A>(s: Seq<A>, less: spec_fn(A, A) -> bool)
    requires
        strict_order(less),
        ascending(s, less),
    ensures
        s.no_duplicates(),
{
    assert forall|i: int, j: int| 0 <= i < s.len() && 0 <= j < s.len() && i != j implies s[i]
        != s[j] by {
        if i < j {
            assert(less(s[i], s[j]));
        } else {
            assert(less(s[j], s[i]));
        }
    }
}

pub proof fn lemma_rank_bound<A>(s: Seq<A>, x: A, less: spec_fn(A, A) -> bool)
    ensures
        rank_of(s, x, less) <= s.len(),
    decreases s.len(),
{
    if s.len() > 0 {
        lemma_rank_bound(s.drop_last(), x, less);
    }
}

pub proof fn lemma_rank_concat<A>(a: Seq<A>, b: Seq<A>, x: A, less: spec_fn(A, A) -> bool)
    ensures
        rank_of(a + b, x, less) == rank_of(a, x, less) + rank_of(b, x, less),
    decreases b.len(),
{
    if b.len() == 0 {
        assert(a + b =~= a);
    } else {
        assert((a + b).drop_last() =~= a + b.drop_last());
        lemma_rank_concat(a, b.drop_last(), x, less);
    }
}

pub proof fn lemma_rank_one<A>(y: A, x: A, less: spec_fn(A, A) -> bool)
    ensures
        rank_of(seq![y], x, less) == if less(y, x) {
            1nat
        } else {
            0nat
        },
{
    assert(seq![y].drop_last() =~= Seq::<A>::empty());
    assert(rank_of(Seq::<A>::empty(), x, less) == 0);
}

pub proof fn lemma_rank_all<A>(s: Seq<A>, x: A, less: spec_fn(A, A) -> bool)
    requires
        all_before(s, x, less),
    ensures
        rank_of(s, x, less) == s.len(),
    decreases s.len(),
{
    if s.len() > 0 {
        assert forall|i: int| 0 <= i < s.drop_last().len() implies less(
            #[trigger] s.drop_last()[i],
            x,
        ) by {
            assert(s.drop_last()[i] == s[i]);
        }
        lemma_rank_all(s.drop_last(), x, less);
        assert(s.last() == s[s.len() - 1]);
    }
}

pub proof fn lemma_rank_none<A>(s: Seq<A>, x: A, less: spec_fn(A, A) -> bool)
    requires
        forall|i: int| 0 <= i < s.len() ==> !less(#[trigger] s[i], x),
    ensures
        rank_of(s, x, less) == 0,
    decreases s.len(),
{
    if s.len() > 0 {
        assert forall|i: int| 0 <= i < s.drop_last().len() implies !less(
            #[trigger] s.drop_last()[i],
            x,
        ) by {
            assert(s.drop_last()[i] == s[i]);
        }
        lemma_rank_none(s.drop_last(), x, less);
        assert(s.last() == s[s.len() - 1]);
    }
}

/// Rank and membership in `a + [n] + b`, where `n` parts `a` from `b`, follow
/// from how `x` compares with `n`.
pub proof fn lemma_rank_join<A>(a: Seq<A>, n: A, b: Seq<A>, x: A, less: spec_fn(A, A) -> bool)
    requires
        strict_order(less),
        all_before(a, n, less),
        all_after(b, n, less),
    ensures
        less(x, n) ==> rank_of(a + seq![n] + b, x, less) == rank_of(a, x, less) && ((a + seq![n]
            + b).contains(x) <==> a.contains(x)),
        x == n ==> rank_of(a + seq![n] + b, x, less) == a.len() && (a + seq![n] + b).contains(x),
        less(n, x) ==> rank_of(a + seq![n] + b, x, less) == a.len() + 1 + rank_of(b, x, less) && ((a
            + seq![n] + b).contains(x) <==> b.contains(x)),
{
    lemma_rank_concat(a + seq![n], b, x, less);
    lemma_rank_concat(a, seq![n], x, less);
    lemma_rank_one(n, x, less);
    lemma_join_contains(a, n, b, x);
    if less(x, n) || x == n {
        assert forall|i: int| 0 <= i < b.len() implies !less(#[trigger] b[i], x) by {
            assert(less(n, b[i]));
        }
        lemma_rank_none(b, x, less);
        if b.contains(x) {
            let i = choose|i: int| 0 <= i < b.len() && b[i] == x;
            assert(less(n, b[i]));
        }
    }
    if less(n, x) || x == n {
        if less(n, x) {
            lemma_before_further(a, n, x, less);
        }
        lemma_rank_all(a, x, less);
        if a.contains(x) {
            let i = choose|i: int| 0 <= i < a.len() && a[i] == x;
            assert(less(a[i], n));
        }
    }
}

/// In a sequence in increasing order the rank of an element is its index.
pub proof fn lemma_rank_of_index<A>(s: Seq<A>, i: int, less: spec_fn(A, A) -> bool)
    requires
        strict_order(less),
        ascending(s, less),
        0 <= i < s.len(),
    ensures
        rank_of(s, s[i], less) == i,
{
    let a = s.subrange(0, i);
    let b = s.subrange(i + 1, s.len() as int);
    assert(s =~= a + seq![s[i]] + b);
    assert forall|j: int| 0 <= j < a.len() implies less(#[trigger] a[j], s[i]) by {
        assert(a[j] == s[j]);
    }
    assert forall|j: int| 0 <= j < b.len() implies less(s[i], #[trigger] b[j]) by {
        assert(b[j] == s[i + 1 + j]);
    }
    lemma_rank_join(a, s[i], b, s[i], less);
}

/// In a sequence in increasing order an element stands at its rank.
pub proof fn lemma_index_of_rank<A>(s: Seq<A>, x: A, less: spec_fn(A, A) -> bool)
    requires
        strict_order(less),
        ascending(s, less),
        s.contains(x),
    ensures
        rank_of(s, x, less) < s.len(),
        s[rank_of(s, x, less) as int] == x,
{
    let i = choose|i: int| 0 <= i < s.len() && s[i] == x;
    lemma_rank_of_index(s, i, less);
}

/// The rank does not fall when the value rises.
pub proof fn lemma_rank_monotone<A>(s: Seq<A>, x: A, y: A, less: spec_fn(A, A) -> bool)
    requires
        strict_order(less),
        !less(y, x),
    ensures
        rank_of(s, x, less) <= rank_of(s, y, less),
    decreases s.len(),
{
    if s.len() > 0 {
        lemma_rank_monotone(s.drop_last(), x, y, less);
        if less(s.last(), x) {
            assert(less(s.last(), y));
        }
    }
}

/// Inserting into the part before `n` is inserting into the whole.
pub proof fn lemma_with_left<A>(a: Seq<A>, n: A, b: Seq<A>, x: A, less: spec_fn(A, A) -> bool)
    requires
        strict_order(less),
        all_before(a, n, less),
        all_after(b, n, less),
        less(x, n),
    ensures
        with_item(a + seq![n] + b, x, less) == with_item(a, x, less) + seq![n] + b,
        all_before(with_item(a, x, less), n, less),
        a.len() <= with_item(a, x, less).len() <= a.len() + 1,
{
    lemma_rank_join(a, n, b, x, less);
    lemma_rank_bound(a, x, less);
    let r = rank_of(a, x, less) as int;
    if !a.contains(x) {
        assert((a + seq![n] + b).insert(r, x) =~= a.insert(r, x) + seq![n] + b);
        assert forall|i: int| 0 <= i < a.insert(r, x).len() implies less(
            #[trigger] a.insert(r, x)[i],
            n,
        ) by {
            if i < r {
                assert(a.insert(r, x)[i] == a[i]);
            } else if i > r {
                assert(a.insert(r, x)[i] == a[i - 1]);
            }
        }
    }
}

/// Inserting into the part after `n` is inserting into the whole.
pub proof fn lemma_with_right<A>(a: Seq<A>, n: A, b: Seq<A>, x: A, less: spec_fn(A, A) -> bool)
    requires
        strict_order(less),
        all_before(a, n, less),
        all_after(b, n, less),
        less(n, x),
    ensures
        with_item(a + seq![n] + b, x, less) == a + seq![n] + with_item(b, x, less),
        all_after(with_item(b, x, less), n, less),
        b.len() <= with_item(b, x, less).len() <= b.len() + 1,
{
    lemma_rank_join(a, n, b, x, less);
    lemma_rank_bound(b, x, less);
    let r = rank_of(b, x, less) as int;
    if !b.contains(x) {
        assert((a + seq![n] + b).insert(a.len() + 1 + r, x) =~= a + seq![n] + b.insert(r, x));
        assert forall|i: int| 0 <= i < b.insert(r, x).len() implies less(
            n,
            #[trigger] b.insert(r, x)[i],
        ) by {
            if i < r {
                assert(b.insert(r, x)[i] == b[i]);
            } else if i > r {
                assert(b.insert(r, x)[i] == b[i - 1]);
            }
        }
    }
}

/// Removing from the part before `n` is removing from the whole.
pub proof fn lemma_without_left<A>(a: Seq<A>, n: A, b: Seq<A>, x: A, less: spec_fn(A, A) -> bool)
    requires
        strict_order(less),
        ascending(a, less),
        all_before(a, n, less),
        all_after(b, n, less),
        less(x, n),
    ensures
        without_item(a + seq![n] + b, x, less) == without_item(a, x, less) + seq![n] + b,
        all_before(without_item(a, x, less), n, less),
        ascending(without_item(a, x, less), less),
        a.len() - 1 <= without_item(a, x, less).len() <= a.len(),
{
    lemma_rank_join(a, n, b, x, less);
    lemma_rank_bound(a, x, less);
    let r = rank_of(a, x, less) as int;
    if a.contains(x) {
        lemma_index_of_rank(a, x, less);
        assert((a + seq![n] + b).remove(r) =~= a.remove(r) + seq![n] + b);
        assert forall|i: int| 0 <= i < a.remove(r).len() implies less(
            #[trigger] a.remove(r)[i],
            n,
        ) by {
            if i < r {
                assert(a.remove(r)[i] == a[i]);
            } else {
                assert(a.remove(r)[i] == a[i + 1]);
            }
        }
        lemma_remove_ascending(a, r, less);
    }
}

/// Removing from the part after `n` is removing from the whole.
pub proof fn lemma_without_right<A>(a: Seq<A>, n: A, b: Seq<A>, x: A, less: spec_fn(A, A) -> bool)
    requires
        strict_order(less),
        ascending(b, less),
        all_before(a, n, less),
        all_after(b, n, less),
        less(n, x),
    ensures
        without_item(a + seq![n] + b, x, less) == a + seq![n] + without_item(b, x, less),
        all_after(without_item(b, x, less), n, less),
        ascending(without_item(b, x, less), less),
        b.len() - 1 <= without_item(b, x, less).len() <= b.len(),
{
    lemma_rank_join(a, n, b, x, less);
    lemma_rank_bound(b, x, less);
    let r = rank_of(b, x, less) as int;
    if b.contains(x) {
        lemma_index_of_rank(b, x, less);
        assert((a + seq![n] + b).remove(a.len() + 1 + r) =~= a + seq![n] + b.remove(r));
        assert forall|i: int| 0 <= i < b.remove(r).len() implies less(
            n,
            #[trigger] b.remove(r)[i],
        ) by {
            if i < r {
                assert(b.remove(r)[i] == b[i]);
            } else {
                assert(b.remove(r)[i] == b[i + 1]);
            }
        }
        lemma_remove_ascending(b, r, less);
    }
}

/// Removing the element that parts `a` from `b` leaves `a + b`.
pub proof fn lemma_without_middle<A>(a: Seq<A>, n: A, b: Seq<A>, less: spec_fn(A, A) -> bool)
    requires
        strict_order(less),
        all_before(a, n, less),
        all_after(b, n, less),
    ensures
        without_item(a + seq![n] + b, n, less) == a + b,
{
    lemma_rank_join(a, n, b, n, less);
    assert((a + seq![n] + b).remove(a.len() as int) =~= a + b);
}

/// Where `x` stands among the elements of a sequence in increasing order:
/// after those that sort before it and before all others.
pub proof fn lemma_rank_parts<A>(s: Seq<A>, x: A, less: spec_fn(A, A) -> bool)
    requires
        strict_order(less),
        ascending(s, less),
    ensures
        rank_of(s, x, less) <= s.len(),
        forall|i: int| 0 <= i < rank_of(s, x, less) ==> less(#[trigger] s[i], x),
        forall|i: int| rank_of(s, x, less) <= i < s.len() ==> !less(#[trigger] s[i], x),
    decreases s.len(),
{
    if s.len() > 0 {
        let t = s.drop_last();
        assert forall|i: int, j: int| 0 <= i < j < t.len() implies less(
            #[trigger] t[i],
            #[trigger] t[j],
        ) by {
            assert(t[i] == s[i] && t[j] == s[j]);
        }
        lemma_rank_parts(t, x, less);
        let r = rank_of(t, x, less);
        assert forall|i: int| 0 <= i < rank_of(s, x, less) implies less(#[trigger] s[i], x) by {
            if i < t.len() {
                assert(t[i] == s[i]);
                if i >= r {
                    // the last element sorts before x, and s[i] before the last
                    assert(less(s[i], s.last()));
                }
            }
        }
        assert forall|i: int| rank_of(s, x, less) <= i < s.len() implies !less(
            #[trigger] s[i],
            x,
        ) by {
            if i < t.len() {
                assert(t[i] == s[i]);
            }
        }
    }
}

/// Inserting and removing keep the order, and change membership by the one
/// value only.
pub proof fn lemma_with_without<A>(s: Seq<A>, x: A, y: A, less: spec_fn(A, A) -> bool)
    requires
        strict_order(less),
        ascending(s, less),
    ensures
        with_item(s, x, less).contains(y) <==> s.contains(y) || y == x,
        without_item(s, x, less).contains(y) <==> s.contains(y) && y != x,
        ascending(with_item(s, x, less), less),
        ascending(without_item(s, x, less), less),
{
    lemma_rank_parts(s, x, less);
    let r = rank_of(s, x, less) as int;
    if s.contains(x) {
        lemma_index_of_rank(s, x, less);
        lemma_remove_ascending(s, r, less);
        lemma_ascending_no_duplicates(s, less);
        let t = s.remove(r);
        if t.contains(y) {
            let i = choose|i: int| 0 <= i < t.len() && t[i] == y;
            let i2 = if i < r {
                i
            } else {
                i + 1
            };
            assert(s[i2] == y);
        }
        if s.contains(y) && y != x {
            let i = choose|i: int| 0 <= i < s.len() && s[i] == y;
            let i2 = if i < r {
                i
            } else {
                i - 1
            };
            assert(t[i2] == y);
        }
    } else {
        let t = s.insert(r, x);
        assert(t[r] == x);
        if t.contains(y) {
            let i = choose|i: int| 0 <= i < t.len() && t[i] == y;
            if i < r {
                assert(s[i] == y);
            } else if i > r {
                assert(s[i - 1] == y);
            }
        }
        if s.contains(y) {
            let i = choose|i: int| 0 <= i < s.len() && s[i] == y;
            let i2 = if i < r {
                i
            } else {
                i + 1
            };
            assert(t[i2] == y);
        }
        assert forall|i: int, j: int| 0 <= i < j < t.len() implies less(
            #[trigger] t[i],
            #[trigger] t[j],
        ) by {
            let i2 = if i < r {
                i
            } else {
                i - 1
            };
            let j2 = if j < r {
                j
            } else {
                j - 1
            };
            if i == r {
                assert(t[j] == s[j2]);
                assert(!less(s[j2], x));
                assert(s[j2] != x);
            } else if j == r {
                assert(t[i] == s[i2]);
            } else {
                assert(t[i] == s[i2] && t[j] == s[j2]);
            }
        }
    }
}

pub proof fn lemma_remove_ascending<A>(s: Seq<A>, r: int, less: spec_fn(A, A) -> bool)
    requires
        ascending(s, less),
        0 <= r < s.len(),
    ensures
        ascending(s.remove(r), less),
{
    let t = s.remove(r);
    assert forall|i: int, j: int| 0 <= i < j < t.len() implies less(
        #[trigger] t[i],
        #[trigger] t[j],
    ) by {
        let i2 = if i < r {
            i
        } else {
            i + 1
        };
        let j2 = if j < r {
            j
        } else {
            j + 1
        };
        assert(t[i] == s[i2] && t[j] == s[j2]);
    }
}

/// The elements between two values in `a + [n] + b`: those of `a`, then `n`
/// if it lies between, then those of `b`.
pub proof fn lemma_between_join<A>(
    a: Seq<A>,
    n: A,
    b: Seq<A>,
    low: A,
    high: A,
    less: spec_fn(A, A) -> bool,
)
    ensures
        between(a + seq![n] + b, low, high, less) == between(a, low, high, less) + (if !less(n, low)
            && less(n, high) {
            seq![n]
        } else {
            Seq::<A>::empty()
        }) + between(b, low, high, less),
{
    let p = |x: A| !less(x, low) && less(x, high);
    Seq::filter_distributes_over_add(a + seq![n], b, p);
    Seq::filter_distributes_over_add(a, seq![n], p);
    lemma_filter_one(n, p);
}

/// Filtering a sequence of one element keeps it or leaves nothing.
pub proof fn lemma_filter_one<A>(n: A, p: spec_fn(A) -> bool)
    ensures
        seq![n].filter(p) == if p(n) {
            seq![n]
        } else {
            Seq::<A>::empty()
        },
{
    reveal(Seq::filter);
    let none = Seq::<A>::empty();
    assert(seq![n].drop_last() =~= none);
    assert(none.filter(p) =~= none);
    assert(seq![n].last() == n);
    assert(none.push(n) =~= seq![n]);
}

/// Nothing that sorts before a value at or below `low` lies between `low`
/// and `high`.
pub proof fn lemma_between_left_empty<A>(
    a: Seq<A>,
    n: A,
    low: A,
    high: A,
    less: spec_fn(A, A) -> bool,
)
    requires
        strict_order(less),
        all_before(a, n, less),
        !less(low, n),
    ensures
        between(a, low, high, less) == Seq::<A>::empty(),
    decreases a.len(),
{
    reveal(Seq::filter);
    if a.len() > 0 {
        assert forall|i: int| 0 <= i < a.drop_last().len() implies less(
            #[trigger] a.drop_last()[i],
            n,
        ) by {
            assert(a.drop_last()[i] == a[i]);
        }
        lemma_between_left_empty(a.drop_last(), n, low, high, less);
        assert(less(a[a.len() - 1], n));
    }
}

/// Nothing that sorts after a value at or above `high` lies between `low`
/// and `high`.
pub proof fn lemma_between_right_empty<A>(
    b: Seq<A>,
    n: A,
    low: A,
    high: A,
    less: spec_fn(A, A) -> bool,
)
    requires
        strict_order(less),
        all_after(b, n, less),
        !less(n, high),
    ensures
        between(b, low, high, less) == Seq::<A>::empty(),
    decreases b.len(),
{
    reveal(Seq::filter);
    if b.len() > 0 {
        assert forall|i: int| 0 <= i < b.drop_last().len() implies less(
            n,
            #[trigger] b.drop_last()[i],
        ) by {
            assert(b.drop_last()[i] == b[i]);
        }
        lemma_between_right_empty(b.drop_last(), n, low, high, less);
        assert(less(n, b[b.len() - 1]));
    }
}

/// The elements between two values are those that sort before the upper one
/// less those that sort before the lower one.
pub proof fn lemma_between_len<A>(s: Seq<A>, low: A, high: A, less: spec_fn(A, A) -> bool)
    requires
        strict_order(less),
        !less(high, low),
    ensures
        between(s, low, high, less).len() == rank_of(s, high, less) - rank_of(s, low, less),
    decreases s.len(),
{
    reveal(Seq::filter);
    if s.len() > 0 {
        lemma_between_len(s.drop_last(), low, high, less);
        if less(s.last(), low) {
            assert(less(s.last(), high));
        }
    }
}

/// Where the upper value sorts before the lower one, nothing lies between.
pub proof fn lemma_between_none<A>(s: Seq<A>, low: A, high: A, less: spec_fn(A, A) -> bool)
    requires
        strict_order(less),
        less(high, low),
    ensures
        between(s, low, high, less) == Seq::<A>::empty(),
    decreases s.len(),
{
    reveal(Seq::filter);
    if s.len() > 0 {
        lemma_between_none(s.drop_last(), low, high, less);
        if less(s.last(), high) {
            assert(less(s.last(), low));
        }
    }
}

} // verus!
