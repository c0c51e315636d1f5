//! Sequences that hold the same elements in another arrangement.

use vstd::prelude::*;

verus! {

/// The index `i` as a mathematical integer.
pub open spec fn int_of(i: usize) -> int {
    i as int
}

/// The length of `s` as a mathematical integer.
pub open spec fn len_of<A>(s: Seq<A>) -> int {
    s.len() as int
}

/// The integer `i` as an index.
pub open spec fn index_of(i: int) -> usize {
    i as usize
}

/// `k` less `d`, and 0 where `d` is the larger.
pub open spec fn minus(k: nat, d: nat) -> nat {
    if k >= d {
        (k - d) as nat
    } else {
        0
    }
}

/// `s` with the elements at `i` and `j` exchanged.
pub open spec fn swapped<A>(s: Seq<A>, i: int, j: int) -> Seq<A> {
    s.update(i, s[j]).update(j, s[i])
}

/// Exchanging two elements keeps what a sequence holds.
pub proof fn lemma_swapped_multiset<A>(s: Seq<A>, i: int, j: int)
    requires
        0 <= i < s.len(),
        0 <= j < s.len(),
    ensures
        swapped(s, i, j).to_multiset() == s.to_multiset(),
        swapped(s, i, j).len() == s.len(),
{
    broadcast use vstd::multiset::group_multiset_axioms;

    if i == j {
        assert(swapped(s, i, j) =~= s);
    } else {
        vstd::seq_lib::to_multiset_update(s, i, s[j]);
        vstd::seq_lib::to_multiset_update(s.update(i, s[j]), j, s[i]);
        vstd::seq_lib::to_multiset_contains(s, s[i]);
        vstd::seq_lib::to_multiset_contains(s, s[j]);
        assert(s.to_multiset().count(s[i]) > 0);
        assert(s.to_multiset().count(s[j]) > 0);
        assert(swapped(s, i, j).to_multiset() =~= s.to_multiset());
    }
}

/// What holds of every element of a sequence holds of every element of a
/// sequence with the same elements.
pub proof fn lemma_all_same_items<A>(a: Seq<A>, b: Seq<A>, p: spec_fn(A) -> bool)
    requires
        a.to_multiset() == b.to_multiset(),
        forall|i: int| 0 <= i < a.len() ==> p(#[trigger] a[i]),
    ensures
        forall|i: int| 0 <= i < b.len() ==> p(#[trigger] b[i]),
        a.len() == b.len(),
{
    vstd::seq_lib::to_multiset_len(a);
    vstd::seq_lib::to_multiset_len(b);
    assert forall|i: int| 0 <= i < b.len() implies p(#[trigger] b[i]) by {
        vstd::seq_lib::to_multiset_contains(b, b[i]);
        vstd::seq_lib::to_multiset_contains(a, b[i]);
        assert(b.contains(b[i]));
        let j = choose|j: int| 0 <= j < a.len() && a[j] == b[i];
        assert(p(a[j]));
    }
}

/// Two sequences joined hold what the two hold.
pub proof fn lemma_joined_multiset<A>(a: Seq<A>, b: Seq<A>)
    ensures
        (a + b).to_multiset() == a.to_multiset().add(b.to_multiset()),
        (a + b).len() == a.len() + b.len(),
{
    vstd::seq_lib::lemma_multiset_commutative(a, b);
}

/// A sequence holds what its two parts hold.
pub proof fn lemma_parts_multiset<A>(s: Seq<A>, mid: int)
    requires
        0 <= mid <= s.len(),
    ensures
        s.to_multiset() == s.subrange(0, mid).to_multiset().add(
            s.subrange(mid, s.len() as int).to_multiset(),
        ),
{
    assert(s =~= s.subrange(0, mid) + s.subrange(mid, s.len() as int));
    vstd::seq_lib::lemma_multiset_commutative(s.subrange(0, mid), s.subrange(mid, s.len() as int));
}

/// Exchanges the elements at `i` and `j`. This is the slice method `swap` of
/// the standard library, whose documented effect the contract states: the
/// two elements change places and nothing else moves.
#[verifier::external_body]
pub(crate) fn swap_items<T>(v: &mut [T], i: usize, j: usize)
    requires
        i < old(v)@.len(),
        j < old(v)@.len(),
    ensures
        final(v)@ == swapped(old(v)@, i as int, j as int),
{
    v.swap(i, j)
}

} // verus!
