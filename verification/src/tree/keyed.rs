//! Maps as two sequences: the keys in increasing order, and the values in
//! the order of their keys.

use crate::util::order::key_order;
use crate::util::order::le;
use crate::util::sorted::all_after;
use crate::util::sorted::all_before;
use crate::util::sorted::ascending;
use crate::util::sorted::lemma_index_of_rank;
use crate::util::sorted::lemma_rank_bound;
use crate::util::sorted::lemma_rank_join;
use crate::util::sorted::rank_of;
use crate::util::sorted::strict_order;
use crate::util::sorted::with_item;
use vstd::prelude::*;

verus! {

/// The values of a map after `key` was given `value`: the value at the rank
/// of `key` is replaced where the map holds `key`, and put in at that rank
/// where it does not.
pub open spec fn put_value<K: Ord, V>(keys: Seq<K>, values: Seq<V>, key: K, value: V) -> Seq<V> {
    if keys.contains(key) {
        values.update(rank_of(keys, key, key_order::<K>()) as int, value)
    } else {
        values.insert(rank_of(keys, key, key_order::<K>()) as int, value)
    }
}

/// The values of a map after `key` was removed.
pub open spec fn drop_value<K: Ord, V>(keys: Seq<K>, values: Seq<V>, key: K) -> Seq<V> {
    if keys.contains(key) {
        values.remove(rank_of(keys, key, key_order::<K>()) as int)
    } else {
        values
    }
}

/// Giving a value to a key that sorts before `nk` touches the values before
/// that of `nk` only.
pub proof fn lemma_put_left<K: Ord, V>(
    a: Seq<K>,
    va: Seq<V>,
    nk: K,
    nv: V,
    b: Seq<K>,
    vb: Seq<V>,
    key: K,
    value: V,
)
    requires
        strict_order(key_order::<K>()),
        ascending(a, key_order::<K>()),
        all_before(a, nk, key_order::<K>()),
        all_after(b, nk, key_order::<K>()),
        va.len() == a.len(),
        key_order::<K>()(key, nk),
    ensures
        put_value(a + seq![nk] + b, va + seq![nv] + vb, key, value) == put_value(a, va, key, value)
            + seq![nv] + vb,
{
    let less = key_order::<K>();
    lemma_rank_join(a, nk, b, key, less);
    lemma_rank_bound(a, key, less);
    let r = rank_of(a, key, less) as int;
    if a.contains(key) {
        lemma_index_of_rank(a, key, less);
        assert((va + seq![nv] + vb).update(r, value) =~= va.update(r, value) + seq![nv] + vb);
    } else {
        assert((va + seq![nv] + vb).insert(r, value) =~= va.insert(r, value) + seq![nv] + vb);
    }
}

/// Giving a value to a key that sorts after `nk` touches the values after
/// that of `nk` only.
pub proof fn lemma_put_right<K: Ord, V>(
    a: Seq<K>,
    va: Seq<V>,
    nk: K,
    nv: V,
    b: Seq<K>,
    vb: Seq<V>,
    key: K,
    value: V,
)
    requires
        strict_order(key_order::<K>()),
        ascending(b, key_order::<K>()),
        all_before(a, nk, key_order::<K>()),
        all_after(b, nk, key_order::<K>()),
        va.len() == a.len(),
        vb.len() == b.len(),
        key_order::<K>()(nk, key),
    ensures
        put_value(a + seq![nk] + b, va + seq![nv] + vb, key, value) == va + seq![nv] + put_value(
            b,
            vb,
            key,
            value,
        ),
{
    let less = key_order::<K>();
    lemma_rank_join(a, nk, b, key, less);
    lemma_rank_bound(b, key, less);
    let r = rank_of(b, key, less) as int;
    if b.contains(key) {
        lemma_index_of_rank(b, key, less);
        assert((va + seq![nv] + vb).update(a.len() + 1 + r, value) =~= va + seq![nv] + vb.update(
            r,
            value,
        ));
    } else {
        assert((va + seq![nv] + vb).insert(a.len() + 1 + r, value) =~= va + seq![nv] + vb.insert(
            r,
            value,
        ));
    }
}

/// Giving a value to the key `nk` itself replaces its value.
pub proof fn lemma_put_middle<K: Ord, V>(
    a: Seq<K>,
    va: Seq<V>,
    nk: K,
    nv: V,
    b: Seq<K>,
    vb: Seq<V>,
    value: V,
)
    requires
        strict_order(key_order::<K>()),
        all_before(a, nk, key_order::<K>()),
        all_after(b, nk, key_order::<K>()),
        va.len() == a.len(),
    ensures
        put_value(a + seq![nk] + b, va + seq![nv] + vb, nk, value) == va + seq![value] + vb,
        with_item(a + seq![nk] + b, nk, key_order::<K>()) == a + seq![nk] + b,
{
    let less = key_order::<K>();
    lemma_rank_join(a, nk, b, nk, less);
    assert((va + seq![nv] + vb).update(a.len() as int, value) =~= va + seq![value] + vb);
}

/// Removing a key that sorts before `nk` touches the values before that of
/// `nk` only.
pub proof fn lemma_drop_left<K: Ord, V>(
    a: Seq<K>,
    va: Seq<V>,
    nk: K,
    nv: V,
    b: Seq<K>,
    vb: Seq<V>,
    key: K,
)
    requires
        strict_order(key_order::<K>()),
        ascending(a, key_order::<K>()),
        all_before(a, nk, key_order::<K>()),
        all_after(b, nk, key_order::<K>()),
        va.len() == a.len(),
        key_order::<K>()(key, nk),
    ensures
        drop_value(a + seq![nk] + b, va + seq![nv] + vb, key) == drop_value(a, va, key) + seq![nv]
            + vb,
{
    let less = key_order::<K>();
    lemma_rank_join(a, nk, b, key, less);
    lemma_rank_bound(a, key, less);
    let r = rank_of(a, key, less) as int;
    if a.contains(key) {
        lemma_index_of_rank(a, key, less);
        assert((va + seq![nv] + vb).remove(r) =~= va.remove(r) + seq![nv] + vb);
    }
}

/// Removing a key that sorts after `nk` touches the values after that of
/// `nk` only.
pub proof fn lemma_drop_right<K: Ord, V>(
    a: Seq<K>,
    va: Seq<V>,
    nk: K,
    nv: V,
    b: Seq<K>,
    vb: Seq<V>,
    key: K,
)
    requires
        strict_order(key_order::<K>()),
        ascending(b, key_order::<K>()),
        all_before(a, nk, key_order::<K>()),
        all_after(b, nk, key_order::<K>()),
        va.len() == a.len(),
        vb.len() == b.len(),
        key_order::<K>()(nk, key),
    ensures
        drop_value(a + seq![nk] + b, va + seq![nv] + vb, key) == va + seq![nv] + drop_value(
            b,
            vb,
            key,
        ),
{
    let less = key_order::<K>();
    lemma_rank_join(a, nk, b, key, less);
    lemma_rank_bound(b, key, less);
    let r = rank_of(b, key, less) as int;
    if b.contains(key) {
        lemma_index_of_rank(b, key, less);
        assert((va + seq![nv] + vb).remove(a.len() + 1 + r) =~= va + seq![nv] + vb.remove(r));
    }
}

/// Removing the key `nk` itself removes its value.
pub proof fn lemma_drop_middle<K: Ord, V>(
    a: Seq<K>,
    va: Seq<V>,
    nk: K,
    nv: V,
    b: Seq<K>,
    vb: Seq<V>,
)
    requires
        strict_order(key_order::<K>()),
        all_before(a, nk, key_order::<K>()),
        all_after(b, nk, key_order::<K>()),
        va.len() == a.len(),
    ensures
        drop_value(a + seq![nk] + b, va + seq![nv] + vb, nk) == va + vb,
{
    let less = key_order::<K>();
    lemma_rank_join(a, nk, b, nk, less);
    assert((va + seq![nv] + vb).remove(a.len() as int) =~= va + vb);
}

/// `f` is the largest key of `s` that does not sort after `key`.
pub open spec fn is_floor<K: Ord>(s: Seq<K>, key: K, f: K) -> bool {
    &&& s.contains(f)
    &&& le(f, key)
    &&& forall|i: int| 0 <= i < s.len() && le(#[trigger] s[i], key) ==> le(s[i], f)
}

/// `c` is the smallest key of `s` that does not sort before `key`.
pub open spec fn is_ceiling<K: Ord>(s: Seq<K>, key: K, c: K) -> bool {
    &&& s.contains(c)
    &&& le(key, c)
    &&& forall|i: int| 0 <= i < s.len() && le(key, #[trigger] s[i]) ==> le(c, s[i])
}

} // verus!
