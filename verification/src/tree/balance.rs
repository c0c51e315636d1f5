//! How many nodes a height-balanced tree needs for its height.

use vstd::prelude::*;

verus! {

/// The least number of nodes of a height-balanced tree of height `h`.
pub open spec fn min_size(h: int) -> nat
    decreases h,
{
    if h < 0 {
        0
    } else if h == 0 {
        1
    } else if h == 1 {
        2
    } else {
        1 + min_size(h - 1) + min_size(h - 2)
    }
}

/// A taller balanced tree needs at least as many nodes.
pub proof fn lemma_min_size_monotone(h1: int, h2: int)
    requires
        h1 <= h2,
    ensures
        min_size(h1) <= min_size(h2),
    decreases h2,
{
    if h1 < h2 && h2 >= 1 {
        if h1 <= h2 - 1 {
            lemma_min_size_monotone(h1, h2 - 1);
        }
    }
}

/// Two more levels at least double the number of nodes.
pub proof fn lemma_min_size_doubles(k: nat)
    ensures
        min_size(2 * (k as int)) >= vstd::arithmetic::power2::pow2(k),
    decreases k,
{
    if k == 0 {
        vstd::arithmetic::power2::lemma2_to64();
    } else {
        vstd::arithmetic::power2::lemma_pow2_unfold(k);
        lemma_min_size_doubles((k - 1) as nat);
        lemma_min_size_monotone(2 * k - 2, 2 * k - 1);
    }
}

/// A tree of height 128 or more has more nodes than a `usize` can count.
pub proof fn lemma_min_size_limit(h: int)
    requires
        min_size(h) <= usize::MAX,
    ensures
        h < 128,
{
    if h >= 128 {
        lemma_min_size_monotone(128, h);
        lemma_min_size_doubles(64);
        vstd::arithmetic::power2::lemma2_to64();
    }
}

} // verus!
