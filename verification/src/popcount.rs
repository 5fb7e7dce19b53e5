//! The population count of a natural number, and how it behaves when a number
//! is split at a power of two.
use vstd::arithmetic::power2::{lemma_pow2_pos, lemma_pow2_unfold, pow2};
use vstd::prelude::*;

verus! {

/// The number of ones in the binary representation of `n`.
pub open spec fn popcount(n: nat) -> nat
    decreases n,
{
    if n == 0 {
        0
    } else {
        (n % 2) + popcount(n / 2)
    }
}

/// Only zero has no bit set.
pub proof fn lemma_popcount_positive(n: nat)
    requires
        n > 0,
    ensures
        popcount(n) > 0,
    decreases n,
{
    if n % 2 == 0 {
        lemma_popcount_positive(n / 2);
    }
}

/// Splitting a number at bit `k` splits its population count: the bits of
/// `r` and the bits of `x`, moved up by `k` places, do not overlap.
pub proof fn lemma_popcount_split(x: nat, k: nat, r: nat)
    requires
        r < pow2(k),
    ensures
        popcount(x * pow2(k) + r) == popcount(x) + popcount(r),
    decreases k,
{
    if k == 0 {
        assert(pow2(0) == 1) by {
            vstd::arithmetic::power2::lemma2_to64();
        }
        assert(x * pow2(k) + r == x) by (nonlinear_arith)
            requires
                pow2(k) == 1,
                r == 0,
        ;
    } else {
        let j: nat = (k - 1) as nat;
        lemma_pow2_unfold(k);
        let q: nat = x * pow2(j);
        assert(x * pow2(k) == 2 * q) by (nonlinear_arith)
            requires
                pow2(k) == 2 * pow2(j),
                q == x * pow2(j),
        ;
        let n: nat = x * pow2(k) + r;
        assert(n / 2 == q + r / 2);
        assert(n % 2 == r % 2);
        lemma_popcount_split(x, j, r / 2);
        if n == 0 {
            lemma_pow2_pos(j);
            assert(x == 0) by (nonlinear_arith)
                requires
                    x * pow2(j) == 0,
                    pow2(j) > 0,
            ;
        }
    }
}

/// The word whose low `k` bits are set, and no other, has `k` ones.
pub proof fn lemma_popcount_low_ones(k: nat)
    ensures
        popcount((pow2(k) - 1) as nat) == k,
    decreases k,
{
    if k == 0 {
        vstd::arithmetic::power2::lemma2_to64();
    } else {
        let j: nat = (k - 1) as nat;
        lemma_pow2_unfold(k);
        lemma_pow2_pos(j);
        lemma_popcount_low_ones(j);
        let n: nat = (pow2(k) - 1) as nat;
        assert(n / 2 == pow2(j) - 1);
        assert(n % 2 == 1);
    }
}

/// Every number below the word of `k` low ones has fewer than `k` ones: that
/// word is the least one of its population count.
pub proof fn lemma_popcount_below_low_ones(x: nat, k: nat)
    requires
        x + 1 < pow2(k),
    ensures
        popcount(x) < k,
    decreases k,
{
    if k == 0 {
        vstd::arithmetic::power2::lemma2_to64();
    } else {
        let j: nat = (k - 1) as nat;
        lemma_pow2_unfold(k);
        lemma_pow2_pos(j);
        if x / 2 + 1 < pow2(j) {
            lemma_popcount_below_low_ones(x / 2, j);
        } else {
            assert(x / 2 == pow2(j) - 1);
            assert(x % 2 == 0);
            lemma_popcount_low_ones(j);
        }
    }
}

} // verus!
