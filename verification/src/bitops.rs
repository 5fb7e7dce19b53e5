//! What the bit operations of one step compute, in terms of powers of two.
//! Words of every width are read as `u128`.
use crate::predecessor::{
    is_least_of_class, is_predecessor, lemma_low_ones_is_least, lemma_predecessor_shape,
};
use vstd::arithmetic::div_mod::{
    lemma_basic_div, lemma_fundamental_div_mod, lemma_mod_multiples_basic, lemma_small_mod,
};
use vstd::arithmetic::power2::{
    lemma2_to64, lemma_pow2_pos, lemma_pow2_strictly_increases, lemma_pow2_subtracts,
    lemma_pow2_unfold, pow2,
};
use vstd::bits::lemma_u128_shr_is_div;
use vstd::prelude::*;

verus! {

/// The ones of `m` are its lowest bits: `m` is `2^k - 1` for some `k`.
pub open spec fn is_low_ones(m: u128) -> bool {
    (m >> 1) & m == m >> 1
}

proof fn lemma_low_ones_halve(m: u128)
    by (bit_vector)
    requires
        is_low_ones(m),
        m != 0,
    ensures
        m % 2 == 1,
        is_low_ones(m / 2),
{
}

/// The number of ones of a word of low ones.
pub proof fn lemma_low_ones_width(m: u128) -> (k: nat)
    requires
        is_low_ones(m),
    ensures
        m + 1 == pow2(k),
    decreases m,
{
    if m == 0 {
        lemma2_to64();
        0
    } else {
        lemma_low_ones_halve(m);
        let j: nat = lemma_low_ones_width(m / 2);
        lemma_pow2_unfold(j + 1);
        j + 1
    }
}

proof fn lemma_disjoint_halve(x: u128, m: u128)
    by (bit_vector)
    requires
        x & m == 0,
        m % 2 == 1,
    ensures
        x % 2 == 0,
        (x / 2) & (m / 2) == 0,
{
}

/// A word that shares no bit with the `k` low ones is a multiple of `2^k`.
pub proof fn lemma_disjoint_from_low_ones(x: u128, m: u128, k: nat)
    requires
        x & m == 0,
        m + 1 == pow2(k),
    ensures
        x as nat % pow2(k) == 0,
    decreases k,
{
    if k == 0 {
        lemma2_to64();
    } else {
        let j: nat = (k - 1) as nat;
        lemma_pow2_unfold(k);
        lemma_pow2_pos(j);
        lemma_disjoint_halve(x, m);
        lemma_disjoint_from_low_ones(x / 2, m / 2, j);
        let q: nat = (x / 2) as nat / pow2(j);
        lemma_fundamental_div_mod((x / 2) as int, pow2(j) as int);
        assert(x as nat == q * pow2(k)) by (nonlinear_arith)
            requires
                x as nat == 2 * ((x / 2) as nat),
                (x / 2) as nat == pow2(j) * q,
                pow2(k) == 2 * pow2(j),
        ;
        lemma_mod_multiples_basic(q as int, pow2(k) as int);
    }
}

proof fn lemma_xor_successor(a: u128)
    by (bit_vector)
    requires
        a < u128::MAX,
    ensures
        ({
            let b = a ^ ((a + 1) as u128);
            &&& is_low_ones(b)
            &&& b % 2 == 1
            &&& b >> 1 == b / 2
            &&& b >> 1 <= a
            &&& ((a - (b >> 1)) as u128) & b == 0
        }),
{
}

proof fn lemma_xor_zero(a: u128)
    by (bit_vector)
    ensures
        a ^ 0 == a,
{
}

proof fn lemma_single_bit(b: u128, s: u128)
    by (bit_vector)
    requires
        is_low_ones(b),
        b < u128::MAX,
        s < 128,
        (((b + 1) as u128) >> s) & 1 == 1,
    ensures
        ((b + 1) as u128) >> s == 1,
{
}

proof fn lemma_lowest_one(max: u128, b: u128, c: u128, n: u128)
    by (bit_vector)
    requires
        is_low_ones(max),
        is_low_ones(b),
        c <= max,
        c != 0,
        n == (max - c + 1) as u128,
        c & b == 0,
    ensures
        ({
            let low = c & n;
            &&& b < low <= c
            &&& is_low_ones((low - 1) as u128)
            &&& low - 1 + low <= u128::MAX
            &&& ((c - low) as u128) & ((low - 1 + low) as u128) == 0
        }),
{
}

proof fn lemma_nothing_set(n: u128, s: u128)
    by (bit_vector)
    requires
        s < 128,
    ensures
        (0u128 & n) >> s == 0,
{
}

/// The largest words of the five widths are words of low ones.
pub proof fn lemma_largest_words()
    by (bit_vector)
    ensures
        is_low_ones(0xff),
        is_low_ones(0xffff),
        is_low_ones(0xffff_ffff),
        is_low_ones(0xffff_ffff_ffff_ffff),
        is_low_ones(0xffff_ffff_ffff_ffff_ffff_ffff_ffff_ffff),
{
}

/// The first half of a step on the words up to `max`, each operation read on
/// `u128`: `a1` is `a + 1` and `c` is `a - (b >> 1)`, both wrapping at `max`.
/// With `t` for the number of trailing ones of `a`, `b` is the word of
/// `t + 1` low ones, and `c` is `a` without its trailing ones.
proof fn lemma_trailing_ones(max: u128, a: u128, a1: u128, b: u128, c: u128) -> (t: nat)
    requires
        a < max,
        a1 == a + 1,
        b == a ^ a1,
        c == (if a >= b >> 1 { a - (b >> 1) } else { a - (b >> 1) + max + 1 }),
    ensures
        is_low_ones(b),
        b + 1 == pow2(t + 1),
        a == c + pow2(t) - 1,
        c & b == 0,
        c as nat % pow2(t + 1) == 0,
{
    lemma_xor_successor(a);
    let k: nat = lemma_low_ones_width(b);
    if k == 0 {
        lemma2_to64();
    }
    let t: nat = (k - 1) as nat;
    lemma_pow2_unfold(k);
    lemma_pow2_pos(t);
    assert(b >> 1 == pow2(t) - 1);
    lemma_disjoint_from_low_ones(c, b, k);
    t
}

/// Where the addition `b + 1` of a step passes the largest word `max`, the
/// word `a` has no predecessor. The operations are read as in `lemma_step`.
pub proof fn lemma_step_overflow(max: u128, a: u128, a1: u128, b: u128, c: u128)
    requires
        is_low_ones(max),
        a <= max,
        a1 == (if a == max { 0 } else { a + 1 }),
        b == a ^ a1,
        c == (if a >= b >> 1 { a - (b >> 1) } else { a - (b >> 1) + max + 1 }),
        b == max,
    ensures
        is_least_of_class(a as nat),
{
    if a == max {
        let w: nat = lemma_low_ones_width(max);
        lemma_low_ones_is_least(w);
    } else {
        let t: nat = lemma_trailing_ones(max, a, a1, b, c);
        lemma_small_mod(c as nat, pow2(t + 1));
        lemma_low_ones_is_least(t);
    }
}

/// One step of the enumeration on the words up to `max`, each operation read
/// on `u128`: `a1` is `a + 1`, `c` is `a - (b >> 1)` and `n` is `-c`, all
/// three wrapping at `max`; `b + 1` does not pass `max`, and bit `s` of it is
/// set; `e` is `c - ((c & n) >> s)`, wrapping. If `e` is zero, `a` has no
/// predecessor. If not, `e` is the predecessor of `a`.
pub proof fn lemma_step(
    max: u128,
    a: u128,
    a1: u128,
    b: u128,
    c: u128,
    n: u128,
    s: u128,
    e: u128,
)
    requires
        is_low_ones(max),
        a <= max,
        a1 == (if a == max { 0 } else { a + 1 }),
        b == a ^ a1,
        c == (if a >= b >> 1 { a - (b >> 1) } else { a - (b >> 1) + max + 1 }),
        n == (if c == 0 { 0 } else { max - c + 1 }),
        b < max,
        s < 128,
        (((b + 1) as u128) >> s) & 1 == 1,
        e == ({
            let moved = (c & n) >> s;
            if c >= moved { c - moved } else { c - moved + max + 1 }
        }),
    ensures
        e != 0 ==> is_predecessor(a as nat, e as nat),
        e == 0 ==> is_least_of_class(a as nat),
{
    if a == max {
        lemma_xor_zero(a);
    } else {
        let t: nat = lemma_trailing_ones(max, a, a1, b, c);
        let k: nat = t + 1;
        if c == 0 {
            lemma_nothing_set(n, s);
            lemma_low_ones_is_least(t);
        } else {
            // `b + 1` is `2^k`, and bit `s` of it is set: `s` is `k`.
            lemma_single_bit(b, s);
            lemma_u128_shr_is_div((b + 1) as u128, s);
            lemma_pow2_pos(s as nat);
            if s < k {
                lemma_pow2_subtracts(s as nat, k);
                lemma_pow2_strictly_increases(0, (k - s) as nat);
                lemma2_to64();
            } else if s > k {
                lemma_pow2_strictly_increases(k, s as nat);
                lemma_basic_div(pow2(k) as int, pow2(s as nat) as int);
            }
            assert(s == k);

            // The lowest one of `c` is bit `l`, and `l` is at least `k`.
            lemma_lowest_one(max, b, c, n);
            let low: u128 = c & n;
            let l: nat = lemma_low_ones_width((low - 1) as u128);
            if l < k {
                lemma_pow2_strictly_increases(l, k);
            }
            assert(k <= l);

            // Above bit `l`, `c` is a multiple of `2^(l + 1)`.
            lemma_pow2_unfold(l + 1);
            lemma_pow2_pos(l + 1);
            lemma_disjoint_from_low_ones((c - low) as u128, (low - 1 + low) as u128, l + 1);
            let h: nat = (c - low) as nat / pow2(l + 1);
            lemma_fundamental_div_mod((c - low) as int, pow2(l + 1) as int);
            assert(c - low == h * pow2(l + 1)) by (nonlinear_arith)
                requires
                    c - low == pow2(l + 1) * h + 0,
            ;

            // The lowest one moves down by `k` places.
            lemma_u128_shr_is_div(low, s);
            lemma_pow2_subtracts(k, l);
            let moved: u128 = low >> s;
            assert(moved == pow2((l - t - 1) as nat));
            lemma_predecessor_shape(h, l, t);
            lemma_pow2_strictly_increases((l - t - 1) as nat, l);
            assert(e == c - moved);
            assert(a as nat == (h * pow2(l + 1) + pow2(l) + pow2(t) - 1) as nat);
            assert(e as nat == (h * pow2(l + 1) + pow2(l) - pow2((l - t - 1) as nat)) as nat);
        }
    }
}

} // verus!
