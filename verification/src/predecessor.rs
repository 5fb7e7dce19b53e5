//! The predecessor of a number among the numbers with the same population
//! count, and the shape it has in binary.
use crate::popcount::{
    lemma_popcount_below_low_ones, lemma_popcount_low_ones, lemma_popcount_positive,
    lemma_popcount_split, popcount,
};
use vstd::arithmetic::div_mod::{
    lemma_div_is_ordered, lemma_fundamental_div_mod, lemma_fundamental_div_mod_converse,
    lemma_mod_bound,
};
use vstd::arithmetic::power2::{lemma_pow2_adds, lemma_pow2_pos, lemma_pow2_unfold, pow2};
use vstd::prelude::*;

verus! {

/// `p` is the next number below `a` with as many ones as `a`: it is smaller,
/// has the same population count, and no number between the two has it.
pub open spec fn is_predecessor(a: nat, p: nat) -> bool {
    &&& p < a
    &&& popcount(p) == popcount(a)
    &&& forall|m: nat| p < m < a ==> #[trigger] popcount(m) != popcount(a)
}

/// No number below `a` has as many ones as `a`.
pub open spec fn is_least_of_class(a: nat) -> bool {
    forall|m: nat| m < a ==> #[trigger] popcount(m) != popcount(a)
}

/// The largest number below `a` with the population count of `a`, or `None`
/// where `a` is the least number of its population count.
pub open spec fn predecessor(a: nat) -> Option<nat> {
    if exists|p: nat| is_predecessor(a, p) {
        Some(choose|p: nat| is_predecessor(a, p))
    } else {
        None
    }
}

/// The number that follows `a` in the enumeration: its predecessor, or zero
/// where it has none.
pub open spec fn advance(a: nat) -> nat {
    match predecessor(a) {
        Some(p) => p,
        None => 0,
    }
}

/// The number reached from `a` after `n` steps of the enumeration.
pub open spec fn advance_by(a: nat, n: nat) -> nat
    decreases n,
{
    if n == 0 {
        a
    } else {
        advance(advance_by(a, (n - 1) as nat))
    }
}

/// A number has at most one predecessor, so `is_predecessor` decides
/// `predecessor`.
pub proof fn lemma_predecessor_is(a: nat, p: nat)
    requires
        is_predecessor(a, p),
    ensures
        predecessor(a) == Some(p),
{
    let q: nat = choose|q: nat| is_predecessor(a, q);
    if q < p {
        assert(popcount(p) != popcount(a));
    } else if p < q {
        assert(popcount(q) != popcount(a));
    }
}

/// The least number of its population count has no predecessor.
pub proof fn lemma_predecessor_none(a: nat)
    requires
        is_least_of_class(a),
    ensures
        predecessor(a) is None,
{
    if exists|p: nat| is_predecessor(a, p) {
        let p: nat = choose|p: nat| is_predecessor(a, p);
        assert(popcount(p) != popcount(a));
    }
}

/// What `predecessor` returns is a predecessor, and it is not zero.
pub proof fn lemma_predecessor_some(a: nat, p: nat)
    requires
        predecessor(a) == Some(p),
    ensures
        is_predecessor(a, p),
        p > 0,
{
    if p == 0 {
        assert(popcount(a) == 0);
        lemma_popcount_positive(a);
    }
}

/// Zero has no predecessor.
pub proof fn lemma_predecessor_of_zero()
    ensures
        predecessor(0) is None,
{
    assert(is_least_of_class(0));
    lemma_predecessor_none(0);
}

/// The word of `k` low ones is the least number with `k` ones.
pub proof fn lemma_low_ones_is_least(k: nat)
    ensures
        is_least_of_class((pow2(k) - 1) as nat),
{
    lemma_pow2_pos(k);
    lemma_popcount_low_ones(k);
    assert forall|m: nat| m < (pow2(k) - 1) as nat implies #[trigger] popcount(m) != popcount(
        (pow2(k) - 1) as nat,
    ) by {
        lemma_popcount_below_low_ones(m, k);
    }
}

/// The shape of a predecessor. Let `a` end, from bit `l` down, in a one, then
/// zeros, then `t` ones (`t < l`), with `h` for the bits above bit `l`. Its
/// predecessor keeps `h`, clears bit `l`, and sets the `t + 1` bits right
/// below it.
pub proof fn lemma_predecessor_shape(h: nat, l: nat, t: nat)
    requires
        t < l,
    ensures
        pow2((l - t - 1) as nat) <= pow2(l),
        is_predecessor(
            (h * pow2(l + 1) + pow2(l) + pow2(t) - 1) as nat,
            (h * pow2(l + 1) + pow2(l) - pow2((l - t - 1) as nat)) as nat,
        ),
{
    let g: nat = (l - t - 1) as nat;
    let big: nat = pow2(l + 1);
    let top: nat = pow2(l);
    let ones: nat = pow2(t);
    let gap: nat = pow2(g);
    let run: nat = pow2(t + 1);
    lemma_pow2_pos(l);
    lemma_pow2_pos(t);
    lemma_pow2_pos(g);
    lemma_pow2_unfold(l + 1);
    lemma_pow2_unfold(t + 1);
    lemma_pow2_adds(t + 1, g);
    assert(top == run * gap);
    assert(run <= top && gap <= top) by (nonlinear_arith)
        requires
            top == run * gap,
            run > 0,
            gap > 0,
    ;
    let a: nat = (h * big + top + ones - 1) as nat;
    let p: nat = (h * big + top - gap) as nat;
    let low_a: nat = (top + ones - 1) as nat;
    let low_p: nat = (top - gap) as nat;
    assert(a == h * big + low_a);
    assert(p == h * big + low_p);

    // The ones of `a`: those of `h`, bit `l`, and the `t` low ones.
    lemma_popcount_split(h, l + 1, low_a);
    lemma_popcount_split(1, l, (ones - 1) as nat);
    assert(1 * top + (ones - 1) as nat == low_a);
    assert(popcount(1) == 1) by {
        assert(popcount(0) == 0);
        assert(1nat / 2 == 0);
    }
    lemma_popcount_low_ones(t);
    assert(popcount(a) == popcount(h) + 1 + t);

    // The ones of `p`: those of `h`, and `t + 1` ones moved up by `g` places.
    lemma_popcount_split(h, l + 1, low_p);
    lemma_popcount_split((run - 1) as nat, g, 0);
    assert((run - 1) as nat * gap + 0 == low_p) by (nonlinear_arith)
        requires
            top == run * gap,
            run > 0,
            low_p == top - gap,
    ;
    lemma_popcount_low_ones(t + 1);
    assert(popcount(p) == popcount(h) + t + 1);

    assert forall|m: nat| p < m < a implies #[trigger] popcount(m) != popcount(a) by {
        let hm: nat = m / big;
        let r: nat = m % big;
        lemma_pow2_pos(l + 1);
        lemma_fundamental_div_mod(m as int, big as int);
        lemma_mod_bound(m as int, big as int);
        lemma_fundamental_div_mod_converse(a as int, big as int, h as int, low_a as int);
        lemma_fundamental_div_mod_converse(p as int, big as int, h as int, low_p as int);
        lemma_div_is_ordered(p as int, m as int, big as int);
        lemma_div_is_ordered(m as int, a as int, big as int);
        assert(hm == h);
        assert(m == big * h + r);
        assert(m == h * big + r) by (nonlinear_arith)
            requires
                m == big * h + r,
        ;
        assert(low_p < r < low_a);
        lemma_popcount_split(h, l + 1, r);
        if r >= top {
            let rest: nat = (r - top) as nat;
            lemma_popcount_split(1, l, rest);
            assert(1 * top + rest == r);
            lemma_popcount_below_low_ones(rest, t);
        } else {
            let rest: nat = (r - low_p) as nat;
            lemma_popcount_split((run - 1) as nat, g, rest);
            assert((run - 1) as nat * gap + rest == r) by (nonlinear_arith)
                requires
                    top == run * gap,
                    run > 0,
                    low_p == top - gap,
                    rest == r - low_p,
            ;
            lemma_popcount_positive(rest);
        }
    }
}

} // verus!
