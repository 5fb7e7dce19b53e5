//! What the enumeration yields, step after step: the numbers below the start
//! that have its population count, all of them, from the largest down.
use crate::popcount::popcount;
use crate::predecessor::{
    advance, advance_by, is_predecessor, lemma_low_ones_is_least, lemma_predecessor_is,
    lemma_predecessor_none, lemma_predecessor_of_zero, lemma_predecessor_some, predecessor,
};
use vstd::arithmetic::power2::pow2;
use vstd::prelude::*;

verus! {

/// A step leads to the predecessor, or to zero where there is none. From zero
/// it leads to zero.
pub proof fn lemma_advance(a: nat)
    ensures
        advance(a) != 0 ==> is_predecessor(a, advance(a)),
        advance(a) == 0 ==> predecessor(a) is None,
        advance(0) == 0,
{
    lemma_predecessor_of_zero();
    if let Some(p) = predecessor(a) {
        lemma_predecessor_some(a, p);
    }
}

/// `n + 1` steps from `a` are `n` steps from where the first step leads.
pub proof fn lemma_advance_by_first(a: nat, n: nat)
    ensures
        advance_by(advance(a), n) == advance_by(a, n + 1),
    decreases n,
{
    if n == 0 {
        assert(advance_by(a, 1) == advance(advance_by(a, 0)));
    } else {
        lemma_advance_by_first(a, (n - 1) as nat);
        assert(advance_by(a, n + 1) == advance(advance_by(a, n)));
    }
}

/// Every number that the enumeration yields has the population count of the
/// start.
pub proof fn lemma_population_count_kept(a: nat, n: nat)
    ensures
        advance_by(a, n) != 0 ==> popcount(advance_by(a, n)) == popcount(a),
    decreases n,
{
    if n > 0 {
        let before: nat = advance_by(a, (n - 1) as nat);
        lemma_advance(before);
        lemma_population_count_kept(a, (n - 1) as nat);
    }
}

/// The numbers that the enumeration yields get smaller with every step, as
/// long as it is not exhausted.
pub proof fn lemma_strictly_descending(a: nat, i: nat, j: nat)
    requires
        i < j,
        advance_by(a, j) != 0,
    ensures
        advance_by(a, j) < advance_by(a, i),
    decreases j,
{
    let before: nat = advance_by(a, (j - 1) as nat);
    lemma_advance(before);
    if i + 1 < j {
        lemma_strictly_descending(a, i, (j - 1) as nat);
    }
}

/// No number is yielded twice.
pub proof fn lemma_yielded_once(a: nat, i: nat, j: nat)
    requires
        advance_by(a, i) == advance_by(a, j),
        advance_by(a, i) != 0,
    ensures
        i == j,
{
    if i < j {
        lemma_strictly_descending(a, i, j);
    } else if j < i {
        lemma_strictly_descending(a, j, i);
    }
}

/// Once the enumeration is exhausted, it stays exhausted.
pub proof fn lemma_exhausted_for_good(a: nat, i: nat, j: nat)
    requires
        i <= j,
        advance_by(a, i) == 0,
    ensures
        advance_by(a, j) == 0,
    decreases j,
{
    if i < j {
        lemma_exhausted_for_good(a, i, (j - 1) as nat);
        lemma_advance(0);
    }
}

/// Started at zero, the enumeration is exhausted at once.
pub proof fn lemma_zero_is_exhausted(n: nat)
    ensures
        predecessor(0) is None,
        advance_by(0, n) == 0,
{
    lemma_predecessor_of_zero();
    lemma_exhausted_for_good(0, 0, n);
}

/// Started at the word whose `w` bits are all ones, the enumeration is
/// exhausted after the start: no smaller number has `w` ones.
pub proof fn lemma_all_ones_is_last(w: nat)
    ensures
        predecessor((pow2(w) - 1) as nat) is None,
        advance((pow2(w) - 1) as nat) == 0,
{
    lemma_low_ones_is_least(w);
    lemma_predecessor_none((pow2(w) - 1) as nat);
}

/// Looks for the predecessor of `a` from `x` down, where nothing above `x`
/// has the population count of `a` and `m`, not above `x`, has it.
proof fn lemma_search_down(a: nat, m: nat, x: nat) -> (p: nat)
    requires
        m <= x < a,
        popcount(m) == popcount(a),
        forall|y: nat| x < y < a ==> #[trigger] popcount(y) != popcount(a),
    ensures
        m <= p,
        is_predecessor(a, p),
    decreases x - m,
{
    if popcount(x) == popcount(a) {
        x
    } else {
        lemma_search_down(a, m, (x - 1) as nat)
    }
}

/// A number that has a smaller number of its population count has a
/// predecessor, and that is not below the smaller number.
pub proof fn lemma_predecessor_exists(a: nat, m: nat) -> (p: nat)
    requires
        m < a,
        popcount(m) == popcount(a),
    ensures
        predecessor(a) == Some(p),
        m <= p,
{
    let p: nat = lemma_search_down(a, m, (a - 1) as nat);
    lemma_predecessor_is(a, p);
    p
}

/// The enumeration leaves nothing out: every number below the start `a` that
/// has the population count of `a` is yielded, after the `n` steps returned.
pub proof fn lemma_complete(a: nat, m: nat) -> (n: nat)
    requires
        m < a,
        popcount(m) == popcount(a),
    ensures
        n >= 1,
        advance_by(a, n) == m,
    decreases a,
{
    let p: nat = lemma_predecessor_exists(a, m);
    lemma_predecessor_some(a, p);
    assert(advance_by(a, 1) == advance(advance_by(a, 0)));
    if p == m {
        1
    } else {
        let rest: nat = lemma_complete(p, m);
        lemma_advance_by_first(a, rest);
        rest + 1
    }
}

/// The enumeration yields nothing else: what it yields is below the start
/// and has its population count.
pub proof fn lemma_sound(a: nat, n: nat)
    requires
        n >= 1,
        advance_by(a, n) != 0,
    ensures
        advance_by(a, n) < a,
        popcount(advance_by(a, n)) == popcount(a),
{
    lemma_strictly_descending(a, 0, n);
    lemma_population_count_kept(a, n);
}

} // verus!
