//! The unsigned integer types that can be enumerated, and the step from a
//! word to the next lower word with the same population count.
use crate::bitops::{lemma_largest_words, lemma_step, lemma_step_overflow};
use crate::predecessor::{lemma_predecessor_is, lemma_predecessor_none, predecessor};
use vstd::prelude::*;
use vstd::std_specs::cmp::PartialEqSpec;

verus! {

/// `u8::wrapping_neg` of std: the negation modulo `2^8`, which is zero for
/// zero and `2^8 - x` for any other `x`.
pub assume_specification[ u8::wrapping_neg ](x: u8) -> (r: u8)
    ensures
        r == (if x == 0 { 0 } else { u8::MAX - x + 1 }),
;

/// `u16::wrapping_neg` of std: the negation modulo `2^16`, which is zero for
/// zero and `2^16 - x` for any other `x`.
pub assume_specification[ u16::wrapping_neg ](x: u16) -> (r: u16)
    ensures
        r == (if x == 0 { 0 } else { u16::MAX - x + 1 }),
;

/// `u32::wrapping_neg` of std: the negation modulo `2^32`, which is zero for
/// zero and `2^32 - x` for any other `x`.
pub assume_specification[ u32::wrapping_neg ](x: u32) -> (r: u32)
    ensures
        r == (if x == 0 { 0 } else { u32::MAX - x + 1 }),
;

/// `u64::wrapping_neg` of std: the negation modulo `2^64`, which is zero for
/// zero and `2^64 - x` for any other `x`.
pub assume_specification[ u64::wrapping_neg ](x: u64) -> (r: u64)
    ensures
        r == (if x == 0 { 0 } else { u64::MAX - x + 1 }),
;

/// `u128::wrapping_neg` of std: the negation modulo `2^128`, which is zero for
/// zero and `2^128 - x` for any other `x`.
pub assume_specification[ u128::wrapping_neg ](x: u128) -> (r: u128)
    ensures
        r == (if x == 0 { 0 } else { u128::MAX - x + 1 }),
;

/// `u128::trailing_zeros` of std: the number of zero bits below the lowest
/// one of `x`, and 128 where `x` is zero. So the bits below place `r` are
/// zero, and the bit at place `r` is one.
pub assume_specification[ u128::trailing_zeros ](x: u128) -> (r: u32)
    ensures
        r <= 128,
        r == 128 <==> x == 0,
        r < 128 ==> (x >> (r as u128)) & 1 == 1 && (x >> (r as u128)) << (r as u128) == x,
;

/// An unsigned integer type of fixed width whose words can be enumerated by
/// population count.
pub trait UIntExt: Sized + Clone + Copy + PartialEq {
    /// The word without ones.
    const ZERO: Self;

    /// The number that the word stands for.
    spec fn value(self) -> nat;

    /// Words are told apart by their values, `==` compares values, and
    /// `ZERO` is zero.
    proof fn lemma_value()
        ensures
            Self::ZERO.value() == 0,
            Self::obeys_eq_spec(),
            forall|x: Self, y: Self| #[trigger] x.eq_spec(&y) <==> (x.value() == y.value()),
            forall|x: Self, y: Self| x.value() == y.value() ==> x == y,
    ;

    /// Returns the largest word below `self` with the same population count,
    /// or `None` where no smaller word has it.
    fn next_combination(self) -> (next: Option<Self>)
        ensures
            match next {
                Some(p) => predecessor(self.value()) == Some(p.value()),
                None => predecessor(self.value()) is None,
            },
    ;
}

impl UIntExt for u8 {
    const ZERO: Self = 0;

    open spec fn value(self) -> nat {
        self as nat
    }

    proof fn lemma_value() {
    }

    fn next_combination(self) -> (next: Option<Self>) {
        let a: u8 = self;
        let b: u8 = a ^ a.wrapping_add(1);
        let c: u8 = a.wrapping_sub(b >> 1);
        if let Some(d) = b.checked_add(1) {
            let s: u32 = d.trailing_zeros();
            let n: u8 = c.wrapping_neg();
            let e: u8 = c.wrapping_sub((c & n) >> s);
            proof {
                lemma_largest_words();
                lemma_step(
                    u8::MAX as u128,
                    a as u128,
                    a.wrapping_add(1) as u128,
                    b as u128,
                    c as u128,
                    n as u128,
                    s as u128,
                    e as u128,
                );
                if e != 0 {
                    lemma_predecessor_is(a as nat, e as nat);
                } else {
                    lemma_predecessor_none(a as nat);
                }
            }
            if e != 0 {
                Some(e)
            } else {
                None
            }
        } else {
            proof {
                lemma_largest_words();
                lemma_step_overflow(
                    u8::MAX as u128,
                    a as u128,
                    a.wrapping_add(1) as u128,
                    b as u128,
                    c as u128,
                );
                lemma_predecessor_none(a as nat);
            }
            None
        }
    }
}

impl UIntExt for u16 {
    const ZERO: Self = 0;

    open spec fn value(self) -> nat {
        self as nat
    }

    proof fn lemma_value() {
    }

    fn next_combination(self) -> (next: Option<Self>) {
        let a: u16 = self;
        let b: u16 = a ^ a.wrapping_add(1);
        let c: u16 = a.wrapping_sub(b >> 1);
        if let Some(d) = b.checked_add(1) {
            let s: u32 = d.trailing_zeros();
            let n: u16 = c.wrapping_neg();
            let e: u16 = c.wrapping_sub((c & n) >> s);
            proof {
                lemma_largest_words();
                lemma_step(
                    u16::MAX as u128,
                    a as u128,
                    a.wrapping_add(1) as u128,
                    b as u128,
                    c as u128,
                    n as u128,
                    s as u128,
                    e as u128,
                );
                if e != 0 {
                    lemma_predecessor_is(a as nat, e as nat);
                } else {
                    lemma_predecessor_none(a as nat);
                }
            }
            if e != 0 {
                Some(e)
            } else {
                None
            }
        } else {
            proof {
                lemma_largest_words();
                lemma_step_overflow(
                    u16::MAX as u128,
                    a as u128,
                    a.wrapping_add(1) as u128,
                    b as u128,
                    c as u128,
                );
                lemma_predecessor_none(a as nat);
            }
            None
        }
    }
}

impl UIntExt for u32 {
    const ZERO: Self = 0;

    open spec fn value(self) -> nat {
        self as nat
    }

    proof fn lemma_value() {
    }

    fn next_combination(self) -> (next: Option<Self>) {
        let a: u32 = self;
        let b: u32 = a ^ a.wrapping_add(1);
        let c: u32 = a.wrapping_sub(b >> 1);
        if let Some(d) = b.checked_add(1) {
            let s: u32 = d.trailing_zeros();
            let n: u32 = c.wrapping_neg();
            let e: u32 = c.wrapping_sub((c & n) >> s);
            proof {
                lemma_largest_words();
                lemma_step(
                    u32::MAX as u128,
                    a as u128,
                    a.wrapping_add(1) as u128,
                    b as u128,
                    c as u128,
                    n as u128,
                    s as u128,
                    e as u128,
                );
                if e != 0 {
                    lemma_predecessor_is(a as nat, e as nat);
                } else {
                    lemma_predecessor_none(a as nat);
                }
            }
            if e != 0 {
                Some(e)
            } else {
                None
            }
        } else {
            proof {
                lemma_largest_words();
                lemma_step_overflow(
                    u32::MAX as u128,
                    a as u128,
                    a.wrapping_add(1) as u128,
                    b as u128,
                    c as u128,
                );
                lemma_predecessor_none(a as nat);
            }
            None
        }
    }
}

impl UIntExt for u64 {
    const ZERO: Self = 0;

    open spec fn value(self) -> nat {
        self as nat
    }

    proof fn lemma_value() {
    }

    fn next_combination(self) -> (next: Option<Self>) {
        let a: u64 = self;
        let b: u64 = a ^ a.wrapping_add(1);
        let c: u64 = a.wrapping_sub(b >> 1);
        if let Some(d) = b.checked_add(1) {
            let s: u32 = d.trailing_zeros();
            let n: u64 = c.wrapping_neg();
            let e: u64 = c.wrapping_sub((c & n) >> s);
            proof {
                lemma_largest_words();
                lemma_step(
                    u64::MAX as u128,
                    a as u128,
                    a.wrapping_add(1) as u128,
                    b as u128,
                    c as u128,
                    n as u128,
                    s as u128,
                    e as u128,
                );
                if e != 0 {
                    lemma_predecessor_is(a as nat, e as nat);
                } else {
                    lemma_predecessor_none(a as nat);
                }
            }
            if e != 0 {
                Some(e)
            } else {
                None
            }
        } else {
            proof {
                lemma_largest_words();
                lemma_step_overflow(
                    u64::MAX as u128,
                    a as u128,
                    a.wrapping_add(1) as u128,
                    b as u128,
                    c as u128,
                );
                lemma_predecessor_none(a as nat);
            }
            None
        }
    }
}

impl UIntExt for u128 {
    const ZERO: Self = 0;

    open spec fn value(self) -> nat {
        self as nat
    }

    proof fn lemma_value() {
    }

    fn next_combination(self) -> (next: Option<Self>) {
        let a: u128 = self;
        let b: u128 = a ^ a.wrapping_add(1);
        let c: u128 = a.wrapping_sub(b >> 1);
        if let Some(d) = b.checked_add(1) {
            let s: u32 = d.trailing_zeros();
            let n: u128 = c.wrapping_neg();
            let e: u128 = c.wrapping_sub((c & n) >> s);
            proof {
                lemma_largest_words();
                lemma_step(
                    u128::MAX as u128,
                    a as u128,
                    a.wrapping_add(1) as u128,
                    b as u128,
                    c as u128,
                    n as u128,
                    s as u128,
                    e as u128,
                );
                if e != 0 {
                    lemma_predecessor_is(a as nat, e as nat);
                } else {
                    lemma_predecessor_none(a as nat);
                }
            }
            if e != 0 {
                Some(e)
            } else {
                None
            }
        } else {
            proof {
                lemma_largest_words();
                lemma_step_overflow(
                    u128::MAX as u128,
                    a as u128,
                    a.wrapping_add(1) as u128,
                    b as u128,
                    c as u128,
                );
                lemma_predecessor_none(a as nat);
            }
            None
        }
    }
}

} // verus!
