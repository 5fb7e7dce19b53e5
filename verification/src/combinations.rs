//! The enumeration as a sequence: a current word, and the step to the next.
use crate::predecessor::{
    advance, lemma_predecessor_of_zero, lemma_predecessor_some, predecessor,
};
use crate::uint::UIntExt;
use vstd::prelude::*;

verus! {

/// The words below a given word that have its population count, from the
/// largest down. It holds the current word, and zero once it is exhausted.
pub struct BitCombinations<U: UIntExt>(U);

impl<U: UIntExt> Clone for BitCombinations<U> {
    fn clone(&self) -> (copy: Self)
        ensures
            copy == *self,
    {
        *self
    }
}

impl<U: UIntExt> Copy for BitCombinations<U> {

}

impl<U: UIntExt> View for BitCombinations<U> {
    type V = nat;

    /// The number that the current word stands for.
    open spec fn view(&self) -> nat {
        self.current().value()
    }
}

impl<U: UIntExt> BitCombinations<U> {
    /// The current word.
    pub closed spec fn current(self) -> U {
        self.0
    }

    /// What `peek` reports: the current word, unless it is zero.
    pub open spec fn spec_peek(self) -> Option<U> {
        if self@ == 0 {
            None
        } else {
            Some(self.current())
        }
    }

    /// Makes the sequence of the words below `init` that have its population
    /// count. Its current word is `init`.
    pub fn new(init: U) -> (combinations: BitCombinations<U>)
        ensures
            combinations.current() == init,
    {
        BitCombinations(init)
    }

    /// Returns the current word, or `None` once the sequence is exhausted.
    #[verifier::when_used_as_spec(spec_peek)]
    pub fn peek(self) -> (word: Option<U>)
        ensures
            word == self.spec_peek(),
    {
        proof {
            U::lemma_value();
        }
        if self.0 == U::ZERO {
            None
        } else {
            Some(self.0)
        }
    }

    /// Moves to the next lower word with the same population count and
    /// returns it. Where there is none, the sequence is exhausted: it returns
    /// `None`, now and on every later call.
    pub fn next(&mut self) -> (word: Option<U>)
        ensures
            match word {
                Some(p) => predecessor(old(self)@) == Some(p.value()),
                None => predecessor(old(self)@) is None,
            },
            final(self)@ == advance(old(self)@),
            final(self).peek() == word,
            old(self)@ == 0 ==> word is None && final(self)@ == 0,
    {
        let ret = self.0.next_combination();
        self.0 = ret.unwrap_or(U::ZERO);
        proof {
            U::lemma_value();
            lemma_predecessor_of_zero();
            if let Some(p) = ret {
                lemma_predecessor_some(old(self)@, p.value());
            }
        }
        ret
    }
}

} // verus!
