//! Enumerates the bit combinations below a given unsigned integer: the
//! smaller words of the same width that have as many ones, from the largest
//! down, each computed from the one before with a few bit operations.
//!
//! [`UIntExt::next_combination`] is the single step, on `u8`, `u16`, `u32`,
//! `u64` and `u128`. [`BitCombinations`] holds the current word and steps with
//! `next`. The module `predecessor` says what a step returns, and the module
//! `enumeration` what a run of steps yields.
pub mod bitops;
pub mod combinations;
pub mod enumeration;
pub mod popcount;
pub mod predecessor;
pub mod uint;

pub use crate::combinations::BitCombinations;
pub use crate::uint::UIntExt;
