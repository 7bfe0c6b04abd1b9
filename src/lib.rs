//! A bijection between integers and permutations, through the factorial
//! number system: an integer becomes a digit vector whose digit at index `i`
//! has radix `i + 2`, and a digit vector of length `n` becomes a permutation
//! of `0 ..= n`.

pub mod codec;
pub mod digits;
pub mod laws;
pub mod permutation;
pub mod remainder;

pub use permutation::{fix_length, permutation, permutation_number, permutation_number_unsafe, Permutation};
pub use remainder::{DivRem, PermutationRemainder};
