//! Laws that relate the operations to one another, stated over the models
//! that their contracts use.

use crate::codec::{encode, is_permutation, lehmer, lemma_lehmer_encode};
use crate::digits::{
    digits_of,
    factorial,
    is_digits,
    lemma_digits_of,
    lemma_digits_of_value,
    lemma_u128_below_factorial_256,
    value,
};
use vstd::prelude::*;

verus! {

/// Numbering the permutation of `n` gives back `n`: `permutation_number`
/// applied to `permutation(n)` returns `Some(n)`.
pub proof fn lemma_round_trip(n: u128)
    ensures
        ({
            let p = encode(digits_of(n as nat));
            (if is_permutation(p) && value(lehmer(p)) <= u128::MAX {
                Some(value(lehmer(p)) as u128)
            } else {
                None::<u128>
            }) == Some(n)
        }),
{
    lemma_u128_below_factorial_256();
    lemma_digits_of(n as nat);
    lemma_lehmer_encode(digits_of(n as nat));
}

/// One step forward from the vector of `n` is the vector of `n + 1`.
pub proof fn lemma_next_of_new(n: u128)
    requires
        n < u128::MAX,
    ensures
        is_digits(digits_of(n as nat)),
        value(digits_of(n as nat)) + 1 < factorial(256),
        digits_of(value(digits_of(n as nat)) + 1) == digits_of(n as nat + 1),
{
    lemma_u128_below_factorial_256();
    lemma_digits_of(n as nat);
}

/// One step back from the vector of `n >= 1` is the vector of `n - 1`.
pub proof fn lemma_prev_of_new(n: u128)
    requires
        n >= 1,
    ensures
        is_digits(digits_of(n as nat)),
        value(digits_of(n as nat)) != 0,
        digits_of((value(digits_of(n as nat)) - 1) as nat) == digits_of((n - 1) as nat),
{
    lemma_u128_below_factorial_256();
    lemma_digits_of(n as nat);
}

/// Stepping forward and then back returns the vector one started from.
pub proof fn lemma_prev_undoes_next(ds: Seq<u8>)
    requires
        is_digits(ds),
        value(ds) + 1 < factorial(256),
    ensures
        value(digits_of(value(ds) + 1)) == value(ds) + 1,
        digits_of((value(digits_of(value(ds) + 1)) - 1) as nat) == ds,
{
    lemma_digits_of(value(ds) + 1);
    lemma_digits_of_value(ds);
}

/// Stepping back and then forward returns the vector one started from.
pub proof fn lemma_next_undoes_prev(ds: Seq<u8>)
    requires
        is_digits(ds),
        value(ds) >= 1,
    ensures
        value(digits_of((value(ds) - 1) as nat)) + 1 == value(ds),
        digits_of(value(digits_of((value(ds) - 1) as nat)) + 1) == ds,
{
    lemma_digits_of_value(ds);
    lemma_digits_of((value(ds) - 1) as nat);
}

} // verus!
