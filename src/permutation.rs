//! Permutations as byte sequences, their extension by fixed points, and the
//! entry points that go straight between numbers and permutations.

use crate::codec::{encode, identity_from, is_bijection, is_permutation, lehmer};
use crate::digits::{digits_of, value};
use crate::remainder::{u128_modulus, PermutationRemainder};
use vstd::prelude::*;

verus! {

/// A permutation of `0 ..= n`, as the sequence of its images.
#[derive(Debug, PartialEq, Eq)]
pub struct Permutation {
    pub v: Vec<u8>,
}

impl View for Permutation {
    type V = Seq<u8>;

    open spec fn view(&self) -> Seq<u8> {
        self.v@
    }
}

impl Permutation {
    /// The permutation extended by fixed points to `len` elements, or `None`
    /// where it already has more.
    pub fn fix_length(&self, len: u8) -> (r: Option<Vec<u8>>)
        ensures
            r is None <==> len < self@.len(),
            r matches Some(w) ==> w@ == self@ + identity_from(self@.len(), len as nat),
    {
        let mut v = self.v.clone();
        assert(v@ =~= self@);
        if !fix_length(len, &mut v) {
            return None;
        }
        Some(v)
    }
}

/// Extends `v` by the fixed points `v.len(), ..., len - 1`; returns `false`,
/// leaving `v` as it was, where `v` already holds more than `len` elements.
pub fn fix_length(len: u8, v: &mut Vec<u8>) -> (r: bool)
    ensures
        r == (len >= old(v)@.len()),
        r ==> final(v)@ == old(v)@ + identity_from(old(v)@.len(), len as nat),
        !r ==> final(v)@ == old(v)@,
{
    let n = v.len();
    if (len as usize) < n {
        return false;
    }
    let ghost start = v@;
    let mut i: usize = n;
    while i < len as usize
        invariant
            n <= i <= len,
            n == start.len(),
            v@ == start + identity_from(n as nat, i as nat),
        decreases len - i,
    {
        v.push(i as u8);
        i += 1;
        assert(v@ =~= start + identity_from(n as nat, i as nat));
    }
    true
}

/// The permutation of `u`.
pub fn permutation(u: u128) -> (r: Permutation)
    ensures
        r@ == encode(digits_of(u as nat)),
        is_permutation(r@),
{
    PermutationRemainder::new(u).permutation()
}

/// The number of a permutation, computed with wrapping arithmetic: exact
/// whenever it fits in a `u128`.
pub fn permutation_number_unsafe(p: &Permutation) -> (r: u128)
    requires
        is_bijection(p@),
    ensures
        r == value(lehmer(p@)) % u128_modulus(),
{
    PermutationRemainder::from_permutation_unsafe(p).permutation_number_unsafe()
}

/// The number of a permutation, or `None` where `p` is no permutation or its
/// number exceeds `u128::MAX`.
pub fn permutation_number(p: &Permutation) -> (r: Option<u128>)
    ensures
        r == (if is_permutation(p@) && value(lehmer(p@)) <= u128::MAX {
            Some(value(lehmer(p@)) as u128)
        } else {
            None::<u128>
        }),
{
    match PermutationRemainder::from_permutation(p) {
        Some(pr) => pr.permutation_number(),
        None => None,
    }
}

} // verus!
