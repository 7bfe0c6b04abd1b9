//! The digit vector itself: construction from an integer, reconstruction of
//! the integer, and stepping by one without a round trip through the integer.

use crate::digits::{
    digits_from,
    digits_of,
    factorial,
    is_digits,
    lemma_digits_of,
    lemma_digits_of_value,
    lemma_factorial_mono,
    lemma_factorial_pos,
    lemma_len_of_u128,
    lemma_u128_below_factorial_256,
    lemma_value_at_least,
    lemma_value_prefix,
    lemma_value_push,
    radix_ok,
    value,
};
use vstd::arithmetic::div_mod::{
    lemma_add_mod_noop,
    lemma_div_decreases,
    lemma_fundamental_div_mod_converse,
    lemma_mul_mod_noop_left,
    lemma_small_mod,
};
use crate::codec::{
    decode,
    encode,
    holds,
    identity_from,
    is_bijection,
    is_permutation,
    lehmer,
    lemma_bijection_len,
    lemma_encode,
    lemma_insert_top,
    lemma_lehmer,
    lemma_pos_of_found,
    lemma_remove_top,
    lemma_strip,
    strip,
};
use crate::permutation::Permutation;
use vstd::prelude::*;

verus! {

/// The quotient and the remainder of one division step.
#[derive(Debug, PartialEq, Eq)]
pub struct DivRem {
    pub div: u128,
    pub rem: u8,
}

impl DivRem {
    fn divrem(nominator: u128, denominator: u8) -> (r: DivRem)
        requires
            denominator > 0,
        ensures
            r.div == nominator / (denominator as u128),
            r.rem == nominator % (denominator as u128),
    {
        let denominator = denominator as u128;
        let div = nominator / denominator;
        let rem = (nominator % denominator) as u8;
        DivRem { div, rem }
    }
}

/// A number in the factorial number system: the digit at index `i` has
/// radix `i + 2` and weight `(i + 1)!`.
#[derive(Debug, PartialEq, Eq)]
pub struct PermutationRemainder {
    vr: Vec<u8>,
}

impl View for PermutationRemainder {
    type V = Seq<u8>;

    closed spec fn view(&self) -> Seq<u8> {
        self.vr@
    }
}

/// `2^128`, the modulus of wrapping `u128` arithmetic.
pub open spec fn u128_modulus() -> nat {
    u128::MAX as nat + 1
}

impl PermutationRemainder {
    /// Every digit below its radix, no highest zero, at most 255 digits.
    pub open spec fn wf(&self) -> bool {
        is_digits(self@)
    }

    /// The digit vector of `u`.
    pub fn new(u: u128) -> (r: PermutationRemainder)
        ensures
            r.wf(),
            r@ == digits_of(u as nat),
            value(r@) == u,
    {
        let ghost u0 = u as nat;
        let mut u = u;
        let mut vr: Vec<u8> = Vec::new();
        proof {
            lemma_u128_below_factorial_256();
            lemma_digits_of(u0);
            lemma_len_of_u128(digits_of(u0));
        }
        while u != 0
            invariant
                vr@ + digits_from(u as nat, vr@.len() + 2) == digits_of(u0),
                digits_of(u0).len() <= 34,
            decreases u,
        {
            let ghost r = vr@.len() + 2;
            assert(digits_from(u as nat, r) == seq![(u as nat % r) as u8] + digits_from(
                u as nat / r,
                r + 1,
            ));
            let i = (vr.len() + 2) as u8;
            let dr = DivRem::divrem(u, i);
            proof {
                lemma_div_decreases(u as int, i as int);
            }
            let ghost old_vr = vr@;
            u = dr.div;
            vr.push(dr.rem);
            assert(old_vr + (seq![dr.rem] + digits_from(u as nat, r + 1)) =~= vr@ + digits_from(
                u as nat,
                vr@.len() + 2,
            ));
        }
        assert(vr@ =~= digits_of(u0));
        PermutationRemainder { vr }
    }

    /// The number this vector stands for, computed with wrapping arithmetic:
    /// exact whenever the number fits in a `u128`.
    pub fn permutation_number_unsafe(&self) -> (r: u128)
        requires
            self.wf(),
        ensures
            r == value(self@) % u128_modulus(),
    {
        let n = self.vr.len();
        let ghost m: nat = u128_modulus();
        let mut ret: u128 = 0;
        let mut base: u128 = 1;
        let mut idx: usize = 0;
        proof {
            lemma_small_mod(1, m);
            lemma_small_mod(0, m);
            assert(self@.take(0) =~= Seq::<u8>::empty());
        }
        while idx < n
            invariant
                n == self@.len(),
                0 <= idx <= n,
                ret == value(self@.take(idx as int)) % m,
                base == factorial(idx as nat) % m,
                m == u128_modulus(),
            decreases n - idx,
        {
            let d = self.vr[idx];
            let ghost f = factorial(idx as nat);
            let ghost f1 = factorial(idx as nat + 1);
            let ghost pre = value(self@.take(idx as int));
            proof {
                assert(f1 == (idx + 1) * f);
                lemma_mul_mod_noop_left(f as int, (idx + 1) as int, m as int);
                lemma_mul_mod_noop_left(f1 as int, d as int, m as int);
                lemma_add_mod_noop(pre as int, (d * f1) as int, m as int);
                assert(self@.take(idx + 1) =~= self@.take(idx as int).push(d));
                lemma_value_push(self@.take(idx as int), d);
            }
            let ghost old_base = base;
            base = base.wrapping_mul((idx + 1) as u128);
            assert(base == (old_base * (idx + 1)) % (m as int));
            assert((f % m) * (idx + 1) % (m as int) == f * (idx + 1) % (m as int));
            assert(f * (idx + 1) == f1) by (nonlinear_arith)
                requires
                    f1 == (idx + 1) * f,
            ;
            assert(base == f1 % m);
            let prod = base.wrapping_mul(d as u128);
            assert(prod == (d * f1) % (m as int)) by (nonlinear_arith)
                requires
                    prod == (base * d) % (m as int),
                    base == f1 % m,
                    (f1 % m) * d % (m as int) == f1 * d % (m as int),
            ;
            proof {
                let s = ret + prod;
                if s >= m {
                    lemma_fundamental_div_mod_converse(s as int, m as int, 1, s - m);
                } else {
                    lemma_small_mod(s as nat, m);
                }
            }
            ret = ret.wrapping_add(prod);
            idx += 1;
        }
        assert(self@.take(n as int) =~= self@);
        ret
    }

    /// The number this vector stands for, or `None` where it exceeds
    /// `u128::MAX`.
    pub fn permutation_number(&self) -> (r: Option<u128>)
        requires
            self.wf(),
        ensures
            r == (if value(self@) <= u128::MAX {
                Some(value(self@) as u128)
            } else {
                None::<u128>
            }),
    {
        let n = self.vr.len();
        let mut ret: u128 = 0;
        let mut base: u128 = 1;
        let mut idx: usize = 0;
        assert(self@.take(0) =~= Seq::<u8>::empty());
        while idx < n
            invariant
                self.wf(),
                n == self@.len(),
                0 <= idx <= n,
                ret == value(self@.take(idx as int)),
                base == factorial(idx as nat),
            decreases n - idx,
        {
            let d = self.vr[idx];
            proof {
                lemma_value_prefix(self@, idx + 1);
                lemma_value_at_least(self@);
                lemma_factorial_mono(idx as nat + 1, n as nat);
                assert(self@.take(idx + 1) =~= self@.take(idx as int).push(d));
                lemma_value_push(self@.take(idx as int), d);
                assert(factorial(idx as nat + 1) == (idx + 1) * factorial(idx as nat));
            }
            let ghost f1 = factorial(idx as nat + 1);
            assert(base * (idx + 1) == f1) by (nonlinear_arith)
                requires
                    f1 == (idx + 1) * factorial(idx as nat),
                    base == factorial(idx as nat),
            ;
            match base.checked_mul((idx + 1) as u128) {
                None => {
                    assert(value(self@) > u128::MAX);
                    return None;
                },
                Some(b) => base = b,
            }
            assert(value(self@.take(idx + 1)) == ret + d * f1);
            assert(base * d == d * f1) by (nonlinear_arith)
                requires
                    base == f1,
            ;
            match base.checked_mul(d as u128) {
                None => {
                    assert(value(self@) > u128::MAX);
                    return None;
                },
                Some(prod) => match ret.checked_add(prod) {
                    None => {
                        assert(value(self@) > u128::MAX);
                        return None;
                    },
                    Some(s) => ret = s,
                },
            }
            idx += 1;
        }
        assert(self@.take(n as int) =~= self@);
        Some(ret)
    }

    /// The vector of the next number, digit by digit with a carry.
    pub fn next_unsafe(&self) -> (r: PermutationRemainder)
        requires
            self.wf(),
            value(self@) + 1 < factorial(256),
        ensures
            r.wf(),
            r@ == digits_of(value(self@) + 1),
            value(r@) == value(self@) + 1,
    {
        let n = self.vr.len();
        let mut vr: Vec<u8> = Vec::new();
        let mut carry: u8 = 1;
        let mut idx: usize = 0;
        assert(self@.take(0) =~= Seq::<u8>::empty());
        reveal_with_fuel(factorial, 2);
        while idx < n
            invariant
                self.wf(),
                n == self@.len(),
                0 <= idx <= n,
                vr@.len() == idx,
                carry <= 1,
                radix_ok(vr@),
                value(vr@) + carry * factorial(idx as nat + 1) == value(self@.take(idx as int)) + 1,
                carry == 0 ==> idx > 0 && vr@[idx - 1] >= self@[idx - 1],
            decreases n - idx,
        {
            let d = self.vr[idx];
            let ghost f = factorial(idx as nat + 1);
            let ghost old_vr = vr@;
            proof {
                assert(self@[idx as int] < idx + 2);
                assert(self@.take(idx + 1) =~= self@.take(idx as int).push(d));
                lemma_value_push(self@.take(idx as int), d);
                assert(factorial(idx as nat + 2) == (idx + 2) * f);
            }
            if carry == 1 && d as usize == idx + 1 {
                vr.push(0);
                proof {
                    lemma_value_push(old_vr, 0);
                }
                assert((idx + 2) * f == f + d * f) by (nonlinear_arith)
                    requires
                        d == idx + 1,
                ;
            } else {
                let nd = d + carry;
                vr.push(nd);
                proof {
                    lemma_value_push(old_vr, nd);
                }
                assert(nd * f == carry * f + d * f) by (nonlinear_arith)
                    requires
                        nd == d + carry,
                ;
                carry = 0;
            }
            assert(radix_ok(vr@)) by {
                assert forall|i: int| 0 <= i < vr@.len() implies (#[trigger] vr@[i]) < i + 2 by {
                    if i < idx {
                        assert(vr@[i] == old_vr[i]);
                    }
                }
            }
            idx += 1;
        }
        assert(self@.take(n as int) =~= self@);
        if carry == 1 {
            let ghost old_vr = vr@;
            vr.push(1);
            proof {
                lemma_value_push(old_vr, 1);
            }
            assert(radix_ok(vr@)) by {
                assert forall|i: int| 0 <= i < vr@.len() implies (#[trigger] vr@[i]) < i + 2 by {
                    if i < n {
                        assert(vr@[i] == old_vr[i]);
                    }
                }
            }
        }
        proof {
            if vr@.len() >= 256 {
                lemma_value_at_least(vr@);
                lemma_factorial_mono(256, vr@.len());
            }
            lemma_digits_of_value(vr@);
        }
        PermutationRemainder { vr }
    }

    /// The vector of the next number, or `None` where that number exceeds
    /// `u128::MAX`.
    pub fn next(&self) -> (r: Option<PermutationRemainder>)
        requires
            self.wf(),
        ensures
            r is None <==> value(self@) + 1 > u128::MAX,
            r matches Some(x) ==> x.wf() && x@ == digits_of(value(self@) + 1),
    {
        match self.permutation_number() {
            Some(v) => {
                if v < u128::MAX {
                    proof {
                        lemma_u128_below_factorial_256();
                    }
                    Some(self.next_unsafe())
                } else {
                    None
                }
            },
            None => None,
        }
    }

    /// The vector of the previous number, digit by digit with a borrow, or
    /// `None` for zero.
    pub fn prev(&self) -> (r: Option<PermutationRemainder>)
        requires
            self.wf(),
        ensures
            r is None <==> value(self@) == 0,
            r matches Some(x) ==> x.wf() && x@ == digits_of((value(self@) - 1) as nat) && value(
                x@,
            ) + 1 == value(self@),
    {
        let n = self.vr.len();
        if n == 0 {
            return None;
        }
        proof {
            lemma_value_at_least(self@);
            lemma_factorial_pos(n as nat);
        }
        let mut vr: Vec<u8> = Vec::new();
        let mut borrow: u8 = 1;
        let mut idx: usize = 0;
        assert(self@.take(0) =~= Seq::<u8>::empty());
        reveal_with_fuel(factorial, 2);
        while idx < n
            invariant
                self.wf(),
                n == self@.len(),
                0 <= idx <= n,
                vr@.len() == idx,
                borrow <= 1,
                radix_ok(vr@),
                value(vr@) + 1 == value(self@.take(idx as int)) + borrow * factorial(
                    idx as nat + 1,
                ),
                borrow == 1 ==> forall|j: int| 0 <= j < idx ==> vr@[j] == j + 1 && self@[j] == 0,
                idx > 0 && vr@[idx - 1] == 0 && self@[idx - 1] != 0 ==> (idx == 1 || vr@[idx - 2]
                    != 0),
            decreases n - idx,
        {
            let d = self.vr[idx];
            let ghost f = factorial(idx as nat + 1);
            let ghost old_vr = vr@;
            let ghost old_borrow = borrow;
            proof {
                assert(self@[idx as int] < idx + 2);
                assert(self@.take(idx + 1) =~= self@.take(idx as int).push(d));
                lemma_value_push(self@.take(idx as int), d);
                assert(factorial(idx as nat + 2) == (idx + 2) * f);
                if idx > 0 && old_borrow == 1 {
                    assert(old_vr[idx - 1] == idx);
                }
            }
            if borrow == 1 && d == 0 {
                let nd = (idx + 1) as u8;
                vr.push(nd);
                proof {
                    lemma_value_push(old_vr, nd);
                }
                assert(f + nd * f == (idx + 2) * f) by (nonlinear_arith)
                    requires
                        nd == idx + 1,
                ;
                assert(d * f == 0) by (nonlinear_arith)
                    requires
                        d == 0,
                ;
            } else {
                let nd = d - borrow;
                vr.push(nd);
                proof {
                    lemma_value_push(old_vr, nd);
                }
                assert(nd * f + borrow * f == d * f) by (nonlinear_arith)
                    requires
                        nd == d - borrow,
                ;
                borrow = 0;
                assert(borrow * factorial(idx as nat + 2) == 0) by (nonlinear_arith)
                    requires
                        borrow == 0,
                ;
            }
            assert(radix_ok(vr@)) by {
                assert forall|i: int| 0 <= i < vr@.len() implies (#[trigger] vr@[i]) < i + 2 by {
                    if i < idx {
                        assert(vr@[i] == old_vr[i]);
                    }
                }
            }
            idx += 1;
        }
        assert(self@.take(n as int) =~= self@);
        if borrow == 1 {
            assert(self@[n - 1] == 0);
        }
        if vr[n - 1] == 0 {
            let ghost old_vr = vr@;
            vr.pop();
            assert(old_vr.drop_last() =~= vr@);
            assert(radix_ok(vr@)) by {
                assert forall|i: int| 0 <= i < vr@.len() implies (#[trigger] vr@[i]) < i + 2 by {
                    assert(vr@[i] == old_vr[i]);
                }
            }
        }
        proof {
            lemma_digits_of_value(vr@);
        }
        Some(PermutationRemainder { vr })
    }

    /// The permutation of this vector: from the identity of `len + 1`
    /// elements, the digit at index `i` moves the element at `i + 1` that
    /// many places to the left by adjacent swaps.
    pub fn permutation(&self) -> (r: Permutation)
        requires
            self.wf(),
        ensures
            r@ == encode(self@),
            is_permutation(r@),
    {
        let n = self.vr.len();
        let mut ret: Vec<u8> = Vec::new();
        let mut i: usize = 0;
        while i <= n
            invariant
                n <= 255,
                i <= n + 1,
                ret@ == identity_from(0, i as nat),
            decreases n + 1 - i,
        {
            ret.push(i as u8);
            i += 1;
            assert(ret@ =~= identity_from(0, i as nat));
        }
        let mut k: usize = 0;
        assert(self@.take(0) =~= Seq::<u8>::empty());
        assert(ret@.take(1) =~= seq![0u8]);
        while k < n
            invariant
                self.wf(),
                n == self@.len(),
                0 <= k <= n,
                ret@.len() == n + 1,
                ret@.take(k + 1) == encode(self@.take(k as int)),
                forall|j: int| k + 1 <= j <= n ==> ret@[j] == j,
            decreases n - k,
        {
            let d = self.vr[k];
            let ghost pre = self@.take(k as int);
            let ghost e = encode(pre);
            let ghost x = (k + 1) as u8;
            proof {
                assert(radix_ok(pre)) by {
                    assert forall|j: int| 0 <= j < pre.len() implies (#[trigger] pre[j]) < j + 2 by {
                        assert(pre[j] == self@[j]);
                    }
                }
                lemma_encode(pre);
                assert(self@[k as int] < k + 2);
                assert(ret@.take(k + 2) =~= e.insert(k + 1, x));
            }
            let mut t: u8 = 0;
            while t < d
                invariant
                    n == self@.len(),
                    k < n,
                    t <= d,
                    d < k + 2,
                    e.len() == k + 1,
                    ret@.len() == n + 1,
                    ret@.take(k + 2) == e.insert(k + 1 - t, x),
                    forall|j: int| k + 2 <= j <= n ==> ret@[j] == j,
                decreases d - t,
            {
                let idx = k + 1 - t as usize;
                let ghost before = ret@;
                let a = ret[idx];
                let b = ret[idx - 1];
                ret.set(idx, b);
                ret.set(idx - 1, a);
                proof {
                    let s0 = e.insert(idx as int, x);
                    assert(before.take(k + 2) == s0);
                    assert(before[idx as int] == s0[idx as int]);
                    assert(before[idx - 1] == s0[idx - 1]);
                    let s1 = e.insert(idx - 1, x);
                    assert forall|q: int| 0 <= q < k + 2 implies ret@[q] == s1[q] by {
                        assert(before.take(k + 2)[q] == s0[q]);
                        if q > idx {
                            assert(s0[q] == e[q - 1]);
                        } else if q == idx {
                            assert(s0[idx - 1] == e[idx - 1]);
                        } else if q < idx - 1 {
                            assert(s0[q] == e[q]);
                        }
                    }
                    assert(ret@.take(k + 2) =~= s1);
                }
                t += 1;
            }
            proof {
                let ds = self@.take(k + 1);
                assert(ds.drop_last() =~= pre);
                assert(encode(ds) == e.insert(k + 1 - d, x));
            }
            k += 1;
        }
        proof {
            assert(ret@.take(n + 1) =~= ret@);
            assert(self@.take(n as int) =~= self@);
            lemma_encode(self@);
        }
        Permutation { v: ret }
    }

    /// The digits that `p` stands for, or `None` where `p` is no bijection
    /// onto `0 .. p.len()`. The trailing fixed points are set aside; then the
    /// largest remaining element is taken out, again and again, and its
    /// distance from the end is the next digit, from the highest down.
    fn decode_digits(p: &Vec<u8>) -> (r: Option<Vec<u8>>)
        ensures
            r is Some <==> is_bijection(p@),
            r matches Some(ds) ==> ds@ == lehmer(p@),
    {
        let len = p.len();
        if len > 256 {
            proof {
                if is_bijection(p@) {
                    lemma_bijection_len(p@);
                }
            }
            return None;
        }
        proof {
            lemma_strip(p@);
        }
        let mut v = p.clone();
        assert(v@ =~= p@);
        while v.len() > 0 && v[v.len() - 1] as usize == v.len() - 1
            invariant
                strip(v@) == strip(p@),
            decreases v.len(),
        {
            let ghost before = v@;
            v.pop();
            assert(before.drop_last() =~= v@);
        }
        let ghost vs = v@;
        assert(vs == strip(p@));
        let m0 = v.len();
        let mut out: Vec<u8> = Vec::new();
        let mut z: usize = 1;
        while z < m0
            invariant
                1 <= z <= m0 || (m0 == 0 && z == 1),
                out@.len() == z - 1,
                forall|q: int| 0 <= q < out@.len() ==> out@[q] == 0,
            decreases m0 - z,
        {
            out.push(0);
            z += 1;
        }
        let ghost ol = out@.len() as int;
        while v.len() > 1
            invariant
                v@.len() >= 1 || m0 == 0,
                v@.len() <= m0,
                m0 == vs.len(),
                m0 <= 256,
                ol == out@.len(),
                ol == (if m0 == 0 { 0 } else { m0 - 1 }),
                is_bijection(vs) <==> is_bijection(v@),
                is_bijection(p@) <==> is_bijection(vs),
                v@.len() >= 1 && is_bijection(v@) ==> decode(vs) == decode(v@) + out@.subrange(
                    v@.len() - 1,
                    ol,
                ),
            decreases v.len(),
        {
            let m = v.len();
            let top = m - 1;
            let mut j = m;
            while j > 0 && v[j - 1] as usize != top
                invariant
                    0 <= j <= m,
                    v@.len() == m,
                    forall|q: int| j <= q < m ==> v@[q] != top,
                    is_bijection(vs) <==> is_bijection(v@),
                    is_bijection(p@) <==> is_bijection(vs),
                decreases j,
            {
                j -= 1;
            }
            if j == 0 {
                proof {
                    assert(!holds(v@, top as int));
                    assert(!is_bijection(v@));
                }
                return None;
            }
            let idx = j - 1;
            let ghost before = v@;
            let ghost old_out = out@;
            let d = (top - idx) as u8;
            proof {
                lemma_pos_of_found(before, top as u8, idx as int);
                assert(decode(before) == decode(before.remove(idx as int)).push(d));
            }
            v.remove(idx);
            out.set(m - 2, d);
            proof {
                if is_bijection(before) {
                    lemma_remove_top(before, idx as int);
                }
                if is_bijection(v@) {
                    lemma_insert_top(v@, idx as int);
                    assert(v@.insert(idx as int, (m - 1) as u8) =~= before);
                }
                assert(out@.subrange(m - 2, ol) =~= seq![d] + old_out.subrange(m - 1, ol));
                assert(decode(v@).push(d) + old_out.subrange(m - 1, ol) =~= decode(v@)
                    + out@.subrange(m - 2, ol));
            }
        }
        if v.len() == 1 && v[0] != 0 {
            proof {
                assert(!is_bijection(v@)) by {
                    assert(v@[0] >= 1);
                }
                assert(!is_bijection(vs));
                assert(!is_bijection(p@));
            }
            return None;
        }
        proof {
            if v@.len() == 1 {
                assert(decode(v@) =~= Seq::<u8>::empty());
                assert(holds(v@, 0)) by {
                    assert(v@[0] == 0);
                }
                assert(out@.subrange(0, ol) =~= out@);
                assert(Seq::<u8>::empty() + out@ =~= out@);
            } else {
                assert(vs.len() == 0);
                assert(out@ =~= Seq::<u8>::empty());
                assert(decode(vs) =~= Seq::<u8>::empty());
            }
        }
        Some(out)
    }

    /// The digit vector of a permutation, or `None` where `p` is empty or no
    /// permutation.
    pub fn from_permutation(p: &Permutation) -> (r: Option<Self>)
        ensures
            r is Some <==> is_permutation(p@),
            r matches Some(x) ==> x.wf() && x@ == lehmer(p@) && p@ == encode(x@)
                + identity_from(x@.len() + 1, p@.len()),
    {
        if p.v.len() == 0 {
            return None;
        }
        match Self::decode_digits(&p.v) {
            Some(vr) => {
                proof {
                    lemma_lehmer(p@);
                }
                Some(PermutationRemainder { vr })
            },
            None => None,
        }
    }

    /// The digit vector of a bijection onto `0 .. p.len()`; the caller
    /// vouches that `p` is one.
    pub fn from_permutation_unsafe(p: &Permutation) -> (r: Self)
        requires
            is_bijection(p@),
        ensures
            r.wf(),
            r@ == lehmer(p@),
    {
        proof {
            if p@.len() >= 1 {
                lemma_lehmer(p@);
            } else {
                assert(strip(p@) == p@);
                assert(lehmer(p@) =~= Seq::<u8>::empty());
            }
        }
        match Self::decode_digits(&p.v) {
            Some(vr) => PermutationRemainder { vr },
            None => PermutationRemainder { vr: Vec::new() },
        }
    }
}

} // verus!
