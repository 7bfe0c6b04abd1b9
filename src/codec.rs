//! The mathematical model of the permutation codec: how a digit vector
//! becomes a permutation, how a permutation is read back, and the proofs
//! that the two are inverse.

use crate::digits::{canonical, is_digits, radix_ok};
use vstd::prelude::*;

verus! {

/// `v` occurs somewhere in `s`.
pub open spec fn holds(s: Seq<u8>, v: int) -> bool {
    exists|i: int| 0 <= i < s.len() && s[i] == v
}

/// `s` holds each of `0 .. s.len()` exactly once.
pub open spec fn is_bijection(s: Seq<u8>) -> bool {
    &&& forall|i: int| 0 <= i < s.len() ==> (#[trigger] s[i]) < s.len()
    &&& forall|i: int, j: int| 0 <= i < j < s.len() ==> s[i] != s[j]
    &&& forall|v: int| 0 <= v < s.len() ==> #[trigger] holds(s, v)
}

/// A permutation of `0 ..= n` for some `n`: at least one element.
pub open spec fn is_permutation(s: Seq<u8>) -> bool {
    s.len() >= 1 && is_bijection(s)
}

/// The fixed points `lo, lo + 1, ..., hi - 1`.
pub open spec fn identity_from(lo: nat, hi: nat) -> Seq<u8> {
    Seq::new((hi - lo) as nat, |j: int| (lo + j) as u8)
}

/// The permutation of a digit vector: starting from `[0]`, the digit at
/// index `i` places the new element `i + 1` that many positions to the left
/// of the end.
pub open spec fn encode(ds: Seq<u8>) -> Seq<u8>
    decreases ds.len(),
{
    if ds.len() == 0 {
        seq![0u8]
    } else {
        encode(ds.drop_last()).insert(ds.len() - ds.last(), ds.len() as u8)
    }
}

/// The highest index at which `x` stands in `s`, or `-1`.
pub open spec fn pos_of(s: Seq<u8>, x: u8) -> int
    decreases s.len(),
{
    if s.len() == 0 {
        -1
    } else if s.last() == x {
        s.len() - 1
    } else {
        pos_of(s.drop_last(), x)
    }
}

/// Reads a digit vector back from a permutation: the largest element is
/// taken out, and how far it stands from the end is the highest digit.
pub open spec fn decode(v: Seq<u8>) -> Seq<u8>
    decreases v.len(),
    via decode_decreases
{
    let m = v.len();
    let idx = pos_of(v, (m - 1) as u8);
    if m <= 1 || idx < 0 {
        seq![]
    } else {
        decode(v.remove(idx)).push((m - 1 - idx) as u8)
    }
}

#[via_fn]
proof fn decode_decreases(v: Seq<u8>) {
    lemma_pos_of_range(v, (v.len() - 1) as u8);
}

/// `p` without its trailing fixed points.
pub open spec fn strip(p: Seq<u8>) -> Seq<u8>
    decreases p.len(),
{
    if p.len() > 0 && p.last() == p.len() - 1 {
        strip(p.drop_last())
    } else {
        p
    }
}

/// The digit vector that a permutation stands for.
pub open spec fn lehmer(p: Seq<u8>) -> Seq<u8> {
    decode(strip(p))
}

pub proof fn lemma_pos_of_range(s: Seq<u8>, x: u8)
    ensures
        -1 <= pos_of(s, x) < s.len(),
        pos_of(s, x) >= 0 ==> s[pos_of(s, x)] == x,
    decreases s.len(),
{
    if s.len() > 0 && s.last() != x {
        lemma_pos_of_range(s.drop_last(), x);
    }
}

/// Scanning from the top finds the highest occurrence.
pub proof fn lemma_pos_of_found(s: Seq<u8>, x: u8, k: int)
    requires
        0 <= k < s.len(),
        s[k] == x,
        forall|j: int| k < j < s.len() ==> s[j] != x,
    ensures
        pos_of(s, x) == k,
    decreases s.len(),
{
    if k < s.len() - 1 {
        assert(s.last() != x);
        lemma_pos_of_found(s.drop_last(), x, k);
    }
}

/// Placing the new largest element anywhere keeps a bijection.
pub proof fn lemma_insert_top(w: Seq<u8>, p: int)
    requires
        is_bijection(w),
        0 <= p <= w.len(),
        w.len() <= 255,
    ensures
        is_bijection(w.insert(p, w.len() as u8)),
{
    let n = w.len();
    let s = w.insert(p, n as u8);
    assert forall|i: int| 0 <= i < s.len() implies (#[trigger] s[i]) < s.len() by {
        if i < p {
            assert(s[i] == w[i]);
        } else if i > p {
            assert(s[i] == w[i - 1]);
        }
    }
    assert forall|i: int, j: int| 0 <= i < j < s.len() implies s[i] != s[j] by {
        if i < p && j < p {
            assert(s[i] == w[i] && s[j] == w[j]);
        } else if i < p && j == p {
            assert(w[i] < n);
        } else if i < p {
            assert(s[i] == w[i] && s[j] == w[j - 1]);
        } else if i == p {
            assert(w[j - 1] < n);
        } else {
            assert(s[i] == w[i - 1] && s[j] == w[j - 1]);
        }
    }
    assert forall|v: int| 0 <= v < s.len() implies #[trigger] holds(s, v) by {
        if v == n {
            assert(s[p] == v);
        } else {
            assert(holds(w, v));
            let i = choose|i: int| 0 <= i < w.len() && w[i] == v;
            if i < p {
                assert(s[i] == v);
            } else {
                assert(s[i + 1] == v);
            }
        }
    }
}

/// Taking out the largest element keeps a bijection.
pub proof fn lemma_remove_top(v: Seq<u8>, idx: int)
    requires
        is_bijection(v),
        0 <= idx < v.len(),
        v[idx] == v.len() - 1,
    ensures
        is_bijection(v.remove(idx)),
{
    let w = v.remove(idx);
    assert forall|i: int| 0 <= i < w.len() implies (#[trigger] w[i]) < w.len() by {
        if i < idx {
            assert(w[i] == v[i]);
        } else {
            assert(w[i] == v[i + 1]);
        }
    }
    assert forall|i: int, j: int| 0 <= i < j < w.len() implies w[i] != w[j] by {
        let i2 = if i < idx { i } else { i + 1 };
        let j2 = if j < idx { j } else { j + 1 };
        assert(w[i] == v[i2] && w[j] == v[j2]);
    }
    assert forall|x: int| 0 <= x < w.len() implies #[trigger] holds(w, x) by {
        assert(holds(v, x));
        let i = choose|i: int| 0 <= i < v.len() && v[i] == x;
        if i < idx {
            assert(w[i] == x);
        } else {
            assert(i != idx);
            assert(w[i - 1] == x);
        }
    }
}

/// A permutation of `n + 1` elements has `n <= 255`.
pub proof fn lemma_bijection_len(v: Seq<u8>)
    requires
        is_bijection(v),
        v.len() >= 1,
    ensures
        v.len() <= 256,
{
    assert(holds(v, v.len() - 1));
}

/// Encoding gives a bijection of one more element, decoding undoes it, and
/// a canonical nonempty vector leaves no fixed point at the end.
pub proof fn lemma_encode(ds: Seq<u8>)
    requires
        radix_ok(ds),
        ds.len() <= 255,
    ensures
        encode(ds).len() == ds.len() + 1,
        is_bijection(encode(ds)),
        decode(encode(ds)) == ds,
        canonical(ds) && ds.len() >= 1 ==> encode(ds).last() != ds.len(),
    decreases ds.len(),
{
    if ds.len() == 0 {
        let s = encode(ds);
        assert(s =~= seq![0u8]);
        assert(s[0] == 0);
        assert(holds(s, 0));
        assert(ds =~= Seq::<u8>::empty());
    } else {
        let pre = ds.drop_last();
        let n = ds.len() as int;
        let d = ds.last() as int;
        assert(ds[n - 1] < n + 1);
        assert(radix_ok(pre)) by {
            assert forall|i: int| 0 <= i < pre.len() implies (#[trigger] pre[i]) < i + 2 by {
                assert(pre[i] == ds[i]);
            }
        }
        lemma_encode(pre);
        let e = encode(pre);
        let p = n - d;
        let s = e.insert(p, n as u8);
        assert(encode(ds) == s);
        lemma_insert_top(e, p);
        assert forall|j: int| p < j < s.len() implies s[j] != n as u8 by {
            assert(s[j] == e[j - 1]);
        }
        lemma_pos_of_found(s, n as u8, p);
        assert(s.remove(p) =~= e);
        assert(((s.len() - 1) as u8) == n as u8);
        assert(decode(s) == decode(e).push((n - p) as u8));
        assert(ds =~= pre.push(ds.last()));
        if canonical(ds) {
            assert(s.last() == e[n - 1]);
        }
    }
}

/// Decoding a permutation gives a digit vector within its radices, one
/// shorter, whose encoding is the permutation again.
pub proof fn lemma_decode(v: Seq<u8>)
    requires
        is_permutation(v),
    ensures
        decode(v).len() == v.len() - 1,
        radix_ok(decode(v)),
        encode(decode(v)) == v,
    decreases v.len(),
{
    lemma_bijection_len(v);
    let m = v.len() as int;
    if m == 1 {
        assert(v[0] < 1);
        assert(v =~= seq![0u8]);
    } else {
        assert(holds(v, m - 1));
        let i = choose|i: int| 0 <= i < v.len() && v[i] == m - 1;
        lemma_pos_of_found(v, (m - 1) as u8, i);
        let w = v.remove(i);
        lemma_remove_top(v, i);
        lemma_decode(w);
        let dw = decode(w);
        let d = (m - 1 - i) as u8;
        let ds = dw.push(d);
        assert(decode(v) == ds);
        assert(radix_ok(ds)) by {
            assert forall|k: int| 0 <= k < ds.len() implies (#[trigger] ds[k]) < k + 2 by {
                if k < dw.len() {
                    assert(ds[k] == dw[k]);
                }
            }
        }
        assert(ds.drop_last() =~= dw);
        assert(encode(ds) == w.insert(i, (m - 1) as u8));
        assert(w.insert(i, (m - 1) as u8) =~= v);
    }
}

/// Appending the next fixed point keeps a bijection, and removing it too.
pub proof fn lemma_push_fixed(s: Seq<u8>)
    requires
        s.len() <= 255,
    ensures
        is_bijection(s) <==> is_bijection(s.push(s.len() as u8)),
{
    let t = s.push(s.len() as u8);
    if is_bijection(s) {
        lemma_insert_top(s, s.len() as int);
        assert(s.insert(s.len() as int, s.len() as u8) =~= t);
    }
    if is_bijection(t) {
        lemma_remove_top(t, s.len() as int);
        assert(t.remove(s.len() as int) =~= s);
    }
}

/// Stripping trailing fixed points leaves a prefix, followed in `p` by the
/// fixed points, keeps a bijection a bijection, and ends on no fixed point.
pub proof fn lemma_strip(p: Seq<u8>)
    requires
        p.len() <= 256,
    ensures
        strip(p).len() <= p.len(),
        p == strip(p) + identity_from(strip(p).len(), p.len()),
        is_bijection(p) <==> is_bijection(strip(p)),
        strip(p).len() == 0 || strip(p).last() != strip(p).len() - 1,
    decreases p.len(),
{
    if p.len() > 0 && p.last() == p.len() - 1 {
        let q = p.drop_last();
        lemma_strip(q);
        assert(p =~= q.push(q.len() as u8));
        lemma_push_fixed(q);
        assert(p =~= strip(p) + identity_from(strip(p).len(), p.len()));
    } else {
        assert(p =~= strip(p) + identity_from(strip(p).len(), p.len()));
    }
}

/// The digit vector of a permutation is canonical, and its encoding,
/// followed by fixed points, is the permutation.
pub proof fn lemma_lehmer(p: Seq<u8>)
    requires
        is_permutation(p),
    ensures
        is_digits(lehmer(p)),
        p == encode(lehmer(p)) + identity_from(lehmer(p).len() + 1, p.len()),
{
    lemma_bijection_len(p);
    lemma_strip(p);
    let v = strip(p);
    if v.len() == 0 {
        assert(lehmer(p) =~= Seq::<u8>::empty());
        assert(encode(lehmer(p)) =~= seq![0u8]);
        assert(p[0] == 0) by {
            assert(p[0] == identity_from(0, p.len())[0]);
        }
        assert(p =~= encode(lehmer(p)) + identity_from(lehmer(p).len() + 1, p.len()));
    } else {
        if v.len() == 1 {
            assert(v[0] < 1);
        }
        lemma_decode(v);
        let m = v.len() as int;
        assert(holds(v, m - 1));
        let i = choose|i: int| 0 <= i < v.len() && v[i] == m - 1;
        lemma_pos_of_found(v, (m - 1) as u8, i);
        assert(i != m - 1);
        assert(lehmer(p).last() == (m - 1 - i) as u8);
    }
}

/// Reading back the permutation of a digit vector gives that vector.
pub proof fn lemma_lehmer_encode(ds: Seq<u8>)
    requires
        is_digits(ds),
    ensures
        is_permutation(encode(ds)),
        lehmer(encode(ds)) == ds,
{
    lemma_encode(ds);
    let s = encode(ds);
    if ds.len() == 0 {
        assert(s =~= seq![0u8]);
        assert(s.drop_last() =~= Seq::<u8>::empty());
        assert(strip(s) == strip(Seq::<u8>::empty()));
        assert(ds =~= Seq::<u8>::empty());
    } else {
        assert(strip(s) == s);
    }
}

} // verus!
