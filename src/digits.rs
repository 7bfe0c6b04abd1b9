//! The mathematical model of a digit vector: its value, its canonical form,
//! and the facts that make the representation unique.

use vstd::arithmetic::div_mod::{lemma_fundamental_div_mod, lemma_fundamental_div_mod_converse, lemma_div_decreases};
use vstd::prelude::*;

verus! {

/// `n!`
pub open spec fn factorial(n: nat) -> nat
    decreases n,
{
    if n == 0 {
        1
    } else {
        n * factorial((n - 1) as nat)
    }
}

/// Every digit lies below its radix: the digit at index `i` has radix `i + 2`.
pub open spec fn radix_ok(ds: Seq<u8>) -> bool {
    forall|i: int| 0 <= i < ds.len() ==> (#[trigger] ds[i]) < i + 2
}

/// No meaningless zero at the highest index; the empty vector stands for zero.
pub open spec fn canonical(ds: Seq<u8>) -> bool {
    ds.len() == 0 || ds.last() != 0
}

/// A canonical digit vector whose permutation (of `len + 1` elements) holds
/// byte values only.
pub open spec fn is_digits(ds: Seq<u8>) -> bool {
    ds.len() <= 255 && radix_ok(ds) && canonical(ds)
}

/// The number that a digit vector stands for: the sum of `ds[i] * (i + 1)!`.
pub open spec fn value(ds: Seq<u8>) -> nat
    decreases ds.len(),
{
    if ds.len() == 0 {
        0
    } else {
        value(ds.drop_last()) + ds.last() as nat * factorial(ds.len())
    }
}

/// The remainders of `n` under repeated division by `r`, `r + 1`, ... until
/// the quotient reaches zero.
pub open spec fn digits_from(n: nat, r: nat) -> Seq<u8>
    decreases n
    via digits_from_decreases
{
    if n == 0 || r < 2 {
        seq![]
    } else {
        seq![(n % r) as u8] + digits_from(n / r, r + 1)
    }
}

#[via_fn]
proof fn digits_from_decreases(n: nat, r: nat) {
    if !(n == 0 || r < 2) {
        lemma_div_decreases(n as int, r as int);
    }
}

/// The canonical digit vector of `n`.
pub open spec fn digits_of(n: nat) -> Seq<u8> {
    digits_from(n, 2)
}

pub proof fn lemma_factorial_pos(n: nat)
    ensures
        factorial(n) >= 1,
    decreases n,
{
    if n > 0 {
        lemma_factorial_pos((n - 1) as nat);
        assert(n * factorial((n - 1) as nat) >= 1) by (nonlinear_arith)
            requires
                n >= 1,
                factorial((n - 1) as nat) >= 1,
        ;
    }
}

pub proof fn lemma_factorial_mono(a: nat, b: nat)
    requires
        a <= b,
    ensures
        factorial(a) <= factorial(b),
    decreases b,
{
    if a < b {
        lemma_factorial_mono(a, (b - 1) as nat);
        lemma_factorial_pos((b - 1) as nat);
        let f = factorial((b - 1) as nat);
        assert(f <= b * f) by (nonlinear_arith)
            requires
                b >= 1,
        ;
    }
}

/// From `35!` on, a factorial exceeds every `u128`.
pub proof fn lemma_factorial_exceeds_u128(n: nat)
    requires
        n >= 35,
    ensures
        factorial(n) > u128::MAX,
{
    assert(factorial(0) == 1);
    assert(factorial(1) == 1);
    assert(factorial(2) == 2);
    assert(factorial(3) == 6);
    assert(factorial(4) == 24);
    assert(factorial(5) == 120);
    assert(factorial(6) == 720);
    assert(factorial(7) == 5040);
    assert(factorial(8) == 40320);
    assert(factorial(9) == 362880);
    assert(factorial(10) == 3628800);
    assert(factorial(11) == 39916800);
    assert(factorial(12) == 479001600);
    assert(factorial(13) == 6227020800);
    assert(factorial(14) == 87178291200);
    assert(factorial(15) == 1307674368000);
    assert(factorial(16) == 20922789888000);
    assert(factorial(17) == 355687428096000);
    assert(factorial(18) == 6402373705728000);
    assert(factorial(19) == 121645100408832000);
    assert(factorial(20) == 2432902008176640000);
    assert(factorial(21) == 51090942171709440000);
    assert(factorial(22) == 1124000727777607680000);
    assert(factorial(23) == 25852016738884976640000);
    assert(factorial(24) == 620448401733239439360000);
    assert(factorial(25) == 15511210043330985984000000);
    assert(factorial(26) == 403291461126605635584000000);
    assert(factorial(27) == 10888869450418352160768000000);
    assert(factorial(28) == 304888344611713860501504000000);
    assert(factorial(29) == 8841761993739701954543616000000);
    assert(factorial(30) == 265252859812191058636308480000000);
    assert(factorial(31) == 8222838654177922817725562880000000);
    assert(factorial(32) == 263130836933693530167218012160000000);
    assert(factorial(33) == 8683317618811886495518194401280000000);
    assert(factorial(34) == 295232799039604140847618609643520000000);
    assert(factorial(35) == 10333147966386144929666651337523200000000);
    lemma_factorial_mono(35, n);
}

/// A vector of length `n` within its radices stands for less than `(n + 1)!`.
pub proof fn lemma_value_below(ds: Seq<u8>)
    requires
        radix_ok(ds),
    ensures
        value(ds) < factorial(ds.len() + 1),
    decreases ds.len(),
{
    if ds.len() > 0 {
        let pre = ds.drop_last();
        let n = ds.len();
        assert(radix_ok(pre)) by {
            assert forall|i: int| 0 <= i < pre.len() implies (#[trigger] pre[i]) < i + 2 by {
                assert(pre[i] == ds[i]);
            }
        }
        lemma_value_below(pre);
        let f = factorial(n);
        let d = ds.last() as nat;
        assert(ds[n - 1] < n + 1);
        assert(value(pre) + d * f < (n + 1) * f) by (nonlinear_arith)
            requires
                value(pre) < f,
                d <= n,
        ;
    } else {
        reveal_with_fuel(factorial, 2);
    }
}

/// A canonical vector of length `n >= 1` stands for at least `n!`.
pub proof fn lemma_value_at_least(ds: Seq<u8>)
    requires
        canonical(ds),
        ds.len() >= 1,
    ensures
        value(ds) >= factorial(ds.len()),
{
    let f = factorial(ds.len());
    let d = ds.last() as nat;
    assert(d * f >= f) by (nonlinear_arith)
        requires
            d >= 1,
    ;
}

/// A prefix stands for no more than the whole vector.
pub proof fn lemma_value_prefix(ds: Seq<u8>, k: int)
    requires
        0 <= k <= ds.len(),
    ensures
        value(ds.take(k)) <= value(ds),
    decreases ds.len(),
{
    if k < ds.len() {
        assert(ds.drop_last().take(k) =~= ds.take(k));
        lemma_value_prefix(ds.drop_last(), k);
    } else {
        assert(ds.take(k) =~= ds);
    }
}

/// Adding one digit at the top adds that digit times its weight.
pub proof fn lemma_value_push(ds: Seq<u8>, d: u8)
    ensures
        value(ds.push(d)) == value(ds) + d as nat * factorial(ds.len() + 1),
{
    assert(ds.push(d).drop_last() =~= ds);
}

/// Two vectors of one length within their radices and of one value are equal.
proof fn lemma_unique_same_len(a: Seq<u8>, b: Seq<u8>)
    requires
        radix_ok(a),
        radix_ok(b),
        a.len() == b.len(),
        value(a) == value(b),
    ensures
        a == b,
    decreases a.len(),
{
    if a.len() > 0 {
        let n = a.len();
        let (pa, pb) = (a.drop_last(), b.drop_last());
        assert(radix_ok(pa)) by {
            assert forall|i: int| 0 <= i < pa.len() implies (#[trigger] pa[i]) < i + 2 by {
                assert(pa[i] == a[i]);
            }
        }
        assert(radix_ok(pb)) by {
            assert forall|i: int| 0 <= i < pb.len() implies (#[trigger] pb[i]) < i + 2 by {
                assert(pb[i] == b[i]);
            }
        }
        lemma_value_below(pa);
        lemma_value_below(pb);
        lemma_factorial_pos(n);
        let f = factorial(n) as int;
        let v = value(a) as int;
        lemma_fundamental_div_mod_converse(v, f, a.last() as int, value(pa) as int);
        lemma_fundamental_div_mod_converse(v, f, b.last() as int, value(pb) as int);
        lemma_unique_same_len(pa, pb);
        assert(a =~= pa.push(a.last()));
        assert(b =~= pb.push(b.last()));
    } else {
        assert(a =~= b);
    }
}

/// Two digit vectors of one value are equal: the representation is unique.
pub proof fn lemma_unique(a: Seq<u8>, b: Seq<u8>)
    requires
        is_digits(a),
        is_digits(b),
        value(a) == value(b),
    ensures
        a == b,
{
    if a.len() < b.len() {
        lemma_value_below(a);
        lemma_factorial_mono(a.len() + 1, b.len());
        lemma_value_at_least(b);
    } else if b.len() < a.len() {
        lemma_value_below(b);
        lemma_factorial_mono(b.len() + 1, a.len());
        lemma_value_at_least(a);
    } else {
        lemma_unique_same_len(a, b);
    }
}

proof fn lemma_digits_from(n: nat, r: nat, prefix: Seq<u8>)
    requires
        r >= 2,
        prefix.len() == r - 2,
        radix_ok(prefix),
        value(prefix) + n * factorial((r - 1) as nat) < factorial(256),
    ensures
        radix_ok(prefix + digits_from(n, r)),
        value(prefix + digits_from(n, r)) == value(prefix) + n * factorial((r - 1) as nat),
        n > 0 ==> digits_from(n, r).len() > 0 && (prefix + digits_from(n, r)).last() != 0,
    decreases n,
{
    if n == 0 {
        assert(digits_from(n, r) == Seq::<u8>::empty());
        assert(prefix + digits_from(n, r) =~= prefix);
        assert(n * factorial((r - 1) as nat) == 0) by (nonlinear_arith)
            requires
                n == 0,
        ;
    } else {
        let f = factorial((r - 1) as nat);
        lemma_factorial_pos((r - 1) as nat);
        assert(f <= n * f) by (nonlinear_arith)
            requires
                n >= 1,
        ;
        if r - 1 >= 256 {
            lemma_factorial_mono(256, (r - 1) as nat);
        }
        let d = (n % r) as u8;
        let q = n / r;
        lemma_fundamental_div_mod(n as int, r as int);
        let p2 = prefix.push(d);
        assert(radix_ok(p2)) by {
            assert forall|i: int| 0 <= i < p2.len() implies (#[trigger] p2[i]) < i + 2 by {
                if i < prefix.len() {
                    assert(p2[i] == prefix[i]);
                }
            }
        }
        lemma_value_push(prefix, d);
        assert(factorial(r) == r * f);
        assert(q * (r * f) + d as nat * f == n * f) by (nonlinear_arith)
            requires
                n == r * q + d,
        ;
        lemma_div_decreases(n as int, r as int);
        lemma_digits_from(q, r + 1, p2);
        assert(value(p2 + digits_from(q, r + 1)) == value(p2) + q * factorial(r));
        assert(value(p2) == value(prefix) + d as nat * f);
        assert(value(p2 + digits_from(q, r + 1)) == value(prefix) + n * f);
        assert(digits_from(n, r) == seq![d] + digits_from(q, r + 1));
        assert(prefix + digits_from(n, r) =~= p2 + digits_from(q, r + 1));
        if q == 0 {
            assert(n < r) by (nonlinear_arith)
                requires
                    n == r * q + d,
                    q == 0,
                    d < r,
            ;
            assert(p2 + digits_from(q, r + 1) =~= p2);
        }
    }
}

/// The vector built by repeated division is a digit vector of the number it
/// was built from.
pub proof fn lemma_digits_of(n: nat)
    requires
        n < factorial(256),
    ensures
        is_digits(digits_of(n)),
        value(digits_of(n)) == n,
{
    let e = Seq::<u8>::empty();
    assert(factorial(1) == 1) by {
        reveal_with_fuel(factorial, 2);
    }
    assert(value(e) == 0);
    lemma_digits_from(n, 2, e);
    assert(e + digits_from(n, 2) =~= digits_of(n));
    let ds = digits_of(n);
    if ds.len() >= 256 {
        lemma_value_at_least(ds);
        lemma_factorial_mono(256, ds.len());
    }
}

/// Every digit vector is the one built from its value.
pub proof fn lemma_digits_of_value(ds: Seq<u8>)
    requires
        is_digits(ds),
    ensures
        value(ds) < factorial(256),
        digits_of(value(ds)) == ds,
{
    lemma_value_below(ds);
    lemma_factorial_mono(ds.len() + 1, 256);
    lemma_digits_of(value(ds));
    lemma_unique(digits_of(value(ds)), ds);
}

/// A digit vector whose value fits in a `u128` has at most 34 digits.
pub proof fn lemma_len_of_u128(ds: Seq<u8>)
    requires
        is_digits(ds),
        value(ds) <= u128::MAX,
    ensures
        ds.len() <= 34,
{
    if ds.len() >= 35 {
        lemma_value_at_least(ds);
        lemma_factorial_exceeds_u128(ds.len());
    }
}

/// Every `u128` lies below `256!`.
pub proof fn lemma_u128_below_factorial_256()
    ensures
        u128::MAX < factorial(256),
{
    lemma_factorial_exceeds_u128(256);
}

} // verus!
