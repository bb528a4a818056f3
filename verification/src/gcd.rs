//! The GCD reducer: an iterative Euclidean algorithm, proved to return the
//! greatest common divisor of its two operands, and the specification of the
//! left-to-right reduction the POST handler folds over a list of values.

use vstd::prelude::*;

verus! {

/// `d` divides `x`.
pub open spec fn divides(d: nat, x: nat) -> bool {
    exists|k: nat| x == #[trigger] (d * k)
}

/// `g` is the greatest common divisor of `a` and `b`: it divides both, and
/// every common divisor of `a` and `b` divides it.
pub open spec fn is_gcd(g: nat, a: nat, b: nat) -> bool {
    &&& divides(g, a)
    &&& divides(g, b)
    &&& forall|d: nat| divides(d, a) && divides(d, b) ==> divides(d, g)
}

/// The greatest common divisor as a computation, by Euclid's recurrence.
/// Total: `gcd_nat(a, 0) == a`, so `gcd_nat(0, 0) == 0`.
pub open spec fn gcd_nat(a: nat, b: nat) -> nat
    decreases b,
{
    if b == 0 {
        a
    } else {
        gcd_nat(b, a % b)
    }
}

proof fn lemma_divides_self_and_zero(a: nat)
    ensures
        divides(a, a),
        divides(a, 0),
{
    assert(a == a * 1);
    assert(0 == a * 0);
}

proof fn lemma_divides_antisymmetric(a: nat, b: nat)
    requires
        divides(a, b),
        divides(b, a),
    ensures
        a == b,
{
    let k1 = choose|k: nat| b == #[trigger] (a * k);
    let k2 = choose|k: nat| a == #[trigger] (b * k);
    assert(a == a * (k1 * k2)) by (nonlinear_arith)
        requires
            b == a * k1,
            a == b * k2,
    ;
    if a == 0 {
        assert(b == 0 * k1 == 0);
    } else {
        assert(k1 * k2 == 1) by (nonlinear_arith)
            requires
                a == a * (k1 * k2),
                a != 0,
        ;
        assert(k1 == 1) by (nonlinear_arith)
            requires
                k1 * k2 == 1,
        ;
    }
}

/// A common divisor of `b` and `a % b` is a common divisor of `a` and `b`,
/// and the other way round.
proof fn lemma_divides_mod(d: nat, a: nat, b: nat)
    requires
        b > 0,
        divides(d, b),
    ensures
        divides(d, a) <==> divides(d, a % b),
{
    let q = a / b;
    let kb = choose|k: nat| b == #[trigger] (d * k);
    vstd::arithmetic::div_mod::lemma_fundamental_div_mod(a as int, b as int);
    if divides(d, a) {
        let ka = choose|k: nat| a == #[trigger] (d * k);
        if d == 0 {
            assert(b == 0 * kb == 0);
        } else {
            assert(a % b == d * (ka - q * kb)) by (nonlinear_arith)
                requires
                    a == d * ka,
                    b == d * kb,
                    a % b == a - (a / b) * b,
                    q == a / b,
            ;
            assert(ka - q * kb >= 0) by (nonlinear_arith)
                requires
                    a % b == d * (ka - q * kb),
                    a % b >= 0,
                    d > 0,
            ;
            assert(a % b == d * ((ka - q * kb) as nat));
        }
    }
    if divides(d, a % b) {
        let kr = choose|k: nat| a % b == #[trigger] (d * k);
        assert(a == d * (q * kb + kr)) by (nonlinear_arith)
            requires
                a % b == d * kr,
                b == d * kb,
                a == (a / b) * b + a % b,
                q == a / b,
        ;
        assert(q * kb + kr >= 0);
        assert(a == d * ((q * kb + kr) as nat));
    }
}

/// Euclid's recurrence computes a greatest common divisor.
pub proof fn lemma_gcd_nat_is_gcd(a: nat, b: nat)
    ensures
        is_gcd(gcd_nat(a, b), a, b),
    decreases b,
{
    if b == 0 {
        lemma_divides_self_and_zero(a);
    } else {
        lemma_gcd_nat_is_gcd(b, a % b);
        let g = gcd_nat(b, a % b);
        lemma_divides_mod(g, a, b);
        assert forall|d: nat| divides(d, a) && divides(d, b) implies divides(d, g) by {
            lemma_divides_mod(d, a, b);
        }
    }
}

/// Two greatest common divisors of the same pair are equal.
pub proof fn lemma_gcd_unique(g1: nat, g2: nat, a: nat, b: nat)
    requires
        is_gcd(g1, a, b),
        is_gcd(g2, a, b),
    ensures
        g1 == g2,
{
    lemma_divides_antisymmetric(g1, g2);
}

/// The greatest common divisor does not depend on the order of the operands.
pub proof fn lemma_gcd_commutative(a: nat, b: nat)
    requires
        a > 0,
        b > 0,
    ensures
        gcd_nat(a, b) == gcd_nat(b, a),
{
    lemma_gcd_nat_is_gcd(a, b);
    lemma_gcd_nat_is_gcd(b, a);
    assert(is_gcd(gcd_nat(b, a), a, b));
    lemma_gcd_unique(gcd_nat(a, b), gcd_nat(b, a), a, b);
}

/// The greatest common divisor of a number with itself is that number.
pub proof fn lemma_gcd_self(a: nat)
    requires
        a > 0,
    ensures
        gcd_nat(a, a) == a,
{
    lemma_gcd_nat_is_gcd(a, a);
    lemma_divides_self_and_zero(a);
    assert(is_gcd(a, a, a));
    lemma_gcd_unique(gcd_nat(a, a), a, a, a);
}

/// Zero is the identity of the reduction: folding a value into an accumulator
/// of zero yields the value, and folding zero into an accumulator leaves it.
pub proof fn lemma_gcd_zero_identity(v: nat)
    ensures
        gcd_nat(0, v) == v,
        gcd_nat(v, 0) == v,
{
    if v > 0 {
        vstd::arithmetic::div_mod::lemma_small_mod(0, v);
        assert(gcd_nat(0, v) == gcd_nat(v, 0nat % v));
        assert(gcd_nat(v, 0) == v);
    }
}

/// Compute the greatest common divisor of two nonzero numbers by the
/// iterative Euclidean algorithm.
pub fn gcd(n: u64, m: u64) -> (r: u64)
    requires
        n != 0,
        m != 0,
    ensures
        is_gcd(r as nat, n as nat, m as nat),
        r == gcd_nat(n as nat, m as nat),
        r != 0,
{
    let ghost a: nat = n as nat;
    let ghost b: nat = m as nat;
    let mut n = n;
    let mut m = m;
    proof {
        lemma_divides_self_and_zero(0);
    }
    while m != 0
        invariant
            n != 0,
            forall|d: nat| (divides(d, n as nat) && divides(d, m as nat)) <==> (divides(d, a)
                && divides(d, b)),
        decreases m,
    {
        if m < n {
            let t = m;
            m = n;
            n = t;
        }
        let ghost m0: nat = m as nat;
        m %= n;
        proof {
            assert forall|d: nat| divides(d, n as nat) implies (divides(d, m0) <==> divides(
                d,
                m as nat,
            )) by {
                lemma_divides_mod(d, m0, n as nat);
            }
        }
    }
    proof {
        lemma_divides_self_and_zero(n as nat);
        assert(divides(n as nat, a) && divides(n as nat, b));
        lemma_gcd_nat_is_gcd(a, b);
        lemma_gcd_unique(n as nat, gcd_nat(a, b), a, b);
    }
    n
}

} // verus!
