//! Divisibility and the Euclidean greatest common divisor over the natural
//! numbers: the model behind magnitude-level `gcd` and fraction reduction.

use vstd::arithmetic::div_mod::{
    lemma_fundamental_div_mod, lemma_fundamental_div_mod_converse_div, lemma_mod_multiples_basic,
};
use vstd::prelude::*;

verus! {

/// d divides n.
pub open spec fn divides(d: nat, n: nat) -> bool {
    exists|k: nat| n == #[trigger] (d * k)
}

/// The greatest common divisor by Euclid's algorithm; gcd_nat(a, 0) == a.
pub open spec fn gcd_nat(a: nat, b: nat) -> nat
    decreases b,
{
    if b == 0 {
        a
    } else {
        gcd_nat(b, a % b)
    }
}

/// The gcd divides both its arguments.
pub proof fn lemma_gcd_divides(a: nat, b: nat)
    ensures
        divides(gcd_nat(a, b), a),
        divides(gcd_nat(a, b), b),
    decreases b,
{
    if b == 0 {
        assert(a == a * 1) by (nonlinear_arith);
        assert(a * 0 == 0) by (nonlinear_arith);
        assert(0 == a * 0);
    } else {
        let g = gcd_nat(b, a % b);
        lemma_gcd_divides(b, a % b);
        let k1 = choose|k: nat| b == #[trigger] (g * k);
        let k2 = choose|k: nat| a % b == #[trigger] (g * k);
        lemma_fundamental_div_mod(a as int, b as int);
        assert(a == b * (a / b) + a % b);
        let q = a / b;
        assert(a == (g * k1) * q + g * k2);
        assert((g * k1) * q + g * k2 == g * (k1 * q + k2)) by (nonlinear_arith);
        assert(a == g * (k1 * q + k2));
    }
}

/// The gcd of two naturals, one of them positive, is positive.
pub proof fn lemma_gcd_pos(a: nat, b: nat)
    requires
        a > 0 || b > 0,
    ensures
        gcd_nat(a, b) >= 1,
    decreases b,
{
    if b != 0 {
        lemma_gcd_pos(b, a % b);
    }
}

/// A divisor of a positive natural lies between 1 and that natural.
pub proof fn lemma_divides_bound(d: nat, n: nat)
    requires
        divides(d, n),
        n >= 1,
    ensures
        1 <= d <= n,
{
    let k = choose|k: nat| n == #[trigger] (d * k);
    assert(d >= 1 && k >= 1) by (nonlinear_arith)
        requires
            n == d * k,
            n >= 1,
    ;
    assert(d <= d * k) by (nonlinear_arith)
        requires
            k >= 1,
            d >= 0,
    ;
}

/// Exact division: when d divides n, division leaves no remainder and
/// multiplication undoes it.
pub proof fn lemma_divides_exact(d: nat, n: nat)
    requires
        divides(d, n),
        d >= 1,
    ensures
        n % d == 0,
        n == d * (n / d),
        n >= 1 ==> n / d >= 1,
{
    let k = choose|k: nat| n == #[trigger] (d * k);
    lemma_mod_multiples_basic(k as int, d as int);
    assert(n == k * d) by (nonlinear_arith)
        requires
            n == d * k,
    ;
    lemma_fundamental_div_mod_converse_div(n as int, d as int, k as int, 0);
    assert(n / d == k);
    if n >= 1 {
        assert(k >= 1) by (nonlinear_arith)
            requires
                n == d * k,
                n >= 1,
        ;
    }
}

/// Every common divisor divides the gcd.
pub proof fn lemma_gcd_greatest(d: nat, a: nat, b: nat)
    requires
        divides(d, a),
        divides(d, b),
    ensures
        divides(d, gcd_nat(a, b)),
    decreases b,
{
    if b != 0 {
        let k1 = choose|k: nat| a == #[trigger] (d * k);
        let k2 = choose|k: nat| b == #[trigger] (d * k);
        assert(d >= 1) by (nonlinear_arith)
            requires
                b == d * k2,
                b > 0,
        ;
        lemma_fundamental_div_mod(a as int, b as int);
        let q = a / b;
        assert(a % b == a - b * q);
        assert(a - b * q == d * k1 - (d * k2) * q);
        assert(d * k1 - (d * k2) * q == d * (k1 - k2 * q)) by (nonlinear_arith);
        let m = k1 - k2 * q;
        assert(a % b == d * m);
        assert(m >= 0) by (nonlinear_arith)
            requires
                d * m == a % b,
                a % b >= 0,
                d >= 1,
        ;
        assert(a % b == d * (m as nat));
        assert(divides(d, a % b));
        lemma_gcd_greatest(d, b, a % b);
    }
}

/// After dividing both naturals by their gcd, the quotients are coprime.
pub proof fn lemma_gcd_quotients_coprime(a: nat, b: nat)
    requires
        b >= 1,
    ensures
        gcd_nat(a / gcd_nat(a, b), b / gcd_nat(a, b)) == 1,
{
    let g = gcd_nat(a, b);
    lemma_gcd_pos(a, b);
    lemma_gcd_divides(a, b);
    lemma_divides_exact(g, a);
    lemma_divides_exact(g, b);
    let qa = a / g;
    let qb = b / g;
    let d = gcd_nat(qa, qb);
    lemma_gcd_pos(qa, qb);
    lemma_gcd_divides(qa, qb);
    let k1 = choose|k: nat| qa == #[trigger] (d * k);
    let k2 = choose|k: nat| qb == #[trigger] (d * k);
    assert(a == (g * d) * k1) by (nonlinear_arith)
        requires
            a == g * qa,
            qa == d * k1,
    ;
    assert(b == (g * d) * k2) by (nonlinear_arith)
        requires
            b == g * qb,
            qb == d * k2,
    ;
    assert(divides((g * d) as nat, a));
    assert(divides((g * d) as nat, b));
    lemma_gcd_greatest((g * d) as nat, a, b);
    lemma_divides_bound((g * d) as nat, g);
    assert(d == 1) by (nonlinear_arith)
        requires
            g * d <= g,
            g >= 1,
            d >= 1,
    ;
}

/// Dividing one side of a fraction by a common divisor keeps the cross
/// products equal: (a/g) * b == a * (b/g).
pub proof fn lemma_quotient_cross(a: nat, b: nat, g: nat)
    requires
        g >= 1,
        divides(g, a),
        divides(g, b),
    ensures
        (a / g) * b == a * (b / g),
{
    lemma_divides_exact(g, a);
    lemma_divides_exact(g, b);
    assert((a / g) * b == a * (b / g)) by (nonlinear_arith)
        requires
            a == g * (a / g),
            b == g * (b / g),
    ;
}

} // verus!
