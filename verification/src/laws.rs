//! The algebraic laws of the rational engine, stated over the value model
//! that the operations' contracts use: `num_val`, `den_mag`, `sum_num`,
//! `diff_num`, `prod_num` and `pair_den`. Each operation's `ensures` pins
//! its result to this model, so every law below is a statement about the
//! results the executable operations return.

use vstd::prelude::*;

use crate::euclid::{
    gcd_nat, lemma_gcd_divides, lemma_gcd_pos, lemma_gcd_quotients_coprime, lemma_quotient_cross,
};
use crate::number::{
    add_sign, den_mag, diff_num, eq_full, num_mag, num_val, order_spec, pair_den, prod_num,
    sum_num, wf, Number,
};
use core::cmp::Ordering;

verus! {

/// Equality agrees with the values: two well-formed rationals are equal
/// exactly when their cross products balance as signed integers.
pub proof fn lemma_eq_by_value(x: Number, y: Number)
    requires
        wf(x),
        wf(y),
    ensures
        eq_full(x, y) <==> num_val(x) * den_mag(y) == num_val(y) * den_mag(x),
{
    lemma_signed_cross(x, y);
}

/// The order agrees with the values: comparison of two well-formed
/// rationals is the comparison of their signed cross products.
pub proof fn lemma_order_by_value(x: Number, y: Number)
    requires
        wf(x),
        wf(y),
    ensures
        order_spec(x, y) == Ordering::Less <==> num_val(x) * den_mag(y) < num_val(y) * den_mag(x),
        order_spec(x, y) == Ordering::Equal <==> num_val(x) * den_mag(y) == num_val(y) * den_mag(
            x,
        ),
        order_spec(x, y) == Ordering::Greater <==> num_val(x) * den_mag(y) > num_val(y) * den_mag(
            x,
        ),
{
    lemma_signed_cross(x, y);
}

/// For all x and y, exactly one of x < y, x == y, x > y holds, and equality
/// by cross-multiplication coincides with the order's Equal answer.
pub proof fn lemma_order_trichotomy(x: Number, y: Number)
    requires
        wf(x),
        wf(y),
    ensures
        (order_spec(x, y) == Ordering::Less) || (order_spec(x, y) == Ordering::Equal) || (
        order_spec(x, y) == Ordering::Greater),
        order_spec(x, y) == Ordering::Less ==> order_spec(x, y) != Ordering::Equal && order_spec(
            x,
            y,
        ) != Ordering::Greater,
        order_spec(x, y) == Ordering::Equal <==> eq_full(x, y),
{
    lemma_signed_cross(x, y);
}

/// Zero lies strictly between any positive and any negative value.
pub proof fn lemma_zero_between(x: Number, z: Number, y: Number)
    requires
        wf(x),
        wf(z),
        wf(y),
        num_val(x) > 0,
        num_mag(z) == 0,
        num_val(y) < 0,
    ensures
        order_spec(x, z) == Ordering::Greater,
        order_spec(z, y) == Ordering::Greater,
        order_spec(x, y) == Ordering::Greater,
{
    lemma_signed_cross(x, z);
    lemma_signed_cross(z, y);
    lemma_signed_cross(x, y);
    assert(num_val(x) * den_mag(z) > 0 && 0 * den_mag(x) == 0) by (nonlinear_arith)
        requires
            num_val(x) >= 1,
            den_mag(z) >= 1,
    ;
    assert(num_val(y) * den_mag(z) < 0) by (nonlinear_arith)
        requires
            num_val(y) <= -1,
            den_mag(z) >= 1,
    ;
    assert(num_val(x) * den_mag(y) > 0) by (nonlinear_arith)
        requires
            num_val(x) >= 1,
            den_mag(y) >= 1,
    ;
    assert(num_val(y) * den_mag(x) < 0) by (nonlinear_arith)
        requires
            num_val(y) <= -1,
            den_mag(x) >= 1,
    ;
}

/// Addition is commutative: add(x, y) and add(y, x) have the same numerator
/// value, the same denominator and the same sign tag.
pub proof fn lemma_add_commutative(x: Number, y: Number)
    requires
        wf(x),
        wf(y),
    ensures
        sum_num(x, y) == sum_num(y, x),
        pair_den(x, y) == pair_den(y, x),
        add_sign(x, y) == add_sign(y, x),
{
    assert(num_val(x) * den_mag(y) == den_mag(y) * num_val(x)) by (nonlinear_arith);
    assert(num_val(y) * den_mag(x) == den_mag(x) * num_val(y)) by (nonlinear_arith);
    assert(den_mag(x) * den_mag(y) == den_mag(y) * den_mag(x)) by (nonlinear_arith);
}

/// Multiplication is commutative: mul(x, y) and mul(y, x) have the same
/// numerator value, the same denominator and the same sign tag.
pub proof fn lemma_mul_commutative(x: Number, y: Number)
    requires
        wf(x),
        wf(y),
    ensures
        prod_num(x, y) == prod_num(y, x),
        pair_den(x, y) == pair_den(y, x),
{
    assert(num_val(x) * num_val(y) == num_val(y) * num_val(x)) by (nonlinear_arith);
    assert(den_mag(x) * den_mag(y) == den_mag(y) * den_mag(x)) by (nonlinear_arith);
}

/// Addition is associative: add(add(x, y), z) and add(x, add(y, z)) have
/// the same numerator value and the same denominator. The left side's model
/// is sum_num(x, y) over pair_den(x, y) combined with z; the right side's
/// is x combined with sum_num(y, z) over pair_den(y, z).
pub proof fn lemma_add_associative(x: Number, y: Number, z: Number)
    requires
        wf(x),
        wf(y),
        wf(z),
    ensures
        sum_num(x, y) * den_mag(z) + pair_den(x, y) * num_val(z) == num_val(x) * pair_den(y, z)
            + den_mag(x) * sum_num(y, z),
        pair_den(x, y) * den_mag(z) == den_mag(x) * pair_den(y, z),
{
    let vx = num_val(x);
    let vy = num_val(y);
    let vz = num_val(z);
    let dx = den_mag(x) as int;
    let dy = den_mag(y) as int;
    let dz = den_mag(z) as int;
    assert((vx * dy + dx * vy) * dz == (vx * dy) * dz + (dx * vy) * dz) by (nonlinear_arith);
    assert((vx * dy) * dz == vx * (dy * dz)) by (nonlinear_arith);
    assert((dx * vy) * dz == dx * (vy * dz)) by (nonlinear_arith);
    assert((dx * dy) * vz == dx * (dy * vz)) by (nonlinear_arith);
    assert(dx * (vy * dz + dy * vz) == dx * (vy * dz) + dx * (dy * vz)) by (nonlinear_arith);
    assert((dx * dy) * dz == dx * (dy * dz)) by (nonlinear_arith);
}

/// Adding a zero of denominator one changes neither numerator value nor
/// denominator: add(x, 0/1) has the model of x itself.
pub proof fn lemma_add_identity(x: Number, zero: Number)
    requires
        wf(x),
        wf(zero),
        num_mag(zero) == 0,
        den_mag(zero) == 1,
    ensures
        sum_num(x, zero) == num_val(x),
        pair_den(x, zero) == den_mag(x),
{
    assert(num_val(x) * 1 == num_val(x)) by (nonlinear_arith);
    assert(den_mag(x) as int * num_val(zero) == 0) by (nonlinear_arith)
        requires
            num_val(zero) == 0,
    ;
    assert(den_mag(x) * 1 == den_mag(x)) by (nonlinear_arith);
}

/// Multiplying by 1/1 changes neither numerator value nor denominator:
/// mul(x, 1/1) has the model of x itself.
pub proof fn lemma_mul_identity(x: Number, one: Number)
    requires
        wf(x),
        wf(one),
        num_val(one) == 1,
        den_mag(one) == 1,
    ensures
        prod_num(x, one) == num_val(x),
        pair_den(x, one) == den_mag(x),
{
    assert(num_val(x) * 1 == num_val(x)) by (nonlinear_arith);
    assert(den_mag(x) * 1 == den_mag(x)) by (nonlinear_arith);
}

/// Subtracting a value from itself yields a zero numerator, so sub(x, x)
/// returns the canonical zero numerator `[0]` by sub's contract.
pub proof fn lemma_sub_self(x: Number)
    requires
        wf(x),
    ensures
        diff_num(x, x) == 0,
{
    assert(num_val(x) * den_mag(x) == den_mag(x) * num_val(x)) by (nonlinear_arith);
}

/// The numerator magnitude reduce reports: the quotient by the gcd, which
/// for gcd 1 is the unchanged magnitude.
pub open spec fn reduced_num(x: Number) -> nat {
    num_mag(x) / gcd_nat(num_mag(x), den_mag(x))
}

/// The denominator magnitude reduce reports.
pub open spec fn reduced_den(x: Number) -> nat {
    den_mag(x) / gcd_nat(num_mag(x), den_mag(x))
}

/// After reduce, numerator and denominator are coprime, and the reduced
/// fraction equals the original by cross-multiplication; reduce's contract
/// reports exactly the magnitudes reduced_num and reduced_den, and keeps
/// the sign, so the result denotes the same rational value as x.
pub proof fn lemma_reduce_coprime(x: Number)
    requires
        wf(x),
    ensures
        gcd_nat(reduced_num(x), reduced_den(x)) == 1,
        reduced_num(x) * den_mag(x) == num_mag(x) * reduced_den(x),
{
    let n = num_mag(x);
    let d = den_mag(x);
    let g = gcd_nat(n, d);
    lemma_gcd_pos(n, d);
    lemma_gcd_divides(n, d);
    lemma_gcd_quotients_coprime(n, d);
    lemma_quotient_cross(n, d, g);
}

/// The shared proof behind equality and ordering: how the sign-tagged
/// branches of eq_full and order_spec line up with the signed cross
/// products num_val(x) * den_mag(y) and num_val(y) * den_mag(x).
proof fn lemma_signed_cross(x: Number, y: Number)
    requires
        wf(x),
        wf(y),
    ensures
        eq_full(x, y) <==> num_val(x) * den_mag(y) == num_val(y) * den_mag(x),
        order_spec(x, y) == Ordering::Less <==> num_val(x) * den_mag(y) < num_val(y) * den_mag(x),
        order_spec(x, y) == Ordering::Equal <==> num_val(x) * den_mag(y) == num_val(y) * den_mag(
            x,
        ),
        order_spec(x, y) == Ordering::Greater <==> num_val(x) * den_mag(y) > num_val(y) * den_mag(
            x,
        ),
{
    let nx = num_mag(x) as int;
    let ny = num_mag(y) as int;
    let dx = den_mag(x) as int;
    let dy = den_mag(y) as int;
    assert(nx * dy >= 0 && (nx >= 1 ==> nx * dy >= 1)) by (nonlinear_arith)
        requires
            nx >= 0,
            dy >= 1,
    ;
    assert(ny * dx >= 0 && (ny >= 1 ==> ny * dx >= 1)) by (nonlinear_arith)
        requires
            ny >= 0,
            dx >= 1,
    ;
    assert((-nx) * dy == -(nx * dy)) by (nonlinear_arith);
    assert((-ny) * dx == -(ny * dx)) by (nonlinear_arith);
    assert(nx * dy == 0 <==> nx == 0) by (nonlinear_arith)
        requires
            nx >= 0,
            dy >= 1,
    ;
    assert(ny * dx == 0 <==> ny == 0) by (nonlinear_arith)
        requires
            ny >= 0,
            dx >= 1,
    ;
    assert(dx * ny == ny * dx) by (nonlinear_arith);
    assert(dy * nx == nx * dy) by (nonlinear_arith);
}

} // verus!
