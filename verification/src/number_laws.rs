//! What holds of rounded arithmetic on numbers that are not below zero:
//! widening is exact, and every operation keeps order.

use crate::binary32;
use crate::binary32::Binary32;
use crate::binary64;
use crate::binary64::Binary64;
use crate::magnitude;
use crate::plan::ONE_64;
use crate::rounding;
use vstd::arithmetic::power2::*;
use vstd::prelude::*;

verus! {

/// A finite binary64 number that is not below zero; either zero will do.
pub open spec fn proper_64(a: Binary64) -> bool {
    a.finite() && a.place() >= 0
}

/// A finite binary32 number that is not below zero; either zero will do.
pub open spec fn proper_32(a: Binary32) -> bool {
    a.finite() && a.place() >= 0
}

/// Rounding keeps order.
pub proof fn lemma_rounded_ordered(
    p: nat,
    top: nat,
    num1: nat,
    den1: nat,
    num2: nat,
    den2: nat,
)
    requires
        p >= 1,
        den1 > 0,
        den2 > 0,
        num1 * den2 <= num2 * den1,
    ensures
        magnitude::rounded(p, top, num1, den1) <= magnitude::rounded(p, top, num2, den2),
{
    rounding::lemma_nearest_exists(p, num1, den1);
    rounding::lemma_nearest_exists(p, num2, den2);
    rounding::lemma_nearest_monotone(
        p,
        num1,
        den1,
        rounding::nearest(p, num1, den1),
        num2,
        den2,
        rounding::nearest(p, num2, den2),
    );
}

/// Rounding to binary64 keeps order, and never goes beyond infinity.
pub proof fn lemma_rounded_64_ordered(num1: nat, den1: nat, num2: nat, den2: nat)
    requires
        den1 > 0,
        den2 > 0,
        num1 * den2 <= num2 * den1,
    ensures
        binary64::rounded_64(num1, den1) <= binary64::rounded_64(num2, den2)
            <= binary64::INFINITY_64,
{
    lemma_rounded_ordered(53, 2047, num1, den1, num2, den2);
    binary64::lemma_infinity_64();
}

/// A quotient that is a binary64 number is rounded to it.
pub proof fn lemma_rounded_64_exact(num: nat, den: nat, b: nat)
    requires
        den > 0,
        b <= binary64::INFINITY_64,
        num == rounding::value(53, b) * den,
    ensures
        binary64::rounded_64(num, den) == b,
{
    magnitude::lemma_rounded_exact(53, 2047, num, den, b);
    binary64::lemma_infinity_64();
}

/// Zero is rounded to zero.
pub proof fn lemma_rounded_64_zero(den: nat)
    requires
        den > 0,
    ensures
        binary64::rounded_64(0, den) == 0,
        rounding::value(53, 0) == 0,
{
    rounding::lemma_value_zero(53);
    lemma_rounded_64_exact(0, den, 0);
}

/// The value of one.
pub proof fn lemma_value_of_one()
    ensures
        rounding::value(53, ONE_64 as nat) == pow2(1074),
        rounding::value(53, (ONE_64 - 1) as nat) + pow2(1021) == pow2(1074),
        rounding::value(53, (ONE_64 + 1) as nat) == pow2(1074) + pow2(1022),
        pow2(1022) == 2 * pow2(1021),
{
    lemma2_to64_rest();
    let h = rounding::binade(53);
    assert(h == 0x10_0000_0000_0000);
    rounding::lemma_value_at(53, 1022, h);
    rounding::lemma_value_at(53, 1022, h + 1);
    rounding::lemma_value_at(53, 1021, (2 * h - 1) as nat);
    lemma_pow2_adds(52, 1022);
    lemma_pow2_unfold(1022);
    assert((h + 1) * pow2(1022) == h * pow2(1022) + pow2(1022)) by (nonlinear_arith);
    assert((2 * h - 1) * pow2(1021) + pow2(1021) == h * (2 * pow2(1021))) by (nonlinear_arith);
}

/// A significand at any exponent is the value of some magnitude.
pub proof fn lemma_representable(p: nat, m: nat, e: nat) -> (b: nat)
    requires
        p >= 1,
        m < 2 * rounding::binade(p),
    ensures
        rounding::value(p, b) == m * pow2(e),
        b <= (e + 2) * rounding::binade(p),
    decreases e,
{
    let h = rounding::binade(p);
    if e == 0 || m >= h {
        rounding::lemma_value_at(p, e, m);
        assert(e * h + m <= (e + 2) * h) by (nonlinear_arith)
            requires
                m < 2 * h,
        ;
        e * h + m
    } else {
        let b = lemma_representable(p, 2 * m, (e - 1) as nat);
        lemma_pow2_unfold(e);
        assert((2 * m) * pow2((e - 1) as nat) == m * pow2(e)) by (nonlinear_arith)
            requires
                pow2(e) == 2 * pow2((e - 1) as nat),
        ;
        assert((e - 1 + 2) * h <= (e + 2) * h) by (nonlinear_arith);
        b
    }
}

/// Widening a number that is not below zero keeps its value.
pub proof fn lemma_widened(a: Binary32)
    requires
        proper_32(a),
    ensures
        proper_64(a.widened()),
        a.widened().value() == a.value() * pow2(925),
        a.widened().place() == a.widened().magnitude(),
        a.place() > 0 ==> a.widened().place() > 0,
        a.place() == 0 ==> a.widened().place() == 0,
{
    let m = a.magnitude();
    let h = rounding::binade(24);
    lemma2_to64();
    lemma2_to64_rest();
    rounding::lemma_decompose(24, m);
    let e = rounding::exponent(24, m);
    let s = rounding::significand(24, m);
    assert(e <= 253) by {
        assert(m / h <= 254) by (nonlinear_arith)
            requires
                m < 255 * h,
                h > 0,
        ;
    }
    let b = lemma_representable(53, s, e + 925);
    lemma_pow2_adds(e, 925);
    assert(s * pow2(e + 925) == (s * pow2(e)) * pow2(925)) by (nonlinear_arith)
        requires
            pow2(e + 925) == pow2(e) * pow2(925),
    ;
    let num = a.value() * pow2(925);
    assert(num == rounding::value(53, b) * 1);
    assert(b < binary64::INFINITY_64) by {
        assert(b <= 1180 * rounding::binade(53)) by (nonlinear_arith)
            requires
                b <= (e + 925 + 2) * rounding::binade(53),
                e <= 253,
        ;
    }
    lemma_rounded_64_exact(num, 1, b);
    rounding::lemma_value_zero(24);
    rounding::lemma_value_zero(53);
    if m > 0 {
        rounding::lemma_value_at_least(24, m);
        lemma_pow2_pos(925);
        assert(num > 0) by (nonlinear_arith)
            requires
                num == a.value() * pow2(925),
                a.value() >= 1,
                pow2(925) >= 1,
        ;
        assert(b > 0);
    } else {
        assert(num == 0) by (nonlinear_arith)
            requires
                num == a.value() * pow2(925),
                a.value() == 0,
        ;
        if b > 0 {
            rounding::lemma_value_at_least(53, b);
        }
    }
}

/// The product of numbers that are not below zero.
pub proof fn lemma_product(a: Binary64, b: Binary64)
    requires
        proper_64(a),
        proper_64(b),
    ensures
        !a.product(b).nan(),
        a.product(b).place() == binary64::rounded_64(a.value() * b.value(), pow2(1074)),
{
    lemma_pow2_pos(1074);
    lemma_rounded_64_ordered(a.value() * b.value(), pow2(1074), a.value() * b.value(), pow2(1074));
    lemma_rounded_64_zero(pow2(1074));
    if a.magnitude() == 0 || b.magnitude() == 0 {
        assert(a.value() * b.value() == 0) by (nonlinear_arith)
            requires
                a.value() == 0 || b.value() == 0,
        ;
    }
}

/// The quotient of a number that is not below zero by one above zero.
pub proof fn lemma_quotient(a: Binary64, b: Binary64)
    requires
        proper_64(a),
        proper_64(b),
        b.place() > 0,
    ensures
        b.value() > 0,
        !a.quotient(b).nan(),
        a.quotient(b).place() == binary64::rounded_64(a.value() * pow2(1074), b.value()),
{
    rounding::lemma_value_at_least(53, b.magnitude());
    let num = a.value() * pow2(1074);
    lemma_rounded_64_ordered(num, b.value(), num, b.value());
    lemma_rounded_64_zero(b.value());
    if a.magnitude() == 0 {
        assert(num == 0) by (nonlinear_arith)
            requires
                num == a.value() * pow2(1074),
                a.value() == 0,
        ;
    }
}

/// The sum of numbers that are not below zero.
pub proof fn lemma_sum(a: Binary64, b: Binary64)
    requires
        proper_64(a),
        proper_64(b),
    ensures
        !a.sum(b).nan(),
        a.sum(b).place() == binary64::rounded_64(a.value() + b.value(), 1),
{
    lemma_rounded_64_ordered(a.value() + b.value(), 1, a.value() + b.value(), 1);
    lemma_rounded_64_zero(1);
}

/// The difference of numbers that are not below zero, where the second is not
/// the larger one.
pub proof fn lemma_difference(a: Binary64, b: Binary64)
    requires
        proper_64(a),
        proper_64(b),
        b.place() <= a.place(),
    ensures
        b.value() <= a.value(),
        !a.difference(b).nan(),
        a.difference(b).place() == binary64::rounded_64((a.value() - b.value()) as nat, 1),
{
    rounding::lemma_value_ordered_weakly(53, b.magnitude(), a.magnitude());
    let num = (a.value() - b.value()) as nat;
    lemma_rounded_64_ordered(num, 1, num, 1);
    lemma_rounded_64_zero(1);
}

/// Narrowing a number that is not below zero.
pub proof fn lemma_narrowed(a: Binary64)
    requires
        proper_64(a),
    ensures
        !a.narrowed().nan(),
        a.narrowed().place() == binary32::rounded_32(a.value(), pow2(925)),
        0 <= a.narrowed().place() <= binary32::INFINITY_32,
{
    lemma_pow2_pos(925);
    binary32::lemma_infinity_32();
    rounding::lemma_value_zero(24);
    rounding::lemma_value_zero(53);
    if a.magnitude() == 0 {
        magnitude::lemma_rounded_exact(24, 255, 0, pow2(925), 0);
    }
}

/// Narrowing keeps order.
pub proof fn law_narrowing_keeps_order(a: Binary64, b: Binary64)
    requires
        proper_64(a),
        proper_64(b),
        a.place() <= b.place(),
    ensures
        a.narrowed().le_number(b.narrowed()),
{
    lemma_narrowed(a);
    lemma_narrowed(b);
    lemma_pow2_pos(925);
    rounding::lemma_value_ordered_weakly(53, a.magnitude(), b.magnitude());
    let u = pow2(925);
    assert(a.value() * u <= b.value() * u) by (nonlinear_arith)
        requires
            a.value() <= b.value(),
    ;
    lemma_rounded_ordered(24, 255, a.value(), u, b.value(), u);
}

/// Narrowing undoes widening.
pub proof fn law_narrowing_undoes_widening(a: Binary32)
    requires
        proper_32(a),
    ensures
        a.widened().narrowed().eq_number(a),
{
    lemma_widened(a);
    lemma_narrowed(a.widened());
    lemma_pow2_pos(925);
    binary32::lemma_infinity_32();
    magnitude::lemma_rounded_exact(24, 255, a.widened().value(), pow2(925), a.magnitude());
}

/// Widening keeps order.
pub proof fn law_widening_keeps_order(a: Binary32, b: Binary32)
    requires
        proper_32(a),
        proper_32(b),
        a.place() <= b.place(),
    ensures
        a.widened().le_number(b.widened()),
{
    lemma_widened(a);
    lemma_widened(b);
    rounding::lemma_value_ordered_weakly(24, a.magnitude(), b.magnitude());
    assert(a.widened().value() <= b.widened().value()) by (nonlinear_arith)
        requires
            a.widened().value() == a.value() * pow2(925),
            b.widened().value() == b.value() * pow2(925),
            a.value() <= b.value(),
    ;
    if b.widened().magnitude() < a.widened().magnitude() {
        rounding::lemma_value_ordered(53, b.widened().magnitude(), a.widened().magnitude());
    }
}

/// A number times a number in `[0, 1]` does not grow, keeps the order of what
/// it is multiplied with, and is itself when multiplied with one.
pub proof fn lemma_scaled(a: Binary64, b: Binary64)
    requires
        proper_64(a),
        proper_64(b),
        a.place() <= ONE_64,
    ensures
        proper_64(a.product(b)),
        a.product(b).place() <= b.place(),
        a.place() == ONE_64 ==> a.product(b).place() == b.place(),
        a.place() == 0 ==> a.product(b).place() == 0,
{
    lemma_product(a, b);
    lemma_value_of_one();
    lemma_pow2_pos(1074);
    let u = pow2(1074);
    rounding::lemma_value_ordered_weakly(53, a.magnitude(), ONE_64 as nat);
    assert((a.value() * b.value()) * u <= (b.value() * u) * u) by (nonlinear_arith)
        requires
            a.value() <= u,
            u > 0,
    ;
    lemma_rounded_64_ordered(a.value() * b.value(), u, b.value() * u, u);
    lemma_rounded_64_exact(b.value() * u, u, b.magnitude());
    if a.place() == ONE_64 {
        assert(a.value() * b.value() == b.value() * u) by (nonlinear_arith)
            requires
                a.value() == u,
        ;
    }
    if a.place() == 0 {
        lemma_rounded_64_zero(u);
        assert(a.value() * b.value() == 0) by (nonlinear_arith)
            requires
                a.value() == 0,
        ;
    }
}

/// Scaling keeps order.
pub proof fn lemma_scaling_keeps_order(a: Binary64, b: Binary64, c: Binary64)
    requires
        proper_64(a),
        proper_64(b),
        proper_64(c),
        a.place() <= b.place(),
    ensures
        a.product(c).le_number(b.product(c)),
{
    lemma_product(a, c);
    lemma_product(b, c);
    lemma_pow2_pos(1074);
    let u = pow2(1074);
    rounding::lemma_value_ordered_weakly(53, a.magnitude(), b.magnitude());
    assert((a.value() * c.value()) * u <= (b.value() * c.value()) * u) by (nonlinear_arith)
        requires
            a.value() <= b.value(),
    ;
    lemma_rounded_64_ordered(a.value() * c.value(), u, b.value() * c.value(), u);
}

/// A number divided by one that is not smaller is in `[0, 1]`; by itself it is
/// one, and zero divided by anything is zero.
pub proof fn lemma_ratio(a: Binary64, b: Binary64)
    requires
        proper_64(a),
        proper_64(b),
        b.place() > 0,
        a.place() <= b.place(),
    ensures
        proper_64(a.quotient(b)),
        a.quotient(b).place() <= ONE_64,
        a.place() == b.place() ==> a.quotient(b).place() == ONE_64,
        a.place() == 0 ==> a.quotient(b).place() == 0,
{
    lemma_quotient(a, b);
    lemma_value_of_one();
    let u = pow2(1074);
    let d = b.value();
    rounding::lemma_value_ordered_weakly(53, a.magnitude(), b.magnitude());
    assert((a.value() * u) * d <= (u * d) * d) by (nonlinear_arith)
        requires
            a.value() <= d,
    ;
    lemma_rounded_64_ordered(a.value() * u, d, u * d, d);
    lemma_rounded_64_exact(u * d, d, ONE_64 as nat);
    if a.place() == b.place() {
        assert(a.value() * u == u * d) by (nonlinear_arith)
            requires
                a.value() == d,
        ;
    }
    if a.place() == 0 {
        lemma_rounded_64_zero(d);
        assert(a.value() * u == 0) by (nonlinear_arith)
            requires
                a.value() == 0,
        ;
    }
}

/// A number in `[0, 1)` plus its rounded distance to one is exactly one.
pub proof fn lemma_completes_to_one(y: nat)
    requires
        y < pow2(1074),
    ensures
        binary64::rounded_64(
            y + rounding::value(53, binary64::rounded_64((pow2(1074) - y) as nat, 1)),
            1,
        ) == ONE_64,
{
    let one = ONE_64 as nat;
    let u = pow2(1074);
    let n = (u - y) as nat;
    lemma_value_of_one();
    lemma_pow2_pos(1021);
    lemma_rounded_64_exact(u * 1, 1, one);
    lemma_rounded_64_ordered(n, 1, u, 1);
    let c = binary64::rounded_64(n, 1);
    assert(c <= one);
    binary64::lemma_infinity_64();
    rounding::lemma_nearest_exists(53, n, 1);
    assert(rounding::is_nearest(53, n, 1, c));
    let vc = rounding::value(53, c);
    if c < one {
        rounding::lemma_decompose(53, c);
        lemma_step_below_one(c);
        assert(rounding::value(53, c + 1) - vc <= pow2(1021));
    }
    if c > 0 {
        lemma_step_below_one((c - 1) as nat);
        assert(vc - rounding::value(53, (c - 1) as nat) <= pow2(1021));
    } else {
        rounding::lemma_value_zero(53);
    }
    assert(rounding::is_nearest(53, y + vc, 1, one)) by {
        assert(one % 2 == 0);
    }
    rounding::lemma_nearest_unique(53, y + vc, 1, one);
}

/// Neighbours below one are at most `2^-53` apart.
pub proof fn lemma_step_below_one(c: nat)
    requires
        c < ONE_64,
    ensures
        rounding::value(53, c + 1) - rounding::value(53, c) <= pow2(1021),
{
    lemma2_to64_rest();
    let h = rounding::binade(53);
    rounding::lemma_decompose(53, c);
    let e = rounding::exponent(53, c);
    let m = rounding::significand(53, c);
    assert(e <= 1021) by {
        assert(c / h <= 1022) by (nonlinear_arith)
            requires
                c < 1023 * h,
                h > 0,
        ;
    }
    assert((m + 1) * pow2(e) - m * pow2(e) == pow2(e)) by (nonlinear_arith);
    if e < 1021 {
        lemma_pow2_strictly_increases(e, 1021);
    }
}

} // verus!
