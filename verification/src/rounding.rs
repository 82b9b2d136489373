//! The mathematics of rounding to a binary floating-point format.
//!
//! A format is described by its precision `p`, the number of significant bits
//! of a normal number. The magnitudes of a format are the naturals: the bit
//! pattern without its sign, read as a number. The value of a magnitude is
//! counted in units of the smallest subnormal, so it is a natural as well, and
//! consecutive magnitudes have consecutive values. The exponent range is not
//! bounded here; a magnitude that reaches a format's infinity has overflowed.

use vstd::arithmetic::div_mod::*;
use vstd::arithmetic::mul::*;
use vstd::arithmetic::power2::*;
use vstd::prelude::*;

verus! {

/// Number of magnitudes that share one exponent field: `2^(p - 1)`.
pub open spec fn binade(p: nat) -> nat {
    pow2((p - 1) as nat)
}

/// The value of magnitude `b`, in units of the smallest subnormal.
pub open spec fn value(p: nat, b: nat) -> nat {
    let field = b / binade(p);
    let fraction = b % binade(p);
    if field == 0 {
        fraction
    } else {
        (binade(p) + fraction) * pow2((field - 1) as nat)
    }
}

/// The exponent of the last significant bit of magnitude `b`.
pub open spec fn exponent(p: nat, b: nat) -> nat {
    let field = b / binade(p);
    if field == 0 {
        0
    } else {
        (field - 1) as nat
    }
}

/// The significand of magnitude `b`, with its implied leading bit.
pub open spec fn significand(p: nat, b: nat) -> nat {
    let field = b / binade(p);
    let fraction = b % binade(p);
    if field == 0 {
        fraction
    } else {
        binade(p) + fraction
    }
}

/// Whether `b` is the magnitude nearest to the rational `num / den`, where a
/// tie goes to the even magnitude.
pub open spec fn is_nearest(p: nat, num: nat, den: nat, b: nat) -> bool {
    let above = (value(p, b) + value(p, b + 1)) * den;
    let below = (value(p, (b - 1) as nat) + value(p, b)) * den;
    &&& 2 * num <= above
    &&& (2 * num == above ==> b % 2 == 0)
    &&& (b > 0 ==> below <= 2 * num)
    &&& (b > 0 && below == 2 * num ==> b % 2 == 0)
}

/// The magnitude nearest to the rational `num / den`, ties to even.
pub open spec fn nearest(p: nat, num: nat, den: nat) -> nat {
    choose|b: nat| is_nearest(p, num, den, b)
}

/// A significand and an exponent that are in canonical position, or one past
/// the top of it, name the magnitude whose value they are.
pub proof fn lemma_value_at(p: nat, e: nat, m: nat)
    requires
        p >= 1,
        m <= 2 * binade(p),
        e == 0 || m >= binade(p),
    ensures
        value(p, e * binade(p) + m) == m * pow2(e),
{
    let h = binade(p);
    let b = e * h + m;
    lemma_pow2_pos((p - 1) as nat);
    if m < h {
        assert(b == m);
        lemma_small_mod(m, h);
        lemma_basic_div(m as int, h as int);
        assert(pow2(0) == 1) by {
            lemma2_to64();
        }
        assert(m * 1 == m);
    } else if m < 2 * h {
        let r = (m - h) as nat;
        assert(b == (e + 1) * h + r) by (nonlinear_arith)
            requires
                b == e * h + m,
                r == m - h,
        ;
        lemma_fundamental_div_mod_converse(b as int, h as int, (e + 1) as int, r as int);
    } else {
        assert(b == (e + 2) * h + 0) by (nonlinear_arith)
            requires
                b == e * h + m,
                m == 2 * h,
        ;
        lemma_fundamental_div_mod_converse(b as int, h as int, (e + 2) as int, 0);
        lemma_pow2_unfold(e + 1);
        assert(h * pow2(e + 1) == m * pow2(e)) by (nonlinear_arith)
            requires
                pow2(e + 1) == 2 * pow2(e),
                m == 2 * h,
        ;
    }
}

/// Every magnitude is its significand in its exponent's place.
pub proof fn lemma_decompose(p: nat, b: nat)
    requires
        p >= 1,
    ensures
        b == exponent(p, b) * binade(p) + significand(p, b),
        significand(p, b) < 2 * binade(p),
        exponent(p, b) == 0 || significand(p, b) >= binade(p),
        value(p, b) == significand(p, b) * pow2(exponent(p, b)),
        value(p, b + 1) == (significand(p, b) + 1) * pow2(exponent(p, b)),
{
    let h = binade(p);
    lemma_pow2_pos((p - 1) as nat);
    let field = b / h;
    let fraction = b % h;
    lemma_fundamental_div_mod(b as int, h as int);
    lemma_mod_bound(b as int, h as int);
    let e = exponent(p, b);
    let m = significand(p, b);
    if field == 0 {
        assert(h * 0 == 0);
        assert(0 * h == 0);
    } else {
        assert(b == e * h + m) by (nonlinear_arith)
            requires
                b == h * field + fraction,
                e == field - 1,
                m == h + fraction,
        ;
    }
    lemma_value_at(p, e, m);
    lemma_value_at(p, e, m + 1);
}

/// Consecutive magnitudes have strictly increasing values.
pub proof fn lemma_value_increases(p: nat, b: nat)
    requires
        p >= 1,
    ensures
        value(p, b) < value(p, b + 1),
{
    lemma_decompose(p, b);
    let m = significand(p, b);
    let s = pow2(exponent(p, b));
    lemma_pow2_pos(exponent(p, b));
    assert(m * s < (m + 1) * s) by (nonlinear_arith)
        requires
            s > 0,
    ;
}

/// Values order magnitudes.
pub proof fn lemma_value_ordered(p: nat, b: nat, c: nat)
    requires
        p >= 1,
        b < c,
    ensures
        value(p, b) < value(p, c),
    decreases c - b,
{
    lemma_value_increases(p, b);
    if b + 1 < c {
        lemma_value_ordered(p, b + 1, c);
    }
}

/// Values order magnitudes, without strictness.
pub proof fn lemma_value_ordered_weakly(p: nat, b: nat, c: nat)
    requires
        p >= 1,
        b <= c,
    ensures
        value(p, b) <= value(p, c),
{
    if b < c {
        lemma_value_ordered(p, b, c);
    }
}

/// The value of zero is zero.
pub proof fn lemma_value_zero(p: nat)
    requires
        p >= 1,
    ensures
        value(p, 0) == 0,
{
    lemma_value_at(p, 0, 0);
}

/// A magnitude is at most its value.
pub proof fn lemma_value_at_least(p: nat, b: nat)
    requires
        p >= 1,
    ensures
        b <= value(p, b),
    decreases b,
{
    if b > 0 {
        lemma_value_at_least(p, (b - 1) as nat);
        lemma_value_increases(p, (b - 1) as nat);
    }
}

/// Rounding is monotone.
pub proof fn lemma_nearest_monotone(p: nat, num1: nat, den1: nat, b: nat, num2: nat, den2: nat, c: nat)
    requires
        p >= 1,
        den1 > 0,
        den2 > 0,
        num1 * den2 <= num2 * den1,
        is_nearest(p, num1, den1, b),
        is_nearest(p, num2, den2, c),
    ensures
        b <= c,
{
    if c < b {
        let vc = value(p, c) + value(p, c + 1);
        let vb = value(p, (b - 1) as nat) + value(p, b);
        lemma_value_ordered_weakly(p, c, (b - 1) as nat);
        lemma_value_ordered_weakly(p, c + 1, b);
        // 2 num2 <= vc den2 <= vb den2 and vb den1 <= 2 num1.
        assert(2 * num2 * den1 <= vc * den2 * den1) by (nonlinear_arith)
            requires
                2 * num2 <= vc * den2,
                den1 > 0,
        ;
        assert(vc * den2 * den1 <= vb * den2 * den1) by (nonlinear_arith)
            requires
                vc <= vb,
                den1 > 0,
                den2 > 0,
        ;
        assert(vb * den2 * den1 <= 2 * num1 * den2) by (nonlinear_arith)
            requires
                vb * den1 <= 2 * num1,
                den2 > 0,
        ;
        assert(2 * num1 * den2 <= 2 * num2 * den1) by (nonlinear_arith)
            requires
                num1 * den2 <= num2 * den1,
        ;
        assert(vc == vb && vc * den2 == 2 * num2 && vb * den1 == 2 * num1) by (nonlinear_arith)
            requires
                2 * num2 * den1 == vc * den2 * den1,
                vc * den2 * den1 == vb * den2 * den1,
                vb * den2 * den1 == 2 * num1 * den2,
                den1 > 0,
                den2 > 0,
        ;
        if c + 1 < b {
            lemma_value_ordered(p, c + 1, b);
        }
        assert(b == c + 1);
        assert(false);
    }
}

/// At most one magnitude is nearest.
pub proof fn lemma_nearest_unique(p: nat, num: nat, den: nat, b: nat)
    requires
        p >= 1,
        den > 0,
        is_nearest(p, num, den, b),
    ensures
        nearest(p, num, den) == b,
{
    let c = nearest(p, num, den);
    assert(is_nearest(p, num, den, c));
    lemma_nearest_monotone(p, num, den, b, num, den, c);
    lemma_nearest_monotone(p, num, den, c, num, den, b);
}

/// The magnitude whose value is the largest that is at most `num / den`.
proof fn lemma_floor_exists(p: nat, num: nat, den: nat, b: nat) -> (f: nat)
    requires
        p >= 1,
        den > 0,
        value(p, b) * den <= num,
    ensures
        value(p, f) * den <= num,
        num < value(p, f + 1) * den,
    decreases num + 1 - b,
{
    lemma_value_at_least(p, b);
    assert(b <= num) by (nonlinear_arith)
        requires
            b <= value(p, b),
            value(p, b) * den <= num,
            den > 0,
    ;
    if num < value(p, b + 1) * den {
        b
    } else {
        lemma_floor_exists(p, num, den, b + 1)
    }
}

/// Every rational has a nearest magnitude.
pub proof fn lemma_nearest_exists(p: nat, num: nat, den: nat)
    requires
        p >= 1,
        den > 0,
    ensures
        is_nearest(p, num, den, nearest(p, num, den)),
{
    lemma_value_zero(p);
    assert(0 * den <= num);
    let f = lemma_floor_exists(p, num, den, 0);
    let b = lemma_nearest_of_floor(p, num, den, f);
    assert(is_nearest(p, num, den, b));
}

/// The nearest magnitude is the floor or the one after it.
pub proof fn lemma_nearest_of_floor(p: nat, num: nat, den: nat, f: nat) -> (b: nat)
    requires
        p >= 1,
        den > 0,
        value(p, f) * den <= num,
        num < value(p, f + 1) * den,
    ensures
        is_nearest(p, num, den, b),
        b == if 2 * num > (value(p, f) + value(p, f + 1)) * den || (2 * num == (value(p, f) + value(
            p,
            f + 1,
        )) * den && f % 2 == 1) {
            f + 1
        } else {
            f
        },
{
    let v = value(p, f);
    let w = value(p, f + 1);
    let middle = (v + w) * den;
    lemma_value_increases(p, f);
    lemma_value_increases(p, f + 1);
    let x = value(p, f + 2);
    assert(2 * num < (w + x) * den) by (nonlinear_arith)
        requires
            num < w * den,
            w < x,
            den > 0,
    ;
    if f > 0 {
        let u = value(p, (f - 1) as nat);
        lemma_value_increases(p, (f - 1) as nat);
        assert((u + v) * den < 2 * num) by (nonlinear_arith)
            requires
                v * den <= num,
                u < v,
                den > 0,
        ;
    }
    if 2 * num > middle || (2 * num == middle && f % 2 == 1) {
        let b = f + 1;
        assert((b - 1) as nat == f);
        assert(b + 1 == f + 2);
        b
    } else {
        f
    }
}

/// A representable value rounds to itself.
pub proof fn lemma_nearest_exact(p: nat, num: nat, den: nat, b: nat)
    requires
        p >= 1,
        den > 0,
        num == value(p, b) * den,
    ensures
        is_nearest(p, num, den, b),
        nearest(p, num, den) == b,
{
    lemma_value_increases(p, b);
    let v = value(p, b);
    let w = value(p, b + 1);
    assert(num < w * den && 2 * num < (v + w) * den) by (nonlinear_arith)
        requires
            num == v * den,
            v < w,
            den > 0,
    ;
    let c = lemma_nearest_of_floor(p, num, den, b);
    lemma_nearest_unique(p, num, den, b);
}

} // verus!
