//! Rounded arithmetic, said of exact values: every result is the number of its
//! format that is closest to the exact one.

use crate::binary32;
use crate::binary32::Binary32;
use crate::binary64;
use crate::binary64::Binary64;
use crate::magnitude;
use crate::model::Quat;
use crate::number_laws;
use crate::rounding;
use vstd::arithmetic::power2::*;
use vstd::prelude::*;

verus! {

/// The exact value of a finite binary64 number, in units of `2^-1074`.
pub open spec fn exact_64(a: Binary64) -> int {
    if a.negative() {
        -(a.value() as int)
    } else {
        a.value() as int
    }
}

/// The exact value of a finite binary32 number, in units of `2^-149`.
pub open spec fn exact_32(a: Binary32) -> int {
    if a.negative() {
        -(a.value() as int)
    } else {
        a.value() as int
    }
}

/// How far `value` is from `num / den`, in units of `1 / den`.
pub open spec fn distance(value: int, num: int, den: nat) -> int {
    if value * den >= num {
        value * den - num
    } else {
        num - value * den
    }
}

/// Whether `r` is what `num / den` is rounded to in binary64. No finite number
/// is closer than a finite `r`, and only one with an even pattern wins a tie.
/// From halfway beyond the greatest finite number on, `r` is infinite.
pub open spec fn closest_64(r: Binary64, num: int, den: nat) -> bool {
    let size = if num < 0 {
        -num
    } else {
        num
    };
    &&& !r.nan()
    &&& r.infinite() <==> 2 * size >= (pow2(2099) - pow2(2045)) * den
    &&& num > 0 ==> !r.negative()
    &&& num < 0 ==> r.negative()
    &&& r.finite() ==> forall|z: Binary64|
        #![trigger exact_64(z)]
        z.finite() ==> {
            &&& distance(exact_64(r), num, den) <= distance(exact_64(z), num, den)
            &&& distance(exact_64(r), num, den) == distance(exact_64(z), num, den) && exact_64(r)
                != exact_64(z) ==> r.bits % 2 == 0
        }
}

/// Whether `r` is what `num / den` is rounded to in binary32.
pub open spec fn closest_32(r: Binary32, num: int, den: nat) -> bool {
    let size = if num < 0 {
        -num
    } else {
        num
    };
    &&& !r.nan()
    &&& r.infinite() <==> 2 * size >= (pow2(278) - pow2(253)) * den
    &&& num > 0 ==> !r.negative()
    &&& num < 0 ==> r.negative()
    &&& r.finite() ==> forall|z: Binary32|
        #![trigger exact_32(z)]
        z.finite() ==> {
            &&& distance(exact_32(r), num, den) <= distance(exact_32(z), num, den)
            &&& distance(exact_32(r), num, den) == distance(exact_32(z), num, den) && exact_32(r)
                != exact_32(z) ==> r.bits % 2 == 0
        }
}

proof fn lemma_nearest_is_closest(p: nat, num: nat, den: nat, b: nat, c: nat)
    requires
        p >= 1,
        den > 0,
        rounding::is_nearest(p, num, den, b),
    ensures
        ({
            let near = distance(rounding::value(p, b) as int, num as int, den);
            let far = distance(rounding::value(p, c) as int, num as int, den);
            &&& near <= far
            &&& near == far && b != c ==> b % 2 == 0
        }),
{
    let v = rounding::value(p, b);
    let w = rounding::value(p, c);
    if c > b {
        let next = rounding::value(p, b + 1);
        rounding::lemma_value_ordered_weakly(p, b + 1, c);
        rounding::lemma_value_increases(p, b);
        assert(2 * num <= v * den + next * den) by (nonlinear_arith)
            requires
                2 * num <= (v + next) * den,
        ;
        assert(next * den <= w * den && v * den < next * den) by (nonlinear_arith)
            requires
                next <= w,
                v < next,
                den > 0,
        ;
        if 2 * num == v * den + next * den {
            assert(2 * num == (v + next) * den) by (nonlinear_arith)
                requires
                    2 * num == v * den + next * den,
            ;
        }
    } else if c < b {
        let last = rounding::value(p, (b - 1) as nat);
        rounding::lemma_value_ordered_weakly(p, c, (b - 1) as nat);
        rounding::lemma_value_increases(p, (b - 1) as nat);
        assert(last * den + v * den <= 2 * num) by (nonlinear_arith)
            requires
                (last + v) * den <= 2 * num,
        ;
        assert(w * den <= last * den && last * den < v * den) by (nonlinear_arith)
            requires
                w <= last,
                last < v,
                den > 0,
        ;
        if 2 * num == last * den + v * den {
            assert(2 * num == (last + v) * den) by (nonlinear_arith)
                requires
                    2 * num == last * den + v * den,
            ;
        }
    }
}

proof fn lemma_overflow(p: nat, top: nat, num: nat, den: nat)
    requires
        p >= 1,
        den > 0,
        top * rounding::binade(p) >= 1,
        (top * rounding::binade(p)) % 2 == 0,
    ensures
        ({
            let most = top * rounding::binade(p);
            magnitude::rounded(p, top, num, den) < most <==> 2 * num < (rounding::value(
                p,
                (most - 1) as nat,
            ) + rounding::value(p, most)) * den
        }),
{
    let most = top * rounding::binade(p);
    let b = rounding::nearest(p, num, den);
    rounding::lemma_nearest_exists(p, num, den);
    let low = rounding::value(p, (most - 1) as nat);
    let high = rounding::value(p, most);
    if b < most {
        rounding::lemma_value_ordered_weakly(p, b, (most - 1) as nat);
        rounding::lemma_value_ordered_weakly(p, b + 1, most);
        let v = rounding::value(p, b);
        let w = rounding::value(p, b + 1);
        if b < most - 1 {
            rounding::lemma_value_ordered(p, b, (most - 1) as nat);
            assert((v + w) * den < (low + high) * den) by (nonlinear_arith)
                requires
                    v < low,
                    w <= high,
                    den > 0,
            ;
        } else {
            assert(b % 2 == 1);
        }
    } else {
        rounding::lemma_value_ordered_weakly(p, most, b);
        rounding::lemma_value_ordered_weakly(p, (most - 1) as nat, (b - 1) as nat);
        let v = rounding::value(p, (b - 1) as nat);
        let w = rounding::value(p, b);
        assert((low + high) * den <= (v + w) * den) by (nonlinear_arith)
            requires
                low <= v,
                high <= w,
                den > 0,
        ;
    }
}

proof fn lemma_greatest_64()
    ensures
        rounding::value(53, (binary64::INFINITY_64 - 1) as nat) + rounding::value(
            53,
            binary64::INFINITY_64 as nat,
        ) == pow2(2099) - pow2(2045),
{
    lemma2_to64_rest();
    let h = rounding::binade(53);
    assert(h == 0x10_0000_0000_0000);
    rounding::lemma_value_at(53, 2046, h);
    rounding::lemma_value_at(53, 2045, (2 * h - 1) as nat);
    lemma_pow2_adds(52, 2046);
    lemma_pow2_adds(53, 2045);
    lemma_pow2_unfold(2099);
    let s = pow2(2045);
    assert((2 * h - 1) * s == 2 * h * s - s) by (nonlinear_arith);
}

proof fn lemma_greatest_32()
    ensures
        rounding::value(24, (binary32::INFINITY_32 - 1) as nat) + rounding::value(
            24,
            binary32::INFINITY_32 as nat,
        ) == pow2(278) - pow2(253),
{
    lemma2_to64();
    let h = rounding::binade(24);
    assert(h == 0x80_0000);
    rounding::lemma_value_at(24, 254, h);
    rounding::lemma_value_at(24, 253, (2 * h - 1) as nat);
    lemma_pow2_adds(23, 254);
    lemma_pow2_adds(24, 253);
    lemma_pow2_unfold(278);
    let s = pow2(253);
    assert((2 * h - 1) * s == 2 * h * s - s) by (nonlinear_arith);
}

/// A magnitude with a sign is the closest number where the magnitude is the
/// closest one.
proof fn lemma_signed_closest_64(negative: bool, num: nat, den: nat)
    requires
        den > 0,
    ensures
        closest_64(
            binary64::signed_64(negative, binary64::rounded_64(num, den)),
            if negative {
                -(num as int)
            } else {
                num as int
            },
            den,
        ),
        binary64::signed_64(negative, binary64::rounded_64(num, den)).negative() == negative,
{
    binary64::lemma_infinity_64();
    rounding::lemma_nearest_exists(53, num, den);
    rounding::lemma_value_zero(53);
    lemma_overflow(53, 2047, num, den);
    lemma_greatest_64();
    let c = binary64::rounded_64(num, den);
    let r = binary64::signed_64(negative, c);
    let exact = if negative {
        -(num as int)
    } else {
        num as int
    };
    assert(r.magnitude() == c && r.negative() == negative);
    assert(r.bits % 2 == c % 2);
    if c < binary64::INFINITY_64 {
        assert forall|z: Binary64| #![trigger exact_64(z)] z.finite() implies {
            &&& distance(exact_64(r), exact, den) <= distance(exact_64(z), exact, den)
            &&& distance(exact_64(r), exact, den) == distance(exact_64(z), exact, den) && exact_64(
                r,
            ) != exact_64(z) ==> r.bits % 2 == 0
        } by {
            let b = z.magnitude();
            lemma_nearest_is_closest(53, num, den, c, b);
            lemma_nearest_is_closest(53, num, den, c, 0);
            let v = rounding::value(53, c);
            let w = rounding::value(53, b);
            assert((-v) * den == -(v * den)) by (nonlinear_arith);
            assert((-w) * den == -(w * den)) by (nonlinear_arith);
            assert(w * den >= 0) by (nonlinear_arith);
            assert(0 * den == 0) by (nonlinear_arith);
            assert(w > 0 ==> w * den > 0) by (nonlinear_arith)
                requires
                    den > 0,
            ;
            if b != c {
                if b < c {
                    rounding::lemma_value_ordered(53, b, c);
                } else {
                    rounding::lemma_value_ordered(53, c, b);
                }
            }
        }
    }
}

proof fn lemma_signed_closest_32(negative: bool, num: nat, den: nat)
    requires
        den > 0,
    ensures
        closest_32(
            binary32::signed_32(negative, binary32::rounded_32(num, den)),
            if negative {
                -(num as int)
            } else {
                num as int
            },
            den,
        ),
        binary32::signed_32(negative, binary32::rounded_32(num, den)).negative() == negative,
{
    binary32::lemma_infinity_32();
    rounding::lemma_nearest_exists(24, num, den);
    rounding::lemma_value_zero(24);
    lemma_overflow(24, 255, num, den);
    lemma_greatest_32();
    let c = binary32::rounded_32(num, den);
    let r = binary32::signed_32(negative, c);
    let exact = if negative {
        -(num as int)
    } else {
        num as int
    };
    assert(r.magnitude() == c && r.negative() == negative);
    assert(r.bits % 2 == c % 2);
    if c < binary32::INFINITY_32 {
        assert forall|z: Binary32| #![trigger exact_32(z)] z.finite() implies {
            &&& distance(exact_32(r), exact, den) <= distance(exact_32(z), exact, den)
            &&& distance(exact_32(r), exact, den) == distance(exact_32(z), exact, den) && exact_32(
                r,
            ) != exact_32(z) ==> r.bits % 2 == 0
        } by {
            let b = z.magnitude();
            lemma_nearest_is_closest(24, num, den, c, b);
            lemma_nearest_is_closest(24, num, den, c, 0);
            let v = rounding::value(24, c);
            let w = rounding::value(24, b);
            assert((-v) * den == -(v * den)) by (nonlinear_arith);
            assert((-w) * den == -(w * den)) by (nonlinear_arith);
            assert(w * den >= 0) by (nonlinear_arith);
            assert(0 * den == 0) by (nonlinear_arith);
            assert(w > 0 ==> w * den > 0) by (nonlinear_arith)
                requires
                    den > 0,
            ;
            if b != c {
                if b < c {
                    rounding::lemma_value_ordered(24, b, c);
                } else {
                    rounding::lemma_value_ordered(24, c, b);
                }
            }
        }
    }
}

/// The product of finite binary64 numbers is the closest number to the exact
/// product, and has the sign of the rule of signs.
pub proof fn law_times_is_closest_64(a: Binary64, b: Binary64, r: Binary64)
    requires
        a.finite(),
        b.finite(),
        call_ensures(Binary64::times, (a, b), r),
    ensures
        closest_64(r, exact_64(a) * exact_64(b), pow2(1074)),
        r.negative() <==> a.negative() != b.negative(),
{
    lemma_pow2_pos(1074);
    let negative = a.negative() != b.negative();
    let va = a.value() as int;
    let vb = b.value() as int;
    lemma_signed_closest_64(negative, a.value() * b.value(), pow2(1074));
    assert((-va) * vb == -(va * vb)) by (nonlinear_arith);
    assert(va * (-vb) == -(va * vb)) by (nonlinear_arith);
    assert((-va) * (-vb) == va * vb) by (nonlinear_arith);
}

/// The quotient of a finite binary64 number by one that is not zero is the
/// closest number to the exact quotient.
pub proof fn law_over_is_closest_64(a: Binary64, b: Binary64, r: Binary64)
    requires
        a.finite(),
        b.finite(),
        b.place() != 0,
        call_ensures(Binary64::over, (a, b), r),
    ensures
        b.value() > 0,
        closest_64(
            r,
            if b.negative() {
                -(exact_64(a) * pow2(1074))
            } else {
                exact_64(a) * pow2(1074)
            },
            b.value(),
        ),
        r.negative() <==> a.negative() != b.negative(),
{
    rounding::lemma_value_at_least(53, b.magnitude());
    let negative = a.negative() != b.negative();
    let va = a.value() as int;
    let u = pow2(1074) as int;
    lemma_signed_closest_64(negative, a.value() * pow2(1074), b.value());
    assert((-va) * u == -(va * u)) by (nonlinear_arith);
}

/// The sum of finite binary64 numbers is the closest number to the exact sum.
/// A sum of exactly zero is positive zero, unless both numbers are negative.
pub proof fn law_plus_is_closest_64(a: Binary64, b: Binary64, r: Binary64)
    requires
        a.finite(),
        b.finite(),
        call_ensures(Binary64::plus, (a, b), r),
    ensures
        closest_64(r, exact_64(a) + exact_64(b), 1),
        exact_64(a) + exact_64(b) == 0 ==> (r.negative() <==> a.negative() && b.negative()),
{
    lemma_sum_64(a, b);
}

/// The difference of finite binary64 numbers is the closest number to the
/// exact difference.
pub proof fn law_minus_is_closest_64(a: Binary64, b: Binary64, r: Binary64)
    requires
        a.finite(),
        b.finite(),
        call_ensures(Binary64::minus, (a, b), r),
    ensures
        closest_64(r, exact_64(a) - exact_64(b), 1),
        exact_64(a) - exact_64(b) == 0 ==> (r.negative() <==> a.negative() && !b.negative()),
{
    let c = b.negated();
    assert(c.magnitude() == b.magnitude() && c.negative() == !b.negative());
    lemma_sum_64(a, c);
}

proof fn lemma_sum_64(a: Binary64, b: Binary64)
    requires
        a.finite(),
        b.finite(),
    ensures
        closest_64(a.sum(b), exact_64(a) + exact_64(b), 1),
        exact_64(a) + exact_64(b) == 0 ==> (a.sum(b).negative() <==> a.negative()
            && b.negative()),
{
    let x = a.magnitude();
    let y = b.magnitude();
    rounding::lemma_value_zero(53);
    if a.negative() == b.negative() {
        lemma_signed_closest_64(a.negative(), a.value() + b.value(), 1);
    } else if x == y {
        lemma_signed_closest_64(false, 0, 1);
        number_laws::lemma_rounded_64_zero(1);
    } else if x > y {
        rounding::lemma_value_ordered(53, y, x);
        lemma_signed_closest_64(a.negative(), (a.value() - b.value()) as nat, 1);
    } else {
        rounding::lemma_value_ordered(53, x, y);
        lemma_signed_closest_64(b.negative(), (b.value() - a.value()) as nat, 1);
    }
}

/// The product of finite binary32 numbers is the closest number to the exact
/// product, and has the sign of the rule of signs.
pub proof fn law_times_is_closest_32(a: Binary32, b: Binary32, r: Binary32)
    requires
        a.finite(),
        b.finite(),
        call_ensures(Binary32::times, (a, b), r),
    ensures
        closest_32(r, exact_32(a) * exact_32(b), pow2(149)),
        r.negative() <==> a.negative() != b.negative(),
{
    lemma_pow2_pos(149);
    let negative = a.negative() != b.negative();
    let va = a.value() as int;
    let vb = b.value() as int;
    lemma_signed_closest_32(negative, a.value() * b.value(), pow2(149));
    assert((-va) * vb == -(va * vb)) by (nonlinear_arith);
    assert(va * (-vb) == -(va * vb)) by (nonlinear_arith);
    assert((-va) * (-vb) == va * vb) by (nonlinear_arith);
}

/// The sum of finite binary32 numbers is the closest number to the exact sum.
/// A sum of exactly zero is positive zero, unless both numbers are negative.
pub proof fn law_plus_is_closest_32(a: Binary32, b: Binary32, r: Binary32)
    requires
        a.finite(),
        b.finite(),
        call_ensures(Binary32::plus, (a, b), r),
    ensures
        closest_32(r, exact_32(a) + exact_32(b), 1),
        exact_32(a) + exact_32(b) == 0 ==> (r.negative() <==> a.negative() && b.negative()),
{
    let x = a.magnitude();
    let y = b.magnitude();
    rounding::lemma_value_zero(24);
    binary32::lemma_infinity_32();
    if a.negative() == b.negative() {
        lemma_signed_closest_32(a.negative(), a.value() + b.value(), 1);
    } else if x == y {
        lemma_signed_closest_32(false, 0, 1);
        magnitude::lemma_rounded_exact(24, 255, 0, 1, 0);
    } else if x > y {
        rounding::lemma_value_ordered(24, y, x);
        lemma_signed_closest_32(a.negative(), (a.value() - b.value()) as nat, 1);
    } else {
        rounding::lemma_value_ordered(24, x, y);
        lemma_signed_closest_32(b.negative(), (b.value() - a.value()) as nat, 1);
    }
}

/// A finite binary64 number is narrowed to the closest binary32 number, and
/// keeps its sign.
pub proof fn law_narrow_is_closest(a: Binary64, r: Binary32)
    requires
        a.finite(),
        call_ensures(Binary64::narrow, (a,), r),
    ensures
        closest_32(r, exact_64(a), pow2(925)),
        r.negative() <==> a.negative(),
{
    lemma_pow2_pos(925);
    lemma_signed_closest_32(a.negative(), a.value(), pow2(925));
}

/// A finite binary32 number is widened without loss, and keeps its sign.
pub proof fn law_widen_is_exact(a: Binary32, r: Binary64)
    requires
        a.finite(),
        call_ensures(Binary32::widen, (a,), r),
    ensures
        r.finite(),
        exact_64(r) == exact_32(a) * pow2(925),
        r.negative() <==> a.negative(),
{
    let b = Binary32 { bits: a.magnitude() as u32 };
    assert(b.magnitude() == a.magnitude() && !b.negative());
    number_laws::lemma_widened(b);
    let va = a.value() as int;
    let u = pow2(925) as int;
    assert((-va) * u == -(va * u)) by (nonlinear_arith);
    binary64::lemma_infinity_64();
}

/// What a magnitude is worth: it counts smallest units up to the second
/// binade, and every further binade doubles.
pub proof fn law_binades_double(b: nat)
    ensures
        b <= 0x20_0000_0000_0000 ==> rounding::value(53, b) == b,
        b >= 0x10_0000_0000_0000 ==> rounding::value(53, b + 0x10_0000_0000_0000) == 2
            * rounding::value(53, b),
        b <= 0x100_0000 ==> rounding::value(24, b) == b,
        b >= 0x80_0000 ==> rounding::value(24, b + 0x80_0000) == 2 * rounding::value(24, b),
{
    lemma2_to64();
    lemma2_to64_rest();
    lemma_binade_doubles(53, b);
    lemma_binade_doubles(24, b);
}

proof fn lemma_binade_doubles(p: nat, b: nat)
    requires
        p >= 1,
    ensures
        b <= 2 * rounding::binade(p) ==> rounding::value(p, b) == b,
        b >= rounding::binade(p) ==> rounding::value(p, b + rounding::binade(p)) == 2
            * rounding::value(p, b),
{
    let h = rounding::binade(p);
    lemma_pow2_pos((p - 1) as nat);
    lemma2_to64();
    if b <= 2 * h {
        rounding::lemma_value_at(p, 0, b);
    }
    if b >= h {
        let f = b / h;
        let m = b % h;
        assert(f >= 1 && (b + h) / h == f + 1 && (b + h) % h == m) by {
            vstd::arithmetic::div_mod::lemma_fundamental_div_mod(b as int, h as int);
            vstd::arithmetic::div_mod::lemma_div_is_ordered(h as int, b as int, h as int);
            vstd::arithmetic::div_mod::lemma_div_by_self(h as int);
            assert(b + h == (f + 1) * h + m) by (nonlinear_arith)
                requires
                    b == h * f + m,
            ;
            vstd::arithmetic::div_mod::lemma_fundamental_div_mod_converse(
                (b + h) as int,
                h as int,
                (f + 1) as int,
                m as int,
            );
        }
        lemma_pow2_unfold(f);
        let s = pow2((f - 1) as nat);
        assert((h + m) * (2 * s) == 2 * ((h + m) * s)) by (nonlinear_arith);
    }
}

/// Comparisons of numbers that are not infinite go by their exact values, and
/// nothing compares with what is not a number.
pub proof fn law_comparisons_go_by_value_64(
    a: Binary64,
    b: Binary64,
    less: bool,
    most: bool,
    same: bool,
)
    requires
        call_ensures(Binary64::less_than, (a, b), less),
        call_ensures(Binary64::at_most, (a, b), most),
        call_ensures(Binary64::equals, (a, b), same),
    ensures
        a.finite() && b.finite() ==> less == (exact_64(a) < exact_64(b)) && most == (exact_64(a)
            <= exact_64(b)) && same == (exact_64(a) == exact_64(b)),
        a.nan() || b.nan() ==> !less && !most && !same,
{
    lemma_places_order(53, a.magnitude(), b.magnitude());
    rounding::lemma_value_zero(53);
    rounding::lemma_value_at_least(53, a.magnitude());
    rounding::lemma_value_at_least(53, b.magnitude());
}

/// Comparisons of binary32 numbers go by their exact values.
pub proof fn law_comparisons_go_by_value_32(
    a: Binary32,
    b: Binary32,
    less: bool,
    most: bool,
    same: bool,
)
    requires
        call_ensures(Binary32::less_than, (a, b), less),
        call_ensures(Binary32::at_most, (a, b), most),
        call_ensures(Binary32::equals, (a, b), same),
    ensures
        a.finite() && b.finite() ==> less == (exact_32(a) < exact_32(b)) && most == (exact_32(a)
            <= exact_32(b)) && same == (exact_32(a) == exact_32(b)),
        a.nan() || b.nan() ==> !less && !most && !same,
{
    lemma_places_order(24, a.magnitude(), b.magnitude());
    rounding::lemma_value_zero(24);
    rounding::lemma_value_at_least(24, a.magnitude());
    rounding::lemma_value_at_least(24, b.magnitude());
}

proof fn lemma_places_order(p: nat, x: nat, y: nat)
    requires
        p >= 1,
    ensures
        x < y <==> rounding::value(p, x) < rounding::value(p, y),
        x == y <==> rounding::value(p, x) == rounding::value(p, y),
{
    if x < y {
        rounding::lemma_value_ordered(p, x, y);
    } else if y < x {
        rounding::lemma_value_ordered(p, y, x);
    }
}

/// A pattern is a finite number exactly when its exponent is not all ones.
pub proof fn law_finite_patterns(a: Binary64, b: Binary32, wide: bool, narrow: bool)
    requires
        call_ensures(Binary64::is_finite, (a,), wide),
        call_ensures(Binary32::is_finite, (b,), narrow),
    ensures
        wide == ((a.bits & 0x7ff0_0000_0000_0000) != 0x7ff0_0000_0000_0000),
        narrow == ((b.bits & 0x7f80_0000) != 0x7f80_0000),
        wide == a.finite(),
        narrow == b.finite(),
{
    let x = a.bits;
    let y = b.bits;
    assert((x & 0x7ff0_0000_0000_0000) != 0x7ff0_0000_0000_0000 <==> (x
        < 0x7ff0_0000_0000_0000u64 || (x >= 0x8000_0000_0000_0000u64 && x
        < 0xfff0_0000_0000_0000u64))) by (bit_vector);
    assert((y & 0x7f80_0000) != 0x7f80_0000 <==> (y < 0x7f80_0000u32 || (y >= 0x8000_0000u32 && y
        < 0xff80_0000u32))) by (bit_vector);
}

/// The number after a finite binary32 number is above it, and no number lies
/// between the two.
pub proof fn law_nothing_lies_below_the_next(a: Binary32, r: Binary32, z: Binary32)
    requires
        a.finite(),
        call_ensures(Binary32::next_up, (a,), r),
        !z.nan(),
    ensures
        !r.nan(),
        a.place() < r.place(),
        !(a.place() < z.place() < r.place()),
{
}

/// A number that is not below zero; infinity is one.
spec fn large_32(a: Binary32) -> bool {
    !a.nan() && a.place() >= 0
}

proof fn lemma_square(a: Binary32)
    requires
        a.finite(),
    ensures
        large_32(a.product(a)),
{
    lemma_pow2_pos(149);
    lemma_signed_closest_32(false, a.value() * a.value(), pow2(149));
}

proof fn lemma_large_sum(a: Binary32, b: Binary32)
    requires
        large_32(a),
        large_32(b),
    ensures
        large_32(a.sum(b)),
        a.place() <= a.sum(b).place(),
        b.place() <= a.sum(b).place(),
        b.place() == 0 ==> a.sum(b).place() == a.place(),
        a.place() == 0 ==> a.sum(b).place() == b.place(),
{
    binary32::lemma_infinity_32();
    rounding::lemma_value_zero(24);
    if a.finite() && b.finite() {
        let x = a.magnitude();
        let y = b.magnitude();
        magnitude::lemma_rounded_exact(24, 255, a.value(), 1, x);
        magnitude::lemma_rounded_exact(24, 255, b.value(), 1, y);
        magnitude::lemma_rounded_exact(24, 255, 0, 1, 0);
        number_laws::lemma_rounded_ordered(24, 255, a.value(), 1, a.value() + b.value(), 1);
        number_laws::lemma_rounded_ordered(24, 255, b.value(), 1, a.value() + b.value(), 1);
        lemma_signed_closest_32(false, a.value() + b.value(), 1);
        lemma_signed_closest_32(true, a.value() + b.value(), 1);
    }
}

/// The squared length of a finite quaternion is a number that is not below
/// zero. It is at least the square of each component, zero exactly when each
/// square is, and the square of one component where the others have none.
pub proof fn law_squared_length_covers_the_squares(q: Quat, r: Binary32)
    requires
        q.x.finite() && q.y.finite() && q.z.finite() && q.w.finite(),
        call_ensures(Quat::length_squared, (q,), r),
    ensures
        ({
            let x = q.x.product(q.x).place();
            let y = q.y.product(q.y).place();
            let z = q.z.product(q.z).place();
            let w = q.w.product(q.w).place();
            &&& !r.nan()
            &&& x <= r.place() && y <= r.place() && z <= r.place() && w <= r.place()
            &&& 0 <= x && 0 <= y && 0 <= z && 0 <= w
            &&& r.place() == 0 <==> x == 0 && y == 0 && z == 0 && w == 0
            &&& y == 0 && z == 0 && w == 0 ==> r.place() == x
            &&& x == 0 && z == 0 && w == 0 ==> r.place() == y
            &&& x == 0 && y == 0 && w == 0 ==> r.place() == z
            &&& x == 0 && y == 0 && z == 0 ==> r.place() == w
        }),
{
    let xx = q.x.product(q.x);
    let yy = q.y.product(q.y);
    let zz = q.z.product(q.z);
    let ww = q.w.product(q.w);
    lemma_square(q.x);
    lemma_square(q.y);
    lemma_square(q.z);
    lemma_square(q.w);
    lemma_large_sum(xx, zz);
    lemma_large_sum(yy, ww);
    lemma_large_sum(xx.sum(zz), yy.sum(ww));
}

} // verus!
