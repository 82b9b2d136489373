//! A time map is piecewise linear, up to rounding.

use crate::binary32::Binary32;
use crate::binary64;
use crate::binary64::Binary64;
use crate::keys;
use crate::map_laws;
use crate::number_laws;
use crate::operation;
use crate::plan::ContactTimeWarpControlPointV1;
use crate::plan::ONE_64;
use crate::rounding;
use vstd::arithmetic::power2::*;
use vstd::prelude::*;

verus! {

/// A whole number of smallest units is rounded by at most one part in `2^53`.
proof fn lemma_whole_rounding(n: nat)
    requires
        n <= pow2(1074),
    ensures
        ({
            let v = rounding::value(53, binary64::rounded_64(n, 1));
            &&& 0x20_0000_0000_0000 * (v - n) <= v
            &&& 0x20_0000_0000_0000 * (n - v) <= v
            &&& binary64::rounded_64(n, 1) <= ONE_64
        }),
{
    let h = rounding::binade(53);
    lemma2_to64_rest();
    number_laws::lemma_value_of_one();
    number_laws::lemma_rounded_64_exact(pow2(1074) * 1, 1, ONE_64 as nat);
    number_laws::lemma_rounded_64_ordered(n, 1, pow2(1074), 1);
    let c = binary64::rounded_64(n, 1);
    binary64::lemma_infinity_64();
    rounding::lemma_nearest_exists(53, n, 1);
    assert(rounding::is_nearest(53, n, 1, c));
    if c >= h {
        map_laws::lemma_relative_error(n, 1, c);
        let v = rounding::value(53, c);
        assert(v * 1 == v);
    } else {
        assert(pow2(0) == 1) by {
            lemma2_to64();
        }
        rounding::lemma_value_at(53, 0, c);
        rounding::lemma_value_at(53, 0, c + 1);
        if c > 0 {
            rounding::lemma_value_at(53, 0, (c - 1) as nat);
        }
        assert(n == c);
    }
}

/// What is rounded to a number in `[0, 1]` is off by at most `2^-54`.
proof fn lemma_absolute_rounding(num: nat, den: nat)
    requires
        den > 0,
        num <= pow2(1074) * den,
    ensures
        ({
            let v = rounding::value(53, binary64::rounded_64(num, den));
            &&& 2 * (v * den - num) <= pow2(1021) * den
            &&& 2 * (num - v * den) <= pow2(1021) * den
        }),
{
    let one = ONE_64 as nat;
    let u = pow2(1074);
    number_laws::lemma_value_of_one();
    lemma_pow2_pos(1021);
    number_laws::lemma_rounded_64_exact(u * den, den, one);
    assert(num * den <= (u * den) * den) by (nonlinear_arith)
        requires
            num <= u * den,
    ;
    number_laws::lemma_rounded_64_ordered(num, den, u * den, den);
    let c = binary64::rounded_64(num, den);
    binary64::lemma_infinity_64();
    rounding::lemma_nearest_exists(53, num, den);
    assert(rounding::is_nearest(53, num, den, c));
    let v = rounding::value(53, c);
    let s = pow2(1021);
    if c < one {
        number_laws::lemma_step_below_one(c);
        let w = rounding::value(53, c + 1);
        assert(2 * (num - v * den) <= s * den) by (nonlinear_arith)
            requires
                2 * num <= (v + w) * den,
                w - v <= s,
                den > 0,
        ;
    } else {
        assert(num - v * den <= 0);
        assert(s * den >= 0) by (nonlinear_arith);
    }
    if c > 0 {
        number_laws::lemma_step_below_one((c - 1) as nat);
        let w = rounding::value(53, (c - 1) as nat);
        assert(2 * (v * den - num) <= s * den) by (nonlinear_arith)
            requires
                (w + v) * den <= 2 * num,
                v - w <= s,
                den > 0,
        ;
    } else {
        rounding::lemma_value_zero(53);
        assert(v * den == 0) by (nonlinear_arith)
            requires
                v == 0,
        ;
        assert(s * den >= 0) by (nonlinear_arith);
    }
}

/// The exact arithmetic behind one interpolation step.
proof fn lemma_line_error(
    u: int,
    e: int,
    m: int,
    r: int,
    r1: int,
    run: int,
    run1: int,
    h: int,
    h1: int,
    f: int,
    part: int,
    rise: int,
)
    requires
        m == 0x20_0000_0000_0000,
        u == m * (2 * e),
        e > 0,
        0 <= r <= run,
        0 <= r1 <= run1,
        run > 0,
        run1 > 0,
        0 <= h <= u,
        0 <= h1 <= u,
        0 <= f <= u,
        m * (r1 - r) <= r1,
        m * (r - r1) <= r1,
        m * (run1 - run) <= run1,
        m * (run - run1) <= run1,
        m * (h1 - h) <= h1,
        m * (h - h1) <= h1,
        -(e * run1) <= f * run1 - r1 * u <= e * run1,
        -(e * u) <= part * u - f * h1 <= e * u,
        -(2 * e) <= rise - part <= 2 * e,
    ensures
        -(16 * e * run) <= rise * run - r * h <= 16 * e * run,
{
    assert(8 * run1 <= 9 * run) by (nonlinear_arith)
        requires
            m * (run1 - run) <= run1,
            m == 0x20_0000_0000_0000,
            run > 0,
    ;
    // The rounded length of the segment in place of the exact one.
    let fh = f * h1;
    assert(0 <= fh <= u * u) by (nonlinear_arith)
        requires
            0 <= f <= u,
            0 <= h1 <= u,
            fh == f * h1,
    ;
    let gap = run - run1;
    assert(-(2 * e * u * run1) <= fh * gap <= 2 * e * u * run1) by {
        assert(m * (fh * gap) <= u * u * run1) by (nonlinear_arith)
            requires
                0 <= fh <= u * u,
                m * gap <= run1,
                run1 > 0,
                m > 0,
        ;
        assert(-(u * u * run1) <= m * (fh * gap)) by (nonlinear_arith)
            requires
                0 <= fh <= u * u,
                -run1 <= m * gap,
                run1 > 0,
                m > 0,
        ;
        assert(u * u * run1 == m * (2 * e * u * run1)) by (nonlinear_arith)
            requires
                u == m * (2 * e),
        ;
        let a = fh * gap;
        let b = 2 * e * u * run1;
        assert(-b <= a <= b) by (nonlinear_arith)
            requires
                m * a <= m * b,
                -(m * b) <= m * a,
                m > 0,
        ;
    }
    // The fraction in place of the quotient.
    let c = f * run1 - r1 * u;
    assert(-(e * u * run1) <= h1 * c <= e * u * run1) by (nonlinear_arith)
        requires
            -(e * run1) <= c <= e * run1,
            0 <= h1 <= u,
            e > 0,
            run1 > 0,
    ;
    // The rounded differences in place of the exact ones.
    let dr = r1 - r;
    let dh = h1 - h;
    assert(-(2 * e * run1) <= r1 * dh <= 2 * e * run1) by {
        let a = r1 * dh;
        let b = 2 * e * run1;
        assert(m * a <= run1 * u && -(run1 * u) <= m * a) by (nonlinear_arith)
            requires
                a == r1 * dh,
                0 <= r1 <= run1,
                m * dh <= h1,
                -h1 <= m * dh,
                0 <= h1 <= u,
        ;
        assert(run1 * u == m * b) by (nonlinear_arith)
            requires
                u == m * (2 * e),
                b == 2 * e * run1,
        ;
        assert(-b <= a <= b) by (nonlinear_arith)
            requires
                m * a <= m * b,
                -(m * b) <= m * a,
                m > 0,
        ;
    }
    assert(-(2 * e * run1) <= h * dr <= 2 * e * run1) by {
        let a = h * dr;
        let b = 2 * e * run1;
        assert(m * a <= run1 * u && -(run1 * u) <= m * a) by (nonlinear_arith)
            requires
                a == h * dr,
                0 <= r1 <= run1,
                m * dr <= r1,
                -r1 <= m * dr,
                0 <= h <= u,
        ;
        assert(run1 * u == m * b) by (nonlinear_arith)
            requires
                u == m * (2 * e),
                b == 2 * e * run1,
        ;
        assert(-b <= a <= b) by (nonlinear_arith)
            requires
                m * a <= m * b,
                -(m * b) <= m * a,
                m > 0,
        ;
    }
    assert(r1 * h1 - r * h == r1 * dh + h * dr) by (nonlinear_arith)
        requires
            dr == r1 - r,
            dh == h1 - h,
    ;
    let drift = r1 * h1 - r * h;
    assert(2 * e * run1 + 2 * e * run1 == 4 * e * run1) by (nonlinear_arith);
    assert(-(4 * e * run1) <= drift <= 4 * e * run1);
    assert(-(4 * e * run1 * u) <= drift * u <= 4 * e * run1 * u) by (nonlinear_arith)
        requires
            -(4 * e * run1) <= drift <= 4 * e * run1,
            u > 0,
    ;
    // Together.
    assert(fh * run == fh * gap + fh * run1) by (nonlinear_arith)
        requires
            gap == run - run1,
    ;
    assert(fh * run1 == h1 * (f * run1)) by (nonlinear_arith)
        requires
            fh == f * h1,
    ;
    assert(h1 * c == h1 * (f * run1) - h1 * (r1 * u)) by (nonlinear_arith)
        requires
            c == f * run1 - r1 * u,
    ;
    assert(h1 * (r1 * u) == (r1 * h1) * u) by (nonlinear_arith);
    assert(drift * u == (r1 * h1) * u - (r * h) * u) by (nonlinear_arith)
        requires
            drift == r1 * h1 - r * h,
    ;
    assert(fh * run - (r * h) * u == fh * gap + h1 * c + drift * u);
    let q = e * u * run1;
    assert(2 * e * u * run1 == 2 * q) by (nonlinear_arith)
        requires
            q == e * u * run1,
    ;
    assert(4 * e * run1 * u == 4 * q) by (nonlinear_arith)
        requires
            q == e * u * run1,
    ;
    let z = e * u * run;
    assert(8 * q <= 9 * z) by (nonlinear_arith)
        requires
            q == e * u * run1,
            z == e * u * run,
            8 * run1 <= 9 * run,
            e > 0,
            u > 0,
    ;
    assert(-(8 * z) <= fh * run - (r * h) * u <= 8 * z);
    let d = part * u - fh;
    assert(-z <= d * run <= z) by (nonlinear_arith)
        requires
            -(e * u) <= d <= e * u,
            z == e * u * run,
            run > 0,
    ;
    assert((part * run) * u - fh * run == d * run) by (nonlinear_arith)
        requires
            d == part * u - fh,
    ;
    let s = rise - part;
    assert(-(2 * z) <= (s * run) * u <= 2 * z) by (nonlinear_arith)
        requires
            -(2 * e) <= s <= 2 * e,
            z == e * u * run,
            run > 0,
            u > 0,
    ;
    assert((rise * run) * u == (s * run) * u + (part * run) * u) by (nonlinear_arith)
        requires
            s == rise - part,
    ;
    let total = rise * run - r * h;
    assert(total * u == (rise * run) * u - (r * h) * u) by (nonlinear_arith)
        requires
            total == rise * run - r * h,
    ;
    assert(-(16 * z) <= total * u <= 16 * z);
    let b = 16 * e * run;
    assert(16 * z == b * u) by (nonlinear_arith)
        requires
            z == e * u * run,
            b == 16 * e * run,
    ;
    assert(-b <= total <= b) by (nonlinear_arith)
        requires
            -(b * u) <= total * u <= b * u,
            u > 0,
    ;
}

/// How far a mapped phase may lie from the straight line between two rows:
/// eight units of `2^-53`.
pub open spec fn line_bound() -> nat {
    pow2(1024)
}

/// Whether phase `y` at phase `x` lies on the straight line between two rows,
/// up to the bound. All values are exact, in units of `2^-1074`, and the
/// comparison is multiplied out by the length of the segment.
pub open spec fn on_line(
    left: ContactTimeWarpControlPointV1,
    right: ContactTimeWarpControlPointV1,
    x: Binary64,
    y: Binary64,
) -> bool {
    let run = right.input.value() - left.input.value();
    let height = right.output.value() - left.output.value();
    let off = (y.value() - left.output.value()) * run - (x.value() - left.input.value()) * height;
    -(line_bound() * run) <= off <= line_bound() * run
}

proof fn lemma_segment_follows_the_line(
    left: ContactTimeWarpControlPointV1,
    right: ContactTimeWarpControlPointV1,
    x: Binary64,
)
    requires
        left.normalized(),
        right.normalized(),
        left.input.place() < right.input.place(),
        left.output.place() < right.output.place(),
        number_laws::proper_64(x),
        left.input.place() <= x.place() <= right.input.place(),
    ensures
        number_laws::proper_64(keys::interpolated(left, right, x)),
        on_line(left, right, x, keys::interpolated(left, right, x)),
{
    let u = pow2(1074);
    let e = pow2(1020);
    let m: int = 0x20_0000_0000_0000;
    lemma_pow2_pos(1020);
    lemma_pow2_unfold(1021);
    lemma2_to64_rest();
    lemma_pow2_adds(53, 1021);
    number_laws::lemma_value_of_one();
    map_laws::lemma_interpolated(left, right, x);
    rounding::lemma_value_ordered_weakly(53, x.magnitude(), right.input.magnitude());
    rounding::lemma_value_ordered_weakly(53, right.input.magnitude(), ONE_64 as nat);
    rounding::lemma_value_ordered(53, left.input.magnitude(), right.input.magnitude());
    rounding::lemma_value_ordered_weakly(53, right.output.magnitude(), ONE_64 as nat);
    rounding::lemma_value_ordered(53, left.output.magnitude(), right.output.magnitude());

    let rise = x.difference(left.input);
    let run = right.input.difference(left.input);
    number_laws::lemma_difference(x, left.input);
    number_laws::lemma_difference(right.input, left.input);
    let r = (x.value() - left.input.value()) as nat;
    let n = (right.input.value() - left.input.value()) as nat;
    lemma_whole_rounding(r);
    lemma_whole_rounding(n);
    number_laws::lemma_rounded_64_ordered(r, 1, n, 1);
    map_laws::lemma_small_number(n);
    rounding::lemma_value_ordered_weakly(53, rise.magnitude(), run.magnitude());
    rounding::lemma_value_at_least(53, run.magnitude());

    let fraction = rise.quotient(run);
    number_laws::lemma_quotient(rise, run);
    number_laws::lemma_ratio(rise, run);
    rounding::lemma_value_ordered_weakly(53, fraction.magnitude(), ONE_64 as nat);
    let rv = rise.value();
    let nv = run.value();
    assert(rv * u <= u * nv) by (nonlinear_arith)
        requires
            rv <= nv,
    ;
    lemma_absolute_rounding(rv * u, nv);

    let height = right.output.difference(left.output);
    number_laws::lemma_difference(right.output, left.output);
    let low = left.output.value();
    let h = (right.output.value() - low) as nat;
    lemma_whole_rounding(h);
    rounding::lemma_value_ordered_weakly(53, height.magnitude(), ONE_64 as nat);
    let hv = height.value();
    let part = fraction.product(height);
    number_laws::lemma_product(fraction, height);
    number_laws::lemma_scaled(fraction, height);
    let fv = fraction.value();
    assert(fv * hv <= u * u) by (nonlinear_arith)
        requires
            fv <= u,
            hv <= u,
    ;
    lemma_absolute_rounding(fv * hv, u);

    let y = keys::interpolated(left, right, x);
    number_laws::lemma_sum(left.output, part);
    let pv = part.value();
    lemma_sum_rounding(low, pv, left.output, part);
    assert(u == m * (2 * e));
    let err = fv * nv - rv * u;
    let bound = e * nv;
    assert(-bound <= err <= bound) by (nonlinear_arith)
        requires
            2 * err <= pow2(1021) * nv,
            2 * (-err) <= pow2(1021) * nv,
            pow2(1021) == 2 * e,
            bound == e * nv,
    ;
    let err = pv * u - fv * hv;
    let bound = e * u;
    assert(-bound <= err <= bound) by (nonlinear_arith)
        requires
            2 * err <= pow2(1021) * u,
            2 * (-err) <= pow2(1021) * u,
            pow2(1021) == 2 * e,
            bound == e * u,
    ;
    lemma_line_error(
        u as int,
        e as int,
        m,
        r as int,
        rv as int,
        n as int,
        nv as int,
        h as int,
        hv as int,
        fv as int,
        pv as int,
        y.value() - low,
    );
    lemma2_to64();
    lemma_pow2_adds(4, 1020);
    assert(16 * e * n == line_bound() * n) by (nonlinear_arith)
        requires
            line_bound() == 16 * e,
    ;
}

/// A rounded sum that is at most one is off by at most `2^-53`.
proof fn lemma_sum_rounding(low: nat, pv: nat, a: Binary64, b: Binary64)
    requires
        number_laws::proper_64(a),
        number_laws::proper_64(b),
        low == a.value(),
        pv == b.value(),
        a.sum(b).place() <= ONE_64,
        a.sum(b).place() >= 0,
    ensures
        -(pow2(1021) as int) <= a.sum(b).value() - low - pv <= pow2(1021),
{
    let u = pow2(1074);
    let one = ONE_64 as nat;
    let num = low + pv;
    number_laws::lemma_sum(a, b);
    number_laws::lemma_value_of_one();
    lemma_pow2_unfold(1021);
    let c = binary64::rounded_64(num, 1);
    if num <= u {
        lemma_absolute_rounding(num, 1);
    } else {
        binary64::lemma_infinity_64();
        number_laws::lemma_rounded_64_exact(u * 1, 1, one);
        number_laws::lemma_rounded_64_ordered(u, 1, num, 1);
        rounding::lemma_nearest_exists(53, num, 1);
        assert(c == one);
        assert(rounding::is_nearest(53, num, 1, one));
        assert(2 * num <= 2 * u + pow2(1022));
        assert(num - u <= pow2(1021));
    }
}

/// A valid map is piecewise linear. A source time whose phase `x` lies between
/// two neighbouring rows is mapped to a phase on the straight line between
/// them, up to eight units of `2^-53`, scaled by the duration and narrowed.
pub proof fn law_map_follows_the_line(
    source_time: Binary32,
    duration: Binary32,
    points: Seq<ContactTimeWarpControlPointV1>,
    i: int,
)
    requires
        operation::valid_map(points),
        map_laws::proper_duration(duration),
        0 <= i < points.len() - 1,
        !source_time.widened().quotient(duration.widened()).nan(),
        points[i].input.place() <= source_time.widened().quotient(duration.widened()).place(),
        source_time.widened().quotient(duration.widened()).place() <= points[i + 1].input.place(),
    ensures
        exists|y: Binary64|
            {
                let x = source_time.widened().quotient(duration.widened());
                let run = points[i + 1].input.value() - points[i].input.value();
                let height = points[i + 1].output.value() - points[i].output.value();
                let off = (y.value() - points[i].output.value()) * run - (x.value()
                    - points[i].input.value()) * height;
                &&& y.finite()
                &&& 0 <= y.place() <= ONE_64
                &&& -(pow2(1024) * run) <= off <= pow2(1024) * run
                &&& keys::mapped(source_time, duration, points) == #[trigger] y.product(
                    duration.widened(),
                ).narrowed()
            },
{
    let x = source_time.widened().quotient(duration.widened());
    let run = points[i + 1].input.value() - points[i].input.value();
    let height = points[i + 1].output.value() - points[i].output.value();
    assert(points[i].normalized() && points[i + 1].normalized());
    assert(points[i].input.place() < points[i + 1].input.place());
    map_laws::lemma_segment(points, x);
    let right = keys::segment(points, x);
    assert(points[right - 1].normalized() && points[right].normalized());
    assert(points[right - 1].input.place() < points[right].input.place());
    map_laws::lemma_interpolated(points[right - 1], points[right], x);
    let y = keys::interpolated(points[right - 1], points[right], x);
    if right == i + 1 {
        lemma_segment_follows_the_line(points[i], points[i + 1], x);
    } else if right > i + 1 {
        assert(points[i + 1].input.place() <= points[right - 1].input.place());
        assert(right > i + 2 ==> points[i + 1].input.place() < points[right - 1].input.place());
        assert(right == i + 2 && x.place() == points[i + 1].input.place());
        let off = (y.value() - points[i].output.value()) * run - (x.value()
            - points[i].input.value()) * height;
        assert(y.value() == points[i + 1].output.value());
        assert(off == 0) by (nonlinear_arith)
            requires
                off == height * run - run * height,
        ;
        rounding::lemma_value_ordered(
            53,
            points[i].input.magnitude(),
            points[i + 1].input.magnitude(),
        );
        lemma_pow2_pos(1024);
        let bound = pow2(1024) * run;
        assert(bound >= 0) by (nonlinear_arith)
            requires
                bound == pow2(1024) * run,
                run >= 0,
        ;
    } else {
        assert(points[right].input.place() <= points[i].input.place());
        assert(right < i ==> points[right].input.place() < points[i].input.place());
        map_laws::lemma_first_after_bounds(points, x, 0);
        let upper = keys::first_after(points, x, 0);
        assert(points[i].input.le_number(x));
        if upper <= i {
            assert(points[upper].normalized());
            assert(points[upper].input.place() <= points[i].input.place());
        }
        assert(false);
    }
    assert(keys::mapped(source_time, duration, points) == y.product(duration.widened()).narrowed());
}

} // verus!
