//! Correctly rounded arithmetic on the magnitudes of a binary format.
//!
//! Every operation forms its exact result as a significand with at least two
//! bits to spare, a power of two and a flag for what lies below the last bit,
//! and hands it to one rounding routine.

use crate::rounding;
use vstd::arithmetic::div_mod::*;
use vstd::arithmetic::mul::*;
use vstd::arithmetic::power2::*;
use vstd::bits::*;
use vstd::prelude::*;

verus! {

/// `num / den` rounded to a magnitude of the format with precision `p` whose
/// infinity has the exponent field `top`.
pub open spec fn rounded(p: nat, top: nat, num: nat, den: nat) -> nat {
    let b = rounding::nearest(p, num, den);
    if b < top * rounding::binade(p) {
        b
    } else {
        top * rounding::binade(p)
    }
}

/// `2^k` for `k >= 0`, else one.
pub open spec fn up(k: int) -> nat {
    if k >= 0 {
        pow2(k as nat)
    } else {
        1
    }
}

/// Whether `num / den` is `q * 2^k`, or with `sticky` lies strictly between it
/// and `(q + 1) * 2^k`.
pub open spec fn brackets(q: nat, sticky: bool, k: int, num: nat, den: nat) -> bool {
    if sticky {
        &&& q * (up(k) * den) < num * up(-k)
        &&& num * up(-k) < (q + 1) * (up(k) * den)
    } else {
        q * (up(k) * den) == num * up(-k)
    }
}

proof fn lemma_up_positive(k: int)
    ensures
        up(k) > 0,
{
    if k >= 0 {
        lemma_pow2_pos(k as nat);
    }
}

/// Powers of two whose exponents balance are equal products.
proof fn lemma_up_balance(a: nat, b: nat, k: int)
    requires
        a == b + k,
    ensures
        pow2(a) * up(-k) == pow2(b) * up(k),
{
    assert(pow2(0) == 1) by {
        lemma2_to64();
    }
    if k >= 0 {
        lemma_pow2_adds(b, k as nat);
        if k == 0 {
            assert(up(-k) == 1);
        }
        assert(pow2(a) * 1 == pow2(a));
    } else {
        lemma_pow2_adds(a, (-k) as nat);
        assert(pow2(b) * 1 == pow2(b));
    }
}

proof fn lemma_leading_zeros(i: u64)
    requires
        i > 0,
    ensures
        0 <= vstd::std_specs::bits::u64_leading_zeros(i) <= 63,
        pow2((63 - vstd::std_specs::bits::u64_leading_zeros(i)) as nat) <= i,
        i < pow2((64 - vstd::std_specs::bits::u64_leading_zeros(i)) as nat),
    decreases i,
{
    reveal(vstd::std_specs::bits::u64_leading_zeros);
    let z = vstd::std_specs::bits::u64_leading_zeros(i);
    if i == 1 {
        assert(vstd::std_specs::bits::u64_leading_zeros(0) == 64);
        assert(z == 63);
        lemma2_to64();
    } else {
        let h = i / 2;
        lemma_leading_zeros(h);
        let y = vstd::std_specs::bits::u64_leading_zeros(h);
        assert(z == y - 1);
        if y == 0 {
            lemma2_to64_rest();
            assert(false);
        }
        lemma_pow2_unfold((63 - z) as nat);
        lemma_pow2_unfold((64 - z) as nat);
    }
}

/// The number of bits of a positive number.
fn bit_length(q: u128) -> (n: u32)
    requires
        q > 0,
    ensures
        1 <= n <= 128,
        pow2((n - 1) as nat) <= q,
        q < pow2(n as nat),
{
    let high: u64 = (q / 0x1_0000_0000_0000_0000u128) as u64;
    proof {
        lemma2_to64_rest();
    }
    if high > 0 {
        let z: u32 = high.leading_zeros();
        proof {
            lemma_leading_zeros(high);
            let n = (128 - z) as nat;
            lemma_pow2_adds((63 - z) as nat, 64);
            lemma_pow2_adds((64 - z) as nat, 64);
            let a = pow2((63 - z) as nat);
            let b = pow2((64 - z) as nat);
            assert(a * 0x1_0000_0000_0000_0000 <= q);
            assert(q < b * 0x1_0000_0000_0000_0000);
        }
        128 - z
    } else {
        let low: u64 = q as u64;
        let z: u32 = low.leading_zeros();
        proof {
            lemma_leading_zeros(low);
        }
        64 - z
    }
}

/// `2^n` as a machine integer.
fn power_of_two(n: u32) -> (r: u128)
    requires
        n < 128,
    ensures
        r == pow2(n as nat),
{
    proof {
        lemma_power_of_two(n);
    }
    1u128 << n
}

proof fn lemma_power_of_two(n: u32)
    requires
        n < 128,
    ensures
        (1u128 << n) == pow2(n as nat),
    decreases n,
{
    if n == 0 {
        lemma2_to64();
        assert(1u128 << 0u32 == 1u128) by (bit_vector);
    } else {
        let k: u32 = (n - 1) as u32;
        lemma_power_of_two(k);
        lemma_pow2_unfold(n as nat);
        assert((1u128 << n) == 2 * (1u128 << k)) by (bit_vector)
            requires
                0 < n < 128,
                k == n - 1,
        ;
    }
}

/// The floor of a bracketed rational, and on which side of the middle of its
/// gap the rational lies.
proof fn lemma_compare(
    q: nat,
    sticky: bool,
    m: nat,
    r: nat,
    half: nat,
    a: nat,
    w: nat,
    down: nat,
    num: nat,
)
    requires
        q == m * (2 * half) + r,
        r < 2 * half,
        half > 0,
        a > 0,
        down > 0,
        w * down == (2 * half) * a,
        sticky ==> q * a < num * down < (q + 1) * a,
        !sticky ==> q * a == num * down,
    ensures
        m * w <= num,
        num < (m + 1) * w,
        r < half ==> 2 * num < (2 * m + 1) * w,
        r == half && !sticky ==> 2 * num == (2 * m + 1) * w,
        r == half && sticky ==> 2 * num > (2 * m + 1) * w,
        r > half ==> 2 * num > (2 * m + 1) * w,
{
    let n = num * down;
    let h2 = 2 * half;
    assert(m * w * down == (m * h2) * a) by (nonlinear_arith)
        requires
            w * down == h2 * a,
    ;
    assert((m + 1) * w * down == (m * h2 + h2) * a) by (nonlinear_arith)
        requires
            w * down == h2 * a,
    ;
    assert((2 * m + 1) * w * down == (2 * (m * h2) + h2) * a) by (nonlinear_arith)
        requires
            w * down == h2 * a,
    ;
    let mh = m * h2;
    assert(mh * a <= q * a) by (nonlinear_arith)
        requires
            q == mh + r,
            a > 0,
            r >= 0,
    ;
    assert((q + 1) * a <= (mh + h2) * a) by (nonlinear_arith)
        requires
            q == mh + r,
            r < h2,
            a > 0,
    ;
    assert(q * a < (q + 1) * a) by (nonlinear_arith)
        requires
            a > 0,
    ;
    assert(m * w <= num) by (nonlinear_arith)
        requires
            m * w * down <= num * down,
            down > 0,
    ;
    assert(num < (m + 1) * w) by (nonlinear_arith)
        requires
            num * down < (m + 1) * w * down,
            down > 0,
    ;
    let mid = (2 * m + 1) * w;
    assert(mid * down == (2 * mh + h2) * a);
    if r < half {
        assert(2 * ((q + 1) * a) <= (2 * mh + h2) * a) by (nonlinear_arith)
            requires
                q == mh + r,
                r + 1 <= half,
                h2 == 2 * half,
                a > 0,
        ;
        assert(2 * num < mid) by (nonlinear_arith)
            requires
                2 * (num * down) < mid * down,
                down > 0,
        ;
    } else if r == half {
        assert(2 * (q * a) == (2 * mh + h2) * a) by (nonlinear_arith)
            requires
                q == mh + r,
                r == half,
                h2 == 2 * half,
        ;
        if sticky {
            assert(2 * num > mid) by (nonlinear_arith)
                requires
                    2 * (num * down) > mid * down,
                    down > 0,
            ;
        } else {
            assert(2 * num == mid) by (nonlinear_arith)
                requires
                    2 * (num * down) == mid * down,
                    down > 0,
            ;
        }
    } else {
        assert(2 * (q * a) > (2 * mh + h2) * a) by (nonlinear_arith)
            requires
                q == mh + r,
                r > half,
                h2 == 2 * half,
                a > 0,
        ;
        assert(2 * num > mid) by (nonlinear_arith)
            requires
                2 * (num * down) > mid * down,
                down > 0,
        ;
    }
}

/// What dropping `s` low bits of a bracketing significand decides.
proof fn lemma_round_bits(
    p: nat,
    q: nat,
    sticky: bool,
    k: int,
    s: nat,
    m: nat,
    r: nat,
    e: nat,
    num: nat,
    den: nat,
)
    requires
        p >= 1,
        s >= 1,
        den > 0,
        e == k + s,
        q == m * pow2(s) + r,
        r < pow2(s),
        m < 2 * rounding::binade(p),
        e == 0 || m >= rounding::binade(p),
        brackets(q, sticky, k, num, den),
    ensures
        rounding::nearest(p, num, den) == e * rounding::binade(p) + m + if r > pow2((s - 1) as nat) || (r == pow2(
            (s - 1) as nat,
        ) && (sticky || (e * rounding::binade(p) + m) % 2 == 1)) {
            1int
        } else {
            0int
        },
{
    let half = pow2((s - 1) as nat);
    lemma_pow2_unfold(s);
    lemma_pow2_pos((s - 1) as nat);
    lemma_pow2_pos(e);
    lemma_up_positive(k);
    lemma_up_positive(-k);
    let a = up(k) * den;
    let down = up(-k);
    let w = pow2(e) * den;
    assert(a > 0) by (nonlinear_arith)
        requires
            a == up(k) * den,
            up(k) > 0,
            den > 0,
    ;
    lemma_up_balance(e, s, k);
    assert(w * down == (2 * half) * a) by (nonlinear_arith)
        requires
            w == pow2(e) * den,
            a == up(k) * den,
            pow2(e) * down == pow2(s) * up(k),
            pow2(s) == 2 * half,
    ;
    lemma_compare(q, sticky, m, r, half, a, w, down, num);
    let f = (e * rounding::binade(p) + m) as nat;
    rounding::lemma_value_at(p, e, m);
    rounding::lemma_value_at(p, e, m + 1);
    let v = rounding::value(p, f);
    let x = rounding::value(p, f + 1);
    assert(e * rounding::binade(p) + (m + 1) == f + 1);
    assert(v * den == m * w && x * den == (m + 1) * w && (v + x) * den == (2 * m + 1) * w)
        by (nonlinear_arith)
        requires
            v == m * pow2(e),
            x == (m + 1) * pow2(e),
            w == pow2(e) * den,
    ;
    let b = rounding::lemma_nearest_of_floor(p, num, den, f);
    rounding::lemma_nearest_unique(p, num, den, b);
}

/// Rounds the rational `num / den`, which `q`, `sticky` and `k` bracket.
fn round(
    p: u32,
    top: u32,
    q: u128,
    sticky: bool,
    k: i32,
    Ghost(num): Ghost<nat>,
    Ghost(den): Ghost<nat>,
) -> (b: u64)
    requires
        2 <= p <= 53,
        1 <= top <= 2047,
        0 < q < pow2(127),
        sticky ==> q >= pow2((p + 1) as nat),
        -8000 <= k <= 8000,
        den > 0,
        brackets(q as nat, sticky, k as int, num, den),
    ensures
        b == rounded(p as nat, top as nat, num, den),
{
    let ghost h = rounding::binade(p as nat);
    proof {
        lemma2_to64_rest();
        lemma_pow2_pos((p - 1) as nat);
        if p < 53 {
            lemma_pow2_strictly_increases((p - 1) as nat, 52);
        }
        assert(h <= 0x10_0000_0000_0000);
        lemma_pow2_unfold(p as nat);
        lemma_pow2_pos(127);
    }
    let binade_size: u64 = power_of_two(p - 1) as u64;
    assert(top * h <= 2047 * 0x10_0000_0000_0000) by (nonlinear_arith)
        requires
            top <= 2047,
            h <= 0x10_0000_0000_0000,
    ;
    let infinity: u64 = top as u64 * binade_size;
    let length: u32 = bit_length(q);
    proof {
        if length > 127 {
            if length - 1 > 127 {
                lemma_pow2_strictly_increases(127, (length - 1) as nat);
            }
            assert(false);
        }
    }
    let spare: i32 = length as i32 - p as i32;
    let shift: i32 = if spare >= -k { spare } else { -k };
    if shift >= 128 {
        proof {
            let s = shift as nat;
            assert(shift == -k);
            lemma_pow2_strictly_increases(127, s);
            if s > 128 {
                lemma_pow2_strictly_increases(127, (s - 1) as nat);
            }
            assert(0 * pow2(s) == 0);
            assert(0 * h == 0);
            lemma_round_bits(p as nat, q as nat, sticky, k as int, s, 0, q as nat, 0, num, den);
            assert(top * h >= 1) by (nonlinear_arith)
                requires
                    top >= 1,
                    h >= 1,
            ;
        }
        return 0;
    }
    if shift >= 1 {
        let s: u32 = shift as u32;
        let e: i32 = k + shift;
        let unit: u128 = power_of_two(s);
        let m: u128 = q >> (s as u128);
        proof {
            lemma_u128_shr_is_div(q, s as u128);
            lemma_pow2_pos(s as nat);
            lemma_fundamental_div_mod(q as int, pow2(s as nat) as int);
            lemma_mod_bound(q as int, pow2(s as nat) as int);
            assert(m == q as nat / pow2(s as nat));
            lemma_mul_is_commutative(m as int, pow2(s as nat) as int);
            lemma_significand_fits(p as nat, q as nat, length as nat, s as nat, m as nat);
            lemma_mul_nonnegative(m as int, pow2(s as nat) as int);
        }
        let r: u128 = q - m * unit;
        let half: u128 = power_of_two(s - 1);
        if e >= top as i32 {
            proof {
                lemma_round_bits(
                    p as nat,
                    q as nat,
                    sticky,
                    k as int,
                    s as nat,
                    m as nat,
                    r as nat,
                    e as nat,
                    num,
                    den,
                );
                assert(e * h >= top * h) by (nonlinear_arith)
                    requires
                        e >= top,
                        h >= 0,
                ;
            }
            return infinity;
        }
        assert(e * h <= 2046 * 0x10_0000_0000_0000) by (nonlinear_arith)
            requires
                0 <= e <= 2046,
                0 <= h <= 0x10_0000_0000_0000,
        ;
        let floor: u64 = e as u64 * binade_size + m as u64;
        proof {
            lemma_round_bits(
                p as nat,
                q as nat,
                sticky,
                k as int,
                s as nat,
                m as nat,
                r as nat,
                e as nat,
                num,
                den,
            );
        }
        let b: u64 = if r > half || (r == half && (sticky || floor % 2 == 1)) {
            floor + 1
        } else {
            floor
        };
        if b >= infinity {
            infinity
        } else {
            b
        }
    } else {
        let t: u32 = (-shift) as u32;
        let e: i32 = k - t as i32;
        proof {
            if sticky {
                lemma_pow2_strictly_increases(length as nat, (p + 1) as nat);
                assert(false);
            }
            lemma_pow2_adds(length as nat, t as nat);
            lemma_pow2_adds((length - 1) as nat, t as nat);
            lemma_pow2_pos(t as nat);
            if length + t < p {
                lemma_pow2_strictly_increases((length + t) as nat, p as nat);
            }
            let u = pow2(t as nat);
            assert(q * u < pow2((length + t) as nat)) by (nonlinear_arith)
                requires
                    q < pow2(length as nat),
                    u > 0,
                    pow2((length + t) as nat) == pow2(length as nat) * u,
            ;
            assert(q * u >= pow2((length - 1 + t) as nat)) by (nonlinear_arith)
                requires
                    q >= pow2((length - 1) as nat),
                    u > 0,
                    pow2((length - 1 + t) as nat) == pow2((length - 1) as nat) * u,
            ;
            assert(q * u < pow2(p as nat));
            assert(q * u < 0x20_0000_0000_0000);
        }
        let m: u128 = q * power_of_two(t);
        proof {
            lemma_exact_bits(p as nat, q as nat, k as nat, t as nat, m as nat, num, den);
        }
        if e >= top as i32 {
            proof {
                assert(e * h >= top * h) by (nonlinear_arith)
                    requires
                        e >= top,
                        h >= 0,
                ;
            }
            return infinity;
        }
        assert(e * h <= 2046 * 0x10_0000_0000_0000) by (nonlinear_arith)
            requires
                0 <= e <= 2046,
                0 <= h <= 0x10_0000_0000_0000,
        ;
        let b: u64 = e as u64 * binade_size + m as u64;
        if b >= infinity {
            infinity
        } else {
            b
        }
    }
}

/// Dropping all but `p` leading bits leaves a significand of the format.
proof fn lemma_significand_fits(p: nat, q: nat, length: nat, s: nat, m: nat)
    requires
        p >= 1,
        1 <= length,
        pow2((length - 1) as nat) <= q < pow2(length),
        s >= 1,
        s + p >= length,
        m == q / pow2(s),
    ensures
        m < 2 * rounding::binade(p),
        s + p == length ==> m >= rounding::binade(p),
{
    lemma_pow2_pos(s);
    lemma_pow2_unfold(p);
    let u = pow2(s);
    lemma_fundamental_div_mod(q as int, u as int);
    lemma_mod_bound(q as int, u as int);
    lemma_pow2_adds(p, s);
    if length < p + s {
        lemma_pow2_strictly_increases(length, p + s);
    }
    assert(m < pow2(p)) by (nonlinear_arith)
        requires
            u * m <= q,
            q < pow2(p) * u,
            u > 0,
    ;
    if s + p == length {
        lemma_pow2_adds((p - 1) as nat, s);
        assert(u * (m + 1) == u * m + u) by (nonlinear_arith);
        assert(m >= rounding::binade(p)) by (nonlinear_arith)
            requires
                q < u * (m + 1),
                q >= rounding::binade(p) * u,
                u > 0,
        ;
    }
}

/// A significand that fits is rounded to itself.
proof fn lemma_exact_bits(p: nat, q: nat, k: nat, t: nat, m: nat, num: nat, den: nat)
    requires
        p >= 1,
        den > 0,
        t <= k,
        m == q * pow2(t),
        m < 2 * rounding::binade(p),
        k == t || m >= rounding::binade(p),
        brackets(q, false, k as int, num, den),
    ensures
        rounding::nearest(p, num, den) == (k - t) * rounding::binade(p) + m,
{
    let e = (k - t) as nat;
    lemma_pow2_adds(t, e);
    rounding::lemma_value_at(p, e, m);
    assert(pow2(0) == 1) by {
        lemma2_to64();
    }
    let b = e * rounding::binade(p) + m;
    assert(up(-(k as int)) == 1);
    assert(num * 1 == num);
    assert(num == rounding::value(p, b) * den) by (nonlinear_arith)
        requires
            rounding::value(p, b) == m * pow2(e),
            m == q * pow2(t),
            pow2(k) == pow2(t) * pow2(e),
            q * (pow2(k) * den) == num,
    ;
    rounding::lemma_nearest_exact(p, num, den, b);
}

/// The significand and the exponent of a magnitude.
fn split(p: u32, b: u64) -> (r: (u64, u32))
    requires
        2 <= p <= 53,
        b < 2047 * rounding::binade(p as nat),
    ensures
        r.0 == rounding::significand(p as nat, b as nat),
        r.1 == rounding::exponent(p as nat, b as nat),
        r.0 < 2 * rounding::binade(p as nat),
        r.0 < 0x20_0000_0000_0000,
        r.1 <= 2045,
        r.1 == 0 || r.0 >= rounding::binade(p as nat),
        r.0 == 0 <==> b == 0,
        rounding::value(p as nat, b as nat) == r.0 * pow2(r.1 as nat),
{
    let ghost h = rounding::binade(p as nat);
    proof {
        lemma2_to64_rest();
        lemma_pow2_pos((p - 1) as nat);
        if p < 53 {
            lemma_pow2_strictly_increases((p - 1) as nat, 52);
        }
        rounding::lemma_decompose(p as nat, b as nat);
        lemma_u64_shr_is_div(b, (p - 1) as u64);
        lemma_fundamental_div_mod(b as int, h as int);
        lemma_mod_bound(b as int, h as int);
    }
    let size: u64 = power_of_two(p - 1) as u64;
    let field: u64 = b >> ((p - 1) as u64);
    proof {
        assert(field < 2047) by (nonlinear_arith)
            requires
                h * field <= b,
                b < 2047 * h,
        ;
        lemma_mul_is_commutative(h as int, field as int);
    }
    let fraction: u64 = b - field * size;
    if field == 0 {
        (fraction, 0)
    } else {
        (fraction + size, (field - 1) as u32)
    }
}

/// Zero rounds to zero.
proof fn lemma_rounded_zero(p: nat, top: nat, den: nat)
    requires
        p >= 1,
        top >= 1,
        den > 0,
    ensures
        rounded(p, top, 0, den) == 0,
{
    rounding::lemma_value_zero(p);
    assert(0 == rounding::value(p, 0) * den);
    rounding::lemma_nearest_exact(p, 0, den, 0);
    lemma_pow2_pos((p - 1) as nat);
    let h = rounding::binade(p);
    assert(top * h >= 1) by (nonlinear_arith)
        requires
            top >= 1,
            h >= 1,
    ;
}

/// The product of two magnitudes, whose unit is `2^-unit`.
pub fn multiply(p: u32, top: u32, unit: u32, a: u64, b: u64) -> (r: u64)
    requires
        2 <= p <= 53,
        1 <= top <= 2047,
        unit <= 1074,
        a < top * rounding::binade(p as nat),
        b < top * rounding::binade(p as nat),
    ensures
        r == rounded(
            p as nat,
            top as nat,
            rounding::value(p as nat, a as nat) * rounding::value(p as nat, b as nat),
            pow2(unit as nat),
        ),
{
    let ghost h = rounding::binade(p as nat);
    let ghost num = rounding::value(p as nat, a as nat) * rounding::value(p as nat, b as nat);
    let ghost den = pow2(unit as nat);
    proof {
        lemma_pow2_pos(unit as nat);
        assert(top * h <= 2047 * h) by (nonlinear_arith)
            requires
                top <= 2047,
                h >= 0,
        ;
        lemma_rounded_zero(p as nat, top as nat, den);
    }
    let (ma, ea): (u64, u32) = split(p, a);
    let (mb, eb): (u64, u32) = split(p, b);
    if ma == 0 || mb == 0 {
        proof {
            rounding::lemma_value_zero(p as nat);
            assert(num == 0) by (nonlinear_arith)
                requires
                    num == rounding::value(p as nat, a as nat) * rounding::value(p as nat, b as nat),
                    rounding::value(p as nat, a as nat) == 0 || rounding::value(p as nat, b as nat)
                        == 0,
            ;
        }
        return 0;
    }
    assert(0 < ma * mb < 0x20_0000_0000_0000 * 0x20_0000_0000_0000) by (nonlinear_arith)
        requires
            0 < ma < 0x20_0000_0000_0000,
            0 < mb < 0x20_0000_0000_0000,
    ;
    let q: u128 = ma as u128 * mb as u128;
    let k: i32 = ea as i32 + eb as i32 - unit as i32;
    proof {
        lemma_big_powers();
        lemma_up_balance((ea + eb) as nat, unit as nat, k as int);
        lemma_pow2_adds(ea as nat, eb as nat);
        let x = pow2(ea as nat);
        let y = pow2(eb as nat);
        assert(q * (up(k as int) * den) == num * up(-k as int)) by (nonlinear_arith)
            requires
                q == ma * mb,
                num == (ma * x) * (mb * y),
                (x * y) * up(-k as int) == den * up(k as int),
        ;
    }
    round(p, top, q, false, k, Ghost(num), Ghost(den))
}

/// Powers of two above the machine words.
proof fn lemma_big_powers()
    ensures
        pow2(106) == 0x20_0000_0000_0000 * 0x20_0000_0000_0000,
        pow2(106) < pow2(127),
        pow2(119) < pow2(127),
        pow2(123) < pow2(127),
        pow2(124) < pow2(127),
{
    lemma2_to64_rest();
    lemma_pow2_adds(53, 53);
    lemma_pow2_strictly_increases(106, 127);
    lemma_pow2_strictly_increases(119, 127);
    lemma_pow2_strictly_increases(123, 127);
    lemma_pow2_strictly_increases(124, 127);
}

/// The quotient of two magnitudes, whose unit is `2^-unit`.
pub fn divide(p: u32, top: u32, unit: u32, a: u64, b: u64) -> (r: u64)
    requires
        2 <= p <= 53,
        1 <= top <= 2047,
        unit <= 1074,
        a < top * rounding::binade(p as nat),
        0 < b < top * rounding::binade(p as nat),
    ensures
        r == rounded(
            p as nat,
            top as nat,
            rounding::value(p as nat, a as nat) * pow2(unit as nat),
            rounding::value(p as nat, b as nat),
        ),
{
    let ghost h = rounding::binade(p as nat);
    let ghost num = rounding::value(p as nat, a as nat) * pow2(unit as nat);
    let ghost den = rounding::value(p as nat, b as nat);
    proof {
        assert(top * h <= 2047 * h) by (nonlinear_arith)
            requires
                top <= 2047,
                h >= 0,
        ;
        rounding::lemma_value_at_least(p as nat, b as nat);
        lemma_rounded_zero(p as nat, top as nat, den);
    }
    let (ma, ea): (u64, u32) = split(p, a);
    let (mb, eb): (u64, u32) = split(p, b);
    if ma == 0 {
        proof {
            rounding::lemma_value_zero(p as nat);
            assert(0 * pow2(unit as nat) == 0);
        }
        return 0;
    }
    let length: u32 = bit_length(ma as u128);
    proof {
        lemma2_to64_rest();
        if length > 53 {
            if length - 1 > 53 {
                lemma_pow2_strictly_increases(53, (length - 1) as nat);
            }
            assert(false);
        }
        lemma_big_powers();
    }
    let t: u32 = 120 - length;
    let ghost pt = pow2(t as nat);
    proof {
        lemma_pow2_pos(t as nat);
        lemma_pow2_adds(length as nat, t as nat);
        lemma_pow2_adds((length - 1) as nat, t as nat);
        lemma_pow2_strictly_increases(120, 127);
        assert(pow2(119) <= ma * pt && ma * pt < pow2(120)) by (nonlinear_arith)
            requires
                pow2((length - 1) as nat) <= ma < pow2(length as nat),
                pow2(119) == pow2((length - 1) as nat) * pt,
                pow2(120) == pow2(length as nat) * pt,
                pt > 0,
        ;
        lemma_pow2_strictly_increases(64, 120);
        lemma_pow2_adds(63, 64);
        assert(pow2(127) == 0x8000_0000_0000_0000 * 0x1_0000_0000_0000_0000);
    }
    let dividend: u128 = ma as u128 * power_of_two(t);
    let q: u128 = dividend / mb as u128;
    let rest: u128 = dividend % mb as u128;
    let k: i32 = ea as i32 - eb as i32 + unit as i32 - t as i32;
    proof {
        lemma_fundamental_div_mod(dividend as int, mb as int);
        lemma_pow2_adds(53, 66);
        assert(q >= pow2(66)) by (nonlinear_arith)
            requires
                dividend >= pow2(119),
                pow2(119) == pow2(53) * pow2(66),
                dividend < mb * q + mb,
                mb < pow2(53),
                q >= 0,
        ;
        lemma_pow2_strictly_increases((p + 1) as nat, 66);
        lemma_pow2_pos(66);
        assert(q <= dividend) by (nonlinear_arith)
            requires
                mb * q <= dividend,
                mb >= 1,
                q >= 0,
        ;
        let x = pow2(ea as nat);
        let y = pow2(eb as nat);
        let z = pow2(unit as nat);
        let down = up(-k as int);
        let raise = up(k as int);
        lemma_pow2_adds(ea as nat, unit as nat);
        lemma_pow2_adds(eb as nat, t as nat);
        lemma_up_balance((ea + unit) as nat, (eb + t) as nat, k as int);
        // x z down == y pt raise
        let c = raise * y;
        lemma_up_positive(k as int);
        lemma_pow2_pos(eb as nat);
        assert(c > 0) by (nonlinear_arith)
            requires
                c == raise * y,
                raise > 0,
                y > 0,
        ;
        let a1 = raise * den;
        assert(a1 == mb * c) by (nonlinear_arith)
            requires
                a1 == raise * den,
                den == mb * y,
                c == raise * y,
        ;
        assert(num * down == dividend * c) by (nonlinear_arith)
            requires
                num == (ma * x) * z,
                dividend == ma * pt,
                (x * z) * down == (y * pt) * raise,
                c == raise * y,
        ;
        assert(dividend * c == q * a1 + rest * c) by (nonlinear_arith)
            requires
                dividend == mb * q + rest,
                a1 == mb * c,
        ;
        assert((q + 1) * a1 == q * a1 + mb * c) by (nonlinear_arith)
            requires
                a1 == mb * c,
        ;
        assert(rest * c < mb * c) by (nonlinear_arith)
            requires
                rest < mb,
                c > 0,
        ;
        if rest == 0 {
            assert(0 * c == 0);
        } else {
            assert(rest * c > 0) by (nonlinear_arith)
                requires
                    rest > 0,
                    c > 0,
            ;
        }
        assert(brackets(q as nat, rest != 0, k as int, num, den));
    }
    round(p, top, q, rest != 0, k, Ghost(num), Ghost(den))
}

/// A finite magnitude of the format rounds to itself.
pub proof fn lemma_rounded_exact(p: nat, top: nat, num: nat, den: nat, b: nat)
    requires
        p >= 1,
        den > 0,
        num == rounding::value(p, b) * den,
    ensures
        rounded(p, top, num, den) == if b < top * rounding::binade(p) {
            b
        } else {
            top * rounding::binade(p)
        },
{
    rounding::lemma_nearest_exact(p, num, den, b);
}

/// The sum of two magnitudes, or with `opposite` their difference, where the
/// first is not the smaller one.
pub fn combine(p: u32, top: u32, a: u64, b: u64, opposite: bool) -> (r: u64)
    requires
        2 <= p <= 53,
        1 <= top <= 2047,
        b <= a < top * rounding::binade(p as nat),
    ensures
        rounding::value(p as nat, b as nat) <= rounding::value(p as nat, a as nat),
        !opposite ==> r == rounded(
            p as nat,
            top as nat,
            rounding::value(p as nat, a as nat) + rounding::value(p as nat, b as nat),
            1,
        ),
        opposite ==> r == rounded(
            p as nat,
            top as nat,
            (rounding::value(p as nat, a as nat) - rounding::value(p as nat, b as nat)) as nat,
            1,
        ),
{
    let ghost h = rounding::binade(p as nat);
    let ghost va = rounding::value(p as nat, a as nat);
    let ghost vb = rounding::value(p as nat, b as nat);
    proof {
        rounding::lemma_value_ordered_weakly(p as nat, b as nat, a as nat);
        assert(top * h <= 2047 * h) by (nonlinear_arith)
            requires
                top <= 2047,
                h >= 0,
        ;
    }
    let ghost num: nat = if opposite {
        (va - vb) as nat
    } else {
        va + vb
    };
    let (ma, ea): (u64, u32) = split(p, a);
    let (mb, eb): (u64, u32) = split(p, b);
    if mb == 0 {
        proof {
            rounding::lemma_value_zero(p as nat);
            lemma_rounded_exact(p as nat, top as nat, num, 1, a as nat);
        }
        return a;
    }
    proof {
        lemma2_to64_rest();
        lemma_big_powers();
        lemma_exponent_ordered(p as nat, b as nat, a as nat);
        lemma_pow2_adds(63, 64);
    }
    let d: u32 = ea - eb;
    if d <= 70 {
        proof {
            lemma_pow2_adds(53, 70);
            lemma_pow2_pos(d as nat);
            if d < 70 {
                lemma_pow2_strictly_increases(d as nat, 70);
            }
            assert(0 <= ma * pow2(d as nat) <= pow2(123)) by (nonlinear_arith)
                requires
                    ma < pow2(53),
                    0 < pow2(d as nat) <= pow2(70),
                    pow2(123) == pow2(53) * pow2(70),
            ;
            lemma_pow2_strictly_increases(53, 123);
            lemma_pow2_unfold(124);
            lemma_pow2_adds(eb as nat, d as nat);
            lemma_pow2_pos(eb as nat);
            let y = pow2(eb as nat);
            let x = ma * pow2(d as nat);
            assert(va == x * y) by (nonlinear_arith)
                requires
                    va == ma * pow2(ea as nat),
                    pow2(ea as nat) == y * pow2(d as nat),
                    x == ma * pow2(d as nat),
            ;
            assert(mb <= x) by (nonlinear_arith)
                requires
                    mb * y <= x * y,
                    y > 0,
            ;
            assert((x + mb) * y == x * y + mb * y) by (nonlinear_arith);
            assert((x - mb) * y == x * y - mb * y) by (nonlinear_arith);
        }
        let aligned: u128 = ma as u128 * power_of_two(d);
        let q: u128 = if opposite {
            aligned - mb as u128
        } else {
            aligned + mb as u128
        };
        if q == 0 {
            proof {
                assert(0 * pow2(eb as nat) == 0);
                lemma_rounded_zero(p as nat, top as nat, 1);
            }
            return 0;
        }
        proof {
            assert(num == q * pow2(eb as nat));
            assert(pow2(0) == 1) by {
                lemma2_to64();
            }
            assert(num * 1 == num);
            assert(pow2(eb as nat) * 1 == pow2(eb as nat));
            assert(brackets(q as nat, false, eb as int, num, 1));
        }
        round(p, top, q, false, eb as i32, Ghost(num), Ghost(1))
    } else {
        let k: i32 = ea as i32 - 16;
        proof {
            lemma2_to64();
            lemma_pow2_adds(53, 16);
            lemma_pow2_strictly_increases(69, 127);
            assert(ma * 0x10000 < pow2(69)) by (nonlinear_arith)
                requires
                    ma < pow2(53),
                    pow2(69) == pow2(53) * 0x10000,
            ;
            lemma_pow2_adds((p - 1) as nat, 16);
            lemma_pow2_strictly_increases((p + 1) as nat, (p + 15) as nat);
            assert(ma * 0x10000 >= pow2((p + 15) as nat)) by (nonlinear_arith)
                requires
                    ma >= rounding::binade(p as nat),
                    pow2((p + 15) as nat) == rounding::binade(p as nat) * 0x10000,
            ;
            lemma_pow2_pos((p + 1) as nat);
        }
        let lifted: u128 = ma as u128 * 0x10000;
        let q: u128 = if opposite {
            lifted - 1
        } else {
            lifted
        };
        proof {
            let s = pow2(k as nat);
            let y = pow2(eb as nat);
            lemma_pow2_adds(k as nat, 16);
            lemma_pow2_adds(53, eb as nat);
            lemma_pow2_strictly_increases((53 + eb) as nat, k as nat);
            lemma_pow2_pos(eb as nat);
            assert(vb < s) by (nonlinear_arith)
                requires
                    vb == mb * y,
                    mb < pow2(53),
                    y > 0,
                    pow2((53 + eb) as nat) == pow2(53) * y,
                    pow2((53 + eb) as nat) < s,
            ;
            assert(vb > 0) by (nonlinear_arith)
                requires
                    vb == mb * y,
                    mb > 0,
                    y > 0,
            ;
            assert(va == lifted * s) by (nonlinear_arith)
                requires
                    va == ma * pow2(ea as nat),
                    pow2(ea as nat) == s * 0x10000,
                    lifted == ma * 0x10000,
            ;
            assert((lifted + 1) * s == lifted * s + s) by (nonlinear_arith);
            assert((lifted - 1) * s == lifted * s - s) by (nonlinear_arith);
            assert(s * 1 == s);
            assert(num * 1 == num);
            assert(brackets(q as nat, true, k as int, num, 1));
        }
        round(p, top, q, true, k, Ghost(num), Ghost(1))
    }
}

/// A larger magnitude has no smaller exponent.
proof fn lemma_exponent_ordered(p: nat, b: nat, a: nat)
    requires
        p >= 1,
        b <= a,
    ensures
        rounding::exponent(p, b) <= rounding::exponent(p, a),
{
    lemma_pow2_pos((p - 1) as nat);
    lemma_div_is_ordered(b as int, a as int, rounding::binade(p) as int);
}

/// A magnitude of a format with precision `source`, rounded to the format with
/// precision `p`, where one unit of the first is `2^shift` units of the second.
pub fn convert(source: u32, p: u32, top: u32, shift: i32, a: u64) -> (r: u64)
    requires
        2 <= source <= 53,
        2 <= p <= 53,
        1 <= top <= 2047,
        -1074 <= shift <= 1074,
        a < 2047 * rounding::binade(source as nat),
    ensures
        r == rounded(
            p as nat,
            top as nat,
            rounding::value(source as nat, a as nat) * up(shift as int),
            up(-shift as int),
        ),
{
    let ghost num = rounding::value(source as nat, a as nat) * up(shift as int);
    let ghost den = up(-shift as int);
    proof {
        lemma_up_positive(-shift as int);
        lemma_rounded_zero(p as nat, top as nat, den);
    }
    let (m, e): (u64, u32) = split(source, a);
    if m == 0 {
        proof {
            rounding::lemma_value_zero(source as nat);
            assert(0 * up(shift as int) == 0);
        }
        return 0;
    }
    let k: i32 = e as i32 + shift;
    proof {
        lemma_big_powers();
        lemma2_to64_rest();
        assert(pow2(0) == 1) by {
            lemma2_to64();
        }
        let x = pow2(e as nat);
        if shift >= 0 {
            lemma_pow2_adds(e as nat, shift as nat);
            assert(up(-k as int) == 1);
            assert(den == 1);
            assert(m * (up(k as int) * 1) == ((m * x) * up(shift as int)) * 1) by (nonlinear_arith)
                requires
                    up(k as int) == x * up(shift as int),
            ;
        } else {
            lemma_up_balance(e as nat, (-shift) as nat, k as int);
            assert(up(shift as int) == 1);
            assert(m * (up(k as int) * den) == ((m * x) * 1) * up(-k as int)) by (nonlinear_arith)
                requires
                    x * up(-k as int) == den * up(k as int),
            ;
        }
        assert(brackets(m as nat, false, k as int, num, den));
        lemma_pow2_strictly_increases(53, 127);
    }
    round(p, top, m as u128, false, k, Ghost(num), Ghost(den))
}

} // verus!
