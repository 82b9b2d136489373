//! Bit-pattern arithmetic against the native operations.

use foot_cycle_clip::binary32::Binary32;
use foot_cycle_clip::binary64::Binary64;
use foot_cycle_clip::model::Quat;
use foot_cycle_clip::model::Vec3;

fn b32(number: f32) -> Binary32 {
    Binary32::from_bits(number.to_bits())
}

fn b64(number: f64) -> Binary64 {
    Binary64::from_bits(number.to_bits())
}

/// A fixed stream of words.
struct Words(u64);

impl Words {
    fn word(&mut self) -> u64 {
        self.0 ^= self.0 << 13;
        self.0 ^= self.0 >> 7;
        self.0 ^= self.0 << 17;
        self.0
    }

    /// A pattern from all over the format, with a lean towards the edges of
    /// its binades and of its exponent range.
    fn double(&mut self) -> f64 {
        let word = self.word();
        let bits = match word % 8 {
            0 => self.word() & 0x800f_ffff_ffff_ffff,
            1 => self.word() | 0x7fe0_0000_0000_0000,
            2 => (self.word() & 0xfff0_0000_0000_0000) | (self.word() % 4),
            3 => (self.word() & 0xfff0_0000_0000_0000) | (0x000f_ffff_ffff_ffff - self.word() % 4),
            4 => 0x3fe0_0000_0000_0000 + (self.word() >> 10),
            _ => self.word(),
        };
        f64::from_bits(bits)
    }

    fn single(&mut self) -> f32 {
        let word = self.word() as u32;
        let bits = match self.word() % 8 {
            0 => word & 0x807f_ffff,
            1 => word | 0x7f00_0000,
            2 => (word & 0xff80_0000) | (self.word() % 4) as u32,
            3 => (word & 0xff80_0000) | (0x007f_ffff - (self.word() % 4) as u32),
            4 => 0x3f00_0000 + (word >> 8),
            _ => word,
        };
        f32::from_bits(bits)
    }
}

fn same_double(result: Binary64, expected: f64, what: &str, a: f64, b: f64) {
    if expected.is_nan() {
        assert!(f64::from_bits(result.bits).is_nan(), "{a:e} {what} {b:e}");
    } else {
        assert_eq!(result.bits, expected.to_bits(), "{a:e} {what} {b:e}");
    }
}

fn same_single(result: Binary32, expected: f32, what: &str, a: f64, b: f64) {
    if expected.is_nan() {
        assert!(f32::from_bits(result.bits).is_nan(), "{a:e} {what} {b:e}");
    } else {
        assert_eq!(result.bits, expected.to_bits(), "{a:e} {what} {b:e}");
    }
}

fn hold_doubles(a: f64, b: f64) {
    let (x, y) = (b64(a), b64(b));
    same_double(x.times(y), a * b, "*", a, b);
    same_double(x.over(y), a / b, "/", a, b);
    same_double(x.plus(y), a + b, "+", a, b);
    same_double(x.minus(y), a - b, "-", a, b);
    same_single(x.narrow(), a as f32, "narrowed", a, a);
    assert_eq!(x.equals(y), a == b);
    assert_eq!(x.less_than(y), a < b);
    assert_eq!(x.at_most(y), a <= b);
    assert_eq!(x.is_finite(), a.is_finite());
}

fn hold_singles(a: f32, b: f32) {
    let (x, y) = (b32(a), b32(b));
    let (wide_a, wide_b) = (f64::from(a), f64::from(b));
    same_single(x.times(y), a * b, "*", wide_a, wide_b);
    same_single(x.plus(y), a + b, "+", wide_a, wide_b);
    same_single(x.next_up(), a.next_up(), "next up", wide_a, wide_a);
    same_double(x.widen(), wide_a, "widened", wide_a, wide_a);
    assert_eq!(x.equals(y), a == b);
    assert_eq!(x.less_than(y), a < b);
    assert_eq!(x.at_most(y), a <= b);
    assert_eq!(x.is_finite(), a.is_finite());
}

const EDGES_64: [f64; 14] = [
    0.0,
    -0.0,
    1.0,
    -1.0,
    0.1,
    1.5,
    f64::EPSILON,
    f64::MIN_POSITIVE,
    5e-324,
    f64::MAX,
    f64::MIN,
    f64::INFINITY,
    f64::NEG_INFINITY,
    f64::NAN,
];

const EDGES_32: [f32; 14] = [
    0.0,
    -0.0,
    1.0,
    -1.0,
    0.1,
    1.5,
    f32::EPSILON,
    f32::MIN_POSITIVE,
    1e-45,
    f32::MAX,
    f32::MIN,
    f32::INFINITY,
    f32::NEG_INFINITY,
    f32::NAN,
];

#[test]
fn binary64_operations_match_the_native_ones_at_the_edges() {
    for a in EDGES_64 {
        for b in EDGES_64 {
            hold_doubles(a, b);
        }
    }
}

#[test]
fn binary32_operations_match_the_native_ones_at_the_edges() {
    for a in EDGES_32 {
        for b in EDGES_32 {
            hold_singles(a, b);
        }
    }
}

#[test]
fn binary64_operations_match_the_native_ones_across_the_format() {
    let mut words = Words(0x9e37_79b9_7f4a_7c15);
    for _ in 0..60_000 {
        let a = words.double();
        let b = words.double();
        hold_doubles(a, b);
    }
}

#[test]
fn binary32_operations_match_the_native_ones_across_the_format() {
    let mut words = Words(0xd1b5_4a32_d192_ed03);
    for _ in 0..60_000 {
        let a = words.single();
        let b = words.single();
        hold_singles(a, b);
    }
}

#[test]
fn operands_close_together_cancel_and_round_as_natively() {
    let mut words = Words(0x2545_f491_4f6c_dd1d);
    for _ in 0..20_000 {
        let a = words.double();
        let near = f64::from_bits(a.to_bits().wrapping_add(words.word() % 64));
        hold_doubles(a, near);
        hold_doubles(a, -near);
        let scale = f64::from_bits((1023 - words.word() % 60) << 52);
        hold_doubles(a, near * scale);
        hold_doubles(a, -near * scale);
    }
}

#[test]
fn narrowing_rounds_ties_to_even() {
    let half_step = f64::EPSILON * f64::from(1u32 << 28);
    let step = 2.0 * half_step;
    for (number, expected) in [
        (1.0 + half_step, 1.0_f32),
        (1.0 + half_step + f64::EPSILON, 1.0 + f32::EPSILON),
        (1.0 + step + half_step, 1.0 + 2.0 * f32::EPSILON),
        (f64::from(f32::MAX), f32::MAX),
        (3.402_823_6e38, f32::INFINITY),
        (1e-46, 0.0),
        (7.006_492_321_624_085e-46, 0.0),
        (7.006_492_321_624_087e-46, 1e-45),
    ] {
        assert_eq!(number as f32, expected);
        assert_eq!(b64(number).narrow(), b32(expected));
        assert_eq!(b64(-number).narrow(), b32(-expected));
    }
}

#[test]
fn narrowing_undoes_widening() {
    for number in EDGES_32 {
        if !number.is_nan() {
            assert_eq!(b32(number).widen().narrow(), b32(number));
        }
    }
}

#[test]
fn squared_length_and_zero_tests_follow_the_components() {
    let three_four = Quat {
        x: b32(3.0),
        y: b32(0.0),
        z: b32(-4.0),
        w: b32(0.0),
    };
    assert_eq!(three_four.length_squared(), b32(25.0));
    assert!(!three_four.is_zero());
    assert!(three_four.is_finite());
    let mut words = Words(0x0123_4567_89ab_cdef);
    for _ in 0..10_000 {
        let [x, y, z, w] = [0; 4].map(|_| words.single());
        let native = glam::Quat::from_xyzw(x, y, z, w);
        let stored = Quat {
            x: b32(x),
            y: b32(y),
            z: b32(z),
            w: b32(w),
        };
        same_single(
            stored.length_squared(),
            native.length_squared(),
            "squared",
            f64::from(x),
            f64::from(w),
        );
        assert_eq!(stored.is_finite(), native.is_finite());
    }
    let zeros = Vec3 {
        x: b32(-0.0),
        y: b32(0.0),
        z: b32(-0.0),
    };
    assert!(zeros.is_zero());
    assert!(!Vec3 {
        y: b32(1e-45),
        ..zeros
    }
    .is_zero());
    assert!(!Vec3 {
        z: b32(f32::NAN),
        ..zeros
    }
    .is_finite());
}
