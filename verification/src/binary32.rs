//! Binary32 numbers as bit patterns, with correctly rounded arithmetic.

use crate::binary64::Binary64;
use crate::magnitude;
use crate::rounding;
use vstd::arithmetic::power2::pow2;
use vstd::prelude::*;

verus! {

/// The sign bit of a binary32 pattern.
pub const SIGN_32: u32 = 0x8000_0000;

/// The magnitude of a binary32 infinity; larger magnitudes are not numbers.
pub const INFINITY_32: u32 = 0x7f80_0000;

/// The pattern that arithmetic without a result gives.
pub const NAN_32: u32 = 0x7fc0_0000;

/// A binary32 number, held as its bit pattern.
#[derive(Clone, Copy, Debug, PartialEq, Eq, Structural)]
pub struct Binary32 {
    /// The interchange-format bit pattern.
    pub bits: u32,
}

/// A binary32 number from a sign and a magnitude.
pub open spec fn signed_32(negative: bool, magnitude: nat) -> Binary32 {
    Binary32 {
        bits: (magnitude + if negative {
            SIGN_32 as nat
        } else {
            0
        }) as u32,
    }
}

/// `num / den`, counted in units of the smallest subnormal, as a magnitude.
pub open spec fn rounded_32(num: nat, den: nat) -> nat {
    magnitude::rounded(24, 255, num, den)
}

impl Binary32 {
    /// Whether the sign bit is set.
    pub open spec fn negative(self) -> bool {
        self.bits >= SIGN_32
    }

    /// The bit pattern without its sign.
    pub open spec fn magnitude(self) -> nat {
        if self.bits >= SIGN_32 {
            (self.bits - SIGN_32) as nat
        } else {
            self.bits as nat
        }
    }

    /// Whether this is not a number.
    pub open spec fn nan(self) -> bool {
        self.magnitude() > INFINITY_32
    }

    /// Whether this is an infinity.
    pub open spec fn infinite(self) -> bool {
        self.magnitude() == INFINITY_32
    }

    /// Whether this is a finite number.
    pub open spec fn finite(self) -> bool {
        self.magnitude() < INFINITY_32
    }

    /// The place of a number in the order of all numbers: both zeros are at
    /// zero, and consecutive numbers have consecutive places.
    pub open spec fn place(self) -> int {
        if self.negative() {
            -(self.magnitude() as int)
        } else {
            self.magnitude() as int
        }
    }

    /// The absolute value of a finite number, in units of the smallest
    /// subnormal `2^-149`.
    pub open spec fn value(self) -> nat {
        rounding::value(24, self.magnitude())
    }

    /// Numeric equality; nothing equals what is not a number.
    pub open spec fn eq_number(self, other: Binary32) -> bool {
        !self.nan() && !other.nan() && self.place() == other.place()
    }

    /// Numeric order; nothing is ordered with what is not a number.
    pub open spec fn lt_number(self, other: Binary32) -> bool {
        !self.nan() && !other.nan() && self.place() < other.place()
    }

    /// Numeric order or equality.
    pub open spec fn le_number(self, other: Binary32) -> bool {
        !self.nan() && !other.nan() && self.place() <= other.place()
    }

    /// Whether two numbers are equal or adjacent in binary32.
    pub open spec fn one_instant(self, other: Binary32) -> bool {
        !self.nan() && !other.nan() && -1 <= self.place() - other.place() <= 1
    }

    /// The least number above this one; what is not a number and positive
    /// infinity stay as they are.
    pub open spec fn successor(self) -> Binary32 {
        if self.nan() || self.bits == INFINITY_32 {
            self
        } else if self.magnitude() == 0 {
            Binary32 { bits: 1 }
        } else if self.negative() {
            Binary32 { bits: (self.bits - 1) as u32 }
        } else {
            Binary32 { bits: (self.bits + 1) as u32 }
        }
    }

    /// The correctly rounded product.
    pub open spec fn product(self, other: Binary32) -> Binary32 {
        let negative = self.negative() != other.negative();
        if self.nan() || other.nan() {
            Binary32 { bits: NAN_32 }
        } else if self.infinite() || other.infinite() {
            if self.magnitude() == 0 || other.magnitude() == 0 {
                Binary32 { bits: NAN_32 }
            } else {
                signed_32(negative, INFINITY_32 as nat)
            }
        } else {
            signed_32(negative, rounded_32(self.value() * other.value(), pow2(149)))
        }
    }

    /// The correctly rounded sum.
    pub open spec fn sum(self, other: Binary32) -> Binary32 {
        if self.nan() || other.nan() {
            Binary32 { bits: NAN_32 }
        } else if self.infinite() {
            if other.infinite() && self.negative() != other.negative() {
                Binary32 { bits: NAN_32 }
            } else {
                self
            }
        } else if other.infinite() {
            other
        } else if self.negative() == other.negative() {
            signed_32(self.negative(), rounded_32(self.value() + other.value(), 1))
        } else if self.magnitude() == other.magnitude() {
            signed_32(false, 0)
        } else if self.magnitude() > other.magnitude() {
            signed_32(self.negative(), rounded_32((self.value() - other.value()) as nat, 1))
        } else {
            signed_32(other.negative(), rounded_32((other.value() - self.value()) as nat, 1))
        }
    }

    /// The number as binary64, which holds every binary32 number exactly.
    pub open spec fn widened(self) -> Binary64 {
        if self.nan() {
            Binary64 { bits: crate::binary64::NAN_64 }
        } else if self.infinite() {
            crate::binary64::signed_64(self.negative(), crate::binary64::INFINITY_64 as nat)
        } else {
            crate::binary64::signed_64(
                self.negative(),
                crate::binary64::rounded_64(self.value() * pow2(925), 1),
            )
        }
    }

    /// The number that a bit pattern denotes.
    pub fn from_bits(bits: u32) -> (r: Binary32)
        ensures
            r.bits == bits,
    {
        Binary32 { bits }
    }

    fn split_sign(self) -> (r: (bool, u32))
        ensures
            r.0 == self.negative(),
            r.1 == self.magnitude(),
            r.1 < SIGN_32,
    {
        if self.bits >= SIGN_32 {
            (true, self.bits - SIGN_32)
        } else {
            (false, self.bits)
        }
    }

    pub(crate) fn join_sign(negative: bool, magnitude: u32) -> (r: Binary32)
        requires
            magnitude < SIGN_32,
        ensures
            r == signed_32(negative, magnitude as nat),
    {
        Binary32 {
            bits: if negative {
                magnitude + SIGN_32
            } else {
                magnitude
            },
        }
    }

    /// Whether this is a finite number.
    pub fn is_finite(self) -> (r: bool)
        ensures
            r == self.finite(),
    {
        self.split_sign().1 < INFINITY_32
    }

    /// Numeric equality.
    pub fn equals(self, other: Binary32) -> (r: bool)
        ensures
            r == self.eq_number(other),
    {
        let (na, a): (bool, u32) = self.split_sign();
        let (nb, b): (bool, u32) = other.split_sign();
        a <= INFINITY_32 && b <= INFINITY_32 && a == b && (na == nb || a == 0)
    }

    /// Numeric order.
    pub fn less_than(self, other: Binary32) -> (r: bool)
        ensures
            r == self.lt_number(other),
    {
        let (na, a): (bool, u32) = self.split_sign();
        let (nb, b): (bool, u32) = other.split_sign();
        if a > INFINITY_32 || b > INFINITY_32 {
            false
        } else if na {
            if nb {
                b < a
            } else {
                a > 0 || b > 0
            }
        } else {
            !nb && a < b
        }
    }

    /// Numeric order or equality.
    pub fn at_most(self, other: Binary32) -> (r: bool)
        ensures
            r == self.le_number(other),
    {
        self.less_than(other) || self.equals(other)
    }

    /// The least number above this one.
    pub fn next_up(self) -> (r: Binary32)
        ensures
            r == self.successor(),
            self.nan() ==> r.nan(),
            !self.nan() && self.bits != INFINITY_32 ==> !r.nan() && r.place() == self.place() + 1,
    {
        let (negative, magnitude): (bool, u32) = self.split_sign();
        if magnitude > INFINITY_32 || self.bits == INFINITY_32 {
            self
        } else if magnitude == 0 {
            Binary32 { bits: 1 }
        } else if negative {
            Binary32 { bits: self.bits - 1 }
        } else {
            Binary32 { bits: self.bits + 1 }
        }
    }

    /// The correctly rounded product.
    pub fn times(self, other: Binary32) -> (r: Binary32)
        ensures
            r == self.product(other),
    {
        let (na, a): (bool, u32) = self.split_sign();
        let (nb, b): (bool, u32) = other.split_sign();
        if a > INFINITY_32 || b > INFINITY_32 {
            Binary32 { bits: NAN_32 }
        } else if a == INFINITY_32 || b == INFINITY_32 {
            if a == 0 || b == 0 {
                Binary32 { bits: NAN_32 }
            } else {
                Self::join_sign(na != nb, INFINITY_32)
            }
        } else {
            proof {
                lemma_infinity_32();
            }
            let r: u64 = magnitude::multiply(24, 255, 149, a as u64, b as u64);
            Self::join_sign(na != nb, r as u32)
        }
    }

    /// The correctly rounded sum.
    pub fn plus(self, other: Binary32) -> (r: Binary32)
        ensures
            r == self.sum(other),
    {
        let (na, a): (bool, u32) = self.split_sign();
        let (nb, b): (bool, u32) = other.split_sign();
        if a > INFINITY_32 || b > INFINITY_32 {
            Binary32 { bits: NAN_32 }
        } else if a == INFINITY_32 {
            if b == INFINITY_32 && na != nb {
                Binary32 { bits: NAN_32 }
            } else {
                self
            }
        } else if b == INFINITY_32 {
            other
        } else if na != nb && a == b {
            Self::join_sign(false, 0)
        } else {
            proof {
                lemma_infinity_32();
            }
            if a >= b {
                let r: u64 = magnitude::combine(24, 255, a as u64, b as u64, na != nb);
                Self::join_sign(na, r as u32)
            } else {
                let r: u64 = magnitude::combine(24, 255, b as u64, a as u64, na != nb);
                Self::join_sign(nb, r as u32)
            }
        }
    }

    /// The number as binary64.
    pub fn widen(self) -> (r: Binary64)
        ensures
            r == self.widened(),
    {
        let (n, a): (bool, u32) = self.split_sign();
        if a > INFINITY_32 {
            Binary64 { bits: crate::binary64::NAN_64 }
        } else if a == INFINITY_32 {
            Binary64::join_sign(n, crate::binary64::INFINITY_64)
        } else {
            proof {
                lemma_infinity_32();
                crate::binary64::lemma_infinity_64();
            }
            Binary64::join_sign(n, magnitude::convert(24, 53, 2047, 925, a as u64))
        }
    }
}

/// The magnitude of infinity is the one whose exponent field is all ones.
pub proof fn lemma_infinity_32()
    ensures
        255 * rounding::binade(24) == INFINITY_32,
{
    vstd::arithmetic::power2::lemma2_to64();
}

} // verus!
