//! Binary64 numbers as bit patterns, with correctly rounded arithmetic.

use crate::binary32::Binary32;
use crate::magnitude;
use crate::rounding;
use vstd::arithmetic::power2::pow2;
use vstd::prelude::*;

verus! {

/// The sign bit of a binary64 pattern.
pub const SIGN_64: u64 = 0x8000_0000_0000_0000;

/// The magnitude of a binary64 infinity; larger magnitudes are not numbers.
pub const INFINITY_64: u64 = 0x7ff0_0000_0000_0000;

/// The pattern that arithmetic without a result gives.
pub const NAN_64: u64 = 0x7ff8_0000_0000_0000;

/// A binary64 number, held as its bit pattern.
#[derive(Clone, Copy, Debug, PartialEq, Eq, Structural)]
pub struct Binary64 {
    /// The interchange-format bit pattern.
    pub bits: u64,
}

/// A binary64 number from a sign and a magnitude.
pub open spec fn signed_64(negative: bool, magnitude: nat) -> Binary64 {
    Binary64 {
        bits: (magnitude + if negative {
            SIGN_64 as nat
        } else {
            0
        }) as u64,
    }
}

/// `num / den`, counted in units of the smallest subnormal, as a magnitude.
pub open spec fn rounded_64(num: nat, den: nat) -> nat {
    magnitude::rounded(53, 2047, num, den)
}

impl Binary64 {
    /// Whether the sign bit is set.
    pub open spec fn negative(self) -> bool {
        self.bits >= SIGN_64
    }

    /// The bit pattern without its sign.
    pub open spec fn magnitude(self) -> nat {
        if self.bits >= SIGN_64 {
            (self.bits - SIGN_64) as nat
        } else {
            self.bits as nat
        }
    }

    /// Whether this is not a number.
    pub open spec fn nan(self) -> bool {
        self.magnitude() > INFINITY_64
    }

    /// Whether this is an infinity.
    pub open spec fn infinite(self) -> bool {
        self.magnitude() == INFINITY_64
    }

    /// Whether this is a finite number.
    pub open spec fn finite(self) -> bool {
        self.magnitude() < INFINITY_64
    }

    /// The place of a number in the order of all numbers: both zeros are at
    /// zero, and consecutive numbers have consecutive places.
    pub open spec fn place(self) -> int {
        if self.negative() {
            -(self.magnitude() as int)
        } else {
            self.magnitude() as int
        }
    }

    /// The absolute value of a finite number, in units of the smallest
    /// subnormal `2^-1074`.
    pub open spec fn value(self) -> nat {
        rounding::value(53, self.magnitude())
    }

    /// Numeric equality; nothing equals what is not a number.
    pub open spec fn eq_number(self, other: Binary64) -> bool {
        !self.nan() && !other.nan() && self.place() == other.place()
    }

    /// Numeric order; nothing is ordered with what is not a number.
    pub open spec fn lt_number(self, other: Binary64) -> bool {
        !self.nan() && !other.nan() && self.place() < other.place()
    }

    /// Numeric order or equality.
    pub open spec fn le_number(self, other: Binary64) -> bool {
        !self.nan() && !other.nan() && self.place() <= other.place()
    }

    /// The number with its sign flipped.
    pub open spec fn negated(self) -> Binary64 {
        signed_64(!self.negative(), self.magnitude())
    }

    /// The correctly rounded product.
    pub open spec fn product(self, other: Binary64) -> Binary64 {
        let negative = self.negative() != other.negative();
        if self.nan() || other.nan() {
            Binary64 { bits: NAN_64 }
        } else if self.infinite() || other.infinite() {
            if self.magnitude() == 0 || other.magnitude() == 0 {
                Binary64 { bits: NAN_64 }
            } else {
                signed_64(negative, INFINITY_64 as nat)
            }
        } else {
            signed_64(negative, rounded_64(self.value() * other.value(), pow2(1074)))
        }
    }

    /// The correctly rounded quotient.
    pub open spec fn quotient(self, other: Binary64) -> Binary64 {
        let negative = self.negative() != other.negative();
        if self.nan() || other.nan() {
            Binary64 { bits: NAN_64 }
        } else if self.infinite() {
            if other.infinite() {
                Binary64 { bits: NAN_64 }
            } else {
                signed_64(negative, INFINITY_64 as nat)
            }
        } else if other.infinite() {
            signed_64(negative, 0)
        } else if other.magnitude() == 0 {
            if self.magnitude() == 0 {
                Binary64 { bits: NAN_64 }
            } else {
                signed_64(negative, INFINITY_64 as nat)
            }
        } else {
            signed_64(negative, rounded_64(self.value() * pow2(1074), other.value()))
        }
    }

    /// The correctly rounded sum.
    pub open spec fn sum(self, other: Binary64) -> Binary64 {
        if self.nan() || other.nan() {
            Binary64 { bits: NAN_64 }
        } else if self.infinite() {
            if other.infinite() && self.negative() != other.negative() {
                Binary64 { bits: NAN_64 }
            } else {
                self
            }
        } else if other.infinite() {
            other
        } else if self.negative() == other.negative() {
            signed_64(self.negative(), rounded_64(self.value() + other.value(), 1))
        } else if self.magnitude() == other.magnitude() {
            signed_64(false, 0)
        } else if self.magnitude() > other.magnitude() {
            signed_64(self.negative(), rounded_64((self.value() - other.value()) as nat, 1))
        } else {
            signed_64(other.negative(), rounded_64((other.value() - self.value()) as nat, 1))
        }
    }

    /// The correctly rounded difference.
    pub open spec fn difference(self, other: Binary64) -> Binary64 {
        self.sum(other.negated())
    }

    /// The number correctly rounded to binary32.
    pub open spec fn narrowed(self) -> Binary32 {
        if self.nan() {
            Binary32 { bits: crate::binary32::NAN_32 }
        } else if self.infinite() {
            crate::binary32::signed_32(self.negative(), crate::binary32::INFINITY_32 as nat)
        } else {
            crate::binary32::signed_32(
                self.negative(),
                crate::binary32::rounded_32(self.value(), pow2(925)),
            )
        }
    }

    /// The number that a bit pattern denotes.
    pub fn from_bits(bits: u64) -> (r: Binary64)
        ensures
            r.bits == bits,
    {
        Binary64 { bits }
    }

    fn split_sign(self) -> (r: (bool, u64))
        ensures
            r.0 == self.negative(),
            r.1 == self.magnitude(),
            r.1 < SIGN_64,
    {
        if self.bits >= SIGN_64 {
            (true, self.bits - SIGN_64)
        } else {
            (false, self.bits)
        }
    }

    pub(crate) fn join_sign(negative: bool, magnitude: u64) -> (r: Binary64)
        requires
            magnitude < SIGN_64,
        ensures
            r == signed_64(negative, magnitude as nat),
    {
        Binary64 {
            bits: if negative {
                magnitude + SIGN_64
            } else {
                magnitude
            },
        }
    }

    /// Whether this is a finite number.
    pub fn is_finite(self) -> (r: bool)
        ensures
            r == self.finite(),
    {
        self.split_sign().1 < INFINITY_64
    }

    /// Numeric equality.
    pub fn equals(self, other: Binary64) -> (r: bool)
        ensures
            r == self.eq_number(other),
    {
        let (na, a): (bool, u64) = self.split_sign();
        let (nb, b): (bool, u64) = other.split_sign();
        a <= INFINITY_64 && b <= INFINITY_64 && a == b && (na == nb || a == 0)
    }

    /// Numeric order.
    pub fn less_than(self, other: Binary64) -> (r: bool)
        ensures
            r == self.lt_number(other),
    {
        let (na, a): (bool, u64) = self.split_sign();
        let (nb, b): (bool, u64) = other.split_sign();
        if a > INFINITY_64 || b > INFINITY_64 {
            false
        } else if na {
            if nb {
                b < a
            } else {
                a > 0 || b > 0
            }
        } else {
            !nb && a < b
        }
    }

    /// Numeric order or equality.
    pub fn at_most(self, other: Binary64) -> (r: bool)
        ensures
            r == self.le_number(other),
    {
        self.less_than(other) || self.equals(other)
    }

    /// The correctly rounded product.
    pub fn times(self, other: Binary64) -> (r: Binary64)
        ensures
            r == self.product(other),
    {
        let (na, a): (bool, u64) = self.split_sign();
        let (nb, b): (bool, u64) = other.split_sign();
        if a > INFINITY_64 || b > INFINITY_64 {
            Binary64 { bits: NAN_64 }
        } else if a == INFINITY_64 || b == INFINITY_64 {
            if a == 0 || b == 0 {
                Binary64 { bits: NAN_64 }
            } else {
                Self::join_sign(na != nb, INFINITY_64)
            }
        } else {
            proof {
                lemma_infinity_64();
            }
            Self::join_sign(na != nb, magnitude::multiply(53, 2047, 1074, a, b))
        }
    }

    /// The correctly rounded quotient.
    pub fn over(self, other: Binary64) -> (r: Binary64)
        ensures
            r == self.quotient(other),
    {
        let (na, a): (bool, u64) = self.split_sign();
        let (nb, b): (bool, u64) = other.split_sign();
        if a > INFINITY_64 || b > INFINITY_64 {
            Binary64 { bits: NAN_64 }
        } else if a == INFINITY_64 {
            if b == INFINITY_64 {
                Binary64 { bits: NAN_64 }
            } else {
                Self::join_sign(na != nb, INFINITY_64)
            }
        } else if b == INFINITY_64 {
            Self::join_sign(na != nb, 0)
        } else if b == 0 {
            if a == 0 {
                Binary64 { bits: NAN_64 }
            } else {
                Self::join_sign(na != nb, INFINITY_64)
            }
        } else {
            proof {
                lemma_infinity_64();
            }
            Self::join_sign(na != nb, magnitude::divide(53, 2047, 1074, a, b))
        }
    }

    /// The correctly rounded sum.
    pub fn plus(self, other: Binary64) -> (r: Binary64)
        ensures
            r == self.sum(other),
    {
        let (na, a): (bool, u64) = self.split_sign();
        let (nb, b): (bool, u64) = other.split_sign();
        if a > INFINITY_64 || b > INFINITY_64 {
            Binary64 { bits: NAN_64 }
        } else if a == INFINITY_64 {
            if b == INFINITY_64 && na != nb {
                Binary64 { bits: NAN_64 }
            } else {
                self
            }
        } else if b == INFINITY_64 {
            other
        } else if na != nb && a == b {
            Self::join_sign(false, 0)
        } else {
            proof {
                lemma_infinity_64();
            }
            if a >= b {
                Self::join_sign(na, magnitude::combine(53, 2047, a, b, na != nb))
            } else {
                Self::join_sign(nb, magnitude::combine(53, 2047, b, a, na != nb))
            }
        }
    }

    /// The correctly rounded difference.
    pub fn minus(self, other: Binary64) -> (r: Binary64)
        ensures
            r == self.difference(other),
    {
        let (nb, b): (bool, u64) = other.split_sign();
        self.plus(Self::join_sign(!nb, b))
    }

    /// The number correctly rounded to binary32.
    pub fn narrow(self) -> (r: Binary32)
        ensures
            r == self.narrowed(),
    {
        let (n, a): (bool, u64) = self.split_sign();
        if a > INFINITY_64 {
            Binary32 { bits: crate::binary32::NAN_32 }
        } else if a == INFINITY_64 {
            Binary32::join_sign(n, crate::binary32::INFINITY_32)
        } else {
            proof {
                lemma_infinity_64();
                crate::binary32::lemma_infinity_32();
                assert(self.value() * 1 == self.value());
            }
            let r: u64 = magnitude::convert(53, 24, 255, -925, a);
            Binary32::join_sign(n, r as u32)
        }
    }
}

/// The magnitude of infinity is the one whose exponent field is all ones.
pub proof fn lemma_infinity_64()
    ensures
        2047 * rounding::binade(53) == INFINITY_64,
{
    vstd::arithmetic::power2::lemma2_to64_rest();
}

} // verus!
