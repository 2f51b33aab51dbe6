//! Binary floating point (IEEE 754 `binary64`) over plain 64-bit words.
//!
//! A [`Binary64`] is the word that encodes a number. What a word means is said in whole
//! numbers: each finite number is a whole multiple of the smallest positive one, and
//! [`units`] counts that multiple. Every operation returns the number nearest to the exact
//! result, a tie going to the even word, so a contract can speak of the exact result alone.

pub mod arithmetic;
pub mod closest;
pub mod laws;
pub mod rounding;
pub mod scaling;

use vstd::arithmetic::power2::pow2;
use vstd::prelude::*;

verus! {

/// The word of the sign bit alone.
pub const SIGN: u64 = 0x8000_0000_0000_0000;

/// The magnitude of the two infinities. Larger magnitudes are not numbers.
pub const INFINITE: u64 = 0x7ff0_0000_0000_0000;

/// How many fractions share one exponent.
pub const FRACTIONS: u64 = 0x10_0000_0000_0000;

/// The word that stands for every result that is not a number.
pub const NOT_A_NUMBER: u64 = 0x7ff8_0000_0000_0000;

/// The word of the number one.
pub const ONE: u64 = 0x3ff0_0000_0000_0000;

/// A `binary64` number, as the word that encodes it.
///
/// `==` compares words: it tells the two zeros apart and finds a word that is not a number
/// equal to itself. The numeric comparisons are methods.
#[derive(Clone, Copy, Debug, PartialEq, Eq, Structural)]
pub struct Binary64 {
    pub bits: u64,
}

/// The size of the number with magnitude `k`, counted in the smallest positive number.
///
/// The definition goes on beyond the finite magnitudes: at [`INFINITE`] it gives the first
/// power of two that is too large for a finite number, which is where rounding gives up.
pub open spec fn units(k: int) -> nat {
    if k < FRACTIONS {
        k as nat
    } else {
        ((FRACTIONS + k % FRACTIONS as int) * pow2((k / FRACTIONS as int - 1) as nat)) as nat
    }
}

/// How many of the smallest positive number make one.
pub open spec fn unit_scale() -> nat {
    pow2(1074)
}

/// `k` is the magnitude nearest to `n / d` units: `n / d` lies between the midpoints to the
/// magnitudes on either side of `k`, and on a midpoint only if `k` is even.
pub open spec fn nearest(k: int, n: nat, d: nat) -> bool {
    &&& 0 <= k <= INFINITE
    &&& k > 0 ==> {
        let low = (units(k - 1) + units(k)) * d;
        low < 2 * n || (low == 2 * n && k % 2 == 0)
    }
    &&& k < INFINITE ==> {
        let high = (units(k) + units(k + 1)) * d;
        2 * n < high || (2 * n == high && k % 2 == 0)
    }
}

/// The magnitude nearest to `n / d` units. There is exactly one.
pub open spec fn rounded(n: nat, d: nat) -> int {
    choose|k: int| nearest(k, n, d)
}

/// The number with a sign and a magnitude.
pub open spec fn signed(negative: bool, k: int) -> Binary64 {
    Binary64 {
        bits: if negative {
            (k + SIGN) as u64
        } else {
            k as u64
        },
    }
}

/// The word for a result that is not a number.
pub open spec fn nan() -> Binary64 {
    Binary64 { bits: NOT_A_NUMBER }
}

impl Binary64 {
    /// The word without its sign bit.
    pub open spec fn magnitude(self) -> int {
        self.bits as int % SIGN as int
    }

    pub open spec fn negative(self) -> bool {
        self.bits >= SIGN
    }

    pub open spec fn is_nan(self) -> bool {
        self.magnitude() > INFINITE
    }

    pub open spec fn is_infinity(self) -> bool {
        self.magnitude() == INFINITE
    }

    pub open spec fn finite(self) -> bool {
        self.magnitude() < INFINITE
    }

    pub open spec fn is_zero(self) -> bool {
        self.magnitude() == 0
    }

    /// The size of a finite number, in units.
    pub open spec fn size(self) -> nat {
        units(self.magnitude())
    }

    /// The value of a finite number, in units.
    pub open spec fn value(self) -> int {
        if self.negative() {
            -(self.size() as int)
        } else {
            self.size() as int
        }
    }

    /// The place of a number among all numbers, the infinities at the ends and the two zeros
    /// in one place.
    pub open spec fn rank(self) -> int {
        if self.negative() {
            -self.magnitude()
        } else {
            self.magnitude()
        }
    }

    /// `self < other`.
    pub open spec fn below(self, other: Self) -> bool {
        &&& !self.is_nan()
        &&& !other.is_nan()
        &&& self.rank() < other.rank()
    }

    /// `self == other` as numbers.
    pub open spec fn equals(self, other: Self) -> bool {
        &&& !self.is_nan()
        &&& !other.is_nan()
        &&& self.rank() == other.rank()
    }

    /// `-self`.
    pub open spec fn opposite(self) -> Self {
        signed(!self.negative(), self.magnitude())
    }

    /// `self + other`.
    pub open spec fn sum(self, other: Self) -> Self {
        if self.is_nan() || other.is_nan() {
            nan()
        } else if self.is_infinity() {
            if other.is_infinity() && self.negative() != other.negative() {
                nan()
            } else {
                self
            }
        } else if other.is_infinity() {
            other
        } else {
            let exact = self.value() + other.value();
            if exact == 0 {
                signed(self.negative() && other.negative(), 0)
            } else if exact < 0 {
                signed(true, rounded((-exact) as nat, 1))
            } else {
                signed(false, rounded(exact as nat, 1))
            }
        }
    }

    /// `self - other`.
    pub open spec fn difference(self, other: Self) -> Self {
        self.sum(other.opposite())
    }

    /// `self * other`.
    pub open spec fn product(self, other: Self) -> Self {
        let negative = self.negative() != other.negative();
        if self.is_nan() || other.is_nan() {
            nan()
        } else if self.is_infinity() || other.is_infinity() {
            if self.is_zero() || other.is_zero() {
                nan()
            } else {
                signed(negative, INFINITE as int)
            }
        } else {
            signed(negative, rounded(self.size() * other.size(), unit_scale()))
        }
    }

    /// `self / other`.
    pub open spec fn quotient(self, other: Self) -> Self {
        let negative = self.negative() != other.negative();
        if self.is_nan() || other.is_nan() {
            nan()
        } else if self.is_infinity() {
            if other.is_infinity() {
                nan()
            } else {
                signed(negative, INFINITE as int)
            }
        } else if other.is_infinity() {
            signed(negative, 0)
        } else if other.is_zero() {
            if self.is_zero() {
                nan()
            } else {
                signed(negative, INFINITE as int)
            }
        } else {
            signed(negative, rounded(self.size() * unit_scale(), other.size()))
        }
    }

    /// The number nearest to a count.
    pub open spec fn of(count: nat) -> Self {
        signed(false, rounded(count * unit_scale(), 1))
    }

    /// The larger of `self` and zero, and zero where `self` is not a number.
    pub open spec fn at_least_zero(self) -> Self {
        if !self.is_nan() && self.rank() > 0 {
            self
        } else {
            signed(false, 0)
        }
    }

    /// `self` without its sign.
    pub open spec fn absolute(self) -> Self {
        signed(false, self.magnitude())
    }

    /// `self` as a whole `u32`: the nearest one, a half going up; zero for a number below zero
    /// and for a word that is not a number; the largest `u32` for what is above it.
    pub open spec fn whole(self) -> u32 {
        if self.is_nan() || self.negative() {
            0
        } else if self.is_infinity() {
            u32::MAX
        } else {
            let nearest = (2 * self.size() + unit_scale()) / (2 * unit_scale());
            if nearest > u32::MAX {
                u32::MAX
            } else {
                nearest as u32
            }
        }
    }

    /// The number that a word encodes.
    pub fn from_bits(bits: u64) -> (r: Self)
        ensures
            r.bits == bits,
    {
        Binary64 { bits }
    }

    /// Positive zero.
    pub fn zero() -> (r: Self)
        ensures
            r == signed(false, 0),
    {
        Binary64 { bits: 0 }
    }

    /// One.
    pub fn one() -> (r: Self)
        ensures
            r.bits == ONE,
    {
        Binary64 { bits: ONE }
    }

    /// The magnitude and the sign of a word.
    fn split(self) -> (r: (bool, u64))
        ensures
            r.0 == self.negative(),
            r.1 == self.magnitude(),
    {
        if self.bits >= SIGN {
            (true, self.bits - SIGN)
        } else {
            (false, self.bits)
        }
    }

    /// Neither infinite nor a word that is not a number.
    pub fn is_finite(self) -> (r: bool)
        ensures
            r == self.finite(),
    {
        self.split().1 < INFINITE
    }

    /// `self < other`. False where either is not a number.
    pub fn lt(self, other: Self) -> (r: bool)
        ensures
            r == self.below(other),
    {
        let (a_negative, a) = self.split();
        let (b_negative, b) = other.split();
        if a > INFINITE || b > INFINITE {
            false
        } else if a_negative {
            if b_negative {
                a > b
            } else {
                a > 0 || b > 0
            }
        } else {
            !b_negative && a < b
        }
    }

    /// Whether the numbers are equal. The two zeros are; a word that is not a number equals
    /// nothing.
    pub fn same(self, other: Self) -> (r: bool)
        ensures
            r == self.equals(other),
    {
        let (a_negative, a) = self.split();
        let (b_negative, b) = other.split();
        a <= INFINITE && a == b && (a_negative == b_negative || a == 0)
    }

    /// `self <= other`. False where either is not a number.
    pub fn le(self, other: Self) -> (r: bool)
        ensures
            r == (self.below(other) || self.equals(other)),
    {
        self.lt(other) || self.same(other)
    }

    /// The larger of `self` and zero; zero where `self` is not a number.
    pub fn max_zero(self) -> (r: Self)
        ensures
            r == self.at_least_zero(),
    {
        let (negative, magnitude) = self.split();
        if negative || magnitude > INFINITE {
            Binary64 { bits: 0 }
        } else {
            self
        }
    }

    /// `self` without its sign.
    pub fn abs(self) -> (r: Self)
        ensures
            r == self.absolute(),
    {
        Binary64 { bits: self.split().1 }
    }

    /// `-self`.
    pub fn neg(self) -> (r: Self)
        ensures
            r == self.opposite(),
    {
        if self.bits >= SIGN {
            Binary64 { bits: self.bits - SIGN }
        } else {
            Binary64 { bits: self.bits + SIGN }
        }
    }
}

} // verus!
