//! Double precision numbers, computed in integers.
//!
//! Every score of this library is an IEEE 754 binary64 number. The arithmetic is
//! written out over the bit pattern, so that contracts can say exactly which
//! number comes out, and the same memories give the same scores on every machine.
//!
//! The model counts in *units* of 2^-1074, the smallest positive number: every
//! finite number is a whole number of units. An operation is its exact result,
//! a fraction of units, rounded to the nearest number, ties to even.

pub mod arith;
pub mod laws;
pub mod root;
pub mod round;

use vstd::arithmetic::power2::*;
use vstd::prelude::*;

verus! {

/// 2^52: the weight of the leading bit of a normal significand, and the distance
/// between the bit patterns of a number and of its double.
pub const HIDDEN: u64 = 0x10_0000_0000_0000;

/// The magnitude of an infinity.
pub const INFINITE: u64 = 0x7ff0_0000_0000_0000;

/// The sign bit.
pub const SIGN: u64 = 0x8000_0000_0000_0000;

/// A double precision number, held as its bit pattern.
#[derive(Clone, Copy, Debug, PartialEq, Eq, Structural)]
pub struct Binary64 {
    pub bits: u64,
}

impl Binary64 {
    /// Is the sign bit set?
    pub open spec fn negative(self) -> bool {
        self.bits >= SIGN
    }

    /// The bit pattern without its sign.
    pub open spec fn mag(self) -> nat {
        if self.negative() {
            (self.bits - SIGN) as nat
        } else {
            self.bits as nat
        }
    }

    /// Is the number NaN?
    pub open spec fn is_nan(self) -> bool {
        self.mag() > INFINITE
    }

    /// Is the number an infinity?
    pub open spec fn is_infinite(self) -> bool {
        self.mag() == INFINITE
    }

    /// Is the number neither?
    pub open spec fn is_finite(self) -> bool {
        self.mag() < INFINITE
    }

    /// The significand as a whole number.
    pub open spec fn significand(self) -> nat {
        if self.mag() < HIDDEN {
            self.mag()
        } else {
            self.mag() % (HIDDEN as nat) + HIDDEN as nat
        }
    }

    /// The power of two that the significand counts in, in units.
    pub open spec fn scale(self) -> nat {
        if self.mag() < HIDDEN {
            0
        } else {
            (self.mag() / (HIDDEN as nat) - 1) as nat
        }
    }

    /// The magnitude of a finite number, in units.
    pub open spec fn units(self) -> nat {
        self.significand() * pow2(self.scale())
    }

    /// The value of a finite number, in units.
    pub open spec fn value(self) -> int {
        if self.negative() {
            -(self.units() as int)
        } else {
            self.units() as int
        }
    }

    /// The position of a number on the number line: numbers that are not NaN are
    /// ordered as their ranks are, and both zeros have the same.
    pub open spec fn rank(self) -> int {
        if self.negative() {
            -(self.mag() as int)
        } else {
            self.mag() as int
        }
    }

    /// The number of a given sign and magnitude.
    pub open spec fn signed(negative: bool, mag: nat) -> Binary64 {
        Binary64 { bits: if negative { (mag + SIGN) as u64 } else { mag as u64 } }
    }

    /// The NaN that operations give.
    pub open spec fn spec_nan() -> Binary64 {
        Binary64 { bits: 0x7ff8_0000_0000_0000 }
    }

    /// Zero.
    pub open spec fn spec_zero() -> Binary64 {
        Binary64 { bits: 0 }
    }

    /// One.
    pub open spec fn spec_one() -> Binary64 {
        Binary64 { bits: 0x3ff0_0000_0000_0000 }
    }

    /// Two.
    pub open spec fn spec_two() -> Binary64 {
        Binary64 { bits: 0x4000_0000_0000_0000 }
    }

    /// `s` is the finest scale at which `p / q` units fit 53 bits.
    pub open spec fn fits_at(p: nat, q: nat, s: nat) -> bool {
        &&& p < q * pow2(s + 53)
        &&& s > 0 ==> p >= q * pow2(s + 52)
    }

    /// `p / d` to the nearest whole number, ties to even.
    pub open spec fn half_even(p: nat, d: nat) -> nat {
        let k: nat = p / d;
        let r: nat = p % d;
        if 2 * r < d || (2 * r == d && k % 2 == 0) {
            k
        } else {
            k + 1
        }
    }

    /// The magnitude of the number nearest to `p / q` units at scale `s`.
    pub open spec fn mag_at(p: nat, q: nat, s: nat) -> nat {
        let m: nat = Self::half_even(p, q * pow2(s)) + s * (HIDDEN as nat);
        if m < INFINITE {
            m
        } else {
            INFINITE as nat
        }
    }

    /// The magnitude of the number nearest to `p / q` units, ties to even.
    pub open spec fn nearest(p: nat, q: nat) -> nat {
        Self::mag_at(p, q, choose|s: nat| Self::fits_at(p, q, s))
    }

    /// The number nearest to `p / q` units, with the given sign.
    pub open spec fn rounded(negative: bool, p: nat, q: nat) -> Binary64 {
        Self::signed(negative, Self::nearest(p, q))
    }

    /// The number with the other sign.
    pub open spec fn spec_neg(self) -> Binary64 {
        Self::signed(!self.negative(), self.mag())
    }

    /// The number without its sign.
    pub open spec fn spec_abs(self) -> Binary64 {
        Self::signed(false, self.mag())
    }

    /// The sum.
    pub open spec fn spec_plus(self, other: Binary64) -> Binary64 {
        if self.is_nan() || other.is_nan() {
            Self::spec_nan()
        } else if self.is_infinite() {
            if other.is_infinite() && self.negative() != other.negative() {
                Self::spec_nan()
            } else {
                self
            }
        } else if other.is_infinite() {
            other
        } else {
            let v: int = self.value() + other.value();
            if v == 0 {
                Self::signed(self.negative() && other.negative(), 0)
            } else if v < 0 {
                Self::rounded(true, (-v) as nat, 1)
            } else {
                Self::rounded(false, v as nat, 1)
            }
        }
    }

    /// The difference.
    pub open spec fn spec_minus(self, other: Binary64) -> Binary64 {
        self.spec_plus(other.spec_neg())
    }

    /// The product.
    pub open spec fn spec_times(self, other: Binary64) -> Binary64 {
        let negative: bool = self.negative() != other.negative();
        if self.is_nan() || other.is_nan() {
            Self::spec_nan()
        } else if self.is_infinite() || other.is_infinite() {
            if self.mag() == 0 || other.mag() == 0 {
                Self::spec_nan()
            } else {
                Self::signed(negative, INFINITE as nat)
            }
        } else {
            Self::rounded(negative, self.units() * other.units(), pow2(1074))
        }
    }

    /// The quotient.
    pub open spec fn spec_over(self, other: Binary64) -> Binary64 {
        let negative: bool = self.negative() != other.negative();
        if self.is_nan() || other.is_nan() {
            Self::spec_nan()
        } else if self.is_infinite() {
            if other.is_infinite() {
                Self::spec_nan()
            } else {
                Self::signed(negative, INFINITE as nat)
            }
        } else if other.is_infinite() {
            Self::signed(negative, 0)
        } else if other.mag() == 0 {
            if self.mag() == 0 {
                Self::spec_nan()
            } else {
                Self::signed(negative, INFINITE as nat)
            }
        } else {
            Self::rounded(negative, self.units() * pow2(1074), other.units())
        }
    }

    /// `k` counts of `2^s` units are the root of `n` square units, rounded down to
    /// 53 bits.
    pub open spec fn root_at(n: nat, k: nat, s: nat) -> bool {
        &&& HIDDEN <= k < 2 * HIDDEN
        &&& (k * pow2(s)) * (k * pow2(s)) <= n < ((k + 1) * pow2(s)) * ((k + 1) * pow2(s))
    }

    /// The magnitude of the number nearest to the root, which lies between `k` and
    /// `k + 1` counts of `2^s` units.
    pub open spec fn root_mag(n: nat, k: nat, s: nat) -> nat {
        let middle: nat = (2 * k + 1) * pow2(s);
        (if 4 * n > middle * middle {
            k + 1
        } else {
            k
        }) + s * (HIDDEN as nat)
    }

    /// The square root.
    pub open spec fn spec_sqrt(self) -> Binary64 {
        if self.is_nan() {
            Self::spec_nan()
        } else if self.mag() == 0 {
            self
        } else if self.negative() {
            Self::spec_nan()
        } else if self.is_infinite() {
            self
        } else {
            let n: nat = self.units() * pow2(1074);
            let (k, s): (nat, nat) = choose|k: nat, s: nat| Self::root_at(n, k, s);
            Self::signed(false, Self::root_mag(n, k, s))
        }
    }

    /// The number nearest to a whole number.
    pub open spec fn spec_of(n: nat) -> Binary64 {
        Self::rounded(false, n * pow2(1074), 1)
    }

    /// Is the number less than `other`? No where either is NaN.
    pub open spec fn spec_lt(self, other: Binary64) -> bool {
        !self.is_nan() && !other.is_nan() && self.rank() < other.rank()
    }

    /// Is the number at most `other`? No where either is NaN.
    pub open spec fn spec_le(self, other: Binary64) -> bool {
        !self.is_nan() && !other.is_nan() && self.rank() <= other.rank()
    }

    /// The number itself where it lies between `low` and `high`, else the nearer
    /// of the two. A NaN stays as it is.
    pub open spec fn spec_clamp(self, low: Binary64, high: Binary64) -> Binary64 {
        if self.spec_lt(low) {
            low
        } else if high.spec_lt(self) {
            high
        } else {
            self
        }
    }
}

} // verus!
