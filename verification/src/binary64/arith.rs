//! The operations.

use super::round::{power_of_two, round_ratio};
use super::{laws, round, Binary64, HIDDEN, INFINITE, SIGN};
use vstd::arithmetic::power2::*;
use vstd::prelude::*;

verus! {

impl Binary64 {
    /// The number with the given bit pattern.
    pub fn from_bits(bits: u64) -> (r: Binary64)
        ensures
            r.bits == bits,
    {
        Binary64 { bits }
    }

    /// The bit pattern of the number.
    pub fn to_bits(self) -> (r: u64)
        ensures
            r == self.bits,
    {
        self.bits
    }

    /// Zero.
    pub fn zero() -> (r: Binary64)
        ensures
            r == Self::spec_zero(),
    {
        Binary64 { bits: 0 }
    }

    /// One.
    pub fn one() -> (r: Binary64)
        ensures
            r == Self::spec_one(),
    {
        Binary64 { bits: 0x3ff0_0000_0000_0000 }
    }

    /// Two.
    pub fn two() -> (r: Binary64)
        ensures
            r == Self::spec_two(),
    {
        Binary64 { bits: 0x4000_0000_0000_0000 }
    }

    /// The zero that addition leaves every number as it is.
    pub fn negative_zero() -> (r: Binary64)
        ensures
            r == Self::signed(true, 0),
    {
        Binary64 { bits: SIGN }
    }

    pub(crate) fn is_negative(self) -> (r: bool)
        ensures
            r == self.negative(),
    {
        self.bits >= SIGN
    }

    pub(crate) fn magnitude(self) -> (r: u64)
        ensures
            r == self.mag(),
            r < SIGN,
    {
        if self.bits >= SIGN {
            self.bits - SIGN
        } else {
            self.bits
        }
    }

    pub(crate) fn with_sign(negative: bool, mag: u64) -> (r: Binary64)
        requires
            mag < SIGN,
        ensures
            r == Self::signed(negative, mag as nat),
            r.negative() == negative,
            r.mag() == mag,
    {
        if negative {
            Binary64 { bits: mag + SIGN }
        } else {
            Binary64 { bits: mag }
        }
    }

    /// The significand and the scale.
    pub(crate) fn split(self) -> (r: (u64, u32))
        ensures
            r.0 == self.significand(),
            r.1 == self.scale(),
            r.0 < 2 * HIDDEN,
            r.1 > 0 ==> r.0 >= HIDDEN,
            self.is_finite() ==> r.1 <= 2045,
            self.mag() == r.0 + r.1 * HIDDEN,
            self.mag() > 0 ==> r.0 > 0,
    {
        let mag: u64 = self.magnitude();
        if mag < HIDDEN {
            (mag, 0)
        } else {
            let e: u64 = mag / HIDDEN;
            let f: u64 = mag % HIDDEN;
            assert(mag == e * HIDDEN + f);
            assert((e - 1) * HIDDEN + HIDDEN == e * HIDDEN);
            (f + HIDDEN, (e - 1) as u32)
        }
    }

    /// The negation.
    pub fn neg(self) -> (r: Binary64)
        ensures
            r == self.spec_neg(),
    {
        Self::with_sign(!self.is_negative(), self.magnitude())
    }

    /// The absolute value.
    pub fn abs(self) -> (r: Binary64)
        ensures
            r == self.spec_abs(),
    {
        Self::with_sign(false, self.magnitude())
    }

    /// Is the number NaN?
    pub fn nan(self) -> (r: bool)
        ensures
            r == self.is_nan(),
    {
        self.magnitude() > INFINITE
    }

    /// Is the number an infinity?
    pub fn infinite(self) -> (r: bool)
        ensures
            r == self.is_infinite(),
    {
        self.magnitude() == INFINITE
    }

    /// Is the number less than `other`? No where either is NaN.
    pub fn lt(self, other: Binary64) -> (r: bool)
        ensures
            r == self.spec_lt(other),
    {
        let a: u64 = self.magnitude();
        let b: u64 = other.magnitude();
        if a > INFINITE || b > INFINITE {
            false
        } else if self.is_negative() {
            if other.is_negative() {
                b < a
            } else {
                a > 0 || b > 0
            }
        } else if other.is_negative() {
            false
        } else {
            a < b
        }
    }

    /// Is the number at most `other`? No where either is NaN.
    pub fn le(self, other: Binary64) -> (r: bool)
        ensures
            r == self.spec_le(other),
    {
        if self.nan() || other.nan() {
            false
        } else {
            !other.lt(self)
        }
    }

    /// The number, moved into the range from `low` to `high`.
    pub fn clamp(self, low: Binary64, high: Binary64) -> (r: Binary64)
        ensures
            r == self.spec_clamp(low, high),
    {
        if self.lt(low) {
            low
        } else if high.lt(self) {
            high
        } else {
            self
        }
    }

    /// The number nearest to `n`.
    pub fn of(n: usize) -> (r: Binary64)
        ensures
            r == Self::spec_of(n as nat),
    {
        proof {
            laws::large_powers();
        }
        Self::of_wide(n as u128)
    }

    /// The number nearest to `n`, which may be wider than a machine word.
    pub(crate) fn of_wide(n: u128) -> (r: Binary64)
        requires
            n < pow2(112),
        ensures
            r == Self::spec_of(n as nat),
    {
        proof {
            lemma2_to64();
            lemma_pow2_strictly_increases(0, 53);
        }
        let mag: u64 = round_ratio(n, 1, 1074);
        Self::with_sign(false, mag)
    }

    /// Is the number one of the two zeros?
    pub fn is_zero(self) -> (r: bool)
        ensures
            r == (self.mag() == 0),
    {
        self.magnitude() == 0
    }

    /// The sum.
    pub fn plus(self, other: Binary64) -> (r: Binary64)
        ensures
            r == self.spec_plus(other),
    {
        if self.nan() || other.nan() {
            return Binary64 { bits: 0x7ff8_0000_0000_0000 };
        }
        if self.magnitude() == INFINITE {
            if other.magnitude() == INFINITE && self.is_negative() != other.is_negative() {
                return Binary64 { bits: 0x7ff8_0000_0000_0000 };
            }
            return self;
        }
        if other.magnitude() == INFINITE {
            return other;
        }
        let (m1, s1): (u64, u32) = self.split();
        let (m2, s2): (u64, u32) = other.split();
        if s1 >= s2 {
            Self::plus_finite(self, other, m1, s1, m2, s2)
        } else {
            Self::plus_finite(other, self, m2, s2, m1, s1)
        }
    }

    /// The sum of two finite numbers, the first of which has the larger scale.
    fn plus_finite(hi: Binary64, lo: Binary64, mh: u64, sh: u32, ml: u64, sl: u32) -> (r: Binary64)
        requires
            hi.is_finite(),
            lo.is_finite(),
            mh == hi.significand(),
            sh == hi.scale(),
            ml == lo.significand(),
            sl == lo.scale(),
            sl <= sh <= 2045,
            mh < 2 * HIDDEN,
            ml < 2 * HIDDEN,
            sh > 0 ==> mh >= HIDDEN,
            hi.mag() == mh + sh * HIDDEN,
        ensures
            r == hi.spec_plus(lo),
    {
        let d: u32 = sh - sl;
        if d > 56 {
            proof {
                small_term_vanishes(hi, lo);
            }
            return hi;
        }
        proof {
            laws::powers_in_use();
            laws::large_powers();
            laws::powers_are_ordered(d as nat, 56);
            lemma_pow2_pos(d as nat);
            assert(mh * pow2(d as nat) <= pow2(109)) by (nonlinear_arith)
                requires
                    mh <= 2 * HIDDEN,
                    pow2(d as nat) <= 0x100_0000_0000_0000,
                    pow2(109) == 0x2000_0000_0000_0000_0000_0000_0000,
            ;
            lemma_pow2_adds(sl as nat, d as nat);
            let c: nat = pow2(sl as nat);
            lemma_pow2_pos(sl as nat);
            assert(mh * (c * pow2(d as nat)) == (mh * pow2(d as nat)) * c) by (nonlinear_arith);
        }
        let a: u128 = mh as u128 * power_of_two(d);
        let b: u128 = ml as u128;
        let same: bool = hi.is_negative() == lo.is_negative();
        let n: u128;
        let negative: bool;
        if same {
            n = a + b;
            negative = hi.is_negative();
        } else if a >= b {
            n = a - b;
            negative = hi.is_negative();
        } else {
            n = b - a;
            negative = lo.is_negative();
        }
        let ghost c: nat = pow2(sl as nat);
        let ghost v: int = hi.value() + lo.value();
        proof {
            assert(hi.units() == a * c);
            assert(lo.units() == b * c);
            assert((a + b) * c == a * c + b * c) by (nonlinear_arith);
            assert((a - b) * c == a * c - b * c) by (nonlinear_arith);
            assert((b - a) * c == b * c - a * c) by (nonlinear_arith);
            assert(n * c > 0 <==> n > 0) by (nonlinear_arith)
                requires
                    c > 0,
                    n >= 0,
            ;
        }
        if n == 0 {
            assert(v == 0);
            return Self::with_sign(hi.is_negative() && lo.is_negative(), 0);
        }
        assert(v == if negative { -(n * c) } else { n * c });
        assert(v != 0);
        let mag: u64 = round_ratio(n, 1, sl as i32);
        Self::with_sign(negative, mag)
    }

    /// The difference.
    pub fn minus(self, other: Binary64) -> (r: Binary64)
        ensures
            r == self.spec_minus(other),
    {
        self.plus(other.neg())
    }

    /// The product.
    pub fn times(self, other: Binary64) -> (r: Binary64)
        ensures
            r == self.spec_times(other),
    {
        let negative: bool = self.is_negative() != other.is_negative();
        if self.nan() || other.nan() {
            return Binary64 { bits: 0x7ff8_0000_0000_0000 };
        }
        if self.magnitude() == INFINITE || other.magnitude() == INFINITE {
            if self.magnitude() == 0 || other.magnitude() == 0 {
                return Binary64 { bits: 0x7ff8_0000_0000_0000 };
            }
            return Self::with_sign(negative, INFINITE);
        }
        let (m1, s1): (u64, u32) = self.split();
        let (m2, s2): (u64, u32) = other.split();
        proof {
            laws::powers_in_use();
            laws::large_powers();
            assert(m1 * m2 <= pow2(106)) by (nonlinear_arith)
                requires
                    0 <= m1 <= 2 * HIDDEN,
                    0 <= m2 <= 2 * HIDDEN,
                    pow2(106) == 0x400_0000_0000_0000_0000_0000_0000,
            ;
        }
        let a: u128 = m1 as u128 * m2 as u128;
        let e: i32 = s1 as i32 + s2 as i32 - 1074;
        let mag: u64 = round_ratio(a, 1, e);
        proof {
            let p: nat = self.units() * other.units();
            let q: nat = pow2(1074);
            lemma_pow2_pos(1074);
            lemma_pow2_adds(s1 as nat, s2 as nat);
            let c1: nat = pow2(s1 as nat);
            let c2: nat = pow2(s2 as nat);
            assert((m1 * c1) * (m2 * c2) == a * (c1 * c2)) by (nonlinear_arith)
                requires
                    a == m1 * m2,
            ;
            let n: nat = round::numerator(a as nat, e as int);
            let d: nat = round::denominator(1, e as int);
            if e >= 0 {
                lemma_pow2_adds(e as nat, 1074);
                let c3: nat = pow2(e as nat);
                assert(c1 * c2 == c3 * q);
                assert((a * (c1 * c2)) * d == (a * c3) * q) by (nonlinear_arith)
                    requires
                        c1 * c2 == c3 * q,
                        d == 1,
                ;
                assert(p * d == n * q);
            } else {
                lemma_pow2_adds((s1 + s2) as nat, (-e) as nat);
                lemma_pow2_pos((-e) as nat);
                let c3: nat = pow2((-e) as nat);
                assert(c1 * c2 * c3 == q);
                assert((a * (c1 * c2)) * d == a * q) by (nonlinear_arith)
                    requires
                        c1 * c2 * c3 == q,
                        d == 1 * c3,
                ;
                assert(p * d == n * q);
            }
            laws::nearest_of_equal_ratios(p, q, n, d);
        }
        Self::with_sign(negative, mag)
    }

    /// The quotient.
    pub fn over(self, other: Binary64) -> (r: Binary64)
        ensures
            r == self.spec_over(other),
    {
        let negative: bool = self.is_negative() != other.is_negative();
        if self.nan() || other.nan() {
            return Binary64 { bits: 0x7ff8_0000_0000_0000 };
        }
        if self.magnitude() == INFINITE {
            if other.magnitude() == INFINITE {
                return Binary64 { bits: 0x7ff8_0000_0000_0000 };
            }
            return Self::with_sign(negative, INFINITE);
        }
        if other.magnitude() == INFINITE {
            return Self::with_sign(negative, 0);
        }
        if other.magnitude() == 0 {
            if self.magnitude() == 0 {
                return Binary64 { bits: 0x7ff8_0000_0000_0000 };
            }
            return Self::with_sign(negative, INFINITE);
        }
        let (m1, s1): (u64, u32) = self.split();
        let (m2, s2): (u64, u32) = other.split();
        proof {
            laws::powers_in_use();
            lemma_pow2_strictly_increases(53, 112);
        }
        let e: i32 = s1 as i32 - s2 as i32 + 1074;
        let mag: u64 = round_ratio(m1 as u128, m2 as u128, e);
        proof {
            let p: nat = self.units() * pow2(1074);
            let q: nat = other.units();
            let c1: nat = pow2(s1 as nat);
            let c2: nat = pow2(s2 as nat);
            let c3: nat = pow2(1074);
            lemma_pow2_pos(s2 as nat);
            lemma_pow2_adds(s1 as nat, 1074);
            assert(q > 0) by (nonlinear_arith)
                requires
                    q == m2 * c2,
                    m2 > 0,
                    c2 > 0,
            ;
            let n: nat = round::numerator(m1 as nat, e as int);
            let d: nat = round::denominator(m2 as nat, e as int);
            if e >= 0 {
                lemma_pow2_adds(e as nat, s2 as nat);
                let c4: nat = pow2(e as nat);
                assert(c1 * c3 == c4 * c2);
                assert((m1 * c1 * c3) * m2 == (m1 * c4) * (m2 * c2)) by (nonlinear_arith)
                    requires
                        c1 * c3 == c4 * c2,
                ;
            } else {
                lemma_pow2_adds((s1 + 1074) as nat, (-e) as nat);
                lemma_pow2_pos((-e) as nat);
                let c4: nat = pow2((-e) as nat);
                assert(c1 * c3 * c4 == c2);
                assert((m1 * c1 * c3) * (m2 * c4) == m1 * (m2 * c2)) by (nonlinear_arith)
                    requires
                        c1 * c3 * c4 == c2,
                ;
                assert(m2 * c4 > 0) by (nonlinear_arith)
                    requires
                        m2 > 0,
                        c4 > 0,
                ;
            }
            laws::nearest_of_equal_ratios(p, q, n, d);
        }
        Self::with_sign(negative, mag)
    }
}

/// A term far below the last bit of the other does not change it.
proof fn small_term_vanishes(hi: Binary64, lo: Binary64)
    requires
        hi.is_finite(),
        lo.is_finite(),
        hi.scale() > lo.scale() + 56,
        HIDDEN <= hi.significand() < 2 * HIDDEN,
        lo.significand() < 2 * HIDDEN,
        hi.mag() == hi.significand() + hi.scale() * HIDDEN,
    ensures
        hi.spec_plus(lo) == hi,
{
    let s: nat = hi.scale();
    let m: nat = hi.significand();
    let u: nat = lo.units();
    let c: nat = pow2(s);
    let h: nat = HIDDEN as nat;
    laws::powers_in_use();
    lemma_pow2_pos(s);
    lemma_pow2_pos(lo.scale());
    lemma_pow2_adds(lo.scale(), 53);
    laws::powers_are_ordered((lo.scale() + 53) as nat, (s - 4) as nat);
    lemma_pow2_adds((s - 4) as nat, 4);
    lemma2_to64();
    let cl: nat = pow2(lo.scale());
    assert(u <= cl * (2 * h)) by (nonlinear_arith)
        requires
            u == lo.significand() * cl,
            lo.significand() < 2 * h,
    ;
    assert(16 * u <= c);
    lemma_pow2_adds(s, 53);
    lemma_pow2_adds(s, 52);
    assert(hi.value() + lo.value() != 0) by {
        assert(m * c >= c) by (nonlinear_arith)
            requires
                m >= 1,
        ;
    }
    if hi.negative() == lo.negative() {
        let n: nat = m * c + u;
        assert(m * c + c <= c * (2 * h)) by (nonlinear_arith)
            requires
                m < 2 * h,
        ;
        assert(m * c >= c * h) by (nonlinear_arith)
            requires
                m >= h,
        ;
        laws::nearest_at(n, 1, s);
        assert(1 * c == c);
        vstd::arithmetic::div_mod::lemma_fundamental_div_mod_converse(n as int, c as int, m as int, u as int);
        assert(Binary64::nearest(n, 1) == hi.mag());
    } else {
        let n: nat = (m * c - u) as nat;
        assert(m * c <= c * (2 * h)) by (nonlinear_arith)
            requires
                m < 2 * h,
        ;
        if u == 0 {
            laws::nearest_is_exact(hi);
        } else if m > h {
            assert(m * c >= c * h + c) by (nonlinear_arith)
                requires
                    m >= h + 1,
            ;
            laws::nearest_at(n, 1, s);
            assert(1 * c == c);
            assert((m - 1) * c == m * c - c) by (nonlinear_arith);
            vstd::arithmetic::div_mod::lemma_fundamental_div_mod_converse(n as int, c as int, m - 1, c - u);
            assert(Binary64::nearest(n, 1) == hi.mag());
        } else {
            // One step below a power of two the numbers lie twice as close.
            let t: nat = (s - 1) as nat;
            let b: nat = pow2(t);
            lemma_pow2_unfold(s);
            lemma_pow2_adds(t, 53);
            lemma_pow2_adds(t, 52);
            assert(h * (2 * b) == (2 * h) * b) by (nonlinear_arith);
            assert(b * (2 * h) == (2 * h) * b) by (nonlinear_arith);
            assert(b * h == h * b) by (nonlinear_arith);
            assert((2 * h) * b == 2 * (h * b)) by (nonlinear_arith);
            assert(h * b >= b) by (nonlinear_arith)
                requires
                    h >= 1,
            ;
            assert(n == (2 * h) * b - u);
            laws::nearest_at(n, 1, t);
            assert(1 * b == b);
            assert((2 * h - 1) * b == (2 * h) * b - b) by (nonlinear_arith);
            vstd::arithmetic::div_mod::lemma_fundamental_div_mod_converse(n as int, b as int, 2 * h - 1, b - u);
            assert(t * h + h == s * h) by (nonlinear_arith)
                requires
                    s == t + 1,
            ;
            assert(Binary64::nearest(n, 1) == hi.mag());
        }
    }
    assert(Binary64::signed(hi.negative(), hi.mag()) == hi);
}

} // verus!
