//! Laws of the arithmetic.

use super::{Binary64, HIDDEN, INFINITE};
use vstd::arithmetic::power2::*;
use vstd::prelude::*;

verus! {

/// `p1 / q1 == p2 / q2` makes the rounding to a whole number the same.
pub proof fn half_even_of_equal_ratios(p1: nat, d1: nat, p2: nat, d2: nat)
    requires
        d1 > 0,
        d2 > 0,
        p1 * d2 == p2 * d1,
    ensures
        Binary64::half_even(p1, d1) == Binary64::half_even(p2, d2),
        p1 / d1 == p2 / d2,
{
    let k: nat = p1 / d1;
    let r1: nat = p1 % d1;
    assert(p1 == k * d1 + r1 && r1 < d1) by (nonlinear_arith)
        requires
            d1 > 0,
            k == p1 / d1,
            r1 == p1 % d1,
    ;
    let r2: int = p2 - k * d2;
    assert(r2 * d1 == r1 * d2) by (nonlinear_arith)
        requires
            p1 == k * d1 + r1,
            p1 * d2 == p2 * d1,
            r2 == p2 - k * d2,
    ;
    assert(0 <= r2 < d2) by (nonlinear_arith)
        requires
            r2 * d1 == r1 * d2,
            0 <= r1 < d1,
            d1 > 0,
            d2 > 0,
    ;
    vstd::arithmetic::div_mod::lemma_fundamental_div_mod_converse(
        p2 as int,
        d2 as int,
        k as int,
        r2,
    );
    assert(p2 / d2 == k && p2 % d2 == r2);
    assert((2 * r1 < d1) == (2 * r2 < d2) && (2 * r1 == d1) == (2 * r2 == d2)) by (nonlinear_arith)
        requires
            r2 * d1 == r1 * d2,
            d1 > 0,
            d2 > 0,
    ;
}

/// There is a scale at which a fraction fits.
pub proof fn some_scale_fits(p: nat, q: nat) -> (s: nat)
    requires
        q > 0,
    ensures
        Binary64::fits_at(p, q, s),
    decreases p / q,
{
    lemma_pow2_strictly_increases(1, 53);
    lemma2_to64();
    if p < q * pow2(53) {
        0
    } else {
        assert(p >= q * 2) by (nonlinear_arith)
            requires
                p >= q * pow2(53),
                pow2(53) >= 2,
        {
        }
        assert(p / (2 * q) < p / q) by (nonlinear_arith)
            requires
                q > 0,
                p >= q * 2,
        ;
        let t: nat = some_scale_fits(p, 2 * q);
        let s: nat = t + 1;
        lemma_pow2_unfold((s + 53) as nat);
        lemma_pow2_unfold((s + 52) as nat);
        assert(q * (2 * pow2((t + 53) as nat)) == (2 * q) * pow2((t + 53) as nat)) by (nonlinear_arith);
        assert(q * (2 * pow2((t + 52) as nat)) == (2 * q) * pow2((t + 52) as nat)) by (nonlinear_arith);
        assert(p >= q * pow2((s + 52) as nat));
        s
    }
}

/// No fraction fits at two scales.
pub proof fn one_scale_fits(p: nat, q: nat, s: nat, t: nat)
    requires
        q > 0,
        Binary64::fits_at(p, q, s),
        Binary64::fits_at(p, q, t),
    ensures
        s == t,
{
    if s < t {
        powers_are_ordered((s + 53) as nat, (t + 52) as nat);
        assert(q * pow2((s + 53) as nat) <= q * pow2((t + 52) as nat)) by (nonlinear_arith)
            requires
                pow2((s + 53) as nat) <= pow2((t + 52) as nat),
        ;
    } else if t < s {
        powers_are_ordered((t + 53) as nat, (s + 52) as nat);
        assert(q * pow2((t + 53) as nat) <= q * pow2((s + 52) as nat)) by (nonlinear_arith)
            requires
                pow2((t + 53) as nat) <= pow2((s + 52) as nat),
        ;
    }
}

/// A larger exponent makes no smaller power.
pub proof fn powers_are_ordered(a: nat, b: nat)
    requires
        a <= b,
    ensures
        pow2(a) <= pow2(b),
{
    if a < b {
        lemma_pow2_strictly_increases(a, b);
    }
}

/// The scale that fits is the one that rounding uses.
pub proof fn nearest_at(p: nat, q: nat, s: nat)
    requires
        q > 0,
        Binary64::fits_at(p, q, s),
    ensures
        Binary64::nearest(p, q) == Binary64::mag_at(p, q, s),
{
    let t: nat = choose|t: nat| Binary64::fits_at(p, q, t);
    one_scale_fits(p, q, s, t);
}

/// Equal fractions round to the same number.
pub proof fn nearest_of_equal_ratios(p1: nat, q1: nat, p2: nat, q2: nat)
    requires
        q1 > 0,
        q2 > 0,
        p1 * q2 == p2 * q1,
    ensures
        Binary64::nearest(p1, q1) == Binary64::nearest(p2, q2),
{
    let s: nat = some_scale_fits(p1, q1);
    lemma_pow2_pos((s + 53) as nat);
    lemma_pow2_pos((s + 52) as nat);
    lemma_pow2_pos(s);
    let hi: nat = pow2((s + 53) as nat);
    let lo: nat = pow2((s + 52) as nat);
    assert(p1 < q1 * hi ==> p2 < q2 * hi) by (nonlinear_arith)
        requires
            q1 > 0,
            q2 > 0,
            p1 * q2 == p2 * q1,
    ;
    assert(p1 >= q1 * lo ==> p2 >= q2 * lo) by (nonlinear_arith)
        requires
            q1 > 0,
            q2 > 0,
            p1 * q2 == p2 * q1,
    ;
    nearest_at(p1, q1, s);
    nearest_at(p2, q2, s);
    let c: nat = pow2(s);
    assert(q1 * c > 0 && q2 * c > 0 && p1 * (q2 * c) == p2 * (q1 * c)) by (nonlinear_arith)
        requires
            q1 > 0,
            q2 > 0,
            c > 0,
            p1 * q2 == p2 * q1,
    ;
    half_even_of_equal_ratios(p1, q1 * c, p2, q2 * c);
}

/// What fits 53 bits at a scale rounds to at most 2^53 there, and to at least 2^52
/// where the scale is not the finest of all.
pub proof fn half_even_in_range(p: nat, q: nat, s: nat)
    requires
        q > 0,
        Binary64::fits_at(p, q, s),
    ensures
        Binary64::half_even(p, q * pow2(s)) <= 2 * HIDDEN,
        p / (q * pow2(s)) < 2 * HIDDEN,
        s > 0 ==> HIDDEN <= p / (q * pow2(s)),
{
    lemma_pow2_pos(s);
    lemma_pow2_adds(s, 53);
    lemma_pow2_adds(s, 52);
    powers_in_use();
    let c: nat = pow2(s);
    let d: nat = q * c;
    assert(d > 0) by (nonlinear_arith)
        requires
            q > 0,
            c > 0,
            d == q * c,
    ;
    assert(q * (c * pow2(53)) == d * pow2(53)) by (nonlinear_arith)
        requires
            d == q * c,
    ;
    assert(q * (c * pow2(52)) == d * pow2(52)) by (nonlinear_arith)
        requires
            d == q * c,
    ;
    let k: nat = p / d;
    assert(k < 2 * HIDDEN) by (nonlinear_arith)
        requires
            d > 0,
            k == p / d,
            p < d * (2 * HIDDEN),
    ;
    if s > 0 {
        assert(k >= HIDDEN) by (nonlinear_arith)
            requires
                d > 0,
                k == p / d,
                p >= d * HIDDEN,
        ;
    }
}

/// Powers of two that fit a machine word.
pub proof fn powers_in_use()
    ensures
        pow2(52) == HIDDEN,
        pow2(53) == 2 * HIDDEN,
        pow2(63) == 0x8000_0000_0000_0000,
{
    lemma2_to64();
    lemma_pow2_adds(32, 20);
    lemma_pow2_adds(32, 21);
    lemma_pow2_adds(32, 31);
}

/// Powers of two beyond that.
pub proof fn large_powers()
    ensures
        pow2(56) == 0x100_0000_0000_0000,
        pow2(106) == 0x400_0000_0000_0000_0000_0000_0000,
        pow2(109) == 0x2000_0000_0000_0000_0000_0000_0000,
        pow2(112) == 0x1_0000_0000_0000_0000_0000_0000_0000,
        pow2(120) == 0x100_0000_0000_0000_0000_0000_0000_0000,
{
    lemma2_to64();
    lemma_pow2_adds(32, 24);
    lemma_pow2_adds(64, 32);
    lemma_pow2_adds(96, 10);
    lemma_pow2_adds(96, 13);
    lemma_pow2_adds(96, 16);
    lemma_pow2_adds(96, 24);
}

/// Rounding to a whole number keeps the order.
pub proof fn half_even_is_monotone(p1: nat, d1: nat, p2: nat, d2: nat)
    requires
        d1 > 0,
        d2 > 0,
        p1 * d2 <= p2 * d1,
    ensures
        Binary64::half_even(p1, d1) <= Binary64::half_even(p2, d2),
{
    // Over the common denominator.
    let a: nat = p1 * d2;
    let b: nat = p2 * d1;
    let d: nat = d1 * d2;
    assert(d > 0) by (nonlinear_arith)
        requires
            d1 > 0,
            d2 > 0,
            d == d1 * d2,
    ;
    assert(p1 * d == a * d1) by (nonlinear_arith)
        requires
            d == d1 * d2,
            a == p1 * d2,
    ;
    assert(p2 * d == b * d2) by (nonlinear_arith)
        requires
            d == d1 * d2,
            b == p2 * d1,
    ;
    half_even_of_equal_ratios(p1, d1, a, d);
    half_even_of_equal_ratios(p2, d2, b, d);
    let ka: nat = a / d;
    let kb: nat = b / d;
    let ra: nat = a % d;
    let rb: nat = b % d;
    assert(a == ka * d + ra && ra < d && b == kb * d + rb && rb < d) by (nonlinear_arith)
        requires
            d > 0,
            ka == a / d,
            kb == b / d,
            ra == a % d,
            rb == b % d,
    ;
    assert(ka <= kb) by (nonlinear_arith)
        requires
            a <= b,
            a == ka * d + ra,
            b == kb * d + rb,
            rb < d,
    ;
    if ka == kb {
        assert(ra <= rb);
    }
}

/// Rounding keeps the order.
pub proof fn nearest_is_monotone(p1: nat, q1: nat, p2: nat, q2: nat)
    requires
        q1 > 0,
        q2 > 0,
        p1 * q2 <= p2 * q1,
    ensures
        Binary64::nearest(p1, q1) <= Binary64::nearest(p2, q2),
{
    let s1: nat = some_scale_fits(p1, q1);
    let s2: nat = some_scale_fits(p2, q2);
    nearest_at(p1, q1, s1);
    nearest_at(p2, q2, s2);
    half_even_in_range(p1, q1, s1);
    half_even_in_range(p2, q2, s2);
    if s1 == s2 {
        lemma_pow2_pos(s1);
        let c: nat = pow2(s1);
        assert(q1 * c > 0 && q2 * c > 0 && p1 * (q2 * c) <= p2 * (q1 * c)) by (nonlinear_arith)
            requires
                q1 > 0,
                q2 > 0,
                c > 0,
                p1 * q2 <= p2 * q1,
        ;
        half_even_is_monotone(p1, q1 * c, p2, q2 * c);
    } else if s1 < s2 {
        assert(s2 * HIDDEN >= s1 * HIDDEN + HIDDEN) by (nonlinear_arith)
            requires
                s1 < s2,
        ;
    } else {
        // The finer scale would have to hold the larger fraction.
        let hi: nat = pow2((s2 + 53) as nat);
        let lo: nat = pow2((s1 + 52) as nat);
        powers_are_ordered((s2 + 53) as nat, (s1 + 52) as nat);
        assert(false) by (nonlinear_arith)
            requires
                p1 * q2 <= p2 * q1,
                p1 >= q1 * lo,
                p2 < q2 * hi,
                hi <= lo,
                q1 > 0,
                q2 > 0,
        ;
    }
}

/// A finite number is its own nearest number.
pub proof fn nearest_is_exact(x: Binary64)
    requires
        x.is_finite(),
    ensures
        Binary64::nearest(x.units(), 1) == x.mag(),
{
    let s: nat = x.scale();
    let m: nat = x.significand();
    let h: nat = HIDDEN as nat;
    powers_in_use();
    lemma_pow2_pos(s);
    lemma_pow2_adds(s, 53);
    lemma_pow2_adds(s, 52);
    let c: nat = pow2(s);
    assert(m < 2 * h);
    assert(m * c < c * (2 * h)) by (nonlinear_arith)
        requires
            m < 2 * h,
            c > 0,
    ;
    if s > 0 {
        assert(m >= h);
        assert(m * c >= c * h) by (nonlinear_arith)
            requires
                m >= h,
                c > 0,
        ;
    }
    assert(Binary64::fits_at(x.units(), 1, s));
    nearest_at(x.units(), 1, s);
    vstd::arithmetic::div_mod::lemma_fundamental_div_mod_converse((m * c) as int, c as int, m as int, 0);
    assert(1 * c == c);
    assert(Binary64::half_even(x.units(), 1 * pow2(s)) == m);
    if x.mag() >= HIDDEN {
        let e: nat = x.mag() / h;
        assert(x.mag() == e * h + x.mag() % h) by (nonlinear_arith)
            requires
                h > 0,
                e == x.mag() / h,
        ;
        assert((e - 1) * h + h == e * h) by (nonlinear_arith);
    }
}

/// Addition does not depend on the order of its terms.
pub proof fn plus_commutes(x: Binary64, y: Binary64)
    ensures
        x.spec_plus(y) == y.spec_plus(x),
{
}

/// Multiplication does not depend on the order of its factors.
pub proof fn times_commutes(x: Binary64, y: Binary64)
    ensures
        x.spec_times(y) == y.spec_times(x),
{
    assert(x.units() * y.units() == y.units() * x.units()) by (nonlinear_arith);
}

/// Adding a zero of negative sign changes nothing.
pub proof fn negative_zero_is_neutral(x: Binary64)
    requires
        !x.is_nan(),
    ensures
        Binary64::signed(true, 0).spec_plus(x) == x,
{
    let z: Binary64 = Binary64::signed(true, 0);
    assert(z.units() == 0) by {
        assert(0 * pow2(0) == 0);
    }
    if x.is_finite() {
        nearest_is_exact(x);
        lemma_pow2_pos(x.scale());
        let m: nat = x.significand();
        let c: nat = pow2(x.scale());
        assert(m * c == 0 <==> m == 0) by (nonlinear_arith)
            requires
                c > 0,
        ;
    }
}

/// The order of magnitudes is the order of values.
pub proof fn units_follow_magnitudes(x: Binary64, y: Binary64)
    requires
        x.is_finite(),
        y.is_finite(),
    ensures
        x.mag() < y.mag() <==> x.units() < y.units(),
        x.mag() == y.mag() <==> x.units() == y.units(),
{
    nearest_is_exact(x);
    nearest_is_exact(y);
    if x.units() <= y.units() {
        nearest_is_monotone(x.units(), 1, y.units(), 1);
    }
    if y.units() <= x.units() {
        nearest_is_monotone(y.units(), 1, x.units(), 1);
    }
}

/// The order of numbers is the order of their values.
pub proof fn order_is_the_order_of_values(x: Binary64, y: Binary64)
    requires
        x.is_finite(),
        y.is_finite(),
    ensures
        x.spec_lt(y) <==> x.value() < y.value(),
        x.spec_le(y) <==> x.value() <= y.value(),
{
    units_follow_magnitudes(x, y);
    let z: Binary64 = Binary64::signed(false, 0);
    assert(z.units() == 0) by {
        assert(0 * pow2(0) == 0);
    }
    units_follow_magnitudes(x, z);
    units_follow_magnitudes(y, z);
}

/// One, in units.
pub proof fn one_in_units()
    ensures
        Binary64::spec_one().units() == pow2(1074),
        Binary64::spec_one().mag() == 0x3ff0_0000_0000_0000,
{
    let x: Binary64 = Binary64::spec_one();
    assert(x.mag() / (HIDDEN as nat) == 1023) by (nonlinear_arith)
        requires
            x.mag() == 0x3ff0_0000_0000_0000,
            HIDDEN == 0x10_0000_0000_0000,
    ;
    assert(x.mag() % (HIDDEN as nat) == 0) by (nonlinear_arith)
        requires
            x.mag() == 0x3ff0_0000_0000_0000,
            HIDDEN == 0x10_0000_0000_0000,
    ;
    powers_in_use();
    lemma_pow2_adds(52, 1022);
}

/// Does the number lie between zero and one?
pub open spec fn in_unit_range(x: Binary64) -> bool {
    Binary64::spec_zero().spec_le(x) && x.spec_le(Binary64::spec_one())
}

/// What is moved into the range from zero to one lies there, unless it is NaN.
pub proof fn clamp_reaches_unit_range(x: Binary64)
    requires
        !x.is_nan(),
    ensures
        in_unit_range(x.spec_clamp(Binary64::spec_zero(), Binary64::spec_one())),
{
}

/// Zero, in units.
pub proof fn zero_in_units()
    ensures
        Binary64::spec_zero().units() == 0,
        Binary64::spec_zero().mag() == 0,
{
    assert(0 * pow2(0) == 0) by (nonlinear_arith);
}

/// Two, in units.
pub proof fn two_in_units()
    ensures
        Binary64::spec_two().units() == 2 * pow2(1074),
        Binary64::spec_two().mag() == 0x4000_0000_0000_0000,
{
    let x: Binary64 = Binary64::spec_two();
    assert(x.mag() / (HIDDEN as nat) == 0x400) by (nonlinear_arith)
        requires
            x.mag() == 0x4000_0000_0000_0000,
            HIDDEN == 0x10_0000_0000_0000,
    ;
    assert(x.mag() % (HIDDEN as nat) == 0) by (nonlinear_arith)
        requires
            x.mag() == 0x4000_0000_0000_0000,
            HIDDEN == 0x10_0000_0000_0000,
    ;
    powers_in_use();
    lemma_pow2_adds(52, 1023);
    lemma_pow2_unfold(1075);
}

/// 2^65, in units: more than any count that two machine words make.
pub proof fn large_in_units()
    ensures
        (Binary64 { bits: 0x4400_0000_0000_0000 }).units() == 0x2_0000_0000_0000_0000 * pow2(1074),
{
    let x: Binary64 = Binary64 { bits: 0x4400_0000_0000_0000 };
    assert(x.mag() / (HIDDEN as nat) == 0x440) by (nonlinear_arith)
        requires
            x.mag() == 0x4400_0000_0000_0000,
            HIDDEN == 0x10_0000_0000_0000,
    ;
    assert(x.mag() % (HIDDEN as nat) == 0) by (nonlinear_arith)
        requires
            x.mag() == 0x4400_0000_0000_0000,
            HIDDEN == 0x10_0000_0000_0000,
    ;
    powers_in_use();
    lemma2_to64();
    lemma_pow2_adds(52, 1087);
    lemma_pow2_adds(64, 1);
    lemma_pow2_adds(65, 1074);
}

/// The number of a count that fits two machine words is finite; that of a count that
/// is not zero is at least one; and counts keep their order.
pub proof fn counts_are_ordered(m: nat, n: nat)
    requires
        m <= n <= 0x2_0000_0000_0000_0000,
    ensures
        Binary64::spec_of(n).is_finite(),
        !Binary64::spec_of(n).negative(),
        Binary64::spec_of(m).mag() <= Binary64::spec_of(n).mag(),
        n > 0 ==> Binary64::spec_of(n).mag() >= Binary64::spec_one().mag(),
        Binary64::spec_of(0) == Binary64::spec_zero(),
{
    let u: nat = pow2(1074);
    let big: Binary64 = Binary64 { bits: 0x4400_0000_0000_0000 };
    lemma_pow2_pos(1074);
    large_in_units();
    one_in_units();
    nearest_is_exact(big);
    nearest_is_exact(Binary64::spec_one());
    nearest_is_exact(Binary64::spec_zero());
    assert(n * u <= 0x2_0000_0000_0000_0000 * u) by (nonlinear_arith)
        requires
            n <= 0x2_0000_0000_0000_0000,
    ;
    assert(m * u <= n * u) by (nonlinear_arith)
        requires
            m <= n,
    ;
    nearest_is_monotone(n * u, 1, big.units(), 1);
    nearest_is_monotone(m * u, 1, n * u, 1);
    assert(0 * u == 0);
    zero_in_units();
    if n > 0 {
        assert(n * u >= u) by (nonlinear_arith)
            requires
                n > 0,
        ;
        nearest_is_monotone(u, 1, n * u, 1);
    }
}

/// A number over one that is no smaller lies between zero and one.
pub proof fn ratio_in_unit_range(x: Binary64, y: Binary64)
    requires
        !x.negative(),
        !y.negative(),
        x.mag() <= y.mag(),
        y.is_finite(),
        y.mag() > 0,
    ensures
        in_unit_range(x.spec_over(y)),
{
    let u: nat = pow2(1074);
    let z: Binary64 = Binary64::spec_zero();
    units_follow_magnitudes(x, y);
    units_follow_magnitudes(z, y);
    one_in_units();
    nearest_is_exact(Binary64::spec_one());
    let xu: nat = x.units();
    let yu: nat = y.units();
    assert((xu * u) * 1 <= u * yu) by (nonlinear_arith)
        requires
            xu <= yu,
    ;
    nearest_is_monotone(xu * u, yu, u, 1);
}

/// The product of two numbers between zero and one lies there too.
pub proof fn product_in_unit_range(x: Binary64, y: Binary64)
    requires
        in_unit_range(x),
        in_unit_range(y),
    ensures
        in_unit_range(x.spec_times(y)),
{
    let one: Binary64 = Binary64::spec_one();
    let u: nat = pow2(1074);
    lemma_pow2_pos(1074);
    one_in_units();
    units_follow_magnitudes(x, one);
    units_follow_magnitudes(y, one);
    nearest_is_exact(one);
    let xu: nat = x.units();
    let yu: nat = y.units();
    assert((xu * yu) * 1 <= u * u) by (nonlinear_arith)
        requires
            xu <= u,
            yu <= u,
    ;
    nearest_is_monotone(xu * yu, u, u, 1);
    if x.negative() || y.negative() {
        let z: Binary64 = Binary64::spec_zero();
        let t: Binary64 = if x.negative() {
            x
        } else {
            y
        };
        units_follow_magnitudes(t, z);
        zero_in_units();
        assert(xu * yu == 0) by (nonlinear_arith)
            requires
                xu == 0 || yu == 0,
        ;
        nearest_is_exact(z);
        nearest_of_equal_ratios(0, u, 0, 1);
    }
}

/// What is left of one lies between zero and one.
pub proof fn rest_in_unit_range(x: Binary64)
    requires
        in_unit_range(x),
    ensures
        in_unit_range(Binary64::spec_one().spec_minus(x)),
{
    let one: Binary64 = Binary64::spec_one();
    one_in_units();
    units_follow_magnitudes(x, one);
    nearest_is_exact(one);
    let n: Binary64 = x.spec_neg();
    assert(n.mag() == x.mag());
    assert(n.units() == x.units());
    if x.negative() {
        units_follow_magnitudes(x, Binary64::spec_zero());
        zero_in_units();
    }
    let v: int = one.value() + n.value();
    if v > 0 {
        nearest_is_monotone(v as nat, 1, pow2(1074), 1);
    }
}

/// The mean of two numbers between zero and one lies there too.
pub proof fn mean_in_unit_range(x: Binary64, y: Binary64)
    requires
        in_unit_range(x),
        in_unit_range(y),
    ensures
        in_unit_range(x.spec_plus(y).spec_over(Binary64::spec_two())),
{
    let one: Binary64 = Binary64::spec_one();
    let two: Binary64 = Binary64::spec_two();
    let u: nat = pow2(1074);
    lemma_pow2_pos(1074);
    one_in_units();
    two_in_units();
    units_follow_magnitudes(x, one);
    units_follow_magnitudes(y, one);
    units_follow_magnitudes(x, Binary64::spec_zero());
    units_follow_magnitudes(y, Binary64::spec_zero());
    zero_in_units();
    nearest_is_exact(one);
    nearest_is_exact(two);
    let s: Binary64 = x.spec_plus(y);
    let v: int = x.value() + y.value();
    assert(0 <= v <= 2 * u);
    if v > 0 {
        nearest_is_monotone(v as nat, 1, 2 * u, 1);
        assert(!s.negative());
        ratio_in_unit_range(s, two);
    } else {
        assert(s.mag() == 0);
        units_follow_magnitudes(s, Binary64::spec_zero());
        let n: nat = s.units() * u;
        assert(n == 0) by (nonlinear_arith)
            requires
                n == s.units() * u,
                s.units() == 0,
        ;
        nearest_is_exact(Binary64::spec_zero());
        nearest_of_equal_ratios(0, two.units(), 0, 1);
    }
}

/// Zero over anything positive is zero.
pub proof fn zero_over(y: Binary64)
    requires
        !y.negative(),
        y.is_finite(),
        y.mag() > 0,
    ensures
        Binary64::spec_zero().spec_over(y) == Binary64::spec_zero(),
{
    let z: Binary64 = Binary64::spec_zero();
    zero_in_units();
    units_follow_magnitudes(z, y);
    nearest_is_exact(z);
    assert(0 * pow2(1074) == 0);
    nearest_of_equal_ratios(0, y.units(), 0, 1);
}

/// A number over itself is one.
pub proof fn over_itself(y: Binary64)
    requires
        y.is_finite(),
        y.mag() > 0,
    ensures
        y.spec_over(y) == Binary64::spec_one(),
{
    zero_in_units();
    units_follow_magnitudes(Binary64::spec_zero(), y);
    one_in_units();
    nearest_is_exact(Binary64::spec_one());
    let u: nat = pow2(1074);
    let n: nat = y.units();
    assert((n * u) * 1 == u * n) by (nonlinear_arith);
    nearest_of_equal_ratios(n * u, n, u, 1);
}

/// A finite number times a zero is a zero.
pub proof fn times_zero(x: Binary64, z: Binary64)
    requires
        x.is_finite(),
        z.mag() == 0,
    ensures
        x.spec_times(z) == Binary64::signed(x.negative() != z.negative(), 0),
{
    zero_in_units();
    let zero: Binary64 = Binary64::spec_zero();
    units_follow_magnitudes(z, zero);
    let n: nat = x.units() * z.units();
    assert(n == 0) by (nonlinear_arith)
        requires
            n == x.units() * z.units(),
            z.units() == 0,
    ;
    lemma_pow2_pos(1074);
    nearest_is_exact(zero);
    nearest_of_equal_ratios(0, pow2(1074), 0, 1);
}

/// Counts up to 2^53 are held exactly.
pub proof fn counts_are_exact(n: nat)
    requires
        n <= 2 * HIDDEN,
    ensures
        Binary64::spec_of(n).units() == n * pow2(1074),
{
    let u: nat = pow2(1074);
    let h: nat = HIDDEN as nat;
    let p: nat = n * u;
    powers_in_use();
    lemma_pow2_pos(1074);
    let s: nat = some_scale_fits(p, 1);
    nearest_at(p, 1, s);
    half_even_in_range(p, 1, s);
    if n == 2 * HIDDEN {
        lemma_pow2_adds(53, 1074);
        lemma_pow2_adds(52, 1075);
        assert(p == pow2(1127));
        if s != 1075 {
            lemma_pow2_adds(1, 1127);
            lemma2_to64();
            lemma_pow2_strictly_increases(1127, 1128);
            assert(Binary64::fits_at(p, 1, 1075));
            one_scale_fits(p, 1, s, 1075);
        }
        lemma_pow2_pos(1075);
        exact_at(n, 1075);
    } else {
        if s > 1074 {
            powers_are_ordered(1127, (s + 52) as nat);
            lemma_pow2_adds(53, 1074);
            assert(n * u < (2 * h) * u) by (nonlinear_arith)
                requires
                    n < 2 * h,
                    u > 0,
            ;
        }
        exact_at(n, s);
    }
}

proof fn exact_at(n: nat, s: nat)
    requires
        n <= 2 * HIDDEN,
        Binary64::fits_at(n * pow2(1074), 1, s),
        s <= 1074 || n == 2 * HIDDEN && s == 1075,
    ensures
        Binary64::spec_of(n).units() == n * pow2(1074),
{
    let u: nat = pow2(1074);
    let h: nat = HIDDEN as nat;
    let p: nat = n * u;
    powers_in_use();
    nearest_at(p, 1, s);
    half_even_in_range(p, 1, s);
    let c: nat = pow2(s);
    lemma_pow2_pos(s);
    let k: nat;
    if s <= 1074 {
        let e: nat = (1074 - s) as nat;
        lemma_pow2_adds(s, e);
        k = n * pow2(e);
        assert(p == k * c) by (nonlinear_arith)
            requires
                p == n * (c * pow2(e)),
                k == n * pow2(e),
        ;
    } else {
        lemma_pow2_adds(1074, 1);
        lemma2_to64();
        k = h;
        assert(p == k * c) by (nonlinear_arith)
            requires
                p == (2 * h) * u,
                c == u * 2,
                k == h,
        ;
    }
    vstd::arithmetic::div_mod::lemma_fundamental_div_mod_converse(p as int, c as int, k as int, 0);
    assert(1 * c == c);
    assert(Binary64::half_even(p, 1 * c) == k);
    let m: nat = k + s * h;
    let x: Binary64 = Binary64::signed(false, m);
    assert(s * h <= 1075 * h) by (nonlinear_arith)
        requires
            s <= 1075,
    ;
    assert(m < INFINITE);
    assert(Binary64::spec_of(n) == x);
    assert(x.mag() == m);
    if s > 0 || k >= h {
        assert(m == (s + 1) * h + (k - h)) by (nonlinear_arith)
            requires
                m == k + s * h,
        ;
        vstd::arithmetic::div_mod::lemma_fundamental_div_mod_converse(
            m as int,
            h as int,
            (s + 1) as int,
            k - h,
        );
        assert(m >= h) by (nonlinear_arith)
            requires
                m == (s + 1) * h + (k - h),
                k >= h,
        ;
    } else {
        assert(s == 0);
        assert(pow2(0) == 1) by {
            lemma2_to64();
        }
    }
}

/// Is the number a sum of no more than `n` numbers between zero and one?
pub open spec fn at_most(x: Binary64, n: nat) -> bool {
    &&& x.is_finite()
    &&& 0 <= x.value()
    &&& x.units() <= n * pow2(1074)
}

/// Adding a number between zero and one adds no more than one.
pub proof fn sum_is_at_most(x: Binary64, n: nat, y: Binary64)
    requires
        n < 2 * HIDDEN,
        at_most(x, n),
        in_unit_range(y),
    ensures
        at_most(x.spec_plus(y), n + 1),
{
    let u: nat = pow2(1074);
    let top: Binary64 = Binary64::spec_of(n + 1);
    counts_are_exact(n + 1);
    assert(n + 1 <= 0x2_0000_0000_0000_0000);
    counts_are_ordered(n + 1, n + 1);
    one_in_units();
    zero_in_units();
    units_follow_magnitudes(y, Binary64::spec_one());
    units_follow_magnitudes(y, Binary64::spec_zero());
    nearest_is_exact(top);
    assert((n + 1) * u == n * u + u) by (nonlinear_arith);
    let v: int = x.value() + y.value();
    let s: Binary64 = x.spec_plus(y);
    if v > 0 {
        nearest_is_monotone(v as nat, 1, top.units(), 1);
        assert(s.mag() <= top.mag());
        assert(!s.negative());
        units_follow_magnitudes(s, top);
    } else {
        assert(s.mag() == 0);
        units_follow_magnitudes(s, Binary64::spec_zero());
    }
}

/// A number that is not below zero, over one that is above it and no smaller, lies
/// between zero and one.
pub proof fn part_of_whole_in_unit_range(part: Binary64, whole: Binary64)
    requires
        part.is_finite(),
        0 <= part.value(),
        whole.is_finite(),
        Binary64::spec_zero().spec_lt(whole),
        part.units() <= whole.units(),
    ensures
        in_unit_range(part.spec_over(whole)),
{
    zero_in_units();
    units_follow_magnitudes(part, whole);
    if part.negative() {
        units_follow_magnitudes(part, Binary64::spec_zero());
        units_follow_magnitudes(whole, Binary64::spec_zero());
        let p: nat = part.units() * pow2(1074);
        assert(p == 0) by (nonlinear_arith)
            requires
                p == part.units() * pow2(1074),
                part.units() == 0,
        ;
        nearest_is_exact(Binary64::spec_zero());
        nearest_of_equal_ratios(0, whole.units(), 0, 1);
    } else {
        ratio_in_unit_range(part, whole);
    }
}

/// The mean of numbers between zero and one lies there too.
pub proof fn mean_of_many_in_unit_range(sum: Binary64, n: nat)
    requires
        0 < n <= 2 * HIDDEN,
        at_most(sum, n),
    ensures
        in_unit_range(sum.spec_over(Binary64::spec_of(n))),
{
    counts_are_exact(n);
    assert(n <= 0x2_0000_0000_0000_0000);
    counts_are_ordered(n, n);
    part_of_whole_in_unit_range(sum, Binary64::spec_of(n));
}

/// Larger terms make no smaller sum.
pub proof fn sums_are_monotone(x: Binary64, y: Binary64, n: nat, u: Binary64, v: Binary64)
    requires
        n < 2 * HIDDEN,
        at_most(x, n),
        in_unit_range(y),
        at_most(u, n),
        in_unit_range(v),
        x.units() <= u.units(),
        y.units() <= v.units(),
    ensures
        x.spec_plus(y).units() <= u.spec_plus(v).units(),
{
    sum_is_at_most(x, n, y);
    sum_is_at_most(u, n, v);
    zero_in_units();
    units_follow_magnitudes(y, Binary64::spec_zero());
    units_follow_magnitudes(v, Binary64::spec_zero());
    let a: Binary64 = x.spec_plus(y);
    let b: Binary64 = u.spec_plus(v);
    let p: int = x.value() + y.value();
    let q: int = u.value() + v.value();
    assert(0 <= p <= q);
    if p == 0 {
        assert(a.mag() == 0);
        units_follow_magnitudes(a, Binary64::spec_zero());
    } else {
        nearest_is_monotone(p as nat, 1, q as nat, 1);
        units_follow_magnitudes(a, b);
    }
}

/// A share of a number between zero and one is no larger than the number.
pub proof fn share_is_no_larger(share: Binary64, x: Binary64)
    requires
        in_unit_range(share),
        in_unit_range(x),
    ensures
        share.spec_times(x).units() <= x.units(),
        in_unit_range(share.spec_times(x)),
{
    let u: nat = pow2(1074);
    lemma_pow2_pos(1074);
    product_in_unit_range(share, x);
    one_in_units();
    units_follow_magnitudes(share, Binary64::spec_one());
    nearest_is_exact(x);
    let s: nat = share.units();
    let w: nat = x.units();
    assert((s * w) * 1 <= w * u) by (nonlinear_arith)
        requires
            s <= u,
    ;
    nearest_is_monotone(s * w, u, w, 1);
    units_follow_magnitudes(share.spec_times(x), x);
}

/// Shares of two numbers come in the order of the numbers.
pub proof fn shares_keep_order(x: Binary64, y: Binary64, share: Binary64)
    requires
        x.is_finite(),
        y.is_finite(),
        x.spec_le(y),
        in_unit_range(share),
        !share.negative(),
    ensures
        x.spec_times(share).is_finite(),
        y.spec_times(share).is_finite(),
        x.spec_times(share).spec_le(y.spec_times(share)),
{
    share_of_magnitude(x, share);
    share_of_magnitude(y, share);
    let u: nat = pow2(1074);
    lemma_pow2_pos(1074);
    let a: nat = x.units();
    let b: nat = y.units();
    let c: nat = share.units();
    if x.negative() == y.negative() {
        if x.negative() {
            units_follow_magnitudes(y, x);
            assert((b * c) * u <= (a * c) * u) by (nonlinear_arith)
                requires
                    b <= a,
            ;
            nearest_is_monotone(b * c, u, a * c, u);
        } else {
            units_follow_magnitudes(x, y);
            assert((a * c) * u <= (b * c) * u) by (nonlinear_arith)
                requires
                    a <= b,
            ;
            nearest_is_monotone(a * c, u, b * c, u);
        }
    } else if y.negative() {
        // Both are zero.
        units_follow_magnitudes(x, Binary64::spec_zero());
        units_follow_magnitudes(y, Binary64::spec_zero());
        times_commutes(x, share);
        times_commutes(y, share);
        times_zero(share, x);
        times_zero(share, y);
    }
}

proof fn share_of_magnitude(x: Binary64, share: Binary64)
    requires
        x.is_finite(),
        in_unit_range(share),
        !share.negative(),
    ensures
        x.spec_times(share) == Binary64::signed(
            x.negative(),
            Binary64::nearest(x.units() * share.units(), pow2(1074)),
        ),
        Binary64::nearest(x.units() * share.units(), pow2(1074)) <= x.mag(),
{
    let u: nat = pow2(1074);
    lemma_pow2_pos(1074);
    one_in_units();
    units_follow_magnitudes(share, Binary64::spec_one());
    nearest_is_exact(x);
    let a: nat = x.units();
    let c: nat = share.units();
    assert((a * c) * 1 <= a * u) by (nonlinear_arith)
        requires
            c <= u,
    ;
    nearest_is_monotone(a * c, u, a, 1);
}

/// Adding zero keeps the place of a number.
pub proof fn zero_plus(x: Binary64)
    requires
        x.is_finite(),
    ensures
        Binary64::spec_zero().spec_plus(x).rank() == x.rank(),
        !Binary64::spec_zero().spec_plus(x).is_nan(),
{
    zero_in_units();
    nearest_is_exact(x);
    units_follow_magnitudes(x, Binary64::spec_zero());
}

/// Does the number lie between minus `n` and `n`?
pub open spec fn within(x: Binary64, n: nat) -> bool {
    x.is_finite() && x.units() <= n * pow2(1074)
}

/// The product of two numbers between minus one and one lies there too.
pub proof fn product_is_within(x: Binary64, y: Binary64)
    requires
        within(x, 1),
        within(y, 1),
    ensures
        within(x.spec_times(y), 1),
{
    let one: Binary64 = Binary64::spec_one();
    let u: nat = pow2(1074);
    lemma_pow2_pos(1074);
    one_in_units();
    nearest_is_exact(one);
    let a: nat = x.units();
    let b: nat = y.units();
    assert((a * b) * 1 <= u * u) by (nonlinear_arith)
        requires
            a <= u,
            b <= u,
    ;
    nearest_is_monotone(a * b, u, u, 1);
    units_follow_magnitudes(x.spec_times(y), one);
}

/// One more than 2^53 is halfway between two numbers and rounds to 2^53.
proof fn one_more_is_lost()
    ensures
        Binary64::nearest((2 * HIDDEN as nat + 1) * pow2(1074), 1) == Binary64::spec_of(
            2 * HIDDEN as nat,
        ).mag(),
{
    let u: nat = pow2(1074);
    let h: nat = HIDDEN as nat;
    let c: nat = pow2(1075);
    let p: nat = (2 * h + 1) * u;
    let q: nat = (2 * h) * u;
    powers_in_use();
    lemma2_to64();
    lemma_pow2_pos(1074);
    lemma_pow2_adds(1074, 1);
    lemma_pow2_adds(52, 1075);
    lemma_pow2_adds(53, 1075);
    assert(c == 2 * u);
    assert(q == h * c) by (nonlinear_arith)
        requires
            q == (2 * h) * u,
            c == 2 * u,
    ;
    assert(p == h * c + u) by (nonlinear_arith)
        requires
            p == (2 * h + 1) * u,
            c == 2 * u,
    ;
    assert(h * c + u < (2 * h) * c) by (nonlinear_arith)
        requires
            c == 2 * u,
            u > 0,
            h > 1,
    ;
    nearest_at(p, 1, 1075);
    nearest_at(q, 1, 1075);
    vstd::arithmetic::div_mod::lemma_fundamental_div_mod_converse(p as int, c as int, h as int, u as int);
    vstd::arithmetic::div_mod::lemma_fundamental_div_mod_converse(q as int, c as int, h as int, 0);
    assert(1 * c == c);
    assert(Binary64::half_even(p, 1 * c) == h);
    assert(Binary64::half_even(q, 1 * c) == h);
}

/// Adding a number between minus one and one does not lead beyond 2^53.
pub proof fn sum_stays_within(x: Binary64, y: Binary64)
    requires
        within(x, 2 * HIDDEN as nat),
        within(y, 1),
    ensures
        within(x.spec_plus(y), 2 * HIDDEN as nat),
{
    let u: nat = pow2(1074);
    let n: nat = 2 * HIDDEN as nat;
    let top: Binary64 = Binary64::spec_of(n);
    counts_are_exact(n);
    assert(n <= 0x2_0000_0000_0000_0000);
    counts_are_ordered(n, n);
    one_more_is_lost();
    zero_in_units();
    assert((n + 1) * u == n * u + u) by (nonlinear_arith);
    let v: int = x.value() + y.value();
    let s: Binary64 = x.spec_plus(y);
    if v == 0 {
        assert(s.mag() == 0);
        units_follow_magnitudes(s, Binary64::spec_zero());
    } else {
        let m: nat = if v < 0 {
            (-v) as nat
        } else {
            v as nat
        };
        nearest_is_monotone(m, 1, (n + 1) * u, 1);
        assert(s.mag() <= top.mag());
        units_follow_magnitudes(s, top);
    }
}

/// Adding a number between zero and one to one that is not negative does not lead beyond
/// 2^53.
pub proof fn sum_stays_at_most(x: Binary64, y: Binary64)
    requires
        at_most(x, 2 * HIDDEN as nat),
        in_unit_range(y),
    ensures
        at_most(x.spec_plus(y), 2 * HIDDEN as nat),
{
    one_in_units();
    zero_in_units();
    units_follow_magnitudes(y, Binary64::spec_one());
    units_follow_magnitudes(y, Binary64::spec_zero());
    sum_stays_within(x, y);
    let s: Binary64 = x.spec_plus(y);
    if x.value() + y.value() > 0 {
        assert(!s.negative());
    } else {
        assert(s.mag() == 0);
        units_follow_magnitudes(s, Binary64::spec_zero());
    }
}

/// The number just below one, in units.
proof fn below_one_in_units()
    ensures
        (Binary64 { bits: 0x3fef_ffff_ffff_ffff }).units() == (2 * HIDDEN - 1) as nat * pow2(1021),
        pow2(1074) == 2 * HIDDEN * pow2(1021),
{
    let x: Binary64 = Binary64 { bits: 0x3fef_ffff_ffff_ffff };
    vstd::arithmetic::div_mod::lemma_fundamental_div_mod_converse(
        x.mag() as int,
        HIDDEN as int,
        0x3fe,
        0xf_ffff_ffff_ffff,
    );
    powers_in_use();
    lemma_pow2_adds(53, 1021);
}

/// A count over a larger one lies below one, where both are held exactly.
pub proof fn count_over_a_larger_one_is_below_one(m: nat, n: nat)
    requires
        m < n <= 2 * HIDDEN,
    ensures
        Binary64::spec_of(m).spec_over(Binary64::spec_of(n)) != Binary64::spec_one(),
{
    let u: nat = pow2(1074);
    let c: nat = pow2(1021);
    let h: nat = HIDDEN as nat;
    let x: Binary64 = Binary64::spec_of(m);
    let y: Binary64 = Binary64::spec_of(n);
    let below: Binary64 = Binary64 { bits: 0x3fef_ffff_ffff_ffff };
    lemma_pow2_pos(1074);
    counts_are_exact(m);
    counts_are_exact(n);
    assert(n <= 0x2_0000_0000_0000_0000);
    counts_are_ordered(m, n);
    counts_are_ordered(m, m);
    below_one_in_units();
    nearest_is_exact(below);
    let b: nat = (2 * h - 1) as nat * c;
    assert(m * (2 * h) <= (2 * h - 1) * n) by (nonlinear_arith)
        requires
            m <= n - 1,
            n <= 2 * h,
    ;
    assert(m * u <= b * n) by (nonlinear_arith)
        requires
            m * (2 * h) <= (2 * h - 1) * n,
            u == (2 * h) * c,
            b == (2 * h - 1) * c,
    ;
    assert(((m * u) * u) * 1 <= b * (n * u)) by (nonlinear_arith)
        requires
            m * u <= b * n,
    ;
    assert(n * u > 0) by (nonlinear_arith)
        requires
            n > 0,
            u > 0,
    ;
    nearest_is_monotone((m * u) * u, n * u, b, 1);
}

/// One half, in units.
proof fn half_in_units()
    ensures
        (Binary64 { bits: 0x3fe0_0000_0000_0000 }).units() == pow2(1073),
        pow2(1074) == 2 * pow2(1073),
{
    let x: Binary64 = Binary64 { bits: 0x3fe0_0000_0000_0000 };
    vstd::arithmetic::div_mod::lemma_fundamental_div_mod_converse(x.mag() as int, HIDDEN as int, 0x3fe, 0);
    powers_in_use();
    lemma_pow2_adds(52, 1021);
    lemma_pow2_unfold(1074);
}

/// A number of lesser magnitude than a half has less than half the units of one.
pub proof fn less_than_half_in_units(x: Binary64)
    requires
        x.mag() < 0x3fe0_0000_0000_0000,
    ensures
        2 * x.units() < pow2(1074),
{
    half_in_units();
    units_follow_magnitudes(x, Binary64 { bits: 0x3fe0_0000_0000_0000 });
}

/// Less than half of what the last bit of a number counts is lost in rounding.
proof fn less_than_half_a_bit_is_lost(x: Binary64, r: nat)
    requires
        x.is_finite(),
        x.scale() > 0,
        2 * r < pow2(x.scale()),
    ensures
        Binary64::nearest(x.units() + r, 1) == x.mag(),
{
    let s: nat = x.scale();
    let m: nat = x.significand();
    let h: nat = HIDDEN as nat;
    powers_in_use();
    lemma_pow2_pos(s);
    lemma_pow2_adds(s, 53);
    lemma_pow2_adds(s, 52);
    let c: nat = pow2(s);
    let p: nat = x.units() + r;
    assert(p == m * c + r);
    assert(m * c + r < c * (2 * h)) by (nonlinear_arith)
        requires
            m < 2 * h,
            r < c,
    ;
    assert(m * c >= c * h) by (nonlinear_arith)
        requires
            m >= h,
            c > 0,
    ;
    assert(Binary64::fits_at(p, 1, s));
    nearest_at(p, 1, s);
    vstd::arithmetic::div_mod::lemma_fundamental_div_mod_converse(p as int, c as int, m as int, r as int);
    assert(1 * c == c);
    assert(Binary64::half_even(p, 1 * c) == m);
    let e: nat = x.mag() / h;
    assert(x.mag() == e * h + x.mag() % h) by (nonlinear_arith)
        requires
            h > 0,
            e == x.mag() / h,
    ;
    assert((e - 1) * h + h == e * h) by (nonlinear_arith);
}

/// The next number of larger magnitude counts one last bit more.
proof fn next_number_in_units(x: Binary64, y: Binary64)
    requires
        y.mag() == x.mag() + 1,
    ensures
        y.units() == x.units() + pow2(x.scale()),
{
    let h: nat = HIDDEN as nat;
    let s: nat = x.scale();
    let c: nat = pow2(s);
    let m: nat = x.significand();
    assert((m + 1) * c == m * c + c) by (nonlinear_arith);
    if x.mag() >= h {
        let e: nat = x.mag() / h;
        let r: nat = x.mag() % h;
        assert(x.mag() == e * h + r) by (nonlinear_arith)
            requires
                h > 0,
                e == x.mag() / h,
                r == x.mag() % h,
        ;
        if r + 1 < h {
            vstd::arithmetic::div_mod::lemma_fundamental_div_mod_converse(
                y.mag() as int,
                h as int,
                e as int,
                (r + 1) as int,
            );
        } else {
            assert(e * h + h == (e + 1) * h) by (nonlinear_arith);
            vstd::arithmetic::div_mod::lemma_fundamental_div_mod_converse(
                y.mag() as int,
                h as int,
                (e + 1) as int,
                0,
            );
            lemma_pow2_unfold(e);
            assert(h * (2 * c) == (m + 1) * c) by (nonlinear_arith)
                requires
                    m + 1 == 2 * h,
            ;
        }
    } else if y.mag() == h {
        vstd::arithmetic::div_mod::lemma_fundamental_div_mod_converse(y.mag() as int, h as int, 1, 0);
    }
}

/// A number whose last bit counts at least one lies at 2^52 or above it, and one whose
/// last bit counts less lies below.
proof fn scale_of_units(x: Binary64)
    requires
        x.is_finite(),
    ensures
        x.scale() < 1074 ==> x.units() < HIDDEN * pow2(1074),
        x.scale() >= 1074 ==> x.units() >= HIDDEN * pow2(1074),
{
    let h: nat = HIDDEN as nat;
    let c: nat = pow2(x.scale());
    let m: nat = x.significand();
    assert(m < 2 * h);
    lemma_pow2_pos(x.scale());
    if x.scale() < 1074 {
        powers_are_ordered(x.scale(), 1073);
        half_in_units();
        assert(m * c < h * (2 * pow2(1073))) by (nonlinear_arith)
            requires
                m < 2 * h,
                0 < c <= pow2(1073),
        ;
    } else {
        powers_are_ordered(1074, x.scale());
        assert(m * c >= h * pow2(1074)) by (nonlinear_arith)
            requires
                m >= h,
                c >= pow2(1074),
        ;
    }
}

/// A count with less than a half added lies below a larger one, unless both counts are so
/// large that they round to the same number.
pub proof fn larger_counts_outweigh_less_than_half(m: nat, n: nat, x: Binary64, y: Binary64)
    requires
        m < n <= 0x2_0000_0000_0000_0000,
        m < 2 * HIDDEN || Binary64::spec_of(m) != Binary64::spec_of(n),
        in_unit_range(x),
        2 * x.units() < pow2(1074),
        in_unit_range(y),
    ensures
        Binary64::spec_of(m).spec_plus(x).spec_lt(Binary64::spec_of(n).spec_plus(y)),
{
    let u: nat = pow2(1074);
    let h: nat = HIDDEN as nat;
    let a: Binary64 = Binary64::spec_of(m);
    let b: Binary64 = Binary64::spec_of(n);
    lemma_pow2_pos(1074);
    counts_are_ordered(m, n);
    counts_are_ordered(m, m);
    one_in_units();
    zero_in_units();
    units_follow_magnitudes(x, Binary64::spec_one());
    units_follow_magnitudes(y, Binary64::spec_one());
    units_follow_magnitudes(x, Binary64::spec_zero());
    units_follow_magnitudes(y, Binary64::spec_zero());
    units_follow_magnitudes(a, b);
    units_follow_magnitudes(b, Binary64::spec_one());
    // The larger sum is no smaller than the larger count.
    let right: Binary64 = b.spec_plus(y);
    nearest_is_exact(b);
    nearest_is_monotone(b.units(), 1, (b.value() + y.value()) as nat, 1);
    assert(b.mag() <= right.mag());
    // The smaller sum does not reach the larger count.
    let left: Binary64 = a.spec_plus(x);
    let p: nat = a.units() + x.units();
    scale_of_units(a);
    if a.scale() >= 1074 {
        powers_are_ordered(1074, a.scale());
        less_than_half_a_bit_is_lost(a, x.units());
        assert(left.mag() == a.mag());
        if m < 2 * h {
            larger_count_is_a_larger_number(m, n);
        }
    } else {
        if m >= h {
            counts_are_exact(h);
            counts_are_ordered(h, m);
            units_follow_magnitudes(Binary64::spec_of(h), a);
        }
        let next: Binary64 = Binary64::spec_of(m + 1);
        counts_are_exact(m);
        counts_are_exact(m + 1);
        counts_are_ordered(m + 1, n);
        counts_are_ordered(m + 1, m + 1);
        let below: Binary64 = Binary64::signed(false, (next.mag() - 1) as nat);
        next_number_in_units(below, next);
        units_follow_magnitudes(below, next);
        scale_of_units(below);
        assert((m + 1) * u == m * u + u) by (nonlinear_arith);
        assert((m + 1) * u <= h * u) by (nonlinear_arith)
            requires
                m + 1 <= h,
        ;
        half_in_units();
        powers_are_ordered(below.scale(), 1073);
        nearest_is_exact(below);
        nearest_is_monotone(p, 1, below.units(), 1);
        if p > 0 {
            assert(left.mag() <= below.mag());
        } else {
            assert(left.mag() == 0);
        }
    }
}

/// A count that is held exactly is a smaller number than a larger count.
proof fn larger_count_is_a_larger_number(m: nat, n: nat)
    requires
        m < n <= 0x2_0000_0000_0000_0000,
        m < 2 * HIDDEN,
    ensures
        Binary64::spec_of(m).mag() < Binary64::spec_of(n).mag(),
{
    let u: nat = pow2(1074);
    lemma_pow2_pos(1074);
    counts_are_exact(m);
    counts_are_exact(m + 1);
    counts_are_ordered(m, m);
    counts_are_ordered(m + 1, n);
    counts_are_ordered(m + 1, m + 1);
    assert((m + 1) * u == m * u + u) by (nonlinear_arith);
    units_follow_magnitudes(Binary64::spec_of(m), Binary64::spec_of(m + 1));
}

/// Are these the sums that come up when the terms are added to `start` one by one?
pub open spec fn are_running_sums(sums: Seq<Binary64>, start: Binary64, terms: Seq<Binary64>) -> bool {
    &&& sums.len() == terms.len() + 1
    &&& sums[0] == start
    &&& forall|i: int| 0 <= i < terms.len() ==> #[trigger] sums[i + 1] == sums[i].spec_plus(terms[i])
}

/// A number of magnitude 2^(e - 1023), in units.
pub proof fn power_in_units(x: Binary64, e: nat)
    requires
        e > 0,
        x.mag() == e * (HIDDEN as nat),
    ensures
        x.units() == pow2(e + 51),
{
    vstd::arithmetic::div_mod::lemma_fundamental_div_mod_converse(x.mag() as int, HIDDEN as int, e as int, 0);
    assert(e * (HIDDEN as nat) >= HIDDEN) by (nonlinear_arith)
        requires
            e > 0,
    ;
    powers_in_use();
    lemma_pow2_adds(52, (e - 1) as nat);
}

/// A power of two of units, over a power of two, is a power of two.
proof fn nearest_power(i: nat, j: nat)
    requires
        j <= i < j + 2000,
        i - j >= 52,
    ensures
        Binary64::nearest(pow2(i), pow2(j)) == ((i - j - 51) as nat) * (HIDDEN as nat),
{
    let k: nat = (i - j) as nat;
    let e: nat = (k - 51) as nat;
    let h: nat = HIDDEN as nat;
    assert(0 < e * h < INFINITE) by (nonlinear_arith)
        requires
            0 < e < 2000,
            h == 0x10_0000_0000_0000,
            INFINITE == 0x7ff0_0000_0000_0000,
    ;
    let x: Binary64 = Binary64::signed(false, e * h);
    assert(x.mag() == e * h);
    power_in_units(x, e);
    nearest_is_exact(x);
    lemma_pow2_pos(j);
    lemma_pow2_adds(j, k);
    assert(pow2(i) * 1 == pow2(k) * pow2(j)) by (nonlinear_arith)
        requires
            pow2(i) == pow2(j) * pow2(k),
    ;
    nearest_of_equal_ratios(pow2(i), pow2(j), pow2(k), 1);
}

/// The product of two numbers that are not too small is above zero.
pub proof fn product_is_positive(x: Binary64, y: Binary64, i: nat, j: nat)
    requires
        in_unit_range(x),
        in_unit_range(y),
        pow2(i) <= x.units(),
        pow2(j) <= y.units(),
        i <= 1074,
        j <= 1074,
        i + j >= 1074 + 52,
    ensures
        pow2((i + j - 1074) as nat) <= x.spec_times(y).units(),
        Binary64::spec_zero().spec_lt(x.spec_times(y)),
        in_unit_range(x.spec_times(y)),
{
    let a: nat = x.units();
    let b: nat = y.units();
    let p: Binary64 = x.spec_times(y);
    let e: nat = (i + j - 1074 - 51) as nat;
    let h: nat = HIDDEN as nat;
    product_in_unit_range(x, y);
    lemma_pow2_adds(i, j);
    lemma_pow2_pos(1074);
    lemma_pow2_pos(i);
    lemma_pow2_pos(j);
    assert(pow2(i) * pow2(j) <= a * b) by (nonlinear_arith)
        requires
            pow2(i) <= a,
            pow2(j) <= b,
    ;
    assert(pow2(i + j) * pow2(1074) <= (a * b) * pow2(1074)) by (nonlinear_arith)
        requires
            pow2(i + j) <= a * b,
    ;
    nearest_is_monotone(pow2(i + j), pow2(1074), a * b, pow2(1074));
    nearest_power(i + j, 1074);
    assert(0 < e * h < INFINITE) by (nonlinear_arith)
        requires
            0 < e < 2000,
            h == 0x10_0000_0000_0000,
            INFINITE == 0x7ff0_0000_0000_0000,
    ;
    let low: Binary64 = Binary64::signed(false, e * h);
    power_in_units(low, e);
    zero_in_units();
    one_in_units();
    units_follow_magnitudes(x, Binary64::spec_zero());
    units_follow_magnitudes(y, Binary64::spec_zero());
    assert(low.mag() <= p.mag());
    units_follow_magnitudes(low, p);
    assert(!p.negative());
}

/// The quotient of two counts is above zero where the first is.
pub proof fn ratio_of_counts_is_positive(m: nat, n: nat)
    requires
        0 < m <= n <= 0x2_0000_0000_0000_0000,
    ensures
        Binary64::spec_zero().spec_lt(Binary64::spec_of(m).spec_over(Binary64::spec_of(n))),
        pow2(1009) <= Binary64::spec_of(m).spec_over(Binary64::spec_of(n)).units(),
        in_unit_range(Binary64::spec_of(m).spec_over(Binary64::spec_of(n))),
{
    let u: nat = pow2(1074);
    let x: Binary64 = Binary64::spec_of(m);
    let y: Binary64 = Binary64::spec_of(n);
    let q: Binary64 = x.spec_over(y);
    let big: Binary64 = Binary64 { bits: 0x4400_0000_0000_0000 };
    counts_are_ordered(m, n);
    counts_are_ordered(m, m);
    counts_are_ordered(n, 0x2_0000_0000_0000_0000);
    ratio_in_unit_range(x, y);
    one_in_units();
    zero_in_units();
    large_in_units();
    nearest_is_exact(big);
    units_follow_magnitudes(Binary64::spec_one(), x);
    units_follow_magnitudes(Binary64::spec_zero(), y);
    assert(Binary64::spec_of(0x2_0000_0000_0000_0000).mag() == big.mag());
    units_follow_magnitudes(y, big);
    lemma_pow2_pos(1074);
    lemma2_to64();
    lemma_pow2_adds(64, 1);
    lemma_pow2_adds(65, 1009);
    lemma_pow2_adds(65, 1074);
    let a: nat = x.units();
    let b: nat = y.units();
    let c: nat = pow2(1009);
    assert(c * b <= (a * u) * 1) by (nonlinear_arith)
        requires
            u <= a,
            b <= 0x2_0000_0000_0000_0000 * u,
            u == 0x2_0000_0000_0000_0000 * c,
    ;
    nearest_is_monotone(c, 1, a * u, b);
    lemma2_to64();
    nearest_power(1009, 0);
    let h: nat = HIDDEN as nat;
    assert(958 * h < INFINITE);
    let low: Binary64 = Binary64::signed(false, 958 * h);
    power_in_units(low, 958);
    assert(low.mag() <= q.mag());
    units_follow_magnitudes(low, q);
    assert(!q.negative());
}

/// Half the sum of two numbers between zero and one is above zero where one of them is not
/// too small.
pub proof fn mean_is_positive(x: Binary64, y: Binary64)
    requires
        in_unit_range(x),
        in_unit_range(y),
        pow2(1000) <= x.units() || pow2(1000) <= y.units(),
    ensures
        Binary64::spec_zero().spec_lt(x.spec_plus(y).spec_over(Binary64::spec_two())),
{
    let u: nat = pow2(1074);
    let h: nat = HIDDEN as nat;
    let s: Binary64 = x.spec_plus(y);
    let q: Binary64 = s.spec_over(Binary64::spec_two());
    mean_in_unit_range(x, y);
    one_in_units();
    two_in_units();
    zero_in_units();
    units_follow_magnitudes(x, Binary64::spec_zero());
    units_follow_magnitudes(y, Binary64::spec_zero());
    units_follow_magnitudes(x, Binary64::spec_one());
    units_follow_magnitudes(y, Binary64::spec_one());
    lemma2_to64();
    nearest_power(1000, 0);
    lemma_pow2_pos(1000);
    lemma_pow2_pos(1074);
    nearest_is_monotone(pow2(1000), 1, x.units() + y.units(), 1);
    assert(949 * h < INFINITE);
    let low: Binary64 = Binary64::signed(false, 949 * h);
    power_in_units(low, 949);
    assert(low.mag() <= s.mag());
    assert(s.is_finite()) by {
        nearest_is_exact(Binary64::spec_two());
        nearest_is_monotone(x.units() + y.units(), 1, 2 * u, 1);
    }
    units_follow_magnitudes(low, s);
    let a: nat = s.units();
    lemma_pow2_unfold(1000);
    nearest_power(999, 0);
    assert(pow2(999) * (2 * u) <= (a * u) * 1) by (nonlinear_arith)
        requires
            2 * pow2(999) <= a,
    ;
    nearest_is_monotone(pow2(999), 1, a * u, 2 * u);
    assert(948 * h > 0);
    assert(!s.negative());
    assert(q.mag() > 0);
}

/// What a number below one leaves of one is not too small.
pub proof fn rest_of_less_than_one(x: Binary64)
    requires
        in_unit_range(x),
        x.spec_lt(Binary64::spec_one()),
    ensures
        pow2(1021) <= Binary64::spec_one().spec_minus(x).units(),
{
    let one: Binary64 = Binary64::spec_one();
    let below: Binary64 = Binary64 { bits: 0x3fef_ffff_ffff_ffff };
    let h: nat = HIDDEN as nat;
    let c: nat = pow2(1021);
    one_in_units();
    zero_in_units();
    below_one_in_units();
    units_follow_magnitudes(x, below);
    units_follow_magnitudes(x, Binary64::spec_zero());
    let n: Binary64 = x.spec_neg();
    assert(n.mag() == x.mag());
    assert(n.units() == x.units());
    assert((2 * h) * c == (2 * h - 1) * c + c) by (nonlinear_arith);
    let v: int = one.value() + n.value();
    lemma_pow2_pos(1021);
    assert(v >= c);
    let d: Binary64 = one.spec_minus(x);
    nearest_is_monotone(c, 1, v as nat, 1);
    lemma2_to64();
    nearest_power(1021, 0);
    assert(970 * h < INFINITE);
    let low: Binary64 = Binary64::signed(false, 970 * h);
    power_in_units(low, 970);
    rest_in_unit_range(x);
    assert(low.mag() <= d.mag());
    units_follow_magnitudes(low, d);
}

/// Adding the larger of two numbers gives no less.
pub proof fn plus_keeps_order(c: Binary64, x: Binary64, y: Binary64)
    requires
        c.is_finite(),
        x.is_finite(),
        y.is_finite(),
        x.value() <= y.value(),
    ensures
        c.spec_plus(x).spec_le(c.spec_plus(y)),
{
    let v: int = c.value() + x.value();
    let w: int = c.value() + y.value();
    if v > 0 {
        nearest_is_monotone(v as nat, 1, w as nat, 1);
    } else if w < 0 {
        nearest_is_monotone((-w) as nat, 1, (-v) as nat, 1);
    }
}

/// The number that has `m` times 2^e units, for an `m` of at most 53 bits.
proof fn number_on_grid(m: nat, e: nat) -> (z: Binary64)
    requires
        m <= 2 * HIDDEN,
        e <= 1100,
    ensures
        z.is_finite(),
        !z.negative(),
        z.units() == m * pow2(e),
    decreases e,
{
    let h: nat = HIDDEN as nat;
    if m < h {
        if e == 0 {
            lemma2_to64();
            let z: Binary64 = Binary64::signed(false, m);
            assert(z.mag() == m);
            z
        } else {
            let z: Binary64 = number_on_grid(2 * m, (e - 1) as nat);
            lemma_pow2_unfold(e);
            assert((2 * m) * pow2((e - 1) as nat) == m * (2 * pow2((e - 1) as nat))) by (nonlinear_arith);
            z
        }
    } else {
        let (k, s): (nat, nat) = if m == 2 * h {
            (h, e + 1)
        } else {
            (m, e)
        };
        let mag: nat = (s + 1) * h + (k - h) as nat;
        assert(mag < INFINITE) by (nonlinear_arith)
            requires
                s <= 1101,
                k < 2 * h,
                k >= h,
                mag == (s + 1) * h + (k - h),
                h == 0x10_0000_0000_0000,
                INFINITE == 0x7ff0_0000_0000_0000,
        ;
        assert(mag >= h) by (nonlinear_arith)
            requires
                mag == (s + 1) * h + (k - h),
                k >= h,
        ;
        let z: Binary64 = Binary64::signed(false, mag);
        assert(z.mag() == mag);
        vstd::arithmetic::div_mod::lemma_fundamental_div_mod_converse(
            mag as int,
            h as int,
            (s + 1) as int,
            k - h,
        );
        assert(z.units() == k * pow2(s));
        if m == 2 * h {
            lemma_pow2_unfold(e + 1);
            assert(h * (2 * pow2(e)) == (2 * h) * pow2(e)) by (nonlinear_arith);
        }
        z
    }
}

/// What lies between two points of a grid of numbers is rounded to no more than the second
/// and no less than the first.
proof fn rounding_stays_on_grid(p: nat, q: nat, low: nat, high: nat, e: nat)
    requires
        q > 0,
        e <= 1100,
        low <= high <= 2 * HIDDEN,
        (low * pow2(e)) * q <= p,
        p <= (high * pow2(e)) * q,
    ensures
        ({
            let r: Binary64 = Binary64::rounded(false, p, q);
            r.is_finite() && !r.negative() && low * pow2(e) <= r.units() <= high * pow2(e)
        }),
{
    let a: Binary64 = number_on_grid(low, e);
    let b: Binary64 = number_on_grid(high, e);
    let r: Binary64 = Binary64::rounded(false, p, q);
    nearest_is_exact(a);
    nearest_is_exact(b);
    nearest_is_monotone(a.units(), 1, p, q);
    nearest_is_monotone(p, q, b.units(), 1);
    assert(a.mag() <= r.mag() <= b.mag());
    units_follow_magnitudes(a, r);
    units_follow_magnitudes(r, b);
}

/// The points of a grid below and above a fraction.
proof fn points_around(p: nat, q: nat, c: nat) -> (low: nat)
    requires
        q > 0,
        c > 0,
    ensures
        (low * c) * q <= p,
        p <= ((low + 1) * c) * q,
{
    let d: nat = c * q;
    assert(d > 0) by (nonlinear_arith)
        requires
            c > 0,
            q > 0,
            d == c * q,
    ;
    let low: nat = p / d;
    assert(p == d * low + p % d && p % d < d) by (nonlinear_arith)
        requires
            d > 0,
            low == p / d,
    ;
    assert((low * c) * q == d * low && ((low + 1) * c) * q == d * low + d) by (nonlinear_arith)
        requires
            d == c * q,
    ;
    low
}

/// Of two numbers between zero and one that lie at least 2^-k apart, more than a quarter of
/// each, added to a count that is not too large, keeps them apart.
pub proof fn shares_added_to_counts_stay_apart(n: nat, x: Binary64, y: Binary64, share: Binary64, k: nat)
    requires
        in_unit_range(x),
        in_unit_range(y),
        in_unit_range(share),
        pow2(1072) <= share.units(),
        k <= 40,
        n <= pow2((48 - k) as nat),
        x.units() + pow2((1074 - k) as nat) <= y.units(),
    ensures
        Binary64::spec_of(n).spec_plus(x.spec_times(share)).spec_lt(
            Binary64::spec_of(n).spec_plus(y.spec_times(share)),
        ),
{
    let u: nat = pow2(1074);
    let h: nat = HIDDEN as nat;
    let e: nat = (1068 - k) as nat;
    let c: nat = pow2(e);
    let a: nat = x.units();
    let b: nat = y.units();
    let s: nat = share.units();
    let t: Binary64 = x.spec_times(share);
    let w: Binary64 = y.spec_times(share);
    one_in_units();
    zero_in_units();
    powers_in_use();
    lemma_pow2_pos(1074);
    lemma_pow2_pos(e);
    units_follow_magnitudes(x, Binary64::spec_one());
    units_follow_magnitudes(y, Binary64::spec_one());
    units_follow_magnitudes(share, Binary64::spec_one());
    units_follow_magnitudes(x, Binary64::spec_zero());
    units_follow_magnitudes(y, Binary64::spec_zero());
    units_follow_magnitudes(share, Binary64::spec_zero());
    // Powers of two, in grid points of 2^-(k + 6).
    lemma2_to64();
    let g: nat = pow2(k + 6);
    lemma_pow2_adds(k + 6, e);
    assert(u == g * c);
    lemma_pow2_adds(6, e);
    assert(pow2((1074 - k) as nat) == 64 * c);
    lemma_pow2_adds(2, 1072);
    assert(u == 4 * pow2(1072));
    lemma_pow2_pos(k + 6);
    powers_are_ordered(k + 6, 46);
    powers_are_ordered(46, 52);
    // The products lie sixteen points apart before they are rounded.
    assert(a * s + (16 * c) * u <= b * s) by (nonlinear_arith)
        requires
            a + 64 * c <= b,
            u <= 4 * s,
    ;
    let i: nat = points_around(a * s, u, c);
    let j: nat = points_around(b * s, u, c);
    assert(i < g) by (nonlinear_arith)
        requires
            (i * c) * u <= a * s,
            a + 64 * c <= b,
            b <= u,
            s <= u,
            u == g * c,
            c > 0,
            u > 0,
    ;
    assert(j <= g) by (nonlinear_arith)
        requires
            (j * c) * u <= b * s,
            b <= u,
            s <= u,
            u == g * c,
            c > 0,
            u > 0,
    ;
    assert(i + 15 <= j + 1) by (nonlinear_arith)
        requires
            (i * c) * u <= a * s,
            a * s + (16 * c) * u <= b * s,
            b * s <= ((j + 1) * c) * u,
            c > 0,
            u > 0,
    ;
    rounding_stays_on_grid(a * s, u, i, i + 1, e);
    rounding_stays_on_grid(b * s, u, j, j + 1, e);
    product_in_unit_range(x, share);
    product_in_unit_range(y, share);
    assert(t.units() <= (i + 1) * c);
    assert(j * c <= w.units());
    units_follow_magnitudes(t, Binary64::spec_zero());
    units_follow_magnitudes(w, Binary64::spec_zero());
    // The sums are looked at on a grid four times as wide.
    powers_are_ordered((48 - k) as nat, 48);
    powers_are_ordered(48, 53);
    counts_are_exact(n);
    counts_are_ordered(n, n);
    let f: nat = (1070 - k) as nat;
    let d: nat = pow2(f);
    let q: nat = pow2(k + 4);
    lemma_pow2_adds(2, e);
    assert(d == 4 * c);
    lemma_pow2_adds(k + 4, f);
    assert(u == q * d);
    lemma_pow2_adds((48 - k) as nat, k + 4);
    powers_are_ordered(k + 4, 44);
    powers_are_ordered(44, 51);
    lemma_pow2_adds(51, 1);
    assert(n * q <= pow2(52)) by (nonlinear_arith)
        requires
            n <= pow2((48 - k) as nat),
            pow2((48 - k) as nat) * q == pow2(52),
    ;
    let v: nat = n * u + t.units();
    let z: nat = n * u + w.units();
    assert((i + 1) * c + 13 * c <= j * c) by (nonlinear_arith)
        requires
            i + 14 <= j,
    ;
    assert(v + 13 * c <= z);
    units_follow_magnitudes(w, Binary64::spec_one());
    let l: nat = points_around(v, 1, d);
    let r: nat = points_around(z, 1, d);
    assert((l * d) * 1 == l * d && ((l + 1) * d) * 1 == (l + 1) * d);
    assert((r * d) * 1 == r * d && ((r + 1) * d) * 1 == (r + 1) * d);
    assert(l + 2 <= r) by (nonlinear_arith)
        requires
            l * d <= v,
            v + 13 * c <= z,
            z <= (r + 1) * d,
            d == 4 * c,
            c > 0,
    ;
    assert(r <= n * q + q) by (nonlinear_arith)
        requires
            r * d <= z,
            z <= n * u + u,
            u == q * d,
            d == 4 * c,
            c > 0,
    ;
    rounding_stays_on_grid(v, 1, l, l + 1, f);
    rounding_stays_on_grid(z, 1, r, r + 1, f);
    let sum: Binary64 = Binary64::spec_of(n).spec_plus(t);
    let more: Binary64 = Binary64::spec_of(n).spec_plus(w);
    assert((l + 1) * d < r * d) by (nonlinear_arith)
        requires
            l + 2 <= r,
            d == 4 * c,
            c > 0,
    ;
    assert(z > 0);
    assert(more == Binary64::rounded(false, z, 1));
    let left: Binary64 = Binary64::rounded(false, v, 1);
    units_follow_magnitudes(left, more);
    if v > 0 {
        assert(sum == left);
    } else {
        assert(sum.mag() == 0);
    }
}

/// The sum of two finite numbers is their exact sum, rounded.
pub proof fn sums_are_rounded(x: Binary64, y: Binary64)
    requires
        x.is_finite(),
        y.is_finite(),
    ensures
        x.value() + y.value() > 0 ==> x.spec_plus(y) == Binary64::signed(
            false,
            Binary64::nearest((x.value() + y.value()) as nat, 1),
        ),
        x.value() + y.value() < 0 ==> x.spec_plus(y) == Binary64::signed(
            true,
            Binary64::nearest((-(x.value() + y.value())) as nat, 1),
        ),
        x.value() + y.value() == 0 ==> x.spec_plus(y).mag() == 0,
        x.spec_minus(y) == x.spec_plus(y.spec_neg()),
        y.spec_neg().value() == -y.value(),
{
    assert(y.spec_neg().mag() == y.mag());
    assert(y.spec_neg().units() == y.units());
    if y.mag() == 0 {
        zero_in_units();
        units_follow_magnitudes(y, Binary64::spec_zero());
    }
}

/// The product and the quotient of two finite numbers are what they are exactly, rounded.
pub proof fn products_and_quotients_are_rounded(x: Binary64, y: Binary64)
    requires
        x.is_finite(),
        y.is_finite(),
    ensures
        x.spec_times(y).mag() == Binary64::nearest(x.units() * y.units(), pow2(1074)),
        x.spec_times(y).negative() == (x.negative() != y.negative()),
        y.mag() > 0 ==> x.spec_over(y).mag() == Binary64::nearest(x.units() * pow2(1074), y.units()),
        y.mag() > 0 ==> x.spec_over(y).negative() == (x.negative() != y.negative()),
{
}

/// What is rounded lies no further from a fraction than half of what the last bit counts.
pub proof fn rounding_is_to_the_nearest(p: nat, q: nat)
    requires
        q > 0,
        Binary64::nearest(p, q) < INFINITE,
    ensures
        ({
            let r: Binary64 = Binary64::signed(false, Binary64::nearest(p, q));
            exists|s: nat|
                {
                    &&& #[trigger] Binary64::fits_at(p, q, s)
                    &&& r.units() * q <= p ==> 2 * (p - r.units() * q) <= q * pow2(s)
                    &&& r.units() * q > p ==> 2 * (r.units() * q - p) <= q * pow2(s)
                }
        }),
{
    let h: nat = HIDDEN as nat;
    let s: nat = some_scale_fits(p, q);
    nearest_at(p, q, s);
    half_even_in_range(p, q, s);
    lemma_pow2_pos(s);
    let c: nat = pow2(s);
    let d: nat = q * c;
    assert(d > 0) by (nonlinear_arith)
        requires
            q > 0,
            c > 0,
            d == q * c,
    ;
    let k: nat = Binary64::half_even(p, d);
    let a: nat = p / d;
    let b: nat = p % d;
    assert(p == a * d + b && b < d) by (nonlinear_arith)
        requires
            d > 0,
            a == p / d,
            b == p % d,
    ;
    assert((a + 1) * d == a * d + d) by (nonlinear_arith);
    assert(k == a || k == a + 1);
    let m: nat = k + s * h;
    let r: Binary64 = Binary64::signed(false, Binary64::nearest(p, q));
    assert(r.mag() == m);
    counted_in_units(r, k, s);
    assert((k * c) * q == k * d) by (nonlinear_arith)
        requires
            d == q * c,
    ;
    assert(Binary64::fits_at(p, q, s));
}

/// A magnitude of `k` counts at a scale has as many units.
proof fn counted_in_units(x: Binary64, k: nat, s: nat)
    requires
        x.mag() == k + s * (HIDDEN as nat),
        k <= 2 * HIDDEN,
        s > 0 ==> k >= HIDDEN,
    ensures
        x.units() == k * pow2(s),
{
    let h: nat = HIDDEN as nat;
    let m: nat = x.mag();
    if k == 2 * h {
        assert(m == (s + 2) * h) by (nonlinear_arith)
            requires
                m == k + s * h,
                k == 2 * h,
        ;
        vstd::arithmetic::div_mod::lemma_fundamental_div_mod_converse(m as int, h as int, (s + 2) as int, 0);
        assert(m >= h) by (nonlinear_arith)
            requires
                m == (s + 2) * h,
        ;
        lemma_pow2_unfold(s + 1);
        assert(h * (2 * pow2(s)) == (2 * h) * pow2(s)) by (nonlinear_arith);
    } else if k >= h {
        assert(m == (s + 1) * h + (k - h)) by (nonlinear_arith)
            requires
                m == k + s * h,
        ;
        vstd::arithmetic::div_mod::lemma_fundamental_div_mod_converse(m as int, h as int, (s + 1) as int, k - h);
        assert(m >= h) by (nonlinear_arith)
            requires
                m == (s + 1) * h + (k - h),
                k >= h,
        ;
    } else {
        assert(0 * h == 0);
        lemma2_to64();
    }
}

/// A number that is moved between two bounds stays where it lies between them, and becomes
/// the bound that it lies beyond.
pub proof fn clamping_stops_at_the_bounds(x: Binary64, low: Binary64, high: Binary64)
    requires
        low.spec_le(high),
    ensures
        x.spec_lt(low) ==> x.spec_clamp(low, high) == low,
        high.spec_lt(x) ==> x.spec_clamp(low, high) == high,
        low.spec_le(x) && x.spec_le(high) ==> x.spec_clamp(low, high) == x,
        x.is_nan() ==> x.spec_clamp(low, high) == x,
{
}

} // verus!
