//! The square root.

use super::round::{bit_length, power_of_two};
use super::{laws, Binary64, HIDDEN, INFINITE};
use vstd::arithmetic::power2::*;
use vstd::prelude::*;

verus! {

/// The rounded root is unique.
proof fn one_root(n: nat, k1: nat, s1: nat, k2: nat, s2: nat)
    requires
        Binary64::root_at(n, k1, s1),
        Binary64::root_at(n, k2, s2),
    ensures
        k1 == k2,
        s1 == s2,
{
    if s1 < s2 {
        coarser_root_is_larger(k1, s1, k2, s2);
        ordered_squares((k1 + 1) * pow2(s1), k2 * pow2(s2));
    } else if s2 < s1 {
        coarser_root_is_larger(k2, s2, k1, s1);
        ordered_squares((k2 + 1) * pow2(s2), k1 * pow2(s1));
    } else {
        let c: nat = pow2(s1);
        if k1 < k2 {
            assert((k1 + 1) * c <= k2 * c) by (nonlinear_arith)
                requires
                    k1 < k2,
            ;
            ordered_squares((k1 + 1) * c, k2 * c);
        } else if k2 < k1 {
            assert((k2 + 1) * c <= k1 * c) by (nonlinear_arith)
                requires
                    k2 < k1,
            ;
            ordered_squares((k2 + 1) * c, k1 * c);
        }
    }
}

proof fn ordered_squares(a: nat, b: nat)
    requires
        a <= b,
    ensures
        a * a <= b * b,
{
    assert(a * a <= b * b) by (nonlinear_arith)
        requires
            a <= b,
    ;
}

proof fn coarser_root_is_larger(k1: nat, s1: nat, k2: nat, s2: nat)
    requires
        s1 < s2,
        k1 < 2 * HIDDEN,
        HIDDEN <= k2,
    ensures
        (k1 + 1) * pow2(s1) <= k2 * pow2(s2),
{
    lemma_pow2_unfold((s1 + 1) as nat);
    laws::powers_are_ordered((s1 + 1) as nat, s2);
    let c: nat = pow2(s1);
    let d: nat = pow2(s2);
    assert((k1 + 1) * c <= k2 * d) by (nonlinear_arith)
        requires
            k1 + 1 <= 2 * HIDDEN,
            HIDDEN <= k2,
            2 * c <= d,
    ;
}

/// The whole root of a number of 105 or 106 bits.
fn whole_root(n: u128) -> (k: u64)
    requires
        HIDDEN * HIDDEN <= n < (2 * HIDDEN) * (2 * HIDDEN),
    ensures
        HIDDEN <= k < 2 * HIDDEN,
        k * k <= n < (k + 1) * (k + 1),
{
    let mut lo: u64 = HIDDEN;
    let mut hi: u64 = 2 * HIDDEN;
    while hi - lo > 1
        invariant
            HIDDEN <= lo < hi <= 2 * HIDDEN,
            lo * lo <= n < hi * hi,
        decreases hi - lo,
    {
        let mid: u64 = lo + (hi - lo) / 2;
        assert(mid * mid <= 0x400_0000_0000_0000_0000_0000_0000) by (nonlinear_arith)
            requires
                0 <= mid <= 2 * HIDDEN,
        ;
        if (mid as u128) * (mid as u128) <= n {
            lo = mid;
        } else {
            hi = mid;
        }
    }
    lo
}

impl Binary64 {
    /// The square root.
    pub fn sqrt(self) -> (r: Binary64)
        ensures
            r == self.spec_sqrt(),
    {
        if self.nan() {
            return Binary64 { bits: 0x7ff8_0000_0000_0000 };
        }
        if self.magnitude() == 0 {
            return self;
        }
        if self.is_negative() {
            return Binary64 { bits: 0x7ff8_0000_0000_0000 };
        }
        if self.magnitude() == INFINITE {
            return self;
        }
        let (m, e): (u64, u32) = self.split();
        let l: u32 = bit_length(m as u128);
        proof {
            laws::powers_in_use();
            if l > 53 {
                laws::powers_are_ordered(53, (l - 1) as nat);
            }
        }
        // Shift so that the root has 53 bits and the exponent is even.
        let t: u32 = e + 1074;
        let j: u32 = if (105 - l) % 2 == t % 2 {
            105 - l
        } else {
            106 - l
        };
        let s: u32 = (t - j) / 2;
        proof {
            laws::large_powers();
            lemma_pow2_adds((l - 1) as nat, j as nat);
            lemma_pow2_adds(l as nat, j as nat);
            lemma_pow2_adds(52, 52);
            lemma_pow2_pos(j as nat);
            laws::powers_are_ordered(104, (l - 1 + j) as nat);
            laws::powers_are_ordered((l + j) as nat, 106);
            let c: nat = pow2(j as nat);
            assert(pow2((l - 1) as nat) * c <= m * c < pow2(l as nat) * c) by (nonlinear_arith)
                requires
                    pow2((l - 1) as nat) <= m < pow2(l as nat),
                    c > 0,
            ;
        }
        let n: u128 = m as u128 * power_of_two(j);
        let k: u64 = whole_root(n);
        assert(k * k + k <= 0x1_0000_0000_0000_0000_0000_0000_0000) by (nonlinear_arith)
            requires
                0 <= k < 2 * HIDDEN,
        ;
        let square: u128 = (k as u128) * (k as u128);
        let up: u128 = if n > square + k as u128 {
            1
        } else {
            0
        };
        proof {
            let whole: nat = self.units() * pow2(1074);
            let c: nat = pow2(s as nat);
            lemma_pow2_adds(e as nat, 1074);
            lemma_pow2_adds(s as nat, s as nat);
            lemma_pow2_adds(j as nat, (2 * s) as nat);
            lemma_pow2_pos(s as nat);
            let x: nat = pow2(e as nat);
            let y: nat = pow2(1074);
            let z: nat = pow2(j as nat);
            assert((m * x) * y == m * (x * y)) by (nonlinear_arith);
            assert(m * (z * (c * c)) == (m * z) * (c * c)) by (nonlinear_arith);
            assert(whole == n * (c * c));
            let cc: nat = c * c;
            assert(cc > 0) by (nonlinear_arith)
                requires
                    cc == c * c,
                    c > 0,
            ;
            scaled_square(k as nat, c);
            scaled_square((k + 1) as nat, c);
            scaled_square((2 * k + 1) as nat, c);
            assert((k * k) * cc <= n * cc < ((k + 1) * (k + 1)) * cc) by (nonlinear_arith)
                requires
                    k * k <= n < (k + 1) * (k + 1),
                    cc > 0,
            ;
            assert(Self::root_at(whole, k as nat, s as nat));
            let (k0, s0): (nat, nat) = choose|k0: nat, s0: nat| Self::root_at(whole, k0, s0);
            one_root(whole, k as nat, s as nat, k0, s0);
            let odd: nat = ((2 * k + 1) * (2 * k + 1)) as nat;
            assert(odd == 4 * (k * k + k) + 1) by (nonlinear_arith)
                requires
                    odd == (2 * k + 1) * (2 * k + 1),
            ;
            assert(4 * (n * cc) > odd * cc <==> 4 * n > odd) by (nonlinear_arith)
                requires
                    cc > 0,
            ;
        }
        Self::with_sign(false, k + up as u64 + s as u64 * HIDDEN)
    }
}

proof fn scaled_square(k: nat, c: nat)
    ensures
        (k * c) * (k * c) == (k * k) * (c * c),
{
    assert((k * c) * (k * c) == (k * k) * (c * c)) by (nonlinear_arith);
}

/// There is a root of 53 bits.
proof fn some_root(n: nat) -> (r: (nat, nat))
    requires
        n >= HIDDEN * HIDDEN,
    ensures
        Binary64::root_at(n, r.0, r.1),
    decreases n,
{
    let h: nat = HIDDEN as nat;
    if n < (2 * h) * (2 * h) {
        let k: nat = root_from(n, h);
        assert(pow2(0) == 1) by {
            lemma2_to64();
        }
        assert(k * 1 == k && (k + 1) * 1 == k + 1);
        (k, 0)
    } else {
        let q: nat = n / 4;
        assert((2 * h) * (2 * h) == 4 * (h * h)) by (nonlinear_arith);
        let (k, s): (nat, nat) = some_root(q);
        let c: nat = pow2(s);
        lemma_pow2_unfold((s + 1) as nat);
        assert((k * (2 * c)) * (k * (2 * c)) == 4 * ((k * c) * (k * c))) by (nonlinear_arith);
        assert(((k + 1) * (2 * c)) * ((k + 1) * (2 * c)) == 4 * (((k + 1) * c) * ((k + 1) * c)))
            by (nonlinear_arith);
        (k, s + 1)
    }
}

proof fn root_from(n: nat, k: nat) -> (r: nat)
    requires
        HIDDEN <= k < 2 * HIDDEN,
        k * k <= n < (2 * HIDDEN) * (2 * HIDDEN),
    ensures
        HIDDEN <= r < 2 * HIDDEN,
        r * r <= n < (r + 1) * (r + 1),
    decreases 2 * HIDDEN - k,
{
    if n < (k + 1) * (k + 1) {
        k
    } else {
        if k + 1 == 2 * HIDDEN {
            assert(n < (k + 1) * (k + 1));
        }
        root_from(n, k + 1)
    }
}

/// The root of a number up to 2^53 that is not negative is a number that is not
/// negative, and with the root of another such number it makes a product that is a
/// number, and zero only where one of the roots is.
pub proof fn roots_make_a_product(x: Binary64, y: Binary64)
    requires
        laws::at_most(x, 2 * HIDDEN as nat),
        laws::at_most(y, 2 * HIDDEN as nat),
    ensures
        ({
            let p: Binary64 = x.spec_sqrt();
            let q: Binary64 = y.spec_sqrt();
            &&& p.is_finite()
            &&& q.is_finite()
            &&& p.spec_times(q).is_finite()
            &&& p.mag() > 0 && q.mag() > 0 ==> p.spec_times(q).mag() > 0
        }),
{
    let p: Binary64 = x.spec_sqrt();
    let q: Binary64 = y.spec_sqrt();
    let u: nat = pow2(1074);
    lemma_pow2_pos(1074);
    root_bounds(x);
    root_bounds(y);
    let a: nat = p.units();
    let b: nat = q.units();
    let top: Binary64 = Binary64 { bits: 0x4400_0000_0000_0000 };
    laws::large_in_units();
    laws::nearest_is_exact(top);
    lemma_pow2_adds(1101, 1101);
    lemma_pow2_adds(1128, 1074);
    lemma2_to64();
    lemma_pow2_adds(64, 1);
    lemma_pow2_adds(65, 1074);
    laws::powers_are_ordered(1128, 1139);
    let w: nat = pow2(1101);
    assert(a * b <= w * w) by (nonlinear_arith)
        requires
            a <= w,
            b <= w,
    ;
    let t: nat = top.units();
    let v: nat = pow2(1128);
    assert((a * b) * 1 <= t * u) by (nonlinear_arith)
        requires
            a * b <= v * u,
            v <= t,
    ;
    laws::nearest_is_monotone(a * b, u, t, 1);
    if p.mag() > 0 && q.mag() > 0 {
        lemma_pow2_adds(537, 537);
        let d: nat = pow2(537);
        assert(a * b >= d * d) by (nonlinear_arith)
            requires
                a >= d,
                b >= d,
        ;
        let least: Binary64 = Binary64 { bits: 1 };
        assert(least.units() == 1) by {
            assert(1 * pow2(0) == 1) by (nonlinear_arith)
                requires
                    pow2(0) == 1,
            ;
        }
        laws::nearest_is_exact(least);
        assert(1 * u <= (a * b) * 1);
        laws::nearest_is_monotone(1, 1, a * b, u);
    }
}

proof fn root_bounds(x: Binary64)
    requires
        laws::at_most(x, 2 * HIDDEN as nat),
    ensures
        x.spec_sqrt().is_finite(),
        x.spec_sqrt().units() <= pow2(1101),
        x.spec_sqrt().mag() > 0 ==> x.spec_sqrt().units() >= pow2(537),
{
    let u: nat = pow2(1074);
    let h: nat = HIDDEN as nat;
    lemma_pow2_pos(1074);
    lemma_pow2_pos(1101);
    laws::zero_in_units();
    laws::powers_in_use();
    laws::units_follow_magnitudes(x, Binary64::spec_zero());
    if x.mag() > 0 {
        let n: nat = x.units() * u;
        assert(n >= u) by (nonlinear_arith)
            requires
                n == x.units() * u,
                x.units() >= 1,
        ;
        lemma_pow2_adds(52, 52);
        laws::powers_are_ordered(104, 1074);
        let (k1, s1): (nat, nat) = some_root(n);
        let (k, s): (nat, nat) = choose|k: nat, s: nat| Binary64::root_at(n, k, s);
        assert(Binary64::root_at(n, k, s));
        let c: nat = pow2(s);
        lemma_pow2_pos(s);
        // The root is less than 2^1101, so that the scale is at most 1048.
        assert(n <= (2 * h) * (u * u)) by (nonlinear_arith)
            requires
                n == x.units() * u,
                x.units() <= (2 * h) * u,
        ;
        lemma_pow2_adds(1074, 1074);
        lemma_pow2_adds(53, 2148);
        assert(n <= pow2(2201));
        if s > 1048 {
            lemma_pow2_adds(52, 1049);
            lemma_pow2_adds(1101, 1101);
            laws::powers_are_ordered(1049, s);
            let d: nat = pow2(1049);
            assert(k * c >= h * d) by (nonlinear_arith)
                requires
                    k >= h,
                    c >= d,
            ;
            ordered_squares(pow2(1101), k * c);
            lemma_pow2_strictly_increases(2201, 2202);
        }
        // It is at least 2^537.
        let e: nat = pow2(537);
        lemma_pow2_adds(537, 537);
        assert(k * c >= e) by {
            if s <= 537 {
                let r: nat = pow2((537 - s) as nat);
                lemma_pow2_adds(s, (537 - s) as nat);
                if k < r {
                    assert((k + 1) * c <= r * c) by (nonlinear_arith)
                        requires
                            k + 1 <= r,
                    ;
                    assert(r * c == e) by (nonlinear_arith)
                        requires
                            e == c * r,
                    ;
                    ordered_squares((k + 1) * c, e);
                }
                assert(k * c >= e) by (nonlinear_arith)
                    requires
                        k >= r,
                        e == c * r,
                ;
            } else {
                laws::powers_are_ordered(537, s);
                assert(k * c >= e) by (nonlinear_arith)
                    requires
                        k >= 1,
                        c >= e,
                ;
            }
        }
        let up: nat = if 4 * n > ((2 * k + 1) * c) * ((2 * k + 1) * c) {
            1
        } else {
            0
        };
        root_in_units((k + up) as nat, s);
        laws::powers_are_ordered(s, 1048);
        lemma_pow2_adds(53, 1048);
        let f: nat = pow2(1048);
        assert((k + up) * c <= (2 * h) * f) by (nonlinear_arith)
            requires
                k + up <= 2 * h,
                c <= f,
        ;
        assert((k + up) * c >= k * c) by (nonlinear_arith);
    } else {
        assert(x.spec_sqrt() == x);
    }
}

/// The value of a magnitude at a scale.
proof fn root_in_units(k: nat, s: nat)
    requires
        HIDDEN <= k <= 2 * HIDDEN,
        s <= 1048,
    ensures
        Binary64::signed(false, k + s * (HIDDEN as nat)).units() == k * pow2(s),
        Binary64::signed(false, k + s * (HIDDEN as nat)).is_finite(),
        Binary64::signed(false, k + s * (HIDDEN as nat)).mag() > 0,
{
    let h: nat = HIDDEN as nat;
    let m: nat = k + s * h;
    let x: Binary64 = Binary64::signed(false, m);
    assert(s * h <= 1048 * h) by (nonlinear_arith)
        requires
            s <= 1048,
    ;
    assert(x.mag() == m);
    if k < 2 * h {
        assert(m == (s + 1) * h + (k - h)) by (nonlinear_arith)
            requires
                m == k + s * h,
        ;
        vstd::arithmetic::div_mod::lemma_fundamental_div_mod_converse(m as int, h as int, (s + 1) as int, k - h);
    } else {
        assert(m == (s + 2) * h) by (nonlinear_arith)
            requires
                m == 2 * h + s * h,
        ;
        vstd::arithmetic::div_mod::lemma_fundamental_div_mod_converse(m as int, h as int, (s + 2) as int, 0);
        lemma_pow2_unfold((s + 1) as nat);
        let c: nat = pow2(s);
        assert(h * (2 * c) == (2 * h) * c) by (nonlinear_arith);
    }
    assert(m >= h);
}

} // verus!
