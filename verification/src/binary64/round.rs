//! Rounding, in 128-bit integers.

use super::{laws, Binary64, HIDDEN, INFINITE};
use vstd::arithmetic::power2::*;
use vstd::prelude::*;

verus! {

/// Two to the power `e`.
pub fn power_of_two(e: u32) -> (r: u128)
    requires
        e <= 127,
    ensures
        r == pow2(e as nat),
{
    let mut r: u128 = 1;
    let mut i: u32 = 0;
    proof {
        lemma2_to64();
        lemma_pow2_adds(64, 63);
        laws::powers_in_use();
        laws::powers_are_ordered(e as nat, 127);
    }
    while i < e
        invariant
            i <= e <= 127,
            r == pow2(i as nat),
            pow2(127) <= u128::MAX,
        decreases e - i,
    {
        proof {
            lemma_pow2_unfold((i + 1) as nat);
            laws::powers_are_ordered((i + 1) as nat, 127);
        }
        r = r * 2;
        i = i + 1;
    }
    r
}

/// The number of binary digits of `n`.
pub fn bit_length(n: u128) -> (r: u32)
    ensures
        r <= 128,
        n < pow2(r as nat),
        n > 0 ==> r > 0 && n >= pow2((r - 1) as nat),
        n == 0 ==> r == 0,
{
    let mut left: u128 = n;
    let mut r: u32 = 0;
    let ghost mut p: nat = 1;
    proof {
        lemma2_to64();
        lemma_pow2_adds(64, 64);
    }
    while left > 0
        invariant
            r <= 128,
            p == pow2(r as nat),
            left == n as nat / p,
            p > 0,
            n > 0 && left == 0 ==> r > 0 && n >= pow2((r - 1) as nat),
            n == 0 ==> r == 0,
            left > 0 ==> n >= p,
            pow2(128) == u128::MAX + 1,
        decreases left,
    {
        proof {
            if r == 128 {
                assert(n as nat / p == 0) by (nonlinear_arith)
                    requires
                        n < p,
                ;
            }
            lemma_pow2_unfold((r + 1) as nat);
            vstd::arithmetic::div_mod::lemma_div_denominator(n as int, p as int, 2);
            if left / 2 > 0 {
                assert(n >= p * 2) by (nonlinear_arith)
                    requires
                        n as nat / (p * 2) > 0,
                        p > 0,
                ;
            }
        }
        left = left / 2;
        r = r + 1;
        proof {
            p = p * 2;
        }
    }
    proof {
        assert(n < p) by (nonlinear_arith)
            requires
                n as nat / p == 0,
                p > 0,
        ;
    }
    r
}

/// `a * 2^e / b` units as a fraction: the numerator.
pub open spec fn numerator(a: nat, e: int) -> nat {
    if e >= 0 {
        a * pow2(e as nat)
    } else {
        a
    }
}

/// `a * 2^e / b` units as a fraction: the denominator.
pub open spec fn denominator(b: nat, e: int) -> nat {
    if e >= 0 {
        b
    } else {
        b * pow2((-e) as nat)
    }
}

/// Counting in `2^s` units instead of units moves the exponent by `s`.
proof fn rescaled(a: nat, b: nat, e: int, s: nat)
    requires
        b > 0,
    ensures
        numerator(a, e) * denominator(b, e - s) == numerator(a, e - s) * (denominator(b, e) * pow2(s)),
        denominator(b, e) > 0,
        denominator(b, e - s) > 0,
{
    lemma_pow2_pos(s);
    if e < 0 {
        lemma_pow2_pos((-e) as nat);
        lemma_pow2_pos((s - e) as nat);
        lemma_pow2_adds((-e) as nat, s);
        let x: nat = pow2((-e) as nat);
        let y: nat = pow2(s);
        assert(b * (x * y) == (b * x) * y) by (nonlinear_arith);
        assert(b * x > 0 && b * (x * y) > 0) by (nonlinear_arith)
            requires
                b > 0,
                x > 0,
                y > 0,
        ;
    } else if e >= s {
        lemma_pow2_adds((e - s) as nat, s);
        let x: nat = pow2((e - s) as nat);
        let y: nat = pow2(s);
        assert(a * (x * y) * b == (a * x) * (b * y)) by (nonlinear_arith);
    } else {
        lemma_pow2_adds((s - e) as nat, e as nat);
        lemma_pow2_pos((s - e) as nat);
        let x: nat = pow2((s - e) as nat);
        let y: nat = pow2(e as nat);
        assert((a * y) * (b * x) == a * (b * (x * y))) by (nonlinear_arith);
        assert(b * x > 0) by (nonlinear_arith)
            requires
                b > 0,
                x > 0,
        ;
    }
}

/// A scale fits where, counted in `2^s` units, the fraction has 53 bits.
proof fn fits_when_rescaled(a: nat, b: nat, e: int, s: nat)
    requires
        b > 0,
    ensures
        ({
            let n: nat = numerator(a, e - s);
            let d: nat = denominator(b, e - s);
            &&& d > 0
            &&& Binary64::fits_at(numerator(a, e), denominator(b, e), s) <==> (n < d * (2 * HIDDEN) && (s > 0 ==> n >= d * HIDDEN))
            &&& Binary64::half_even(numerator(a, e), denominator(b, e) * pow2(s)) == Binary64::half_even(n, d)
        }),
{
    rescaled(a, b, e, s);
    laws::powers_in_use();
    lemma_pow2_pos(s);
    lemma_pow2_adds(s, 53);
    lemma_pow2_adds(s, 52);
    let n: nat = numerator(a, e - s);
    let d: nat = denominator(b, e - s);
    let p: nat = numerator(a, e);
    let q: nat = denominator(b, e);
    let c: nat = pow2(s);
    let h: nat = HIDDEN as nat;
    let qc: nat = q * c;
    assert(qc > 0) by (nonlinear_arith)
        requires
            q > 0,
            c > 0,
            qc == q * c,
    ;
    assert(q * (c * (2 * h)) == qc * (2 * h)) by (nonlinear_arith)
        requires
            qc == q * c,
    ;
    assert(q * (c * h) == qc * h) by (nonlinear_arith)
        requires
            qc == q * c,
    ;
    assert(p * d == n * qc);
    assert(p < qc * (2 * h) <==> n < d * (2 * h)) by (nonlinear_arith)
        requires
            p * d == n * qc,
            d > 0,
            qc > 0,
    ;
    assert(p >= qc * h <==> n >= d * h) by (nonlinear_arith)
        requires
            p * d == n * qc,
            d > 0,
            qc > 0,
    ;
    laws::half_even_of_equal_ratios(p, qc, n, d);
}

/// Bounds on `a * 2^x / b` from the lengths of `a` and `b`.
proof fn length_bounds(a: nat, b: nat, la: nat, lb: nat, x: int)
    requires
        la > 0,
        lb > 0,
        pow2((la - 1) as nat) <= a < pow2(la),
        pow2((lb - 1) as nat) <= b < pow2(lb),
        x <= 52 + lb - la,
    ensures
        numerator(a, x) < denominator(b, x) * (2 * HIDDEN),
        x == 52 + lb - la ==> 2 * numerator(a, x) >= denominator(b, x) * HIDDEN,
{
    laws::powers_in_use();
    let h: nat = HIDDEN as nat;
    if x >= 0 {
        let c: nat = pow2(x as nat);
        lemma_pow2_pos(x as nat);
        lemma_pow2_adds(la, x as nat);
        laws::powers_are_ordered((la + x) as nat, (lb + 52) as nat);
        lemma_pow2_adds((lb - 1) as nat, 53);
        assert(a * c < pow2(la) * c) by (nonlinear_arith)
            requires
                a < pow2(la),
                c > 0,
        ;
        assert(pow2((lb - 1) as nat) * (2 * h) <= b * (2 * h)) by (nonlinear_arith)
            requires
                pow2((lb - 1) as nat) <= b,
        ;
        if x == 52 + lb - la {
            lemma_pow2_adds(lb, 52);
            assert(la + x == lb + 52);
            lemma_pow2_unfold(la);
            assert(2 * (a * c) >= pow2(la) * c) by (nonlinear_arith)
                requires
                    2 * a >= pow2(la),
            ;
            assert(pow2(lb) * h >= b * h) by (nonlinear_arith)
                requires
                    pow2(lb) >= b,
            ;
        }
    } else {
        let y: nat = (-x) as nat;
        let c: nat = pow2(y);
        lemma_pow2_pos(y);
        lemma_pow2_adds((lb - 1) as nat, y);
        lemma_pow2_adds((lb - 1 + y) as nat, 53);
        laws::powers_are_ordered(la, (lb - 1 + y + 53) as nat);
        assert(pow2((lb - 1) as nat) * c * (2 * h) <= b * c * (2 * h)) by (nonlinear_arith)
            requires
                pow2((lb - 1) as nat) <= b,
        ;
        if x == 52 + lb - la {
            lemma_pow2_adds(lb, y);
            lemma_pow2_adds((lb + y) as nat, 52);
            assert(lb + y + 52 == la);
            lemma_pow2_unfold(la);
            assert(pow2(lb) * c * h >= b * c * h) by (nonlinear_arith)
                requires
                    pow2(lb) >= b,
            ;
        }
    }
}

/// One scale finer, the fraction is twice as large.
proof fn one_scale_finer(a: nat, b: nat, x: int)
    ensures
        numerator(a, x + 1) * denominator(b, x) == 2 * numerator(a, x) * denominator(b, x + 1),
        x >= 0 ==> denominator(b, x + 1) == denominator(b, x) && numerator(a, x + 1) == 2 * numerator(a, x),
        x < 0 ==> 2 * denominator(b, x + 1) == denominator(b, x) && numerator(a, x + 1) == numerator(a, x),
{
    if x >= 0 {
        lemma_pow2_unfold((x + 1) as nat);
        let c: nat = pow2(x as nat);
        assert(a * (2 * c) == 2 * (a * c)) by (nonlinear_arith);
        assert((2 * (a * c)) * b == 2 * (a * c) * b);
    } else {
        let y: nat = (-x) as nat;
        lemma_pow2_unfold(y);
        lemma2_to64();
        let c: nat = pow2((y - 1) as nat);
        assert(b * (2 * c) == 2 * (b * c)) by (nonlinear_arith);
        assert(a * (2 * (b * c)) == 2 * a * (b * c)) by (nonlinear_arith);
        if y == 1 {
            assert(a * pow2(0) == a);
            assert(b * pow2(0) == b);
        }
    }
}

/// `a * 2^x / b`, rounded down and rounded to the nearest whole number.
fn whole_parts(a: u128, b: u128, lb: u32, x: i32) -> (r: (u128, u128))
    requires
        0 < a < pow2(112),
        b < pow2(53),
        0 < lb <= 53,
        pow2((lb - 1) as nat) <= b < pow2(lb as nat),
        -5000 <= x <= 5000,
        numerator(a as nat, x as int) < denominator(b as nat, x as int) * (2 * HIDDEN),
    ensures
        r.0 == numerator(a as nat, x as int) / denominator(b as nat, x as int),
        r.1 == Binary64::half_even(numerator(a as nat, x as int), denominator(b as nat, x as int)),
        r.0 < 2 * HIDDEN,
{
    proof {
        laws::powers_in_use();
        laws::large_powers();
        lemma_pow2_pos((lb - 1) as nat);
    }
    let n: u128;
    let d: u128;
    if x >= 0 {
        proof {
            lemma_pow2_pos(x as nat);
            assert(pow2(x as nat) <= a * pow2(x as nat)) by (nonlinear_arith)
                requires
                    a > 0,
            ;
            assert(b * (2 * HIDDEN) < pow2(106)) by (nonlinear_arith)
                requires
                    b < 2 * HIDDEN,
                    pow2(106) == 0x400_0000_0000_0000_0000_0000_0000,
            ;
            assert(a * pow2(x as nat) < pow2(106));
            if x >= 106 {
                laws::powers_are_ordered(106, x as nat);
            }
        }
        n = a * power_of_two(x as u32);
        d = b;
    } else {
        let y: u32 = (-x) as u32;
        if lb + y > 120 {
            proof {
                lemma_pow2_adds((lb - 1) as nat, y as nat);
                laws::powers_are_ordered(120, (lb - 1 + y) as nat);
                lemma_pow2_pos(y as nat);
                let c: nat = pow2(y as nat);
                assert(b * c >= pow2((lb - 1) as nat) * c) by (nonlinear_arith)
                    requires
                        b >= pow2((lb - 1) as nat),
                ;
                lemma_pow2_unfold(120);
                laws::powers_are_ordered(112, 119);
                let dd: nat = denominator(b as nat, x as int);
                assert(a < dd && 2 * a < dd);
                vstd::arithmetic::div_mod::lemma_fundamental_div_mod_converse(
                    a as int,
                    dd as int,
                    0,
                    a as int,
                );
            }
            return (0, 0);
        }
        proof {
            lemma_pow2_adds(lb as nat, y as nat);
            laws::powers_are_ordered((lb + y) as nat, 120);
            lemma_pow2_pos(y as nat);
            assert(b * pow2(y as nat) < pow2(lb as nat) * pow2(y as nat)) by (nonlinear_arith)
                requires
                    b < pow2(lb as nat),
                    pow2(y as nat) > 0,
            ;
            assert(b * pow2(y as nat) > 0) by (nonlinear_arith)
                requires
                    b > 0,
                    pow2(y as nat) > 0,
            ;
        }
        n = a;
        d = b * power_of_two(y);
    }
    let k: u128 = n / d;
    let r: u128 = n % d;
    proof {
        assert(k < 2 * HIDDEN) by (nonlinear_arith)
            requires
                k == n as nat / (d as nat),
                n < d * (2 * HIDDEN),
                d > 0,
        ;
    }
    let rest: u128 = d - r;
    if r < rest || (r == rest && k % 2 == 0) {
        (k, k)
    } else {
        (k, k + 1)
    }
}

/// The magnitude of the number nearest to `a * 2^e / b` units, ties to even.
pub fn round_ratio(a: u128, b: u128, e: i32) -> (mag: u64)
    requires
        a < pow2(112),
        0 < b < pow2(53),
        -4000 <= e <= 4000,
    ensures
        mag == Binary64::nearest(numerator(a as nat, e as int), denominator(b as nat, e as int)),
        mag <= INFINITE,
{
    let ghost p: nat = numerator(a as nat, e as int);
    let ghost q: nat = denominator(b as nat, e as int);
    if a == 0 {
        proof {
            fits_when_rescaled(0, b as nat, e as int, 0);
            laws::nearest_at(0, q, 0);
            assert(0 * pow2(e as nat) == 0) by (nonlinear_arith);
            lemma2_to64();
            assert(q * pow2(0) == q) by (nonlinear_arith)
                requires
                    pow2(0) == 1,
            ;
            vstd::arithmetic::div_mod::lemma_fundamental_div_mod_converse(0, q as int, 0, 0);
        }
        return 0;
    }
    let la: u32 = bit_length(a);
    let lb: u32 = bit_length(b);
    proof {
        if la > 112 {
            laws::powers_are_ordered(112, (la - 1) as nat);
        }
        if lb > 53 {
            laws::powers_are_ordered(53, (lb - 1) as nat);
        }
    }
    let guess: i32 = la as i32 - lb as i32 + e - 52;
    let mut s: i32 = if guess > 0 {
        guess
    } else {
        0
    };
    proof {
        length_bounds(a as nat, b as nat, la as nat, lb as nat, e - s);
        fits_when_rescaled(a as nat, b as nat, e as int, s as nat);
    }
    let mut parts: (u128, u128) = whole_parts(a, b, lb, e - s);
    if s > 0 && parts.0 < HIDDEN as u128 {
        let ghost x: int = e - s;
        proof {
            let n: nat = numerator(a as nat, x);
            let d: nat = denominator(b as nat, x);
            let k: nat = n / d;
            assert(n < d * HIDDEN) by (nonlinear_arith)
                requires
                    k == n / d,
                    k < HIDDEN,
                    d > 0,
            ;
            one_scale_finer(a as nat, b as nat, x);
            fits_when_rescaled(a as nat, b as nat, e as int, (s - 1) as nat);
        }
        s = s - 1;
        parts = whole_parts(a, b, lb, e - s);
    } else {
        proof {
            if s > 0 {
                let n: nat = numerator(a as nat, e - s);
                let d: nat = denominator(b as nat, e - s);
                let k: nat = n / d;
                assert(n >= d * HIDDEN) by (nonlinear_arith)
                    requires
                        k == n / d,
                        k >= HIDDEN,
                        d > 0,
                ;
            }
        }
    }
    proof {
        fits_when_rescaled(a as nat, b as nat, e as int, s as nat);
        laws::nearest_at(p, q, s as nat);
        assert(s * HIDDEN <= 5000 * HIDDEN) by (nonlinear_arith)
            requires
                0 <= s <= 5000,
        ;
    }
    let mag: u128 = parts.1 + (s as u128) * (HIDDEN as u128);
    if mag < INFINITE as u128 {
        mag as u64
    } else {
        INFINITE
    }
}

} // verus!
