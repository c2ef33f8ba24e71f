//! Numbers as decimal text.

use crate::binary64::round::power_of_two;
use crate::binary64::{laws, Binary64, HIDDEN};
use crate::text;
use vstd::arithmetic::power2::*;
use vstd::prelude::*;

verus! {

/// The character of a digit.
pub open spec fn digit(n: nat) -> char {
    (n + 48) as char
}

/// A whole number in decimal, without leading zeros.
pub open spec fn digits(n: nat) -> Seq<char>
    decreases n,
{
    if n < 10 {
        seq![digit(n)]
    } else {
        digits(n / 10).push(digit(n % 10))
    }
}

/// An integer in decimal.
pub open spec fn integer(n: int) -> Seq<char> {
    if n < 0 {
        "-"@ + digits((-n) as nat)
    } else {
        digits(n as nat)
    }
}

/// The last `places` digits of a whole number.
pub open spec fn last_digits(n: nat, places: nat) -> Seq<char>
    decreases places,
{
    if places == 0 {
        Seq::<char>::empty()
    } else {
        last_digits(n / 10, (places - 1) as nat).push(digit(n % 10))
    }
}

/// 10^n.
pub open spec fn ten_to(n: nat) -> nat
    decreases n,
{
    if n == 0 {
        1
    } else {
        10 * ten_to((n - 1) as nat)
    }
}

/// A number in decimal with a fixed number of digits behind the point: its exact
/// value, rounded to the nearest such decimal, ties to even.
pub open spec fn fixed(x: Binary64, places: nat) -> Seq<char> {
    if x.is_nan() {
        "NaN"@
    } else {
        let sign: Seq<char> = if x.negative() {
            "-"@
        } else {
            ""@
        };
        if x.is_infinite() {
            sign + "inf"@
        } else {
            let n: nat = Binary64::half_even(x.units() * ten_to(places), pow2(1074));
            sign + digits(n / ten_to(places)) + "."@ + last_digits(n, places)
        }
    }
}

/// Integers as a list in brackets.
pub open spec fn integer_list(list: Seq<i64>) -> Seq<char> {
    "["@ + integers_joined(list) + "]"@
}

/// Integers with a comma and a space between them.
pub open spec fn integers_joined(list: Seq<i64>) -> Seq<char>
    decreases list.len(),
{
    if list.len() == 0 {
        Seq::<char>::empty()
    } else if list.len() == 1 {
        integer(list[0] as int)
    } else {
        integers_joined(list.drop_last()) + ", "@ + integer(list.last() as int)
    }
}

fn digit_char(n: u8) -> (r: char)
    requires
        n < 10,
    ensures
        r == digit(n as nat),
{
    (n + 48) as char
}

/// Writes a whole number in decimal behind `text`.
pub fn push_digits(text: &mut String, n: u128)
    ensures
        final(text)@ == old(text)@ + digits(n as nat),
    decreases n,
{
    if n < 10 {
        text.push(digit_char(n as u8));
        assert(text@ =~= old(text)@ + digits(n as nat));
    } else {
        push_digits(text, n / 10);
        text.push(digit_char((n % 10) as u8));
        assert(text@ =~= old(text)@ + digits(n as nat));
    }
}

/// Writes an integer in decimal behind `text`.
pub fn push_integer(text: &mut String, n: i64)
    ensures
        final(text)@ == old(text)@ + integer(n as int),
{
    if n < 0 {
        text.append("-");
        let m: i128 = -(n as i128);
        push_digits(text, m as u128);
        assert(text@ =~= old(text)@ + ("-"@ + digits(m as nat)));
    } else {
        push_digits(text, n as u128);
    }
}

/// Writes integers as a list in brackets behind `text`.
pub fn push_integer_list(text: &mut String, list: &Vec<i64>)
    ensures
        final(text)@ == old(text)@ + integer_list(list@),
{
    text.append("[");
    let ghost start: Seq<char> = text@;
    let mut i: usize = 0;
    while i < list.len()
        invariant
            i <= list@.len(),
            text@ == start + integers_joined(list@.take(i as int)),
        decreases list@.len() - i,
    {
        let ghost before: Seq<char> = text@;
        if i > 0 {
            text.append(", ");
        }
        push_integer(text, list[i]);
        proof {
            let next: Seq<i64> = list@.take(i + 1);
            assert(next.drop_last() =~= list@.take(i as int));
            assert(next.last() == list@[i as int]);
            if i > 0 {
                assert(text@ =~= start + (integers_joined(list@.take(i as int)) + ", "@ + integer(
                    list@[i as int] as int,
                )));
            } else {
                assert(text@ =~= start + integers_joined(next));
            }
        }
        i = i + 1;
    }
    assert(list@.take(list@.len() as int) =~= list@);
    text.append("]");
    assert(text@ =~= old(text)@ + integer_list(list@));
}

// ---- Numbers too large for a machine word ----

/// The value of decimal digits, the lowest first.
spec fn value(d: Seq<u8>) -> nat
    decreases d.len(),
{
    if d.len() == 0 {
        0
    } else {
        value(d.drop_last()) + d.last() as nat * ten_to((d.len() - 1) as nat)
    }
}

spec fn all_digits(d: Seq<u8>) -> bool {
    forall|i: int| 0 <= i < d.len() ==> #[trigger] d[i] < 10
}

/// The lowest digit is the remainder by ten.
proof fn lowest_digit(d: Seq<u8>)
    requires
        d.len() > 0,
    ensures
        value(d) == d[0] as nat + 10 * value(d.skip(1)),
    decreases d.len(),
{
    let n: nat = d.len();
    if n == 1 {
        assert(d.drop_last() =~= Seq::<u8>::empty());
        assert(d.skip(1) =~= Seq::<u8>::empty());
        assert(value(d.drop_last()) == 0);
        assert(value(d.skip(1)) == 0);
        assert(ten_to(0) == 1);
    } else {
        lowest_digit(d.drop_last());
        let t: Seq<u8> = d.skip(1);
        assert(t.drop_last() =~= d.drop_last().skip(1));
        assert(t.last() == d.last());
        let p: nat = ten_to((n - 2) as nat);
        assert(ten_to((n - 1) as nat) == 10 * p);
        let c: nat = d.last() as nat;
        assert(c * (10 * p) == 10 * (c * p)) by (nonlinear_arith);
    }
}

/// The decimal text of a value is its digits from the highest down.
proof fn digits_of_value(d: Seq<u8>)
    requires
        d.len() > 0,
        all_digits(d),
        d.len() == 1 || d.last() > 0,
    ensures
        digits(value(d)) == Seq::new(d.len(), |i: int| digit(d[d.len() - 1 - i] as nat)),
        d.last() > 0 ==> value(d) > 0,
    decreases d.len(),
{
    lowest_digit(d);
    let text: Seq<char> = Seq::new(d.len(), |i: int| digit(d[d.len() - 1 - i] as nat));
    if d.len() == 1 {
        assert(d.skip(1) =~= Seq::<u8>::empty());
        assert(value(d) == d[0]);
        assert(digits(value(d)) =~= text);
    } else {
        let t: Seq<u8> = d.skip(1);
        assert(t.last() == d.last());
        digits_of_value(t);
        let v: nat = value(d);
        assert(d[0] < 10);
        assert(v / 10 == value(t) && v % 10 == d[0]);
        assert(digits(v) == digits(value(t)).push(digit(d[0] as nat)));
        assert(digits(v) =~= text);
    }
}

/// Twice the number.
fn doubled(d: &Vec<u8>) -> (r: Vec<u8>)
    requires
        d@.len() > 0,
        all_digits(d@),
        d@.last() > 0,
    ensures
        r@.len() > 0,
        all_digits(r@),
        r@.last() > 0,
        value(r@) == 2 * value(d@),
{
    let n: usize = d.len();
    let mut r: Vec<u8> = Vec::new();
    let mut carry: u8 = 0;
    let mut i: usize = 0;
    assert(d@.take(0) =~= Seq::<u8>::empty());
    assert(r@ =~= Seq::<u8>::empty());
    while i < n
        invariant
            i <= n == d@.len(),
            all_digits(d@),
            d@.last() > 0,
            carry <= 1,
            r@.len() == i,
            all_digits(r@),
            value(r@) + carry as nat * ten_to(i as nat) == 2 * value(d@.take(i as int)),
            i == n ==> r@.last() > 0 || carry > 0,
        decreases n - i,
    {
        let t: u8 = 2 * d[i] + carry;
        let ghost before: Seq<u8> = r@;
        r.push(t % 10);
        proof {
            let p: nat = ten_to(i as nat);
            let now: Seq<u8> = d@.take(i + 1);
            assert(now.drop_last() =~= d@.take(i as int));
            assert(r@.drop_last() =~= before);
            let c: nat = carry as nat;
            let x: nat = d@[i as int] as nat;
            let lo: nat = (t % 10) as nat;
            let hi: nat = (t / 10) as nat;
            assert(lo * p + hi * (10 * p) == c * p + 2 * (x * p)) by (nonlinear_arith)
                requires
                    lo + 10 * hi == 2 * x + c,
            ;
        }
        carry = t / 10;
        i = i + 1;
    }
    assert(d@.take(n as int) =~= d@);
    if carry > 0 {
        let ghost before: Seq<u8> = r@;
        r.push(carry);
        assert(r@.drop_last() =~= before);
    }
    r
}

/// Writes `n * 2^e` in decimal behind `text`.
fn push_scaled(text: &mut String, n: u64, e: u32)
    requires
        n > 0,
    ensures
        final(text)@ == old(text)@ + digits(n as nat * pow2(e as nat)),
{
    let mut d: Vec<u8> = Vec::new();
    let mut rest: u64 = n;
    let ghost mut p: nat = 1;
    assert(d@ =~= Seq::<u8>::empty());
    assert(n as nat == value(d@) + rest as nat * 1) by (nonlinear_arith)
        requires
            value(d@) == 0,
            rest == n,
    ;
    while rest > 0
        invariant
            all_digits(d@),
            p == ten_to(d@.len()),
            n == value(d@) + rest as nat * p,
            rest == 0 ==> d@.len() > 0 && d@.last() > 0,
            n > 0,
        decreases rest,
    {
        let ghost before: Seq<u8> = d@;
        d.push((rest % 10) as u8);
        proof {
            assert(d@.drop_last() =~= before);
            let lo: nat = (rest % 10) as nat;
            let hi: nat = (rest / 10) as nat;
            let all: nat = rest as nat;
            assert(lo * p + hi * (10 * p) == all * p) by (nonlinear_arith)
                requires
                    lo + 10 * hi == all,
            ;
            p = 10 * p;
        }
        rest = rest / 10;
    }
    assert(0 * p == 0);
    let mut i: u32 = 0;
    assert(pow2(0) == 1) by {
        lemma2_to64();
    }
    assert(n as nat * pow2(0) == n) by (nonlinear_arith)
        requires
            pow2(0) == 1,
    ;
    while i < e
        invariant
            i <= e,
            d@.len() > 0,
            all_digits(d@),
            d@.last() > 0,
            value(d@) == n as nat * pow2(i as nat),
        decreases e - i,
    {
        d = doubled(&d);
        proof {
            lemma_pow2_unfold((i + 1) as nat);
            let q: nat = pow2(i as nat);
            assert(n as nat * (2 * q) == 2 * (n as nat * q)) by (nonlinear_arith);
        }
        i = i + 1;
    }
    proof {
        digits_of_value(d@);
    }
    let ghost want: Seq<char> = Seq::new(d@.len(), |k: int| digit(d@[d@.len() - 1 - k] as nat));
    let total: usize = d.len();
    let mut j: usize = total;
    while j > 0
        invariant
            j <= total == d@.len(),
            all_digits(d@),
            want == Seq::new(d@.len(), |k: int| digit(d@[d@.len() - 1 - k] as nat)),
            text@ == old(text)@ + want.take(total - j),
        decreases j,
    {
        text.push(digit_char(d[j - 1]));
        assert(text@ =~= old(text)@ + want.take(total - j + 1));
        j = j - 1;
    }
    assert(want.take(total as int) =~= want);
}

/// Writes the last digits of a whole number behind `text`.
fn push_last_digits(text: &mut String, n: u128, places: u8)
    ensures
        final(text)@ == old(text)@ + last_digits(n as nat, places as nat),
    decreases places,
{
    if places > 0 {
        push_last_digits(text, n / 10, places - 1);
        text.push(digit_char((n % 10) as u8));
    }
    assert(text@ =~= old(text)@ + last_digits(n as nat, places as nat));
}

/// The value of a number counted in a power of ten, rounded: where the number is a
/// fraction of a power of two.
proof fn count_of_fraction(x: Binary64, places: nat)
    requires
        x.is_finite(),
        x.scale() < 1074,
    ensures
        Binary64::half_even(x.units() * ten_to(places), pow2(1074)) == Binary64::half_even(
            x.significand() * ten_to(places),
            pow2((1074 - x.scale()) as nat),
        ),
{
    let s: nat = x.scale();
    let k: nat = (1074 - s) as nat;
    lemma_pow2_adds(s, k);
    lemma_pow2_pos(s);
    lemma_pow2_pos(k);
    let m: nat = x.significand();
    let t: nat = ten_to(places);
    let a: nat = pow2(s);
    let b: nat = pow2(k);
    assert(((m * a) * t) * b == (m * t) * (a * b)) by (nonlinear_arith);
    lemma_pow2_pos(1074);
    laws::half_even_of_equal_ratios((m * a) * t, a * b, m * t, b);
}

/// The value of a whole number counted in a power of ten.
proof fn count_of_whole(x: Binary64, places: nat)
    requires
        x.is_finite(),
        x.scale() >= 1074,
    ensures
        ({
            let n: nat = Binary64::half_even(x.units() * ten_to(places), pow2(1074));
            &&& n / ten_to(places) == x.significand() * pow2((x.scale() - 1074) as nat)
            &&& n % ten_to(places) == 0
        }),
{
    let e: nat = (x.scale() - 1074) as nat;
    let u: nat = pow2(1074);
    lemma_pow2_adds(e, 1074);
    lemma_pow2_pos(1074);
    let m: nat = x.significand();
    let t: nat = ten_to(places);
    let a: nat = pow2(e);
    ten_to_is_positive(places);
    let whole: nat = (m * a) * t;
    assert((m * (a * u)) * t == whole * u) by (nonlinear_arith)
        requires
            whole == (m * a) * t,
    ;
    vstd::arithmetic::div_mod::lemma_fundamental_div_mod_converse(
        (whole * u) as int,
        u as int,
        whole as int,
        0,
    );
    vstd::arithmetic::div_mod::lemma_fundamental_div_mod_converse(
        whole as int,
        t as int,
        (m * a) as int,
        0,
    );
}

proof fn ten_to_is_positive(n: nat)
    ensures
        ten_to(n) > 0,
    decreases n,
{
    if n > 0 {
        ten_to_is_positive((n - 1) as nat);
    }
}

/// The last digits of a multiple of the power of ten are zeros.
proof fn last_digits_of_remainder(a: nat, b: nat, places: nat)
    requires
        a % ten_to(places) == b % ten_to(places),
    ensures
        last_digits(a, places) == last_digits(b, places),
    decreases places,
{
    if places > 0 {
        let p: nat = ten_to((places - 1) as nat);
        ten_to_is_positive((places - 1) as nat);
        let t: nat = 10 * p;
        let qa: nat = a / t;
        let qb: nat = b / t;
        let r: nat = a % t;
        vstd::arithmetic::div_mod::lemma_fundamental_div_mod(a as int, t as int);
        vstd::arithmetic::div_mod::lemma_fundamental_div_mod(b as int, t as int);
        assert(t * qa == 10 * (p * qa)) by (nonlinear_arith)
            requires
                t == 10 * p,
        ;
        assert(t * qb == 10 * (p * qb)) by (nonlinear_arith)
            requires
                t == 10 * p,
        ;
        let ka: nat = p * qa;
        let kb: nat = p * qb;
        assert(a == 10 * ka + r && b == 10 * kb + r);
        assert(a % 10 == r % 10 && b % 10 == r % 10);
        assert(a / 10 == ka + r / 10 && b / 10 == kb + r / 10);
        vstd::arithmetic::div_mod::lemma_mod_multiples_vanish(qa as int, (r / 10) as int, p as int);
        vstd::arithmetic::div_mod::lemma_mod_multiples_vanish(qb as int, (r / 10) as int, p as int);
        last_digits_of_remainder(a / 10, b / 10, (places - 1) as nat);
    }
}

/// Writes a number with `places` digits behind the point, behind `text`.
pub fn push_fixed(text: &mut String, x: Binary64, places: u8)
    requires
        0 < places <= 3,
    ensures
        final(text)@ == old(text)@ + fixed(x, places as nat),
{
    if x.nan() {
        text.append("NaN");
        return;
    }
    let ghost start: Seq<char> = text@;
    let ghost sign: Seq<char> = if x.negative() {
        "-"@
    } else {
        ""@
    };
    if x.is_negative() {
        text.append("-");
    } else {
        text.append("");
    }
    assert(text@ == start + sign);
    if x.infinite() {
        text.append("inf");
        assert(text@ =~= start + (sign + "inf"@));
        return;
    }
    let ghost n: nat = Binary64::half_even(x.units() * ten_to(places as nat), pow2(1074));
    let ghost t: nat = ten_to(places as nat);
    proof {
        reveal_with_fuel(ten_to, 4);
    }
    let (m, s): (u64, u32) = x.split();
    if s >= 1074 {
        proof {
            count_of_whole(x, places as nat);
            last_digits_of_remainder(n, 0, places as nat);
        }
        push_scaled(text, m, s - 1074);
        text.append(".");
        push_last_digits(text, 0, places);
    } else {
        let tens: u128 = if places == 1 {
            10
        } else if places == 2 {
            100
        } else {
            1000
        };
        let k: u32 = 1074 - s;
        let p: u128 = m as u128 * tens;
        proof {
            assert(tens == t);
            assert(m as u128 * tens < 2 * HIDDEN * 1001) by (nonlinear_arith)
                requires
                    m < 2 * HIDDEN,
                    tens <= 1000,
                    HIDDEN == 0x10_0000_0000_0000,
            ;
            count_of_fraction(x, places as nat);
        }
        let count: u128 = half_even_by_power(p, k);
        push_digits(text, count / tens);
        text.append(".");
        push_last_digits(text, count, places);
    }
    assert(text@ =~= start + (sign + digits(n / t) + "."@ + last_digits(n, places as nat)));
}

/// `p / 2^k` to the nearest whole number, ties to even.
fn half_even_by_power(p: u128, k: u32) -> (r: u128)
    requires
        p < 0x1_0000_0000_0000_0000,
        k > 0,
    ensures
        r == Binary64::half_even(p as nat, pow2(k as nat)),
{
    if k > 100 {
        proof {
            lemma2_to64();
            lemma_pow2_strictly_increases(65, k as nat);
            lemma_pow2_unfold(65);
            let d: nat = pow2(k as nat);
            vstd::arithmetic::div_mod::lemma_fundamental_div_mod_converse(p as int, d as int, 0, p as int);
        }
        return 0;
    }
    let d: u128 = power_of_two(k);
    proof {
        lemma_pow2_pos(k as nat);
        vstd::arithmetic::div_mod::lemma_mod_decreases(p as nat, d as nat);
    }
    let q: u128 = p / d;
    let r: u128 = p % d;
    if 2 * r < d || (2 * r == d && q % 2 == 0) {
        q
    } else {
        q + 1
    }
}

// ---- Laws ----

/// The number that decimal digits make, the highest first.
pub open spec fn number_of(text: Seq<char>) -> int
    decreases text.len(),
{
    if text.len() == 0 {
        0
    } else {
        10 * number_of(text.drop_last()) + (text.last() as u32 as int - 48)
    }
}

/// Are all characters decimal digits?
pub open spec fn are_digits(text: Seq<char>) -> bool {
    forall|i: int| 0 <= i < text.len() ==> 48 <= (#[trigger] text[i]) as u32 <= 57
}

/// The decimal digits of a whole number make the number, without zeros in front.
pub proof fn digits_make_the_number(n: nat)
    ensures
        number_of(digits(n)) == n,
        are_digits(digits(n)),
        digits(n).len() > 0,
        n > 0 ==> digits(n)[0] != '0',
        n == 0 ==> digits(n).len() == 1,
    decreases n,
{
    let text: Seq<char> = digits(n);
    if n < 10 {
        assert(text.drop_last() =~= Seq::<char>::empty());
        assert(number_of(text.drop_last()) == 0);
        assert(text.last() == digit(n));
    } else {
        digits_make_the_number(n / 10);
        assert(text.drop_last() =~= digits(n / 10));
        assert(text.last() == digit(n % 10));
        assert(text[0] == digits(n / 10)[0]);
    }
}

/// The last digits are as many as asked for, and make what is left of the number when what
/// is before them is taken off.
pub proof fn last_digits_make_the_rest(n: nat, places: nat)
    ensures
        last_digits(n, places).len() == places,
        are_digits(last_digits(n, places)),
        ten_to(places) == vstd::arithmetic::power::pow(10, places),
        ten_to(places) > 0,
        number_of(last_digits(n, places)) == n % ten_to(places),
    decreases places,
{
    let text: Seq<char> = last_digits(n, places);
    reveal(vstd::arithmetic::power::pow);
    if places > 0 {
        let t: nat = ten_to((places - 1) as nat);
        last_digits_make_the_rest(n / 10, (places - 1) as nat);
        assert(text.drop_last() =~= last_digits(n / 10, (places - 1) as nat));
        assert(text.last() == digit(n % 10));
        let a: nat = n / 10;
        let b: nat = n % 10;
        let q: nat = a / t;
        let r: nat = a % t;
        assert(a == t * q + r && r < t) by (nonlinear_arith)
            requires
                t > 0,
                q == a / t,
                r == a % t,
        ;
        assert(n == (10 * t) * q + (10 * r + b)) by (nonlinear_arith)
            requires
                n == 10 * a + b,
                a == t * q + r,
        ;
        assert((10 * t) * q == q * (10 * t)) by (nonlinear_arith);
        vstd::arithmetic::div_mod::lemma_fundamental_div_mod_converse(
            n as int,
            (10 * t) as int,
            q as int,
            (10 * r + b) as int,
        );
    } else {
        assert(number_of(text) == 0);
    }
}

/// An integer is its digits, behind a minus sign where it is below zero.
pub proof fn integers_are_their_digits(n: int)
    ensures
        n >= 0 ==> integer(n) == digits(n as nat),
        n < 0 ==> integer(n) == "-"@ + digits((-n) as nat),
{
}

/// Integers stand in brackets, with a comma and a space between them.
pub proof fn integer_lists_are_joined(list: Seq<i64>)
    ensures
        integer_list(list) == "["@ + text::joined(
            Seq::new(list.len(), |i: int| integer(list[i] as int)),
            ", "@,
        ) + "]"@,
    decreases list.len(),
{
    integers_are_joined(list);
}

proof fn integers_are_joined(list: Seq<i64>)
    ensures
        integers_joined(list) == text::joined(Seq::new(list.len(), |i: int| integer(list[i] as int)), ", "@),
    decreases list.len(),
{
    let all: Seq<Seq<char>> = Seq::new(list.len(), |i: int| integer(list[i] as int));
    if list.len() > 1 {
        let rest: Seq<i64> = list.drop_last();
        integers_are_joined(rest);
        assert(all.drop_last() =~= Seq::new(rest.len(), |i: int| integer(rest[i] as int)));
    }
}

/// A number is written as the decimal with the given number of digits behind the point that
/// lies nearest to it: no more than half of the last digit away, and of two that are equally
/// near the even one.
pub proof fn the_nearest_decimal_is_written(x: Binary64, places: nat)
    requires
        x.is_finite(),
    ensures
        exists|n: nat|
            {
                let exact: int = x.units() * vstd::arithmetic::power::pow(10, places);
                let off: int = n * pow2(1074) - exact;
                &&& -(pow2(1074) as int) <= 2 * off <= pow2(1074)
                &&& 2 * off == pow2(1074) || 2 * off == -(pow2(1074) as int) ==> n % 2 == 0
                &&& fixed(x, places) == (if x.negative() {
                    "-"@
                } else {
                    Seq::<char>::empty()
                }) + #[trigger] digits((n as int / vstd::arithmetic::power::pow(10, places)) as nat) + "."@
                    + last_digits(n, places)
            },
{
    last_digits_make_the_rest(0, places);
    let d: nat = pow2(1074);
    let p: nat = x.units() * ten_to(places);
    let n: nat = Binary64::half_even(p, d);
    let k: nat = p / d;
    let r: nat = p % d;
    lemma_pow2_pos(1074);
    assert(p == k * d + r && r < d) by (nonlinear_arith)
        requires
            d > 0,
            k == p / d,
            r == p % d,
    ;
    assert((k + 1) * d == k * d + d) by (nonlinear_arith);
    reveal_strlit("");
    assert(""@ =~= Seq::<char>::empty());
    let exact: int = x.units() * vstd::arithmetic::power::pow(10, places);
    assert(exact == p);
    assert(n == k || n == k + 1);
    assert(digits((n as int / vstd::arithmetic::power::pow(10, places)) as nat) == digits(n / ten_to(places)));
}

/// What is no finite number is written as a word.
pub proof fn other_numbers_are_written_as_words(x: Binary64, places: nat)
    ensures
        x.is_nan() ==> fixed(x, places) == "NaN"@,
        x.is_infinite() && x.negative() ==> fixed(x, places) == "-inf"@,
        x.is_infinite() && !x.negative() ==> fixed(x, places) == "inf"@,
{
    reveal_strlit("-");
    reveal_strlit("inf");
    reveal_strlit("-inf");
    reveal_strlit("");
    assert("-"@ + "inf"@ =~= "-inf"@);
    assert(""@ + "inf"@ =~= "inf"@);
}

} // verus!
