//! Where the scores of the core regimes lie: between zero and one, for content and
//! memories that are as extraction is asked to make them.

use crate::binary64::laws::in_unit_range;
use crate::binary64::{laws, Binary64, HIDDEN};
use crate::db::Memory;
use crate::edges;
use crate::math;
use crate::revision::regimes::{
    agreeing, alignment, clamped, consensus_of, importance_agreement, length_ratio, number, position_of,
    position_weight, signal_sum, weight_sum,
};
use crate::revision::regimes::{
    ENTITY_SHARE, HALF, IMPORTANCE_SHARE, LENGTH_SHARE, SHARES_BUT_ENTITIES, TOPIC_SHARE, WORD_SHARE,
};
use crate::revision::IncomingContent;
use vstd::arithmetic::power2::*;
use vstd::prelude::*;
use vstd::utf8::*;

verus! {

/// Can a machine hold the text?
pub open spec fn fits(text: Seq<char>) -> bool {
    encode_utf8(text).len() <= usize::MAX
}

/// Is content as extraction is asked to make it?
pub open spec fn is_proper_content(c: IncomingContent) -> bool {
    &&& in_unit_range(c.importance)
    &&& math::within_one(c.traits@)
    &&& c.topics@.len() <= 2 * HIDDEN
    &&& fits(c.content@)
    &&& c.created_at matches Some(stamp) ==> fits(stamp@)
}

/// Is a memory as extraction is asked to make it, and of a size that a machine can hold?
pub open spec fn is_proper_memory(m: Memory) -> bool {
    &&& edges::is_proper(m)
    &&& m.topics@.len() <= 2 * HIDDEN
    &&& fits(m.content@)
    &&& fits(m.created_at@)
}

/// A text that is not empty has bytes.
pub proof fn texts_have_bytes(text: Seq<char>)
    requires
        text.len() > 0,
    ensures
        encode_utf8(text).len() > 0,
{
    assert(encode_scalar(text[0] as u32).len() > 0);
}

/// A normal number in units, by its exponent and the rest of its bits.
proof fn normal_in_units(x: Binary64, e: nat, r: nat)
    requires
        e > 0,
        r < HIDDEN,
        x.mag() == e * (HIDDEN as nat) + r,
    ensures
        x.units() == (r + HIDDEN as nat) * pow2((e - 1) as nat),
{
    let h: nat = HIDDEN as nat;
    vstd::arithmetic::div_mod::lemma_fundamental_div_mod_converse(x.mag() as int, h as int, e as int, r as int);
    assert(e * h >= h) by (nonlinear_arith)
        requires
            e > 0,
    ;
}

/// The shares of the content score make no more than one.
proof fn content_shares()
    ensures
        number(LENGTH_SHARE).units() + number(WORD_SHARE).units() <= pow2(1074),
        in_unit_range(number(LENGTH_SHARE)),
        in_unit_range(number(WORD_SHARE)),
{
    normal_in_units(number(LENGTH_SHARE), 0x3fd, 0x3_3333_3333_3333);
    normal_in_units(number(WORD_SHARE), 0x3fe, 0x6_6666_6666_6666);
    let c: nat = pow2(1020);
    lemma_pow2_unfold(1021);
    laws::powers_in_use();
    lemma_pow2_adds(54, 1020);
    lemma_pow2_adds(53, 1);
    lemma2_to64();
    let a: nat = 0x13_3333_3333_3333;
    let b: nat = 0x16_6666_6666_6666;
    assert(a * c + b * (2 * c) <= (4 * (HIDDEN as nat)) * c) by (nonlinear_arith)
        requires
            a == 0x13_3333_3333_3333,
            b == 0x16_6666_6666_6666,
            HIDDEN == 0x10_0000_0000_0000,
    ;
}

/// The shares of topics and importance make just what they are divided by.
proof fn semantic_shares()
    ensures
        number(TOPIC_SHARE).units() + number(IMPORTANCE_SHARE).units() == number(SHARES_BUT_ENTITIES).units(),
        in_unit_range(number(TOPIC_SHARE)),
        in_unit_range(number(IMPORTANCE_SHARE)),
        in_unit_range(number(SHARES_BUT_ENTITIES)),
        in_unit_range(number(ENTITY_SHARE)),
{
    normal_in_units(number(TOPIC_SHARE), 0x3fd, 0xc_cccc_cccc_cccd);
    normal_in_units(number(IMPORTANCE_SHARE), 0x3fc, 0x9_9999_9999_999a);
    normal_in_units(number(SHARES_BUT_ENTITIES), 0x3fe, 0x4_cccc_cccc_cccd);
    let c: nat = pow2(1019);
    lemma_pow2_unfold(1020);
    lemma_pow2_unfold(1021);
    let t: nat = 0x1c_cccc_cccc_cccd;
    let i: nat = 0x19_9999_9999_999a;
    let s: nat = 0x14_cccc_cccc_cccd;
    assert(t * (2 * c) + i * c == s * (2 * (2 * c))) by (nonlinear_arith)
        requires
            t == 0x1c_cccc_cccc_cccd,
            i == 0x19_9999_9999_999a,
            s == 0x14_cccc_cccc_cccd,
    ;
}

/// A share of a number between zero and one is no larger than the share.
proof fn share_of(share: Binary64, x: Binary64)
    requires
        in_unit_range(share),
        in_unit_range(x),
    ensures
        share.spec_times(x).units() <= share.units(),
        in_unit_range(share.spec_times(x)),
        share.spec_times(x).is_finite(),
{
    laws::times_commutes(share, x);
    laws::share_is_no_larger(x, share);
}

/// The sum of two numbers that are not negative is no larger than a number that their
/// exact sum does not exceed.
proof fn sum_up_to(x: Binary64, y: Binary64, top: Binary64)
    requires
        in_unit_range(x),
        in_unit_range(y),
        in_unit_range(top),
        x.units() + y.units() <= top.units(),
    ensures
        x.spec_plus(y).is_finite(),
        0 <= x.spec_plus(y).value(),
        x.spec_plus(y).units() <= top.units(),
{
    laws::zero_in_units();
    laws::units_follow_magnitudes(x, Binary64::spec_zero());
    laws::units_follow_magnitudes(y, Binary64::spec_zero());
    laws::nearest_is_exact(top);
    let v: int = x.value() + y.value();
    let s: Binary64 = x.spec_plus(y);
    if v > 0 {
        laws::nearest_is_monotone(v as nat, 1, top.units(), 1);
        assert(s.mag() <= top.mag());
        laws::units_follow_magnitudes(s, top);
    } else {
        assert(s.mag() == 0);
        laws::units_follow_magnitudes(s, Binary64::spec_zero());
    }
}

/// The content score lies between zero and one.
pub proof fn content_is_in_unit_range(la: nat, lb: nat, overlap: Binary64)
    requires
        0 < la <= usize::MAX,
        0 < lb <= usize::MAX,
        in_unit_range(overlap),
    ensures
        in_unit_range(
            number(LENGTH_SHARE).spec_times(length_ratio(la, lb)).spec_plus(
                number(WORD_SHARE).spec_times(overlap),
            ),
        ),
{
    let one: Binary64 = Binary64::spec_one();
    if la < lb {
        laws::counts_are_ordered(la, lb);
        laws::counts_are_ordered(la, la);
        laws::ratio_in_unit_range(Binary64::spec_of(la), Binary64::spec_of(lb));
    } else {
        laws::counts_are_ordered(lb, la);
        laws::counts_are_ordered(lb, lb);
        laws::ratio_in_unit_range(Binary64::spec_of(lb), Binary64::spec_of(la));
    }
    content_shares();
    laws::one_in_units();
    let x: Binary64 = number(LENGTH_SHARE).spec_times(length_ratio(la, lb));
    let y: Binary64 = number(WORD_SHARE).spec_times(overlap);
    share_of(number(LENGTH_SHARE), length_ratio(la, lb));
    share_of(number(WORD_SHARE), overlap);
    sum_up_to(x, y, one);
    number_up_to_one(x.spec_plus(y));
}

/// A number that is not negative and has no more units than one lies between zero and
/// one.
proof fn number_up_to_one(x: Binary64)
    requires
        x.is_finite(),
        0 <= x.value(),
        x.units() <= pow2(1074),
    ensures
        in_unit_range(x),
{
    laws::one_in_units();
    laws::zero_in_units();
    laws::order_is_the_order_of_values(Binary64::spec_zero(), x);
    laws::order_is_the_order_of_values(x, Binary64::spec_one());
}

/// What the difference of two importances leaves of one lies between zero and one.
pub proof fn agreement_is_in_unit_range(a: Binary64, b: Binary64)
    requires
        in_unit_range(a),
        in_unit_range(b),
    ensures
        in_unit_range(importance_agreement(a, b)),
{
    let one: Binary64 = Binary64::spec_one();
    laws::one_in_units();
    laws::zero_in_units();
    laws::nearest_is_exact(one);
    laws::units_follow_magnitudes(a, one);
    laws::units_follow_magnitudes(b, one);
    laws::units_follow_magnitudes(a, Binary64::spec_zero());
    laws::units_follow_magnitudes(b, Binary64::spec_zero());
    let n: Binary64 = b.spec_neg();
    assert(n.mag() == b.mag());
    assert(n.units() == b.units());
    let d: Binary64 = a.spec_minus(b);
    let v: int = a.value() + n.value();
    if v != 0 {
        let m: nat = if v < 0 {
            (-v) as nat
        } else {
            v as nat
        };
        laws::nearest_is_monotone(m, 1, pow2(1074), 1);
    }
    assert(d.mag() <= one.mag());
    let e: Binary64 = d.spec_abs();
    assert(e.mag() == d.mag() && !e.negative());
    laws::rest_in_unit_range(e);
}

/// The semantic score without entities lies between zero and one.
pub proof fn semantic_is_in_unit_range(topics: Binary64, agreement: Binary64)
    requires
        in_unit_range(topics),
        in_unit_range(agreement),
    ensures
        in_unit_range(
            number(TOPIC_SHARE).spec_times(topics).spec_plus(
                number(IMPORTANCE_SHARE).spec_times(agreement),
            ).spec_over(number(SHARES_BUT_ENTITIES)),
        ),
{
    semantic_shares();
    let x: Binary64 = number(TOPIC_SHARE).spec_times(topics);
    let y: Binary64 = number(IMPORTANCE_SHARE).spec_times(agreement);
    share_of(number(TOPIC_SHARE), topics);
    share_of(number(IMPORTANCE_SHARE), agreement);
    sum_up_to(x, y, number(SHARES_BUT_ENTITIES));
    laws::part_of_whole_in_unit_range(x.spec_plus(y), number(SHARES_BUT_ENTITIES));
}

/// The semantic score with entities lies between zero and one.
pub proof fn semantic_with_entities_is_in_unit_range(topics: Binary64, entities: Binary64, agreement: Binary64)
    requires
        in_unit_range(topics),
        in_unit_range(entities),
        in_unit_range(agreement),
    ensures
        in_unit_range(
            clamped(
                number(TOPIC_SHARE).spec_times(topics).spec_plus(
                    number(ENTITY_SHARE).spec_times(entities),
                ).spec_plus(number(IMPORTANCE_SHARE).spec_times(agreement)),
            ),
        ),
{
    semantic_shares();
    share_of(number(TOPIC_SHARE), topics);
    share_of(number(ENTITY_SHARE), entities);
    share_of(number(IMPORTANCE_SHARE), agreement);
    let x: Binary64 = number(TOPIC_SHARE).spec_times(topics);
    let y: Binary64 = number(ENTITY_SHARE).spec_times(entities);
    let z: Binary64 = number(IMPORTANCE_SHARE).spec_times(agreement);
    unit_is_at_most_one(x);
    laws::sum_is_at_most(x, 1, y);
    laws::sum_is_at_most(x.spec_plus(y), 2, z);
    laws::clamp_reaches_unit_range(x.spec_plus(y).spec_plus(z));
}

proof fn unit_is_at_most_one(x: Binary64)
    requires
        in_unit_range(x),
    ensures
        laws::at_most(x, 1),
{
    laws::one_in_units();
    laws::zero_in_units();
    laws::units_follow_magnitudes(x, Binary64::spec_one());
    laws::units_follow_magnitudes(x, Binary64::spec_zero());
}

/// A count over another that is not zero, moved into the range, lies there.
pub proof fn share_of_count_is_in_unit_range(part: nat, whole: nat)
    requires
        part <= 0x2_0000_0000_0000_0000,
        0 < whole <= 0x2_0000_0000_0000_0000,
    ensures
        in_unit_range(clamped(Binary64::spec_of(part).spec_over(Binary64::spec_of(whole)))),
        !Binary64::spec_of(part).spec_over(Binary64::spec_of(whole)).is_nan(),
{
    laws::counts_are_ordered(part, part);
    laws::counts_are_ordered(whole, whole);
    laws::clamp_reaches_unit_range(Binary64::spec_of(part).spec_over(Binary64::spec_of(whole)));
}

/// The knowledge score lies between zero and one.
pub proof fn knowledge_is_in_unit_range(shared: Binary64, found: nat, total: nat)
    requires
        in_unit_range(shared),
        found <= total,
        0 < total <= 0x2_0000_0000_0000_0000,
    ensures
        in_unit_range(
            clamped(
                number(HALF).spec_times(shared).spec_plus(
                    number(HALF).spec_times(Binary64::spec_of(found).spec_over(Binary64::spec_of(total))),
                ),
            ),
        ),
{
    let cross: Binary64 = Binary64::spec_of(found).spec_over(Binary64::spec_of(total));
    laws::counts_are_ordered(found, total);
    laws::counts_are_ordered(found, found);
    laws::ratio_in_unit_range(Binary64::spec_of(found), Binary64::spec_of(total));
    share_of(number(HALF), shared);
    share_of(number(HALF), cross);
    let x: Binary64 = number(HALF).spec_times(shared);
    let y: Binary64 = number(HALF).spec_times(cross);
    unit_is_at_most_one(x);
    laws::sum_is_at_most(x, 1, y);
    laws::clamp_reaches_unit_range(x.spec_plus(y));
}

/// The weight of a position lies between zero and one.
proof fn position_weight_is_in_unit_range(i: nat)
    requires
        i < 2 * HIDDEN,
    ensures
        in_unit_range(position_weight(i)),
{
    let one: Binary64 = Binary64::spec_one();
    laws::one_in_units();
    laws::counts_are_exact(i);
    laws::counts_are_exact(i + 1);
    assert(i + 1 <= 0x2_0000_0000_0000_0000);
    laws::counts_are_ordered(i, i + 1);
    laws::counts_are_ordered(i, i);
    let x: Binary64 = Binary64::spec_of(i);
    let u: nat = pow2(1074);
    assert((i + 1) * u == i * u + u) by (nonlinear_arith);
    laws::nearest_is_exact(Binary64::spec_of(i + 1));
    lemma_pow2_pos(1074);
    assert(x.spec_plus(one) == Binary64::spec_of(i + 1));
    laws::ratio_in_unit_range(one, x.spec_plus(one));
}

/// What topics earn, and can earn at most, grows by no more than one with each.
pub proof fn alignment_is_at_most(incoming: Seq<String>, existing: Seq<String>, n: nat)
    requires
        n <= incoming.len() <= 2 * HIDDEN,
        existing.len() <= 2 * HIDDEN,
    ensures
        laws::at_most(alignment(incoming, existing, n), n),
        laws::at_most(weight_sum(n), n),
    decreases n,
{
    laws::zero_in_units();
    if n == 0 {
        laws::units_follow_magnitudes(Binary64::signed(true, 0), Binary64::spec_zero());
    } else {
        let i: nat = (n - 1) as nat;
        alignment_is_at_most(incoming, existing, i);
        position_weight_is_in_unit_range(i);
        laws::sum_is_at_most(weight_sum(i), i, position_weight(i));
        let longest: nat = if incoming.len() < existing.len() {
            existing.len()
        } else {
            incoming.len()
        };
        let sum: Binary64 = alignment(incoming, existing, i);
        match position_of(existing, incoming[n - 1]@, 0) {
            Some(j) => {
                position_is_in_list(existing, incoming[n - 1]@, 0);
                distance_is_in_unit_range(i, j, longest);
                let distance: Binary64 = Binary64::spec_of(i).spec_minus(
                    Binary64::spec_of(j),
                ).spec_abs().spec_over(Binary64::spec_of(longest));
                laws::rest_in_unit_range(distance);
                let rest: Binary64 = Binary64::spec_one().spec_minus(distance);
                laws::product_in_unit_range(position_weight(i), rest);
                laws::sum_is_at_most(sum, i, position_weight(i).spec_times(rest));
            },
            None => {
                let u: nat = pow2(1074);
                assert(i * u <= n * u) by (nonlinear_arith)
                    requires
                        i <= n,
                ;
            },
        }
    }
}

proof fn position_is_in_list(list: Seq<String>, word: Seq<char>, from: nat)
    requires
        position_of(list, word, from) is Some,
    ensures
        position_of(list, word, from).unwrap() < list.len(),
    decreases list.len() - from,
{
    if from < list.len() && position_of(list, word, from) != Some(from) {
        position_is_in_list(list, word, from + 1);
    }
}

/// The distance of two positions, over a length that both are within, lies between zero
/// and one.
proof fn distance_is_in_unit_range(i: nat, j: nat, longest: nat)
    requires
        i < longest,
        j < longest,
        longest <= 2 * HIDDEN,
    ensures
        in_unit_range(
            Binary64::spec_of(i).spec_minus(Binary64::spec_of(j)).spec_abs().spec_over(
                Binary64::spec_of(longest),
            ),
        ),
{
    let u: nat = pow2(1074);
    let x: Binary64 = Binary64::spec_of(i);
    let y: Binary64 = Binary64::spec_of(j);
    let top: Binary64 = Binary64::spec_of(longest);
    laws::counts_are_exact(i);
    laws::counts_are_exact(j);
    laws::counts_are_exact(longest);
    assert(longest <= 0x2_0000_0000_0000_0000);
    laws::counts_are_ordered(i, longest);
    laws::counts_are_ordered(j, longest);
    laws::counts_are_ordered(i, i);
    laws::counts_are_ordered(j, j);
    laws::nearest_is_exact(top);
    assert(i * u <= longest * u && j * u <= longest * u) by (nonlinear_arith)
        requires
            i <= longest,
            j <= longest,
    ;
    let n: Binary64 = y.spec_neg();
    assert(n.mag() == y.mag());
    assert(n.units() == y.units());
    let d: Binary64 = x.spec_minus(y);
    let v: int = x.value() + n.value();
    if v != 0 {
        let m: nat = if v < 0 {
            (-v) as nat
        } else {
            v as nat
        };
        laws::nearest_is_monotone(m, 1, top.units(), 1);
    }
    assert(d.mag() <= top.mag());
    let e: Binary64 = d.spec_abs();
    assert(e.mag() == d.mag() && !e.negative());
    laws::ratio_in_unit_range(e, top);
}

/// The structural score lies between zero and one.
pub proof fn structural_is_in_unit_range(incoming: Seq<String>, existing: Seq<String>)
    requires
        incoming.len() <= 2 * HIDDEN,
        existing.len() <= 2 * HIDDEN,
        Binary64::spec_zero().spec_lt(weight_sum(incoming.len())),
    ensures
        in_unit_range(
            clamped(alignment(incoming, existing, incoming.len()).spec_over(weight_sum(incoming.len()))),
        ),
{
    alignment_is_at_most(incoming, existing, incoming.len());
    laws::clamp_reaches_unit_range(
        alignment(incoming, existing, incoming.len()).spec_over(weight_sum(incoming.len())),
    );
}

/// The agreement of signals between zero and one lies there too.
pub proof fn consensus_is_in_unit_range(list: Seq<Binary64>)
    requires
        0 < list.len() <= 2 * HIDDEN,
        forall|i: int| 0 <= i < list.len() ==> in_unit_range(#[trigger] list[i]),
    ensures
        in_unit_range(consensus_of(list)),
{
    let n: nat = list.len();
    let count: nat = agreeing(list, n);
    signals_are_at_most(list, n);
    assert(n <= 0x2_0000_0000_0000_0000);
    laws::counts_are_ordered(count, n);
    laws::counts_are_ordered(count, count);
    laws::ratio_in_unit_range(Binary64::spec_of(count), Binary64::spec_of(n));
    laws::mean_of_many_in_unit_range(signal_sum(list, n), n);
    let share: Binary64 = Binary64::spec_of(count).spec_over(Binary64::spec_of(n));
    let mean: Binary64 = signal_sum(list, n).spec_over(Binary64::spec_of(n));
    laws::product_in_unit_range(share, mean);
    laws::clamp_reaches_unit_range(share.spec_times(mean));
}

proof fn signals_are_at_most(list: Seq<Binary64>, n: nat)
    requires
        n <= list.len() <= 2 * HIDDEN,
        forall|i: int| 0 <= i < list.len() ==> in_unit_range(#[trigger] list[i]),
    ensures
        laws::at_most(signal_sum(list, n), n),
        agreeing(list, n) <= n,
    decreases n,
{
    if n == 0 {
        laws::zero_in_units();
        laws::units_follow_magnitudes(Binary64::signed(true, 0), Binary64::spec_zero());
    } else {
        signals_are_at_most(list, (n - 1) as nat);
        laws::sum_is_at_most(signal_sum(list, (n - 1) as nat), (n - 1) as nat, list[n - 1]);
    }
}

} // verus!
