//! The similarity measures that edge detection and revision scoring share.

use crate::binary64::laws::in_unit_range;
use crate::binary64::{laws, root, Binary64, HIDDEN};
use crate::text;
use crate::wordset::{lower_set, WordSet};
use crate::wordset;
use vstd::prelude::*;

verus! {

/// The share of the members of either set that are members of both; zero where
/// neither has any.
pub open spec fn jaccard(a: Set<Seq<char>>, b: Set<Seq<char>>) -> Binary64 {
    if a.union(b).len() == 0 {
        Binary64::spec_zero()
    } else {
        Binary64::spec_of(a.intersect(b).len()).spec_over(Binary64::spec_of(a.union(b).len()))
    }
}

/// Jaccard similarity of two sets of texts.
pub fn jaccard_set(a: &WordSet, b: &WordSet) -> (r: Binary64)
    ensures
        r == jaccard(a@, b@),
        in_unit_range(r),
{
    let na: usize = a.len();
    let nb: usize = b.len();
    let mut common: usize = 0;
    let mut i: usize = 0;
    // What only `b` holds.
    let mut only: usize = 0;
    let ghost mut shared: Seq<Seq<char>> = Seq::empty();
    let ghost mut extra: Seq<Seq<char>> = Seq::empty();
    while i < nb
        invariant
            i <= nb == b.list().len(),
            common == shared.len(),
            only == extra.len(),
            common + only == i,
            b.list().no_duplicates(),
            shared.no_duplicates(),
            extra.no_duplicates(),
            forall|w: Seq<char>| #[trigger] shared.contains(w) <==> b.list().take(i as int).contains(w) && a@.contains(w),
            forall|w: Seq<char>| #[trigger] extra.contains(w) <==> b.list().take(i as int).contains(w) && !a@.contains(w),
        decreases nb - i,
    {
        let ghost word: Seq<char> = b.list()[i as int];
        proof {
            let seen: Seq<Seq<char>> = b.list().take(i as int);
            let next: Seq<Seq<char>> = b.list().take(i + 1);
            assert(next =~= seen.push(word));
            assert(!seen.contains(word));
            assert forall|w: Seq<char>| #[trigger] next.contains(w) <==> seen.contains(w) || w == word by {
                if w == word {
                    assert(next[i as int] == w);
                }
                if seen.contains(w) {
                    let k: int = choose|k: int| 0 <= k < seen.len() && seen[k] == w;
                    assert(next[k] == w);
                }
            }
            assert(!shared.contains(word) && !extra.contains(word));
            member_of_push(shared, word);
            member_of_push(extra, word);
            no_duplicates_of_push(shared, word);
            no_duplicates_of_push(extra, word);
        }
        if a.contains(b.get(i)) {
            common = common + 1;
            proof {
                shared = shared.push(word);
            }
        } else {
            only = only + 1;
            proof {
                extra = extra.push(word);
            }
        }
        i = i + 1;
    }
    proof {
        assert(b.list().take(nb as int) =~= b.list());
        shared.unique_seq_to_set();
        assert(shared.to_set() =~= a@.intersect(b@)) by {
            assert forall|w: Seq<char>| shared.to_set().contains(w) == a@.intersect(b@).contains(w) by {
                assert(b.list().to_set().contains(w) == b@.contains(w));
            }
        }
        let all: Seq<Seq<char>> = a.list() + extra;
        assert(all.no_duplicates()) by {
            assert forall|x: int, y: int| 0 <= x < all.len() && 0 <= y < all.len() && x != y implies all[x] != all[y] by {
                if x < a.list().len() {
                    assert(a.list().to_set().contains(all[x]));
                } else {
                    assert(extra[x - a.list().len()] == all[x]);
                    assert(extra.contains(all[x]));
                }
                if y < a.list().len() {
                    assert(a.list().to_set().contains(all[y]));
                } else {
                    assert(extra[y - a.list().len()] == all[y]);
                    assert(extra.contains(all[y]));
                }
            }
        }
        all.unique_seq_to_set();
        assert(all.to_set() =~= a@.union(b@)) by {
            assert forall|w: Seq<char>| all.to_set().contains(w) == a@.union(b@).contains(w) by {
                assert(b.list().to_set().contains(w) == b@.contains(w));
                assert(a.list().to_set().contains(w) == a@.contains(w));
                if a.list().contains(w) {
                    let k: int = choose|k: int| 0 <= k < a.list().len() && a.list()[k] == w;
                    assert(all[k] == w);
                }
                if extra.contains(w) {
                    let k: int = choose|k: int| 0 <= k < extra.len() && extra[k] == w;
                    assert(all[k + a.list().len()] == w);
                }
            }
        }
        laws::large_powers();
        jaccard_is_in_unit_range(a@, b@);
    }
    let union: u128 = na as u128 + only as u128;
    if union == 0 {
        Binary64::zero()
    } else {
        Binary64::of(common).over(Binary64::of_wide(union))
    }
}

proof fn member_of_push(s: Seq<Seq<char>>, word: Seq<char>)
    ensures
        forall|w: Seq<char>| #[trigger] s.push(word).contains(w) <==> s.contains(w) || w == word,
{
    assert forall|w: Seq<char>| #[trigger] s.push(word).contains(w) <==> s.contains(w) || w == word by {
        assert(s.push(word)[s.len() as int] == word);
        if s.contains(w) {
            let k: int = choose|k: int| 0 <= k < s.len() && s[k] == w;
            assert(s.push(word)[k] == w);
        }
    }
}

proof fn no_duplicates_of_push(s: Seq<Seq<char>>, word: Seq<char>)
    requires
        s.no_duplicates(),
        !s.contains(word),
    ensures
        s.push(word).no_duplicates(),
{
    assert forall|i: int, j: int| 0 <= i < j < s.len() + 1 implies s.push(word)[i] != s.push(word)[j] by {
        if j == s.len() {
            assert(s.contains(s[i]));
        }
    }
}

/// Jaccard similarity of two lists of texts, whatever the case of their letters.
pub open spec fn similarity(a: Seq<String>, b: Seq<String>) -> Binary64 {
    jaccard(wordset::lowered(a), wordset::lowered(b))
}

/// Jaccard similarity of two lists of texts, whatever the case of their letters;
/// zero where both are empty.
pub fn jaccard_similarity(a: &Vec<String>, b: &Vec<String>) -> (r: Binary64)
    ensures
        r == similarity(a@, b@),
        in_unit_range(r),
{
    jaccard_set(&lower_set(a), &lower_set(b))
}

/// The sum of the products of the first `n` elements. It begins with the negative
/// zero, which is what addition leaves every number as it is.
pub open spec fn dot(a: Seq<Binary64>, b: Seq<Binary64>, n: nat) -> Binary64
    decreases n,
{
    if n == 0 {
        Binary64::signed(true, 0)
    } else {
        dot(a, b, (n - 1) as nat).spec_plus(a[n - 1].spec_times(b[n - 1]))
    }
}

/// The cosine of the angle between two vectors, as far as the shorter one goes; zero
/// where that is nothing, or has no magnitude.
pub open spec fn cosine(a: Seq<Binary64>, b: Seq<Binary64>) -> Binary64 {
    let n: nat = if a.len() < b.len() {
        a.len()
    } else {
        b.len()
    };
    let mag_a: Binary64 = dot(a, a, n).spec_sqrt();
    let mag_b: Binary64 = dot(b, b, n).spec_sqrt();
    if n == 0 || mag_a.mag() == 0 || mag_b.mag() == 0 {
        Binary64::spec_zero()
    } else {
        dot(a, b, n).spec_over(mag_a.spec_times(mag_b))
    }
}

fn dot_product(a: &Vec<Binary64>, b: &Vec<Binary64>, n: usize) -> (r: Binary64)
    requires
        n <= a@.len(),
        n <= b@.len(),
    ensures
        r == dot(a@, b@, n as nat),
{
    let mut r: Binary64 = Binary64::negative_zero();
    let mut i: usize = 0;
    while i < n
        invariant
            i <= n <= a@.len(),
            n <= b@.len(),
            r == dot(a@, b@, i as nat),
        decreases n - i,
    {
        r = r.plus(a[i].times(b[i]));
        i = i + 1;
    }
    r
}

/// Cosine similarity of two vectors. It looks at as many elements as the shorter one
/// has.
pub fn cosine_similarity(a: &Vec<Binary64>, b: &Vec<Binary64>) -> (r: Binary64)
    ensures
        r == cosine(a@, b@),
{
    let n: usize = if a.len() < b.len() {
        a.len()
    } else {
        b.len()
    };
    if n == 0 {
        return Binary64::zero();
    }
    let mag_a: Binary64 = dot_product(a, a, n).sqrt();
    let mag_b: Binary64 = dot_product(b, b, n).sqrt();
    if mag_a.is_zero() || mag_b.is_zero() {
        Binary64::zero()
    } else {
        dot_product(a, b, n).over(mag_a.times(mag_b))
    }
}

// ---- Laws ----

/// Jaccard similarity is symmetric.
pub proof fn jaccard_is_symmetric(a: Set<Seq<char>>, b: Set<Seq<char>>)
    ensures
        jaccard(a, b) == jaccard(b, a),
{
    assert(a.union(b) =~= b.union(a));
    assert(a.intersect(b) =~= b.intersect(a));
}

/// Jaccard similarity lies between zero and one.
pub proof fn jaccard_is_in_unit_range(a: Set<Seq<char>>, b: Set<Seq<char>>)
    requires
        a.finite(),
        b.finite(),
        a.len() <= usize::MAX,
        b.len() <= usize::MAX,
    ensures
        in_unit_range(jaccard(a, b)),
{
    let part: nat = a.intersect(b).len();
    let whole: nat = a.union(b).len();
    vstd::set_lib::lemma_len_subset(a.intersect(b), a.union(b));
    vstd::set_lib::lemma_len_union(a, b);
    if whole > 0 {
        laws::counts_are_ordered(part, whole);
        laws::counts_are_ordered(part, part);
        laws::ratio_in_unit_range(Binary64::spec_of(part), Binary64::spec_of(whole));
    }
}

/// Sets with nothing in common have no similarity, and so have two empty ones.
pub proof fn disjoint_sets_have_no_similarity(a: Set<Seq<char>>, b: Set<Seq<char>>)
    requires
        a.finite(),
        b.finite(),
        a.len() <= usize::MAX,
        b.len() <= usize::MAX,
        a.disjoint(b),
    ensures
        jaccard(a, b) == Binary64::spec_zero(),
{
    let whole: nat = a.union(b).len();
    assert(a.intersect(b) =~= Set::empty());
    vstd::set_lib::lemma_len_union(a, b);
    if whole > 0 {
        laws::counts_are_ordered(0, whole);
        laws::zero_over(Binary64::spec_of(whole));
    }
}

/// A set that has members is wholly similar to itself.
pub proof fn a_set_is_similar_to_itself(a: Set<Seq<char>>)
    requires
        a.finite(),
        0 < a.len() <= usize::MAX,
    ensures
        jaccard(a, a) == Binary64::spec_one(),
{
    assert(a.intersect(a) =~= a);
    assert(a.union(a) =~= a);
    laws::counts_are_ordered(a.len(), a.len());
    laws::over_itself(Binary64::spec_of(a.len()));
}

/// Sets are wholly similar if and only if they are the same and have members. Beyond 2^53
/// members the counts are rounded, and sets that differ can be wholly similar too.
pub proof fn wholly_similar_sets_are_the_same(a: Set<Seq<char>>, b: Set<Seq<char>>)
    requires
        a.finite(),
        b.finite(),
        a.union(b).len() <= 2 * HIDDEN,
    ensures
        jaccard(a, b) == Binary64::spec_one() <==> a == b && a.len() > 0,
{
    let both: Set<Seq<char>> = a.intersect(b);
    let all: Set<Seq<char>> = a.union(b);
    vstd::set_lib::lemma_len_subset(both, all);
    vstd::set_lib::lemma_len_subset(a, all);
    if a == b {
        assert(all =~= a);
        if a.len() > 0 {
            assert(a.len() <= 0x2_0000_0000_0000_0000);
            assert(both =~= a);
            laws::counts_are_ordered(a.len(), a.len());
            laws::over_itself(Binary64::spec_of(a.len()));
        }
    } else if all.len() > 0 {
        if both.len() == all.len() {
            vstd::set_lib::lemma_subset_equality(both, all);
            assert(a =~= b) by {
                assert forall|w: Seq<char>| a.contains(w) == b.contains(w) by {
                    assert(both.contains(w) == all.contains(w));
                }
            }
        }
        laws::count_over_a_larger_one_is_below_one(both.len(), all.len());
    }
}

/// The similarity of two lists is one if and only if they hold the same texts, whatever
/// their case, and at least one.
pub proof fn wholly_similar_lists_hold_the_same(a: Seq<String>, b: Seq<String>)
    requires
        wordset::lowered(a).union(wordset::lowered(b)).len() <= 2 * HIDDEN,
    ensures
        similarity(a, b) == Binary64::spec_one() <==> wordset::lowered(a) == wordset::lowered(b) && a.len() > 0,
{
    wordset::lowered_is_small(a);
    wordset::lowered_is_small(b);
    wholly_similar_sets_are_the_same(wordset::lowered(a), wordset::lowered(b));
    if a.len() > 0 {
        assert(wordset::lowered(a).contains(text::lowercase(a[0]@)));
    }
}

/// Similarity does not change when the texts of a list are put in another order, repeated
/// or written in another case.
pub proof fn similarity_ignores_order_repetition_and_case(a: Seq<String>, b: Seq<String>, other: Seq<String>)
    requires
        forall|i: int|
            #![trigger a[i]]
            0 <= i < a.len() ==> exists|j: int|
                0 <= j < b.len() && text::lowercase((#[trigger] b[j])@) == text::lowercase(a[i]@),
        forall|j: int|
            #![trigger b[j]]
            0 <= j < b.len() ==> exists|i: int|
                0 <= i < a.len() && text::lowercase((#[trigger] a[i])@) == text::lowercase(b[j]@),
    ensures
        similarity(a, other) == similarity(b, other),
        similarity(other, a) == similarity(other, b),
{
    assert(wordset::lowered(a) =~= wordset::lowered(b));
}

/// Cosine similarity is symmetric.
pub proof fn cosine_is_symmetric(a: Seq<Binary64>, b: Seq<Binary64>)
    ensures
        cosine(a, b) == cosine(b, a),
{
    let n: nat = if a.len() < b.len() {
        a.len()
    } else {
        b.len()
    };
    dot_is_symmetric(a, b, n);
    laws::times_commutes(dot(a, a, n).spec_sqrt(), dot(b, b, n).spec_sqrt());
}

proof fn dot_is_symmetric(a: Seq<Binary64>, b: Seq<Binary64>, n: nat)
    ensures
        dot(a, b, n) == dot(b, a, n),
    decreases n,
{
    if n > 0 {
        dot_is_symmetric(a, b, (n - 1) as nat);
        laws::times_commutes(a[n - 1], b[n - 1]);
    }
}

/// Cosine similarity looks at no more elements than the shorter vector has.
pub proof fn cosine_ignores_what_is_longer(a: Seq<Binary64>, b: Seq<Binary64>)
    requires
        a.len() <= b.len(),
    ensures
        cosine(a, b) == cosine(a, b.take(a.len() as int)),
{
    dot_of_prefix(a, b, a.len());
    dot_of_prefix(b, b, a.len());
}

proof fn dot_of_prefix(a: Seq<Binary64>, b: Seq<Binary64>, n: nat)
    requires
        n <= a.len(),
        n <= b.len(),
    ensures
        dot(a, b, n) == dot(a, b.take(n as int), n),
        dot(a, b, n) == dot(a.take(n as int), b.take(n as int), n),
{
    same_dot(a, b, a, b.take(n as int), n);
    same_dot(a, b, a.take(n as int), b.take(n as int), n);
}

proof fn same_dot(a: Seq<Binary64>, b: Seq<Binary64>, c: Seq<Binary64>, d: Seq<Binary64>, n: nat)
    requires
        forall|i: int| 0 <= i < n ==> a[i] == c[i] && b[i] == d[i],
    ensures
        dot(a, b, n) == dot(c, d, n),
    decreases n,
{
    if n > 0 {
        same_dot(a, b, c, d, (n - 1) as nat);
    }
}

/// The similarity of two lists of texts lies between zero and one.
pub proof fn similarity_is_in_unit_range(a: Vec<String>, b: Vec<String>)
    ensures
        in_unit_range(similarity(a@, b@)),
{
    wordset::lowered_is_small(a@);
    wordset::lowered_is_small(b@);
    assert(a.len() <= usize::MAX && b.len() <= usize::MAX);
    jaccard_is_in_unit_range(wordset::lowered(a@), wordset::lowered(b@));
}

/// Does every element lie between minus one and one?
pub open spec fn within_one(list: Seq<Binary64>) -> bool {
    forall|i: int| 0 <= i < list.len() ==> laws::within(#[trigger] list[i], 1)
}

/// The cosine of vectors with elements between minus one and one is a number.
pub proof fn cosine_is_a_number(a: Seq<Binary64>, b: Seq<Binary64>)
    requires
        within_one(a),
        within_one(b),
    ensures
        !cosine(a, b).is_nan(),
{
    let n: nat = if a.len() < b.len() {
        a.len()
    } else {
        b.len()
    };
    dot_is_within(a, b, n);
    squares_are_at_most(a, n);
    squares_are_at_most(b, n);
    root::roots_make_a_product(dot(a, a, n), dot(b, b, n));
}

proof fn dot_is_within(a: Seq<Binary64>, b: Seq<Binary64>, n: nat)
    requires
        within_one(a),
        within_one(b),
        n <= a.len(),
        n <= b.len(),
    ensures
        laws::within(dot(a, b, n), 2 * HIDDEN as nat),
    decreases n,
{
    if n == 0 {
        laws::zero_in_units();
        laws::units_follow_magnitudes(Binary64::signed(true, 0), Binary64::spec_zero());
    } else {
        dot_is_within(a, b, (n - 1) as nat);
        laws::product_is_within(a[n - 1], b[n - 1]);
        laws::sum_stays_within(dot(a, b, (n - 1) as nat), a[n - 1].spec_times(b[n - 1]));
    }
}

proof fn squares_are_at_most(a: Seq<Binary64>, n: nat)
    requires
        within_one(a),
        n <= a.len(),
    ensures
        laws::at_most(dot(a, a, n), 2 * HIDDEN as nat),
    decreases n,
{
    laws::zero_in_units();
    if n == 0 {
        laws::units_follow_magnitudes(Binary64::signed(true, 0), Binary64::spec_zero());
    } else {
        let x: Binary64 = a[n - 1];
        squares_are_at_most(a, (n - 1) as nat);
        laws::product_is_within(x, x);
        laws::one_in_units();
        laws::units_follow_magnitudes(x.spec_times(x), Binary64::spec_one());
        assert(!x.spec_times(x).negative());
        laws::sum_stays_at_most(dot(a, a, (n - 1) as nat), x.spec_times(x));
    }
}

/// The similarity of two sets is the number of members that both have, over the number
/// that is left when these are counted once.
pub proof fn jaccard_counts_common_members_once(a: Set<Seq<char>>, b: Set<Seq<char>>)
    requires
        a.finite(),
        b.finite(),
        a.len() + b.len() > 0,
    ensures
        a.intersect(b).len() <= a.len() + b.len(),
        jaccard(a, b) == Binary64::spec_of(a.intersect(b).len()).spec_over(
            Binary64::spec_of((a.len() + b.len() - a.intersect(b).len()) as nat),
        ),
{
    let both: Set<Seq<char>> = a.intersect(b);
    let rest: Set<Seq<char>> = b.difference(a);
    vstd::set_lib::lemma_len_subset(both, a);
    vstd::set_lib::lemma_len_subset(both, b);
    vstd::set_lib::lemma_len_subset(rest, b);
    assert(both.disjoint(rest));
    assert(both.union(rest) =~= b);
    vstd::set_lib::lemma_set_disjoint_lens(both, rest);
    assert(a.disjoint(rest));
    assert(a.union(rest) =~= a.union(b));
    vstd::set_lib::lemma_set_disjoint_lens(a, rest);
}

/// Sets have a similarity above zero if and only if they have a member in common.
pub proof fn similar_sets_have_a_member_in_common(a: Set<Seq<char>>, b: Set<Seq<char>>)
    requires
        a.finite(),
        b.finite(),
        a.len() <= usize::MAX,
        b.len() <= usize::MAX,
    ensures
        Binary64::spec_zero().spec_lt(jaccard(a, b)) <==> !a.disjoint(b),
        !a.disjoint(b) ==> vstd::arithmetic::power2::pow2(1009) <= jaccard(a, b).units(),
        in_unit_range(jaccard(a, b)),
{
    jaccard_is_in_unit_range(a, b);
    if a.disjoint(b) {
        disjoint_sets_have_no_similarity(a, b);
    } else {
        let both: Set<Seq<char>> = a.intersect(b);
        let w: Seq<char> = choose|w: Seq<char>| a.contains(w) && b.contains(w);
        assert(both.contains(w));
        vstd::set_lib::lemma_len_subset(both, a.union(b));
        vstd::set_lib::lemma_len_union(a, b);
        vstd::set_lib::lemma_len_subset(set![w], both);
        assert(set![w].len() == 1);
        laws::ratio_of_counts_is_positive(both.len(), a.union(b).len());
    }
}

/// Are these the sums of the products of the first elements of two vectors?
pub open spec fn are_dot_sums(sums: Seq<Binary64>, a: Seq<Binary64>, b: Seq<Binary64>, n: nat) -> bool {
    laws::are_running_sums(
        sums,
        Binary64 { bits: 0x8000_0000_0000_0000 },
        Seq::new(n, |i: int| a[i].spec_times(b[i])),
    )
}

proof fn dot_adds_up(a: Seq<Binary64>, b: Seq<Binary64>, n: nat) -> (sums: Seq<Binary64>)
    ensures
        are_dot_sums(sums, a, b, n),
        sums.last() == dot(a, b, n),
{
    let sums: Seq<Binary64> = Seq::new(n + 1, |i: int| dot(a, b, i as nat));
    let terms: Seq<Binary64> = Seq::new(n, |i: int| a[i].spec_times(b[i]));
    assert forall|i: int| 0 <= i < n implies #[trigger] sums[i + 1] == sums[i].spec_plus(terms[i]) by {}
    sums
}

/// The cosine of two vectors is what the products of their elements add up to, over the
/// product of the roots of what the squares of each add up to, as far as the shorter vector
/// goes; zero where one of the roots is.
pub proof fn the_cosine_is_the_product_over_the_magnitudes(a: Seq<Binary64>, b: Seq<Binary64>, n: nat)
    requires
        n <= a.len(),
        n <= b.len(),
        n == a.len() || n == b.len(),
    ensures
        n == 0 ==> cosine(a, b) == (Binary64 { bits: 0 }),
        n > 0 ==> exists|ab: Seq<Binary64>, aa: Seq<Binary64>, bb: Seq<Binary64>|
            {
                &&& #[trigger] are_dot_sums(ab, a, b, n)
                &&& #[trigger] are_dot_sums(aa, a, a, n)
                &&& #[trigger] are_dot_sums(bb, b, b, n)
                &&& cosine(a, b) == (if aa.last().spec_sqrt().mag() == 0 || bb.last().spec_sqrt().mag() == 0 {
                    Binary64 { bits: 0 }
                } else {
                    ab.last().spec_over(aa.last().spec_sqrt().spec_times(bb.last().spec_sqrt()))
                })
            },
{
    let ab: Seq<Binary64> = dot_adds_up(a, b, n);
    let aa: Seq<Binary64> = dot_adds_up(a, a, n);
    let bb: Seq<Binary64> = dot_adds_up(b, b, n);
    assert(are_dot_sums(ab, a, b, n) && are_dot_sums(aa, a, a, n) && are_dot_sums(bb, b, b, n));
}

/// The positions below `n` that `p` holds of.
pub open spec fn those_below(n: nat, p: spec_fn(int) -> bool) -> Set<int> {
    Set::new(|i: int| 0 <= i < n && p(i))
}

/// There is one more of them where `p` holds of the next position.
pub proof fn one_more_below(n: nat, p: spec_fn(int) -> bool)
    ensures
        those_below(n, p).finite(),
        those_below(0, p).len() == 0,
        those_below(n + 1, p).len() == those_below(n, p).len() + (if p(n as int) {
            1nat
        } else {
            0nat
        }),
{
    let now: Set<int> = those_below(n, p);
    let range: Set<int> = vstd::set_lib::set_int_range(0, n as int);
    vstd::set_lib::lemma_int_range(0, n as int);
    vstd::set_lib::lemma_len_subset(now, range);
    assert(those_below(0, p) =~= Set::empty());
    if p(n as int) {
        assert(those_below(n + 1, p) =~= now.insert(n as int));
    } else {
        assert(those_below(n + 1, p) =~= now);
    }
}

/// The similarity of two lists is the number of texts that both have in lower case, over the
/// number of texts that either has, each counted once; zero where there are none.
pub proof fn similarity_counts_common_texts_once(a: Seq<String>, b: Seq<String>)
    ensures
        a.len() + b.len() == 0 ==> similarity(a, b) == (Binary64 { bits: 0 }),
        ({
            let x: Set<Seq<char>> = wordset::lowered(a);
            let y: Set<Seq<char>> = wordset::lowered(b);
            &&& x.finite() && y.finite()
            &&& x.len() + y.len() > 0 ==> x.intersect(y).len() <= x.len() + y.len() && similarity(a, b)
                == Binary64::spec_of(x.intersect(y).len()).spec_over(
                Binary64::spec_of((x.len() + y.len() - x.intersect(y).len()) as nat),
            )
            &&& x.len() + y.len() == 0 ==> similarity(a, b) == (Binary64 { bits: 0 })
        }),
{
    let x: Set<Seq<char>> = wordset::lowered(a);
    let y: Set<Seq<char>> = wordset::lowered(b);
    wordset::lowered_is_small(a);
    wordset::lowered_is_small(b);
    if x.len() + y.len() > 0 {
        jaccard_counts_common_members_once(x, y);
    } else {
        vstd::set_lib::lemma_len_union(x, y);
    }
}

} // verus!
