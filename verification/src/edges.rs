//! Edge detection in memory space.
//!
//! An edge lies where two memories share context and diverge in character: they are
//! neighbours, since they share topics or entities, and their trait vectors disagree.
//! The stronger the neighbourhood and the weaker the consensus, the higher the edge
//! score.

use crate::binary64::laws::in_unit_range;
use crate::binary64::{laws, Binary64};
use crate::db::Memory;
use crate::math::{cosine, cosine_similarity, jaccard_similarity, similarity};
use crate::math;
use crate::ranking::{positions, rank, rank_top, ranking, top};
use crate::ranking;
use crate::text;
use crate::wordset;
use vstd::prelude::*;

verus! {

/// 0.05: memories that overlap less are no neighbours.
pub const LEAST_OVERLAP: u64 = 0x3fa9_9999_9999_999a;

/// 0.5: the consensus that is taken where a memory has no traits.
pub const UNKNOWN_CONSENSUS: u64 = 0x3fe0_0000_0000_0000;

/// The number of neighbours that the edge score of one memory looks at.
pub const NEIGHBORS_PER_MEMORY: usize = 5;

/// How much two memories have in common: the mean similarity of their topics and of
/// their entities.
pub open spec fn overlap(a: Memory, b: Memory) -> Binary64 {
    similarity(a.topics@, b.topics@).spec_plus(similarity(a.entities@, b.entities@)).spec_over(
        Binary64::spec_two(),
    )
}

/// How far two memories agree in character.
pub open spec fn consensus(a: Memory, b: Memory) -> Binary64 {
    if a.traits@.len() == 0 || b.traits@.len() == 0 {
        Binary64 { bits: UNKNOWN_CONSENSUS }
    } else {
        cosine(a.traits@, b.traits@).spec_clamp(Binary64::spec_zero(), Binary64::spec_one())
    }
}

/// The edge score of two memories: overlap, times lack of consensus, times importance.
pub open spec fn edge(a: Memory, b: Memory) -> Binary64 {
    if overlap(a, b).spec_lt(Binary64 { bits: LEAST_OVERLAP }) {
        Binary64::spec_zero()
    } else {
        overlap(a, b).spec_times(Binary64::spec_one().spec_minus(consensus(a, b))).spec_times(
            a.importance.spec_plus(b.importance).spec_over(Binary64::spec_two()),
        ).spec_clamp(Binary64::spec_zero(), Binary64::spec_one())
    }
}

/// How much two memories have in common.
pub(crate) fn overlap_of(a: &Memory, b: &Memory) -> (r: Binary64)
    ensures
        r == overlap(*a, *b),
{
    jaccard_similarity(&a.topics, &b.topics).plus(
        jaccard_similarity(&a.entities, &b.entities),
    ).over(Binary64::two())
}

/// The edge score of two memories: 0 where they agree or have nothing in common, up to
/// 1 where they share context and diverge in character.
pub fn edge_score(a: &Memory, b: &Memory) -> (r: Binary64)
    ensures
        r == edge(*a, *b),
{
    let neighborhood: Binary64 = overlap_of(a, b);
    if neighborhood.lt(Binary64::from_bits(LEAST_OVERLAP)) {
        return Binary64::zero();
    }
    let agreed: Binary64 = if a.traits.len() == 0 || b.traits.len() == 0 {
        Binary64::from_bits(UNKNOWN_CONSENSUS)
    } else {
        cosine_similarity(&a.traits, &b.traits).clamp(Binary64::zero(), Binary64::one())
    };
    let weight: Binary64 = a.importance.plus(b.importance).over(Binary64::two());
    neighborhood.times(Binary64::one().minus(agreed)).times(weight).clamp(
        Binary64::zero(),
        Binary64::one(),
    )
}

/// Is `m` another memory than `target`, with something in common?
pub open spec fn is_related(target: Memory, m: Memory) -> bool {
    m.id != target.id && Binary64::spec_zero().spec_lt(overlap(target, m))
}

/// The positions below `n` of the memories that are related to `target`.
pub open spec fn related(target: Memory, all: Seq<Memory>, n: nat) -> Seq<int>
    decreases n,
{
    if n == 0 {
        Seq::empty()
    } else {
        let rest: Seq<int> = related(target, all, (n - 1) as nat);
        if is_related(target, all[n - 1]) {
            rest.push(n - 1)
        } else {
            rest
        }
    }
}

/// The overlaps of the related memories, in their order.
pub open spec fn overlaps(target: Memory, all: Seq<Memory>) -> Seq<Binary64> {
    related(target, all, all.len()).map_values(|i: int| overlap(target, all[i]))
}

/// The positions of the `k` memories that have the most in common with `target`, with
/// how much that is, from the most down.
pub open spec fn neighbors(target: Memory, all: Seq<Memory>, k: nat) -> Seq<(int, Binary64)> {
    let candidates: Seq<int> = related(target, all, all.len());
    let keys: Seq<Binary64> = overlaps(target, all);
    top(keys, k).map_values(|p: int| (candidates[p], keys[p]))
}

/// Neighbours with their positions as integers.
pub open spec fn as_neighbors(list: Seq<(usize, Binary64)>) -> Seq<(int, Binary64)> {
    list.map_values(|p: (usize, Binary64)| (p.0 as int, p.1))
}

/// The `k` nearest neighbours of a memory by what they have in common: their positions
/// in `all`, with their overlap, from the most down.
pub fn find_neighbors(target: &Memory, all: &Vec<Memory>, k: usize) -> (r: Vec<(usize, Binary64)>)
    ensures
        as_neighbors(r@) == neighbors(*target, all@, k as nat),
        forall|i: int| 0 <= i < r@.len() ==> (#[trigger] r@[i]).0 < all@.len(),
        r@.len() <= k,
{
    let n: usize = all.len();
    let mut candidates: Vec<usize> = Vec::new();
    let mut keys: Vec<Binary64> = Vec::new();
    let mut i: usize = 0;
    while i < n
        invariant
            i <= n == all@.len(),
            positions(candidates@) == related(*target, all@, i as nat),
            keys@ == related(*target, all@, i as nat).map_values(|j: int| overlap(*target, all@[j])),
            forall|j: int| 0 <= j < candidates@.len() ==> #[trigger] candidates@[j] < n,
        decreases n - i,
    {
        let m: &Memory = &all[i];
        let ghost before: Seq<usize> = candidates@;
        let ghost old_keys: Seq<Binary64> = keys@;
        if m.id != target.id {
            let sim: Binary64 = overlap_of(target, m);
            if Binary64::zero().lt(sim) {
                candidates.push(i);
                keys.push(sim);
                proof {
                    assert(positions(candidates@) =~= positions(before).push(i as int));
                    assert(keys@ =~= related(*target, all@, (i + 1) as nat).map_values(
                        |j: int| overlap(*target, all@[j]),
                    ));
                }
            }
        }
        i = i + 1;
    }
    let order: Vec<usize> = rank_top(&keys, k);
    let mut r: Vec<(usize, Binary64)> = Vec::new();
    let mut p: usize = 0;
    proof {
        assert(positions(candidates@).len() == candidates@.len());
    }
    while p < order.len()
        invariant
            p <= order@.len(),
            keys@.len() == candidates@.len(),
            forall|j: int| 0 <= j < candidates@.len() ==> #[trigger] candidates@[j] < all@.len(),
            forall|j: int| 0 <= j < order@.len() ==> #[trigger] order@[j] < keys@.len(),
            r@.len() == p,
            forall|j: int|
                0 <= j < p ==> #[trigger] r@[j] == (candidates@[order@[j] as int], keys@[order@[j] as int]),
        decreases order@.len() - p,
    {
        let at: usize = order[p];
        r.push((candidates[at], keys[at]));
        p = p + 1;
    }
    proof {
        assert(keys@ == overlaps(*target, all@));
        let want: Seq<(int, Binary64)> = neighbors(*target, all@, k as nat);
        assert(positions(order@).len() == order@.len());
        assert forall|j: int| 0 <= j < r@.len() implies as_neighbors(r@)[j] == want[j] by {
            let at: int = order@[j] as int;
            assert(positions(order@)[j] == at);
            assert(positions(candidates@)[at] == candidates@[at]);
            assert(r@[j] == (candidates@[at], keys@[at]));
        }
        assert(as_neighbors(r@) =~= want);
        assert forall|j: int| 0 <= j < r@.len() implies (#[trigger] r@[j]).0 < all@.len() by {
            assert(order@[j] < keys@.len());
        }
    }
    r
}

/// The sum of the edge scores of `target` with its first `n` neighbours. It begins
/// with the negative zero, which addition leaves every number as it is.
pub open spec fn edge_sum(target: Memory, all: Seq<Memory>, near: Seq<(int, Binary64)>, n: nat) -> Binary64
    decreases n,
{
    if n == 0 {
        Binary64::signed(true, 0)
    } else {
        edge_sum(target, all, near, (n - 1) as nat).spec_plus(edge(target, all[near[n - 1].0]))
    }
}

/// The mean edge score of a memory with its nearest neighbours; zero where it has none.
pub open spec fn mean_edge(target: Memory, all: Seq<Memory>) -> Binary64 {
    let near: Seq<(int, Binary64)> = neighbors(target, all, NEIGHBORS_PER_MEMORY as nat);
    if near.len() == 0 {
        Binary64::spec_zero()
    } else {
        edge_sum(target, all, near, near.len()).spec_over(Binary64::spec_of(near.len()))
    }
}

/// The aggregate edge score of a memory against its nearest neighbours: how much it
/// stands out in the knowledge space.
pub fn memory_edge_score(target: &Memory, all: &Vec<Memory>) -> (r: Binary64)
    ensures
        r == mean_edge(*target, all@),
{
    let near: Vec<(usize, Binary64)> = find_neighbors(target, all, NEIGHBORS_PER_MEMORY);
    let n: usize = near.len();
    let ghost want: Seq<(int, Binary64)> = as_neighbors(near@);
    assert(want.len() == n);
    if n == 0 {
        return Binary64::zero();
    }
    let mut total: Binary64 = Binary64::negative_zero();
    let mut i: usize = 0;
    while i < n
        invariant
            i <= n == near@.len(),
            want == as_neighbors(near@),
            forall|j: int| 0 <= j < near@.len() ==> (#[trigger] near@[j]).0 < all@.len(),
            total == edge_sum(*target, all@, want, i as nat),
        decreases n - i,
    {
        let at: usize = near[i].0;
        assert(want[i as int].0 == at);
        total = total.plus(edge_score(target, &all[at]));
        i = i + 1;
    }
    total.over(Binary64::of(n))
}

/// The pairs of memories whose edge score reaches the threshold, among those up to the
/// pair of `i` with `j`, that one left out.
pub open spec fn edges_up_to(memories: Seq<Memory>, threshold: Binary64, i: int, j: int) -> Seq<(int, int)>
    decreases i + 1, j,
{
    if i < 0 {
        Seq::empty()
    } else if j <= i + 1 {
        edges_up_to(memories, threshold, i - 1, memories.len() as int)
    } else {
        let rest: Seq<(int, int)> = edges_up_to(memories, threshold, i, j - 1);
        if threshold.spec_le(edge(memories[i], memories[j - 1])) {
            rest.push((i, j - 1))
        } else {
            rest
        }
    }
}

/// The positions of the pairs of memories whose edge score reaches the threshold, each
/// pair once.
pub open spec fn edge_pairs(memories: Seq<Memory>, threshold: Binary64) -> Seq<(int, int)> {
    edges_up_to(memories, threshold, memories.len() - 1, memories.len() as int)
}

/// The edge scores of pairs of memories.
pub open spec fn edge_scores(memories: Seq<Memory>, pairs: Seq<(int, int)>) -> Seq<Binary64> {
    pairs.map_values(|p: (int, int)| edge(memories[p.0], memories[p.1]))
}

/// The edges whose score reaches the threshold, from the highest score down: the ids
/// of both memories and the score.
pub open spec fn all_edges(memories: Seq<Memory>, threshold: Binary64) -> Seq<(i64, i64, Binary64)> {
    let pairs: Seq<(int, int)> = edge_pairs(memories, threshold);
    let keys: Seq<Binary64> = edge_scores(memories, pairs);
    ranking(keys).map_values(|p: int| (memories[pairs[p].0].id, memories[pairs[p].1].id, keys[p]))
}

/// All edges whose score reaches the threshold: the ids of both memories and the score,
/// from the highest score down.
pub fn detect_all_edges(memories: &Vec<Memory>, threshold: Binary64) -> (r: Vec<(i64, i64, Binary64)>)
    ensures
        r@ == all_edges(memories@, threshold),
{
    let n: usize = memories.len();
    let mut found: Vec<(i64, i64)> = Vec::new();
    let mut keys: Vec<Binary64> = Vec::new();
    let ghost mut pairs: Seq<(int, int)> = Seq::empty();
    let mut i: usize = 0;
    assert(pairs =~= edges_up_to(memories@, threshold, -1, n as int));
    while i < n
        invariant
            i <= n == memories@.len(),
            pairs == edges_up_to(memories@, threshold, i - 1, n as int),
            found@.len() == pairs.len(),
            forall|p: int|
                0 <= p < pairs.len() ==> #[trigger] found@[p] == (
                    memories@[pairs[p].0].id,
                    memories@[pairs[p].1].id,
                ),
            keys@ == edge_scores(memories@, pairs),
        decreases n - i,
    {
        let mut j: usize = i + 1;
        while j < n
            invariant
                i < j <= n == memories@.len(),
                pairs == edges_up_to(memories@, threshold, i as int, j as int),
                found@.len() == pairs.len(),
                forall|p: int|
                    0 <= p < pairs.len() ==> #[trigger] found@[p] == (
                        memories@[pairs[p].0].id,
                        memories@[pairs[p].1].id,
                    ),
                keys@ == edge_scores(memories@, pairs),
            decreases n - j,
        {
            let score: Binary64 = edge_score(&memories[i], &memories[j]);
            if threshold.le(score) {
                found.push((memories[i].id, memories[j].id));
                keys.push(score);
                proof {
                    pairs = pairs.push((i as int, j as int));
                    assert(keys@ =~= edge_scores(memories@, pairs));
                }
            }
            j = j + 1;
        }
        i = i + 1;
    }
    let order: Vec<usize> = rank(&keys);
    let mut r: Vec<(i64, i64, Binary64)> = Vec::new();
    let mut p: usize = 0;
    proof {
        assert forall|q: int| 0 <= q < order@.len() implies #[trigger] order@[q] < keys@.len() by {
            assert(positions(order@)[q] < keys@.len());
        }
    }
    while p < order.len()
        invariant
            p <= order@.len(),
            keys@.len() == found@.len(),
            forall|q: int| 0 <= q < order@.len() ==> #[trigger] order@[q] < keys@.len(),
            r@.len() == p,
            forall|q: int|
                0 <= q < p ==> #[trigger] r@[q] == (
                    found@[order@[q] as int].0,
                    found@[order@[q] as int].1,
                    keys@[order@[q] as int],
                ),
        decreases order@.len() - p,
    {
        let at: usize = order[p];
        r.push((found[at].0, found[at].1, keys[at]));
        p = p + 1;
    }
    proof {
        let want: Seq<(i64, i64, Binary64)> = all_edges(memories@, threshold);
        assert(positions(order@).len() == order@.len());
        assert forall|q: int| 0 <= q < r@.len() implies r@[q] == want[q] by {
            assert(positions(order@)[q] == order@[q]);
            assert(order@[q] < keys@.len());
        }
        assert(r@ =~= want);
    }
    r
}

// ---- Laws ----

/// The edge score of two memories does not depend on which comes first.
pub proof fn edge_is_symmetric(a: Memory, b: Memory)
    ensures
        edge(a, b) == edge(b, a),
        overlap(a, b) == overlap(b, a),
{
    math::jaccard_is_symmetric(wordset::lowered(a.topics@), wordset::lowered(b.topics@));
    math::jaccard_is_symmetric(wordset::lowered(a.entities@), wordset::lowered(b.entities@));
    math::cosine_is_symmetric(a.traits@, b.traits@);
    laws::plus_commutes(a.importance, b.importance);
}

/// Overlap lies between zero and one.
pub proof fn overlap_is_in_unit_range(a: Memory, b: Memory)
    ensures
        in_unit_range(overlap(a, b)),
{
    math::similarity_is_in_unit_range(a.topics, b.topics);
    math::similarity_is_in_unit_range(a.entities, b.entities);
    laws::mean_in_unit_range(similarity(a.topics@, b.topics@), similarity(a.entities@, b.entities@));
}

/// An edge score lies between zero and one, unless importances or traits that are no
/// proper numbers make it NaN.
pub proof fn edge_is_in_unit_range(a: Memory, b: Memory)
    ensures
        edge(a, b).is_nan() || in_unit_range(edge(a, b)),
{
    let raw: Binary64 = overlap(a, b).spec_times(
        Binary64::spec_one().spec_minus(consensus(a, b)),
    ).spec_times(a.importance.spec_plus(b.importance).spec_over(Binary64::spec_two()));
    if !raw.is_nan() {
        laws::clamp_reaches_unit_range(raw);
    }
}

/// Is a memory as extraction is asked to make it, with an importance between zero and
/// one, and traits between minus one and one?
pub open spec fn is_proper(m: Memory) -> bool {
    &&& in_unit_range(m.importance)
    &&& math::within_one(m.traits@)
}

/// The edge score of two proper memories is a number between zero and one.
pub proof fn edge_of_proper_memories(a: Memory, b: Memory)
    requires
        is_proper(a),
        is_proper(b),
    ensures
        in_unit_range(edge(a, b)),
{
    math::cosine_is_a_number(a.traits@, b.traits@);
    edge_is_in_unit_range(a, b);
    overlap_is_in_unit_range(a, b);
    assert(in_unit_range(Binary64 { bits: UNKNOWN_CONSENSUS }));
    laws::clamp_reaches_unit_range(cosine(a.traits@, b.traits@));
    let rest: Binary64 = Binary64::spec_one().spec_minus(consensus(a, b));
    laws::rest_in_unit_range(consensus(a, b));
    laws::product_in_unit_range(overlap(a, b), rest);
    laws::mean_in_unit_range(a.importance, b.importance);
    laws::product_in_unit_range(
        overlap(a, b).spec_times(rest),
        a.importance.spec_plus(b.importance).spec_over(Binary64::spec_two()),
    );
}

/// Memories that overlap by less than 0.05 have no edge between them, whatever their
/// characters and importances.
pub proof fn little_overlap_leaves_no_edge(a: Memory, b: Memory)
    requires
        overlap(a, b).spec_lt(Binary64 { bits: LEAST_OVERLAP }),
    ensures
        edge(a, b) == Binary64::spec_zero(),
{
}

/// Memories that share neither a topic nor an entity have no edge between them.
pub proof fn unrelated_memories_have_no_edge(a: Memory, b: Memory)
    requires
        wordset::lowered(a.topics@).disjoint(wordset::lowered(b.topics@)),
        wordset::lowered(a.entities@).disjoint(wordset::lowered(b.entities@)),
    ensures
        overlap(a, b) == Binary64::spec_zero(),
        edge(a, b) == Binary64::spec_zero(),
        !is_related(a, b),
{
    wordset::lowered_is_small(a.topics@);
    wordset::lowered_is_small(b.topics@);
    wordset::lowered_is_small(a.entities@);
    wordset::lowered_is_small(b.entities@);
    assert(a.topics.len() <= usize::MAX && b.topics.len() <= usize::MAX);
    assert(a.entities.len() <= usize::MAX && b.entities.len() <= usize::MAX);
    math::disjoint_sets_have_no_similarity(wordset::lowered(a.topics@), wordset::lowered(b.topics@));
    math::disjoint_sets_have_no_similarity(wordset::lowered(a.entities@), wordset::lowered(b.entities@));
    laws::zero_in_units();
    laws::two_in_units();
    let z: Binary64 = Binary64::spec_zero();
    assert(z.spec_plus(z) == z);
    laws::zero_over(Binary64::spec_two());
}

/// Memories that agree wholly in character have no edge between them.
pub proof fn consensus_leaves_no_edge(a: Memory, b: Memory)
    requires
        consensus(a, b) == Binary64::spec_one(),
        in_unit_range(a.importance),
        in_unit_range(b.importance),
    ensures
        edge(a, b).mag() == 0,
{
    let one: Binary64 = Binary64::spec_one();
    let z: Binary64 = Binary64::spec_zero();
    overlap_is_in_unit_range(a, b);
    laws::mean_in_unit_range(a.importance, b.importance);
    let weight: Binary64 = a.importance.spec_plus(b.importance).spec_over(Binary64::spec_two());
    assert(one.spec_minus(one) == z) by {
        assert(one.spec_neg().units() == one.units());
    }
    laws::times_zero(overlap(a, b), z);
    laws::times_commutes(weight, overlap(a, b).spec_times(z));
    laws::times_zero(weight, overlap(a, b).spec_times(z));
}

/// A position is listed as related if and only if the memory there is.
pub proof fn related_is_exact(target: Memory, all: Seq<Memory>, n: nat, i: int)
    ensures
        related(target, all, n).contains(i) <==> 0 <= i < n && is_related(target, all[i]),
    decreases n,
{
    if n > 0 {
        let rest: Seq<int> = related(target, all, (n - 1) as nat);
        let list: Seq<int> = related(target, all, n);
        related_is_exact(target, all, (n - 1) as nat, i);
        if rest.contains(i) {
            let k: int = choose|k: int| 0 <= k < rest.len() && rest[k] == i;
            assert(list[k] == i);
        }
        if i == n - 1 && is_related(target, all[i]) {
            assert(list[rest.len() as int] == i);
        }
        if list.contains(i) {
            let k: int = choose|k: int| 0 <= k < list.len() && list[k] == i;
            if k < rest.len() {
                assert(rest[k] == i);
            }
        }
    }
}

/// Every neighbour is another memory with something in common, given with how much
/// that is, and no neighbour has more in common than the one before it.
pub proof fn neighbors_are_related(target: Memory, all: Seq<Memory>, k: nat, i: int)
    requires
        0 <= i < neighbors(target, all, k).len(),
    ensures
        ({
            let near: Seq<(int, Binary64)> = neighbors(target, all, k);
            &&& 0 <= near[i].0 < all.len()
            &&& is_related(target, all[near[i].0])
            &&& near[i].1 == overlap(target, all[near[i].0])
            &&& i > 0 ==> near[i].1.spec_le(near[i - 1].1)
        }),
{
    let candidates: Seq<int> = related(target, all, all.len());
    let keys: Seq<Binary64> = overlaps(target, all);
    let near: Seq<(int, Binary64)> = neighbors(target, all, k);
    ranking::ranking_exists(keys);
    let p: int = ranking(keys)[i];
    assert(near[i] == (candidates[p], keys[p]));
    assert(candidates.contains(candidates[p]));
    related_is_exact(target, all, all.len(), candidates[p]);
    if i > 0 {
        let q: int = ranking(keys)[i - 1];
        assert(near[i - 1] == (candidates[q], keys[q]));
        assert(candidates.contains(candidates[q]));
        related_is_exact(target, all, all.len(), candidates[q]);
        assert(ranking::before(keys, ranking(keys)[i - 1], ranking(keys)[i]));
    }
}

proof fn related_are_in_order(target: Memory, all: Seq<Memory>, n: nat)
    ensures
        forall|i: int, j: int|
            0 <= i < j < related(target, all, n).len() ==> #[trigger] related(target, all, n)[i]
                < #[trigger] related(target, all, n)[j],
        forall|i: int| 0 <= i < related(target, all, n).len() ==> #[trigger] related(target, all, n)[i] < n,
    decreases n,
{
    let list: Seq<int> = related(target, all, n);
    if n > 0 {
        let rest: Seq<int> = related(target, all, (n - 1) as nat);
        related_are_in_order(target, all, (n - 1) as nat);
        assert forall|i: int| 0 <= i < list.len() implies #[trigger] list[i] < n by {
            assert(i < rest.len() ==> rest[i] < n - 1);
        }
        assert forall|i: int, j: int| 0 <= i < j < list.len() implies #[trigger] list[i] < #[trigger] list[j] by {
            assert(i < rest.len() && rest[i] < n - 1);
            assert(j < rest.len() ==> rest[i] < rest[j]);
        }
    }
}

/// No memory is listed twice as a neighbour, and no more are listed than asked for.
pub proof fn neighbors_are_distinct(target: Memory, all: Seq<Memory>, k: nat)
    ensures
        neighbors(target, all, k).len() <= k,
        forall|i: int, j: int|
            0 <= i < j < neighbors(target, all, k).len() ==> (#[trigger] neighbors(target, all, k)[i]).0 != (
            #[trigger] neighbors(target, all, k)[j]).0,
{
    let candidates: Seq<int> = related(target, all, all.len());
    let keys: Seq<Binary64> = overlaps(target, all);
    let near: Seq<(int, Binary64)> = neighbors(target, all, k);
    let order: Seq<int> = ranking(keys);
    ranking::ranking_exists(keys);
    related_are_in_order(target, all, all.len());
    assert forall|i: int, j: int| 0 <= i < j < near.len() implies (#[trigger] near[i]).0 != (
    #[trigger] near[j]).0 by {
        assert(near[i].0 == candidates[order[i]]);
        assert(near[j].0 == candidates[order[j]]);
        assert(ranking::before(keys, order[i], order[j]));
        assert(order[i] != order[j]);
        if order[i] < order[j] {
            assert(candidates[order[i]] < candidates[order[j]]);
        } else {
            assert(candidates[order[j]] < candidates[order[i]]);
        }
    }
}

/// Where a related memory is left out, the list is full, and none in it has less in
/// common.
pub proof fn neighbors_are_nearest(target: Memory, all: Seq<Memory>, k: nat, m: int)
    requires
        0 <= m < all.len(),
        is_related(target, all[m]),
    ensures
        ({
            let near: Seq<(int, Binary64)> = neighbors(target, all, k);
            ||| exists|i: int| 0 <= i < near.len() && (#[trigger] near[i]).0 == m
            ||| {
                &&& near.len() == k
                &&& forall|i: int| 0 <= i < near.len() ==> overlap(target, all[m]).spec_le((#[trigger] near[i]).1)
            }
        }),
{
    let candidates: Seq<int> = related(target, all, all.len());
    let keys: Seq<Binary64> = overlaps(target, all);
    let near: Seq<(int, Binary64)> = neighbors(target, all, k);
    ranking::ranking_exists(keys);
    let order: Seq<int> = ranking(keys);
    related_is_exact(target, all, all.len(), m);
    let c: int = choose|c: int| 0 <= c < candidates.len() && candidates[c] == m;
    assert(order.contains(c));
    let at: int = choose|at: int| 0 <= at < order.len() && order[at] == c;
    assert(keys[c] == overlap(target, all[m]));
    if at < near.len() {
        assert(near[at] == (candidates[c], keys[c]));
    } else {
        assert forall|i: int| 0 <= i < near.len() implies overlap(target, all[m]).spec_le((#[trigger] near[i]).1) by {
            neighbors_are_related(target, all, k, i);
            assert(ranking::before(keys, order[i], order[at]));
        }
    }
}

/// The aggregate edge score of a memory lies between zero and one where its edge
/// scores do.
pub proof fn mean_edge_is_in_unit_range(target: Memory, all: Seq<Memory>)
    requires
        forall|i: int| 0 <= i < all.len() ==> in_unit_range(edge(target, #[trigger] all[i])),
    ensures
        in_unit_range(mean_edge(target, all)),
{
    let near: Seq<(int, Binary64)> = neighbors(target, all, NEIGHBORS_PER_MEMORY as nat);
    let keys: Seq<Binary64> = overlaps(target, all);
    ranking::ranking_exists(keys);
    assert(near.len() <= NEIGHBORS_PER_MEMORY);
    if near.len() > 0 {
        edge_sum_is_at_most(target, all, near.len());
        laws::mean_of_many_in_unit_range(edge_sum(target, all, near, near.len()), near.len());
    }
}

proof fn edge_sum_is_at_most(target: Memory, all: Seq<Memory>, n: nat)
    requires
        forall|i: int| 0 <= i < all.len() ==> in_unit_range(edge(target, #[trigger] all[i])),
        n <= neighbors(target, all, NEIGHBORS_PER_MEMORY as nat).len() <= NEIGHBORS_PER_MEMORY,
    ensures
        laws::at_most(
            edge_sum(target, all, neighbors(target, all, NEIGHBORS_PER_MEMORY as nat), n),
            n,
        ),
    decreases n,
{
    let near: Seq<(int, Binary64)> = neighbors(target, all, NEIGHBORS_PER_MEMORY as nat);
    if n == 0 {
        laws::zero_in_units();
        laws::units_follow_magnitudes(Binary64::signed(true, 0), Binary64::spec_zero());
    } else {
        edge_sum_is_at_most(target, all, (n - 1) as nat);
        neighbors_are_related(target, all, NEIGHBORS_PER_MEMORY as nat, n - 1);
        laws::sum_is_at_most(
            edge_sum(target, all, near, (n - 1) as nat),
            (n - 1) as nat,
            edge(target, all[near[n - 1].0]),
        );
    }
}

/// A pair is listed if and only if it comes in order and its edge score reaches the
/// threshold, and it is listed once.
pub proof fn edge_pairs_are_exact(memories: Seq<Memory>, threshold: Binary64, a: int, b: int)
    ensures
        edge_pairs(memories, threshold).contains((a, b)) <==> 0 <= a < b < memories.len()
            && threshold.spec_le(edge(memories[a], memories[b])),
        edge_pairs(memories, threshold).no_duplicates(),
{
    edges_up_to_are_exact(memories, threshold, memories.len() - 1, memories.len() as int, a, b);
}

proof fn edges_up_to_are_exact(
    memories: Seq<Memory>,
    threshold: Binary64,
    i: int,
    j: int,
    a: int,
    b: int,
)
    requires
        i < memories.len(),
        j <= memories.len(),
    ensures
        edges_up_to(memories, threshold, i, j).contains((a, b)) <==> 0 <= a < b < memories.len() && (a < i
            || a == i && b < j) && threshold.spec_le(edge(memories[a], memories[b])),
        edges_up_to(memories, threshold, i, j).no_duplicates(),
    decreases i + 1, j,
{
    let list: Seq<(int, int)> = edges_up_to(memories, threshold, i, j);
    if i < 0 {
    } else if j <= i + 1 {
        edges_up_to_are_exact(memories, threshold, i - 1, memories.len() as int, a, b);
    } else {
        let rest: Seq<(int, int)> = edges_up_to(memories, threshold, i, j - 1);
        let new: (int, int) = (i, j - 1);
        edges_up_to_are_exact(memories, threshold, i, j - 1, a, b);
        edges_up_to_are_exact(memories, threshold, i, j - 1, new.0, new.1);
        if threshold.spec_le(edge(memories[i], memories[j - 1])) {
            assert(!rest.contains(new));
            assert forall|x: int, y: int| 0 <= x < y < list.len() implies list[x] != list[y] by {
                if y == rest.len() {
                    assert(rest.contains(rest[x]));
                }
            }
            assert(list[rest.len() as int] == new);
            if rest.contains((a, b)) {
                let k: int = choose|k: int| 0 <= k < rest.len() && rest[k] == (a, b);
                assert(list[k] == (a, b));
            }
            if list.contains((a, b)) {
                let k: int = choose|k: int| 0 <= k < list.len() && list[k] == (a, b);
                if k < rest.len() {
                    assert(rest[k] == (a, b));
                }
            }
        }
    }
}

/// Every pair whose edge score reaches the threshold is found, with its score.
pub proof fn every_edge_is_found(memories: Seq<Memory>, threshold: Binary64, a: int, b: int)
    requires
        0 <= a < b < memories.len(),
        threshold.spec_le(edge(memories[a], memories[b])),
    ensures
        all_edges(memories, threshold).contains(
            (memories[a].id, memories[b].id, edge(memories[a], memories[b])),
        ),
{
    let pairs: Seq<(int, int)> = edge_pairs(memories, threshold);
    let keys: Seq<Binary64> = edge_scores(memories, pairs);
    edge_pairs_are_exact(memories, threshold, a, b);
    ranking::ranking_exists(keys);
    let p: int = choose|p: int| 0 <= p < pairs.len() && pairs[p] == (a, b);
    assert(ranking(keys).contains(p));
    let q: int = choose|q: int| 0 <= q < ranking(keys).len() && ranking(keys)[q] == p;
    assert(all_edges(memories, threshold)[q] == (memories[a].id, memories[b].id, keys[p]));
}

/// Every edge that is found lies between two of the memories and reaches the
/// threshold, and none has a higher score than the one before it.
pub proof fn every_found_edge_is_one(memories: Seq<Memory>, threshold: Binary64, i: int)
    requires
        0 <= i < all_edges(memories, threshold).len(),
    ensures
        ({
            let found: Seq<(i64, i64, Binary64)> = all_edges(memories, threshold);
            &&& threshold.spec_le(found[i].2)
            &&& exists|a: int, b: int|
                0 <= a < b < memories.len() && found[i] == (
                    memories[a].id,
                    memories[b].id,
                    #[trigger] edge(memories[a], memories[b]),
                )
            &&& i > 0 ==> found[i].2.spec_le(found[i - 1].2)
        }),
{
    let pairs: Seq<(int, int)> = edge_pairs(memories, threshold);
    let keys: Seq<Binary64> = edge_scores(memories, pairs);
    let found: Seq<(i64, i64, Binary64)> = all_edges(memories, threshold);
    ranking::ranking_exists(keys);
    let p: int = ranking(keys)[i];
    let (a, b): (int, int) = pairs[p];
    assert(pairs.contains((a, b)));
    edge_pairs_are_exact(memories, threshold, a, b);
    assert(found[i] == (memories[a].id, memories[b].id, edge(memories[a], memories[b])));
    if i > 0 {
        let q: int = ranking(keys)[i - 1];
        assert(pairs.contains((pairs[q].0, pairs[q].1)));
        edge_pairs_are_exact(memories, threshold, pairs[q].0, pairs[q].1);
        assert(ranking::before(keys, ranking(keys)[i - 1], ranking(keys)[i]));
    }
}

/// Does the pair of positions `x` come before `y` in the list of edges? The higher score
/// comes first; of two equal ones, the pair that stands first among the memories.
spec fn edge_before(memories: Seq<Memory>, x: (int, int), y: (int, int)) -> bool {
    let a: int = ranking::place(edge(memories[x.0], memories[x.1]));
    let b: int = ranking::place(edge(memories[y.0], memories[y.1]));
    ||| a > b
    ||| a == b && pair_before(x, y)
}

/// Does the pair of positions `x` stand before `y` among the memories?
spec fn pair_before(x: (int, int), y: (int, int)) -> bool {
    x.0 < y.0 || x.0 == y.0 && x.1 < y.1
}

/// Pairs are listed in the order in which they stand among the memories.
proof fn edges_up_to_are_in_order(memories: Seq<Memory>, threshold: Binary64, i: int, j: int)
    requires
        i < memories.len(),
        j <= memories.len(),
    ensures
        ({
            let list: Seq<(int, int)> = edges_up_to(memories, threshold, i, j);
            forall|x: int, y: int|
                0 <= x < y < list.len() ==> pair_before(#[trigger] list[x], #[trigger] list[y])
        }),
    decreases i + 1, j,
{
    let list: Seq<(int, int)> = edges_up_to(memories, threshold, i, j);
    if i < 0 {
        assert(list.len() == 0);
    } else if j <= i + 1 {
        edges_up_to_are_in_order(memories, threshold, i - 1, memories.len() as int);
        assert(list == edges_up_to(memories, threshold, i - 1, memories.len() as int));
    } else {
        let rest: Seq<(int, int)> = edges_up_to(memories, threshold, i, j - 1);
        edges_up_to_are_in_order(memories, threshold, i, j - 1);
        assert forall|x: int, y: int| 0 <= x < y < list.len() implies pair_before(
            #[trigger] list[x],
            #[trigger] list[y],
        ) by {
            if y == rest.len() {
                assert(rest.contains(rest[x]));
                edges_up_to_are_exact(memories, threshold, i, j - 1, rest[x].0, rest[x].1);
            } else {
                assert(pair_before(rest[x], rest[y]));
            }
        }
    }
}

/// The pairs whose edge score reaches the threshold, in the order of the list of edges.
spec fn ranked_pairs(memories: Seq<Memory>, threshold: Binary64) -> Seq<(int, int)> {
    let pairs: Seq<(int, int)> = edge_pairs(memories, threshold);
    ranking(edge_scores(memories, pairs)).map_values(|p: int| pairs[p])
}

proof fn ranked_pairs_are_in_order(memories: Seq<Memory>, threshold: Binary64)
    ensures
        ({
            let list: Seq<(int, int)> = ranked_pairs(memories, threshold);
            &&& forall|x: int, y: int|
                0 <= x < y < list.len() ==> edge_before(memories, #[trigger] list[x], #[trigger] list[y])
            &&& forall|a: int, b: int|
                #[trigger] list.contains((a, b)) <==> 0 <= a < b < memories.len() && threshold.spec_le(
                    edge(memories[a], memories[b]),
                )
            &&& all_edges(memories, threshold) == list.map_values(
                |p: (int, int)| (memories[p.0].id, memories[p.1].id, edge(memories[p.0], memories[p.1])),
            )
        }),
{
    let pairs: Seq<(int, int)> = edge_pairs(memories, threshold);
    let keys: Seq<Binary64> = edge_scores(memories, pairs);
    let order: Seq<int> = ranking(keys);
    let list: Seq<(int, int)> = ranked_pairs(memories, threshold);
    ranking::ranking_exists(keys);
    edges_up_to_are_in_order(memories, threshold, memories.len() - 1, memories.len() as int);
    assert forall|x: int, y: int| 0 <= x < y < list.len() implies edge_before(
        memories,
        #[trigger] list[x],
        #[trigger] list[y],
    ) by {
        assert(ranking::before(keys, order[x], order[y]));
        assert(keys[order[x]] == edge(memories[list[x].0], memories[list[x].1]));
        assert(keys[order[y]] == edge(memories[list[y].0], memories[list[y].1]));
        if order[x] < order[y] {
            assert(pair_before(pairs[order[x]], pairs[order[y]]));
        }
    }
    assert forall|a: int, b: int| #[trigger] list.contains((a, b)) <==> 0 <= a < b < memories.len()
        && threshold.spec_le(edge(memories[a], memories[b])) by {
        edge_pairs_are_exact(memories, threshold, a, b);
        if pairs.contains((a, b)) {
            let p: int = choose|p: int| 0 <= p < pairs.len() && pairs[p] == (a, b);
            assert(order.contains(p));
            let q: int = choose|q: int| 0 <= q < order.len() && order[q] == p;
            assert(list[q] == (a, b));
        }
        if list.contains((a, b)) {
            let q: int = choose|q: int| 0 <= q < list.len() && list[q] == (a, b);
            assert(pairs[order[q]] == (a, b));
            assert(pairs.contains((a, b)));
        }
    }
    let edges: Seq<(i64, i64, Binary64)> = list.map_values(
        |p: (int, int)| (memories[p.0].id, memories[p.1].id, edge(memories[p.0], memories[p.1])),
    );
    let found: Seq<(i64, i64, Binary64)> = all_edges(memories, threshold);
    assert forall|q: int| 0 <= q < found.len() implies found[q] == edges[q] by {
        assert(0 <= order[q] < keys.len());
    }
    assert(found =~= edges);
}

/// A higher threshold gives the beginning of the edges that a lower one gives.
pub proof fn a_higher_threshold_gives_a_prefix(memories: Seq<Memory>, lower: Binary64, higher: Binary64)
    requires
        lower.spec_le(higher),
    ensures
        all_edges(memories, higher).is_prefix_of(all_edges(memories, lower)),
{
    let few: Seq<(int, int)> = ranked_pairs(memories, higher);
    let many: Seq<(int, int)> = ranked_pairs(memories, lower);
    ranked_pairs_are_in_order(memories, higher);
    ranked_pairs_are_in_order(memories, lower);
    ranked_pairs_agree(memories, lower, higher, few.len());
    assert(all_edges(memories, higher) =~= all_edges(memories, lower).take(few.len() as int));
}

proof fn ranked_pairs_agree(memories: Seq<Memory>, lower: Binary64, higher: Binary64, n: nat)
    requires
        lower.spec_le(higher),
        n <= ranked_pairs(memories, higher).len(),
    ensures
        n <= ranked_pairs(memories, lower).len(),
        forall|i: int|
            0 <= i < n ==> #[trigger] ranked_pairs(memories, higher)[i] == ranked_pairs(memories, lower)[i],
    decreases n,
{
    let few: Seq<(int, int)> = ranked_pairs(memories, higher);
    let many: Seq<(int, int)> = ranked_pairs(memories, lower);
    if n > 0 {
        let i: int = n - 1;
        ranked_pairs_agree(memories, lower, higher, i as nat);
        ranked_pairs_are_in_order(memories, higher);
        ranked_pairs_are_in_order(memories, lower);
        let x: (int, int) = few[i];
        assert(few.contains((x.0, x.1)));
        assert(many.contains((x.0, x.1)));
        let k: int = choose|k: int| 0 <= k < many.len() && many[k] == (x.0, x.1);
        if k < i {
            assert(few[k] == many[k]);
            assert(edge_before(memories, few[k], few[i]));
        } else if k > i {
            let y: (int, int) = many[i];
            assert(edge_before(memories, many[i], many[k]));
            assert(many.contains((y.0, y.1)));
            if few.contains((y.0, y.1)) {
                let j: int = choose|j: int| 0 <= j < few.len() && few[j] == (y.0, y.1);
                if j < i {
                    assert(few[j] == many[j]);
                    assert(edge_before(memories, many[j], many[i]));
                } else if j > i {
                    assert(edge_before(memories, few[i], few[j]));
                }
            }
        }
    }
}

/// What two memories have in common is half of the similarities of their topics and of
/// their entities together.
pub proof fn the_overlap_is_the_mean_similarity(a: Memory, b: Memory)
    ensures
        overlap(a, b) == similarity(a.topics@, b.topics@).spec_plus(
            similarity(a.entities@, b.entities@),
        ).spec_over(Binary64 { bits: 0x4000_0000_0000_0000 }),
{
}

/// Memories are related if and only if they are two, and share a topic or an entity,
/// whatever the case of its letters.
pub proof fn related_memories_share_a_topic_or_an_entity(a: Memory, b: Memory)
    ensures
        is_related(a, b) <==> a.id != b.id && ((exists|w: Seq<char>| #[trigger] shares(a.topics@, b.topics@, w))
            || (exists|w: Seq<char>| #[trigger] shares(a.entities@, b.entities@, w))),
{
    topics_are_similar_where_one_is_shared(a.topics, b.topics);
    topics_are_similar_where_one_is_shared(a.entities, b.entities);
    let x: Binary64 = similarity(a.topics@, b.topics@);
    let y: Binary64 = similarity(a.entities@, b.entities@);
    vstd::arithmetic::power2::lemma_pow2_strictly_increases(1000, 1009);
    if !wordset::lowered(a.topics@).disjoint(wordset::lowered(b.topics@)) || !wordset::lowered(
        a.entities@,
    ).disjoint(wordset::lowered(b.entities@)) {
        laws::mean_is_positive(x, y);
    } else {
        unrelated_memories_have_no_edge(a, b);
    }
}

/// Is there a text in both lists that is the given one in lower case?
pub open spec fn shares(a: Seq<String>, b: Seq<String>, w: Seq<char>) -> bool {
    &&& exists|i: int| 0 <= i < a.len() && text::lowercase((#[trigger] a[i])@) == w
    &&& exists|j: int| 0 <= j < b.len() && text::lowercase((#[trigger] b[j])@) == w
}

proof fn topics_are_similar_where_one_is_shared(a: Vec<String>, b: Vec<String>)
    ensures
        in_unit_range(similarity(a@, b@)),
        !wordset::lowered(a@).disjoint(wordset::lowered(b@)) <==> exists|w: Seq<char>|
            #[trigger] shares(a@, b@, w),
        !wordset::lowered(a@).disjoint(wordset::lowered(b@)) ==> vstd::arithmetic::power2::pow2(1009)
            <= similarity(a@, b@).units(),
{
    let x: Set<Seq<char>> = wordset::lowered(a@);
    let y: Set<Seq<char>> = wordset::lowered(b@);
    wordset::lowered_is_small(a@);
    wordset::lowered_is_small(b@);
    assert(a.len() <= usize::MAX && b.len() <= usize::MAX);
    math::similar_sets_have_a_member_in_common(x, y);
    if !x.disjoint(y) {
        let w: Seq<char> = choose|w: Seq<char>| x.contains(w) && y.contains(w);
        wordset::the_set_holds_the_texts_in_lower_case(a@, w);
        wordset::the_set_holds_the_texts_in_lower_case(b@, w);
        assert(shares(a@, b@, w));
    }
    if exists|w: Seq<char>| #[trigger] shares(a@, b@, w) {
        let w: Seq<char> = choose|w: Seq<char>| #[trigger] shares(a@, b@, w);
        wordset::the_set_holds_the_texts_in_lower_case(a@, w);
        wordset::the_set_holds_the_texts_in_lower_case(b@, w);
        assert(x.contains(w) && y.contains(w));
    }
}

/// How far two memories agree is the cosine of their traits, moved between zero and one,
/// and a half where one of them has none.
pub proof fn consensus_is_the_cosine(a: Memory, b: Memory)
    ensures
        a.traits@.len() == 0 || b.traits@.len() == 0 ==> consensus(a, b) == (Binary64 {
            bits: 0x3fe0_0000_0000_0000,
        }),
        a.traits@.len() > 0 && b.traits@.len() > 0 ==> ({
            let c: Binary64 = cosine(a.traits@, b.traits@);
            &&& c.is_nan() ==> consensus(a, b) == c
            &&& c.spec_lt(Binary64 { bits: 0 }) ==> consensus(a, b) == (Binary64 { bits: 0 })
            &&& (Binary64 { bits: 0x3ff0_0000_0000_0000 }).spec_lt(c) ==> consensus(a, b) == (Binary64 {
                bits: 0x3ff0_0000_0000_0000,
            })
            &&& in_unit_range(c) ==> consensus(a, b) == c
        }),
{
}

/// Where two proper memories overlap by 0.05 or more, their edge score is the overlap, times
/// what their consensus leaves of one, times their mean importance: whether they share
/// topics or entities makes no difference.
pub proof fn the_edge_is_overlap_times_divergence_times_importance(a: Memory, b: Memory)
    requires
        is_proper(a),
        is_proper(b),
    ensures
        ({
            let common: Binary64 = similarity(a.topics@, b.topics@).spec_plus(
                similarity(a.entities@, b.entities@),
            ).spec_over(Binary64 { bits: 0x4000_0000_0000_0000 });
            (Binary64 { bits: 0x3fa9_9999_9999_999a }).spec_le(common) ==> edge(a, b) == common.spec_times(
                (Binary64 { bits: 0x3ff0_0000_0000_0000 }).spec_minus(consensus(a, b)),
            ).spec_times(
                a.importance.spec_plus(b.importance).spec_over(Binary64 { bits: 0x4000_0000_0000_0000 }),
            )
        }),
{
    math::cosine_is_a_number(a.traits@, b.traits@);
    overlap_is_in_unit_range(a, b);
    assert(in_unit_range(Binary64 { bits: UNKNOWN_CONSENSUS }));
    laws::clamp_reaches_unit_range(cosine(a.traits@, b.traits@));
    let rest: Binary64 = Binary64::spec_one().spec_minus(consensus(a, b));
    laws::rest_in_unit_range(consensus(a, b));
    laws::product_in_unit_range(overlap(a, b), rest);
    laws::mean_in_unit_range(a.importance, b.importance);
    laws::product_in_unit_range(
        overlap(a, b).spec_times(rest),
        a.importance.spec_plus(b.importance).spec_over(Binary64::spec_two()),
    );
}

/// The edge score of any two memories that overlap by 0.05 or more is that product, moved
/// between zero and one; a product that is no number stays so.
pub proof fn the_edge_is_the_product_within_bounds(a: Memory, b: Memory)
    ensures
        ({
            let product: Binary64 = overlap(a, b).spec_times(
                (Binary64 { bits: 0x3ff0_0000_0000_0000 }).spec_minus(consensus(a, b)),
            ).spec_times(
                a.importance.spec_plus(b.importance).spec_over(Binary64 { bits: 0x4000_0000_0000_0000 }),
            );
            (Binary64 { bits: 0x3fa9_9999_9999_999a }).spec_le(overlap(a, b)) ==> {
                &&& product.is_nan() ==> edge(a, b) == product
                &&& product.spec_lt(Binary64 { bits: 0 }) ==> edge(a, b) == (Binary64 { bits: 0 })
                &&& (Binary64 { bits: 0x3ff0_0000_0000_0000 }).spec_lt(product) ==> edge(a, b) == (Binary64 {
                    bits: 0x3ff0_0000_0000_0000,
                })
                &&& in_unit_range(product) ==> edge(a, b) == product
            }
        }),
{
}

/// Memories that overlap by 0.05 or more, do not wholly agree, and are not without
/// importance, have an edge between them.
pub proof fn diverging_neighbors_have_an_edge(a: Memory, b: Memory)
    requires
        is_proper(a),
        is_proper(b),
        (Binary64 { bits: 0x3fa9_9999_9999_999a }).spec_le(overlap(a, b)),
        consensus(a, b).spec_lt(Binary64 { bits: 0x3ff0_0000_0000_0000 }),
        // 2^-500
        (Binary64 { bits: 0x20b0_0000_0000_0000 }).spec_le(
            a.importance.spec_plus(b.importance).spec_over(Binary64 { bits: 0x4000_0000_0000_0000 }),
        ),
    ensures
        Binary64::spec_zero().spec_lt(edge(a, b)),
{
    let c: Binary64 = consensus(a, b);
    let rest: Binary64 = Binary64::spec_one().spec_minus(c);
    let weight: Binary64 = a.importance.spec_plus(b.importance).spec_over(Binary64::spec_two());
    the_edge_is_overlap_times_divergence_times_importance(a, b);
    overlap_is_in_unit_range(a, b);
    math::cosine_is_a_number(a.traits@, b.traits@);
    assert(in_unit_range(Binary64 { bits: UNKNOWN_CONSENSUS }));
    laws::clamp_reaches_unit_range(cosine(a.traits@, b.traits@));
    laws::rest_in_unit_range(c);
    laws::mean_in_unit_range(a.importance, b.importance);
    // The overlap is at least 2^-5, what is left of one at least 2^-53.
    let fifth: Binary64 = Binary64 { bits: 0x3fa0_0000_0000_0000 };
    let small: Binary64 = Binary64 { bits: 0x20b0_0000_0000_0000 };
    laws::power_in_units(fifth, 0x3fa);
    laws::power_in_units(small, 0x20b);
    laws::units_follow_magnitudes(fifth, overlap(a, b));
    laws::units_follow_magnitudes(small, weight);
    laws::rest_of_less_than_one(c);
    laws::product_is_positive(overlap(a, b), rest, 1069, 1021);
    laws::product_is_positive(overlap(a, b).spec_times(rest), weight, 1016, 574);
}

/// The score of a memory among others is what its edge scores to its five nearest
/// neighbours add up to, one by one, over their number; zero where it has none.
pub proof fn the_mean_edge_is_over_the_five_nearest(target: Memory, all: Seq<Memory>)
    ensures
        ({
            let near: Seq<(int, Binary64)> = neighbors(target, all, 5);
            let terms: Seq<Binary64> = Seq::new(near.len(), |i: int| edge(target, all[near[i].0]));
            &&& near.len() == 0 ==> mean_edge(target, all) == (Binary64 { bits: 0 })
            &&& near.len() > 0 ==> exists|sums: Seq<Binary64>|
                {
                    &&& #[trigger] laws::are_running_sums(sums, Binary64 { bits: 0x8000_0000_0000_0000 }, terms)
                    &&& mean_edge(target, all) == sums.last().spec_over(Binary64::spec_of(near.len()))
                }
        }),
{
    let near: Seq<(int, Binary64)> = neighbors(target, all, 5);
    let terms: Seq<Binary64> = Seq::new(near.len(), |i: int| edge(target, all[near[i].0]));
    let sums: Seq<Binary64> = Seq::new(near.len() + 1, |i: int| edge_sum(target, all, near, i as nat));
    assert forall|i: int| 0 <= i < near.len() implies #[trigger] sums[i + 1] == sums[i].spec_plus(terms[i]) by {}
    assert(laws::are_running_sums(sums, Binary64 { bits: 0x8000_0000_0000_0000 }, terms));
}

/// Are these the pairs of memories whose edge score reaches the threshold, each once, those
/// of higher score first, and those of the same score in the order of the memories?
pub open spec fn are_the_edges(memories: Seq<Memory>, threshold: Binary64, pairs: Seq<(int, int)>) -> bool {
    &&& forall|a: int, b: int|
        #[trigger] pairs.contains((a, b)) <==> 0 <= a < b < memories.len() && threshold.spec_le(
            edge(memories[a], memories[b]),
        )
    &&& forall|x: int, y: int|
        0 <= x < y < pairs.len() ==> ({
            let e: Binary64 = edge(memories[(#[trigger] pairs[x]).0], memories[pairs[x].1]);
            let f: Binary64 = edge(memories[(#[trigger] pairs[y]).0], memories[pairs[y].1]);
            ||| f.spec_lt(e)
            ||| f.spec_le(e) && (pairs[x].0 < pairs[y].0 || pairs[x].0 == pairs[y].0 && pairs[x].1 < pairs[y].1)
        })
}

/// The edges are listed by the ids of both memories and their score, one for each pair whose
/// score reaches the threshold, from the highest score down.
pub proof fn the_edges_are_listed_once(memories: Seq<Memory>, threshold: Binary64)
    ensures
        exists|pairs: Seq<(int, int)>|
            {
                &&& #[trigger] are_the_edges(memories, threshold, pairs)
                &&& all_edges(memories, threshold).len() == pairs.len()
                &&& forall|i: int|
                    0 <= i < pairs.len() ==> #[trigger] all_edges(memories, threshold)[i] == (
                        memories[pairs[i].0].id,
                        memories[pairs[i].1].id,
                        edge(memories[pairs[i].0], memories[pairs[i].1]),
                    )
            },
{
    let pairs: Seq<(int, int)> = ranked_pairs(memories, threshold);
    ranked_pairs_are_in_order(memories, threshold);
    assert forall|x: int, y: int| 0 <= x < y < pairs.len() implies ({
        let e: Binary64 = edge(memories[(#[trigger] pairs[x]).0], memories[pairs[x].1]);
        let f: Binary64 = edge(memories[(#[trigger] pairs[y]).0], memories[pairs[y].1]);
        ||| f.spec_lt(e)
        ||| f.spec_le(e) && (pairs[x].0 < pairs[y].0 || pairs[x].0 == pairs[y].0 && pairs[x].1 < pairs[y].1)
    }) by {
        assert(edge_before(memories, pairs[x], pairs[y]));
        assert(pairs.contains((pairs[x].0, pairs[x].1)));
        assert(pairs.contains((pairs[y].0, pairs[y].1)));
    }
    assert(are_the_edges(memories, threshold, pairs));
}

/// Of two neighbours that have the same in common, the one that stands first comes first.
pub proof fn equal_neighbors_keep_their_order(target: Memory, all: Seq<Memory>, k: nat, i: int, j: int)
    requires
        0 <= i < j < neighbors(target, all, k).len(),
        neighbors(target, all, k)[i].1.spec_le(neighbors(target, all, k)[j].1),
    ensures
        neighbors(target, all, k)[i].0 < neighbors(target, all, k)[j].0,
{
    let candidates: Seq<int> = related(target, all, all.len());
    let keys: Seq<Binary64> = overlaps(target, all);
    let near: Seq<(int, Binary64)> = neighbors(target, all, k);
    let order: Seq<int> = ranking(keys);
    ranking::ranking_exists(keys);
    related_are_in_order(target, all, all.len());
    assert(near[i] == (candidates[order[i]], keys[order[i]]));
    assert(near[j] == (candidates[order[j]], keys[order[j]]));
    assert(ranking::before(keys, order[i], order[j]));
    assert(candidates[order[i]] < candidates[order[j]]);
}

/// Neighbours stay what they are.
pub proof fn neighbors_are_the_same(list: Seq<(usize, Binary64)>, i: int)
    requires
        0 <= i < list.len(),
    ensures
        as_neighbors(list).len() == list.len(),
        as_neighbors(list)[i].0 == list[i].0,
        as_neighbors(list)[i].1 == list[i].1,
{
}

} // verus!
