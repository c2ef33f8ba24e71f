//! The flight score of the knowledge graph.
//!
//! Every memory is classified by its edge score and its connectivity:
//!
//! - Landed: edge score at most 0.30, with a neighbour; stable, well-integrated.
//! - Falling: edge score above 0.30 and at most 0.60; in active revision.
//! - Crashed: edge score above 0.60, or no neighbour; frontier, isolated, fragmented.
//!
//! The graph is classified by the average consensus of its memories: landed from 0.70,
//! falling from 0.40, crashed below.

use crate::binary64::laws::in_unit_range;
use crate::binary64::{laws, Binary64, HIDDEN};
use crate::db::Memory;
use crate::edges::{edge, find_neighbors, mean_edge, memory_edge_score, neighbors, overlap, overlap_of};
use crate::edges::{as_neighbors, LEAST_OVERLAP};
use crate::edges;
use crate::math;
use crate::ranking::{positions, rank_top, top};
use crate::ranking;
use crate::revision::FlightStatus;
use crate::text::{copy_texts, texts};
use vstd::prelude::*;

verus! {

/// 0.30: the highest edge score of a landed memory.
pub const LANDED_EDGE_MAX: u64 = 0x3fd3_3333_3333_3333;

/// 0.60: the highest edge score of a falling memory.
pub const FALLING_EDGE_MAX: u64 = 0x3fe3_3333_3333_3333;

/// 0.70: the least average consensus of a landed graph.
pub const GRAPH_LANDED_MIN: u64 = 0x3fe6_6666_6666_6666;

/// 0.40: the least average consensus of a falling graph.
pub const GRAPH_FALLING_MIN: u64 = 0x3fd9_9999_9999_999a;

/// The number of nearest memories among which neighbours are counted.
pub const NEIGHBORS_COUNTED: usize = 10;

/// The number of memories that are reported as the most divergent.
pub const HOTTEST: usize = 5;

/// The flight classification of one memory.
#[derive(Debug)]
pub struct MemoryScore {
    pub id: i64,
    pub source: String,
    pub collection: String,
    pub topics: Vec<String>,
    /// High where the memory diverges from its neighbours, low where it agrees.
    pub edge_score: Binary64,
    /// What the edge score leaves of one.
    pub consensus: Binary64,
    /// The number of neighbours found: memories with an overlap above 0.05.
    pub neighbor_count: usize,
    pub flight_status: FlightStatus,
    pub importance: Binary64,
}

/// Connectivity of the graph.
#[derive(Debug)]
pub struct TopologyStats {
    /// Memories with at least one neighbour.
    pub connected: usize,
    /// Memories with none.
    pub isolated: usize,
    /// Pairs of memories with an overlap above 0.05.
    pub edge_pairs: usize,
    /// The average number of neighbours of a connected memory.
    pub avg_neighbors: Binary64,
}

/// The flight score of the whole graph.
#[derive(Debug)]
pub struct FlightScoreReport {
    pub total_memories: usize,
    /// Stable memories, the highest consensus first.
    pub landed: Vec<MemoryScore>,
    /// Memories in revision, the most divergent first.
    pub falling: Vec<MemoryScore>,
    /// Isolated or divergent memories, the most important first.
    pub crashed: Vec<MemoryScore>,
    pub avg_edge_score: Binary64,
    pub avg_consensus: Binary64,
    pub overall_status: FlightStatus,
    pub topology: TopologyStats,
    /// The most divergent memories, the most divergent first.
    pub hottest_edges: Vec<MemoryScore>,
}

/// What a `MemoryScore` says.
#[verifier::ext_equal]
pub struct ScoreModel {
    pub id: i64,
    pub source: Seq<char>,
    pub collection: Seq<char>,
    pub topics: Seq<Seq<char>>,
    pub edge_score: Binary64,
    pub consensus: Binary64,
    pub neighbor_count: nat,
    pub flight_status: FlightStatus,
    pub importance: Binary64,
}

impl View for MemoryScore {
    type V = ScoreModel;

    open spec fn view(&self) -> ScoreModel {
        ScoreModel {
            id: self.id,
            source: self.source@,
            collection: self.collection@,
            topics: texts(self.topics@),
            edge_score: self.edge_score,
            consensus: self.consensus,
            neighbor_count: self.neighbor_count as nat,
            flight_status: self.flight_status,
            importance: self.importance,
        }
    }
}

/// What scores say.
pub open spec fn models(list: Seq<MemoryScore>) -> Seq<ScoreModel> {
    list.map_values(|s: MemoryScore| s@)
}

/// What scores are put in order by.
#[derive(Debug, Clone, Copy, PartialEq, Eq, Structural)]
pub enum Key {
    Consensus,
    Divergence,
    Importance,
}

impl Key {
    /// What scores are put in order by.
    pub open spec fn of(self, s: ScoreModel) -> Binary64 {
        match self {
            Key::Consensus => s.consensus,
            Key::Divergence => s.edge_score,
            Key::Importance => s.importance,
        }
    }
}

// ---- One memory ----

/// The class of a memory with the given edge score and number of neighbours.
pub open spec fn flight_class(edge_score: Binary64, neighbor_count: nat) -> FlightStatus {
    if neighbor_count == 0 {
        FlightStatus::Crashed
    } else if edge_score.spec_le(Binary64 { bits: LANDED_EDGE_MAX }) {
        FlightStatus::Landed
    } else if edge_score.spec_le(Binary64 { bits: FALLING_EDGE_MAX }) {
        FlightStatus::Falling
    } else {
        FlightStatus::Crashed
    }
}

/// The class of a memory with the given edge score and number of neighbours.
pub fn classify(edge_score: Binary64, neighbor_count: usize) -> (r: FlightStatus)
    ensures
        r == flight_class(edge_score, neighbor_count as nat),
{
    if neighbor_count == 0 {
        FlightStatus::Crashed
    } else if edge_score.le(Binary64::from_bits(LANDED_EDGE_MAX)) {
        FlightStatus::Landed
    } else if edge_score.le(Binary64::from_bits(FALLING_EDGE_MAX)) {
        FlightStatus::Falling
    } else {
        FlightStatus::Crashed
    }
}

/// Are two memories neighbours, with an overlap above 0.05?
pub open spec fn are_neighbors(a: Memory, b: Memory) -> bool {
    (Binary64 { bits: LEAST_OVERLAP }).spec_lt(overlap(a, b))
}

/// How many of the first `n` nearest memories overlap by more than 0.05.
pub open spec fn close_among(near: Seq<(int, Binary64)>, n: nat) -> nat
    decreases n,
{
    if n == 0 {
        0
    } else {
        close_among(near, (n - 1) as nat) + (if (Binary64 { bits: LEAST_OVERLAP }).spec_lt(
            near[n - 1].1,
        ) {
            1nat
        } else {
            0nat
        })
    }
}

/// The number of neighbours of a memory, among its nearest.
pub open spec fn neighbor_count(m: Memory, all: Seq<Memory>) -> nat {
    let near: Seq<(int, Binary64)> = neighbors(m, all, NEIGHBORS_COUNTED as nat);
    close_among(near, near.len())
}

/// The edge score of a memory in the graph: zero where it has no neighbour to diverge
/// from.
pub open spec fn divergence(m: Memory, all: Seq<Memory>) -> Binary64 {
    if neighbor_count(m, all) == 0 {
        Binary64::spec_zero()
    } else {
        mean_edge(m, all)
    }
}

/// What is left of one, between zero and one.
pub open spec fn rest_of_one(x: Binary64) -> Binary64 {
    Binary64::spec_one().spec_minus(x).spec_clamp(Binary64::spec_zero(), Binary64::spec_one())
}

/// The score of a memory in the graph.
pub open spec fn score_model(m: Memory, all: Seq<Memory>) -> ScoreModel {
    ScoreModel {
        id: m.id,
        source: m.source@,
        collection: m.collection@,
        topics: texts(m.topics@),
        edge_score: divergence(m, all),
        consensus: rest_of_one(divergence(m, all)),
        neighbor_count: neighbor_count(m, all),
        flight_status: flight_class(divergence(m, all), neighbor_count(m, all)),
        importance: m.importance,
    }
}

fn count_neighbors(m: &Memory, all: &Vec<Memory>) -> (r: usize)
    ensures
        r == neighbor_count(*m, all@),
        r <= NEIGHBORS_COUNTED,
{
    let near: Vec<(usize, Binary64)> = find_neighbors(m, all, NEIGHBORS_COUNTED);
    let ghost want: Seq<(int, Binary64)> = as_neighbors(near@);
    assert(want.len() == near@.len());
    let n: usize = near.len();
    let mut r: usize = 0;
    let mut i: usize = 0;
    while i < n
        invariant
            i <= n == near@.len(),
            want == as_neighbors(near@),
            r == close_among(want, i as nat),
            r <= i,
        decreases n - i,
    {
        assert(want[i as int].1 == near@[i as int].1);
        if Binary64::from_bits(LEAST_OVERLAP).lt(near[i].1) {
            r = r + 1;
        }
        i = i + 1;
    }
    r
}

fn rest(x: Binary64) -> (r: Binary64)
    ensures
        r == rest_of_one(x),
{
    Binary64::one().minus(x).clamp(Binary64::zero(), Binary64::one())
}

/// The score of a memory, from its edge score and its number of neighbours.
fn score_memory(m: &Memory, edge_score: Binary64, neighbor_count: usize) -> (r: MemoryScore)
    ensures
        r@ == (ScoreModel {
            id: m.id,
            source: m.source@,
            collection: m.collection@,
            topics: texts(m.topics@),
            edge_score,
            consensus: rest_of_one(edge_score),
            neighbor_count: neighbor_count as nat,
            flight_status: flight_class(edge_score, neighbor_count as nat),
            importance: m.importance,
        }),
{
    MemoryScore {
        id: m.id,
        source: m.source.clone(),
        collection: m.collection.clone(),
        topics: copy_texts(&m.topics),
        edge_score,
        consensus: rest(edge_score),
        neighbor_count,
        flight_status: classify(edge_score, neighbor_count),
        importance: m.importance,
    }
}

// ---- The graph ----

/// The pairs of memories that are neighbours, each once.
pub open spec fn neighbor_pairs(memories: Seq<Memory>) -> Set<(int, int)> {
    Set::new(
        |p: (int, int)|
            0 <= p.0 < p.1 < memories.len() && are_neighbors(memories[p.0], memories[p.1]),
    )
}

/// The number of pairs of memories that are neighbours, with an overlap above 0.05.
pub fn count_edge_pairs(memories: &Vec<Memory>) -> (r: usize)
    requires
        memories@.len() * (memories@.len() - 1) <= 2 * usize::MAX,
    ensures
        r == neighbor_pairs(memories@).len(),
{
    let n: usize = memories.len();
    let mut count: u128 = 0;
    let mut i: usize = 0;
    let ghost mut pairs: Set<(int, int)> = Set::empty();
    while i < n
        invariant
            i <= n == memories@.len(),
            pairs.finite(),
            count == pairs.len(),
            2 * count <= i * (2 * n - i - 1),
            forall|p: (int, int)|
                #[trigger] pairs.contains(p) <==> neighbor_pairs(memories@).contains(p) && p.0 < i,
            n * (n - 1) <= 2 * usize::MAX,
        decreases n - i,
    {
        let mut j: usize = i + 1;
        while j < n
            invariant
                i < j <= n == memories@.len(),
                pairs.finite(),
                count == pairs.len(),
                2 * count <= i * (2 * n - i - 1) + 2 * (j - i - 1),
                n <= usize::MAX,
                forall|p: (int, int)|
                    #[trigger] pairs.contains(p) <==> neighbor_pairs(memories@).contains(p) && (p.0 < i
                        || p.0 == i && p.1 < j),
            decreases n - j,
        {
            if Binary64::from_bits(LEAST_OVERLAP).lt(overlap_of(&memories[i], &memories[j])) {
                proof {
                    let p: (int, int) = (i as int, j as int);
                    assert(!pairs.contains(p));
                    pairs = pairs.insert(p);
                    assert(i * (2 * n - i - 1) <= 0xffff_ffff_ffff_ffff * 0x2_0000_0000_0000_0000)
                        by (nonlinear_arith)
                        requires
                            0 <= i < n,
                            n <= 0xffff_ffff_ffff_ffff,
                    ;
                }
                count = count + 1;
            }
            j = j + 1;
        }
        proof {
            assert(i * (2 * n - i - 1) + 2 * (n - i - 1) == (i + 1) * (2 * n - (i + 1) - 1))
                by (nonlinear_arith);
        }
        i = i + 1;
    }
    proof {
        assert(n * (2 * n - n - 1) == n * (n - 1)) by (nonlinear_arith);
        assert(pairs =~= neighbor_pairs(memories@));
    }
    count as usize
}

/// The edge scores of all memories.
pub open spec fn divergences(memories: Seq<Memory>) -> Seq<Binary64> {
    memories.map_values(|m: Memory| divergence(m, memories))
}

/// The sum of the first `n` numbers.
pub open spec fn sum(list: Seq<Binary64>, n: nat) -> Binary64
    decreases n,
{
    if n == 0 {
        Binary64::spec_zero()
    } else {
        sum(list, (n - 1) as nat).spec_plus(list[n - 1])
    }
}

/// The average edge score.
pub open spec fn average_divergence(memories: Seq<Memory>) -> Binary64 {
    if memories.len() == 0 {
        Binary64::spec_zero()
    } else {
        sum(divergences(memories), memories.len()).spec_over(Binary64::spec_of(memories.len()))
    }
}

/// The average consensus.
pub open spec fn average_consensus(memories: Seq<Memory>) -> Binary64 {
    if memories.len() == 0 {
        Binary64::spec_one()
    } else {
        rest_of_one(average_divergence(memories))
    }
}

/// The class of a graph with the given average consensus.
pub open spec fn consensus_class(consensus: Binary64) -> FlightStatus {
    if (Binary64 { bits: GRAPH_LANDED_MIN }).spec_le(consensus) {
        FlightStatus::Landed
    } else if (Binary64 { bits: GRAPH_FALLING_MIN }).spec_le(consensus) {
        FlightStatus::Falling
    } else {
        FlightStatus::Crashed
    }
}

/// The class of the graph. An empty one is crashed.
pub open spec fn graph_class(memories: Seq<Memory>) -> FlightStatus {
    if memories.len() == 0 {
        FlightStatus::Crashed
    } else {
        consensus_class(average_consensus(memories))
    }
}

/// How many of the first `n` memories have a neighbour.
pub open spec fn connected_count(memories: Seq<Memory>, n: nat) -> nat
    decreases n,
{
    if n == 0 {
        0
    } else {
        connected_count(memories, (n - 1) as nat) + (if neighbor_count(memories[n - 1], memories) > 0 {
            1nat
        } else {
            0nat
        })
    }
}

/// The number of neighbours that the first `n` memories have in all.
pub open spec fn neighbor_sum(memories: Seq<Memory>, n: nat) -> nat
    decreases n,
{
    if n == 0 {
        0
    } else {
        neighbor_sum(memories, (n - 1) as nat) + neighbor_count(memories[n - 1], memories)
    }
}

/// The average number of neighbours of a connected memory.
pub open spec fn average_neighbors(memories: Seq<Memory>) -> Binary64 {
    if connected_count(memories, memories.len()) > 0 {
        Binary64::spec_of(neighbor_sum(memories, memories.len())).spec_over(
            Binary64::spec_of(connected_count(memories, memories.len())),
        )
    } else {
        Binary64::spec_zero()
    }
}

/// The positions below `n` of the memories of a class.
pub open spec fn of_class(memories: Seq<Memory>, class: FlightStatus, n: nat) -> Seq<int>
    decreases n,
{
    if n == 0 {
        Seq::empty()
    } else {
        let rest: Seq<int> = of_class(memories, class, (n - 1) as nat);
        if score_model(memories[n - 1], memories).flight_status == class {
            rest.push(n - 1)
        } else {
            rest
        }
    }
}

/// The `k` highest of the scores at the given positions, by a key of each, from the
/// highest down.
pub open spec fn highest(
    memories: Seq<Memory>,
    at: Seq<int>,
    key: Key,
    k: nat,
) -> Seq<ScoreModel> {
    let scores: Seq<ScoreModel> = at.map_values(|i: int| score_model(memories[i], memories));
    top(scores.map_values(|s: ScoreModel| key.of(s)), k).map_values(|p: int| scores[p])
}

/// The scores of the memories of a class, from the highest key down.
pub open spec fn class_by(
    memories: Seq<Memory>,
    class: FlightStatus,
    key: Key,
) -> Seq<ScoreModel> {
    let at: Seq<int> = of_class(memories, class, memories.len());
    highest(memories, at, key, at.len())
}

/// The positions below `n`.
pub open spec fn all_positions(n: nat) -> Seq<int> {
    Seq::new(n, |i: int| i)
}

/// Does the report say of the memories what is to be said?
pub open spec fn is_report(r: FlightScoreReport, memories: Seq<Memory>) -> bool {
    &&& r.total_memories == memories.len()
    &&& models(r.landed@) == class_by(memories, FlightStatus::Landed, Key::Consensus)
    &&& models(r.falling@) == class_by(memories, FlightStatus::Falling, Key::Divergence)
    &&& models(r.crashed@) == class_by(memories, FlightStatus::Crashed, Key::Importance)
    &&& r.avg_edge_score == average_divergence(memories)
    &&& r.avg_consensus == average_consensus(memories)
    &&& r.overall_status == graph_class(memories)
    &&& r.topology.connected == connected_count(memories, memories.len())
    &&& r.topology.isolated == memories.len() - connected_count(memories, memories.len())
    &&& r.topology.edge_pairs == neighbor_pairs(memories).len()
    &&& r.topology.avg_neighbors == average_neighbors(memories)
    &&& models(r.hottest_edges@) == highest(
        memories,
        all_positions(memories.len()),
        Key::Divergence,
        HOTTEST as nat,
    )
}

/// The edge scores and the numbers of neighbours of memories, in their order.
spec fn are_measures(memories: Seq<Memory>, edge_scores: Seq<Binary64>, counts: Seq<usize>) -> bool {
    &&& edge_scores == divergences(memories)
    &&& counts.len() == memories.len()
    &&& forall|i: int|
        0 <= i < counts.len() ==> #[trigger] counts[i] == neighbor_count(memories[i], memories) && counts[i]
            <= NEIGHBORS_COUNTED
}

/// The scores at the positions `at`, in the given order of theirs.
fn gather(
    memories: &Vec<Memory>,
    edge_scores: &Vec<Binary64>,
    counts: &Vec<usize>,
    at: &Vec<usize>,
    order: &Vec<usize>,
) -> (r: Vec<MemoryScore>)
    requires
        are_measures(memories@, edge_scores@, counts@),
        forall|i: int| 0 <= i < at@.len() ==> #[trigger] at@[i] < memories@.len(),
        forall|i: int| 0 <= i < order@.len() ==> #[trigger] order@[i] < at@.len(),
    ensures
        models(r@) == order@.map_values(
            |p: usize| score_model(memories@[at@[p as int] as int], memories@),
        ),
{
    let mut r: Vec<MemoryScore> = Vec::new();
    let mut p: usize = 0;
    while p < order.len()
        invariant
            p <= order@.len(),
            are_measures(memories@, edge_scores@, counts@),
            forall|i: int| 0 <= i < at@.len() ==> #[trigger] at@[i] < memories@.len(),
            forall|i: int| 0 <= i < order@.len() ==> #[trigger] order@[i] < at@.len(),
            r@.len() == p,
            forall|q: int|
                0 <= q < p ==> (#[trigger] r@[q])@ == score_model(
                    memories@[at@[order@[q] as int] as int],
                    memories@,
                ),
        decreases order@.len() - p,
    {
        let i: usize = at[order[p]];
        r.push(score_memory(&memories[i], edge_scores[i], counts[i]));
        p = p + 1;
    }
    assert(models(r@) =~= order@.map_values(
        |p: usize| score_model(memories@[at@[p as int] as int], memories@),
    ));
    r
}

/// What ranking by keys and gathering comes to.
proof fn gathered(
    memories: Seq<Memory>,
    at: Seq<usize>,
    order: Seq<usize>,
    keys: Seq<Binary64>,
    key: Key,
    k: nat,
)
    requires
        keys == at.map_values(|i: usize| key.of(score_model(memories[i as int], memories))),
        positions(order) == top(keys, k),
    ensures
        order.map_values(|p: usize| score_model(memories[at[p as int] as int], memories)) == highest(
            memories,
            positions(at),
            key,
            k,
        ),
{
    let scores: Seq<ScoreModel> = positions(at).map_values(|i: int| score_model(memories[i], memories));
    assert(scores.map_values(|s: ScoreModel| key.of(s)) =~= keys);
    ranking::ranking_exists(keys);
    let want: Seq<ScoreModel> = highest(memories, positions(at), key, k);
    let got: Seq<ScoreModel> = order.map_values(
        |p: usize| score_model(memories[at[p as int] as int], memories),
    );
    assert(positions(order).len() == order.len());
    assert(got.len() == want.len());
    assert forall|q: int| 0 <= q < got.len() implies got[q] == want[q] by {
        assert(positions(order)[q] == order[q]);
        let p: int = order[q] as int;
        assert(top(keys, k)[q] == ranking::ranking(keys)[q]);
        assert(0 <= p < keys.len());
        assert(positions(at)[p] == at[p]);
    }
    assert(got =~= want);
}

/// The edge scores and the numbers of neighbours of all memories.
fn measure(memories: &Vec<Memory>) -> (r: (Vec<Binary64>, Vec<usize>))
    ensures
        are_measures(memories@, r.0@, r.1@),
{
    let n: usize = memories.len();
    let mut edge_scores: Vec<Binary64> = Vec::new();
    let mut counts: Vec<usize> = Vec::new();
    let mut i: usize = 0;
    while i < n
        invariant
            i <= n == memories@.len(),
            edge_scores@ == divergences(memories@).take(i as int),
            counts@.len() == i,
            forall|j: int|
                0 <= j < i ==> #[trigger] counts@[j] == neighbor_count(memories@[j], memories@) && counts@[j]
                    <= NEIGHBORS_COUNTED,
        decreases n - i,
    {
        let m: &Memory = &memories[i];
        let count: usize = count_neighbors(m, memories);
        let edge_score: Binary64 = if count == 0 {
            Binary64::zero()
        } else {
            memory_edge_score(m, memories)
        };
        edge_scores.push(edge_score);
        counts.push(count);
        assert(edge_scores@ =~= divergences(memories@).take(i + 1));
        i = i + 1;
    }
    assert(divergences(memories@).take(n as int) =~= divergences(memories@));
    (edge_scores, counts)
}

/// The sum of numbers.
fn sum_of(list: &Vec<Binary64>) -> (r: Binary64)
    ensures
        r == sum(list@, list@.len()),
{
    let mut r: Binary64 = Binary64::zero();
    let mut i: usize = 0;
    while i < list.len()
        invariant
            i <= list@.len(),
            r == sum(list@, i as nat),
        decreases list@.len() - i,
    {
        r = r.plus(list[i]);
        i = i + 1;
    }
    r
}

/// The number of memories with a neighbour, and the number of neighbours in all.
fn connectivity(memories: &Vec<Memory>, counts: &Vec<usize>) -> (r: (usize, u128))
    requires
        counts@.len() == memories@.len(),
        forall|i: int|
            0 <= i < counts@.len() ==> #[trigger] counts@[i] == neighbor_count(memories@[i], memories@)
                && counts@[i] <= NEIGHBORS_COUNTED,
    ensures
        r.0 == connected_count(memories@, memories@.len()),
        r.0 <= memories@.len(),
        r.1 == neighbor_sum(memories@, memories@.len()),
        r.1 <= memories@.len() * 10,
{
    let n: usize = counts.len();
    let mut connected: usize = 0;
    let mut total: u128 = 0;
    let mut i: usize = 0;
    while i < n
        invariant
            i <= n == counts@.len() == memories@.len(),
            forall|j: int|
                0 <= j < counts@.len() ==> #[trigger] counts@[j] == neighbor_count(memories@[j], memories@)
                    && counts@[j] <= NEIGHBORS_COUNTED,
            connected == connected_count(memories@, i as nat),
            connected <= i,
            total == neighbor_sum(memories@, i as nat),
            total <= i * 10,
        decreases n - i,
    {
        if counts[i] > 0 {
            connected = connected + 1;
            total = total + counts[i] as u128;
        }
        i = i + 1;
    }
    (connected, total)
}

/// The value by which a score is put in order.
fn key_value(m: &Memory, edge_score: Binary64, key: Key) -> (r: Binary64)
    ensures
        forall|s: ScoreModel|
            s.edge_score == edge_score && s.consensus == rest_of_one(edge_score) && s.importance
                == m.importance ==> r == #[trigger] key.of(s),
{
    match key {
        Key::Consensus => rest(edge_score),
        Key::Divergence => edge_score,
        Key::Importance => m.importance,
    }
}

/// The scores of the memories of a class, from the highest key down.
fn list_class(
    memories: &Vec<Memory>,
    edge_scores: &Vec<Binary64>,
    counts: &Vec<usize>,
    class: FlightStatus,
    key: Key,
) -> (r: Vec<MemoryScore>)
    requires
        are_measures(memories@, edge_scores@, counts@),
    ensures
        models(r@) == class_by(memories@, class, key),
{
    let n: usize = memories.len();
    let mut at: Vec<usize> = Vec::new();
    let mut keys: Vec<Binary64> = Vec::new();
    let mut i: usize = 0;
    while i < n
        invariant
            i <= n == memories@.len(),
            are_measures(memories@, edge_scores@, counts@),
            positions(at@) == of_class(memories@, class, i as nat),
            forall|j: int| 0 <= j < at@.len() ==> #[trigger] at@[j] < n,
            keys@ == at@.map_values(|j: usize| key.of(score_model(memories@[j as int], memories@))),
        decreases n - i,
    {
        let ghost before: Seq<usize> = at@;
        let m: &Memory = &memories[i];
        assert(counts@[i as int] == neighbor_count(memories@[i as int], memories@));
        if classify(edge_scores[i], counts[i]) == class {
            let k: Binary64 = key_value(m, edge_scores[i], key);
            at.push(i);
            keys.push(k);
            proof {
                assert(positions(at@) =~= positions(before).push(i as int));
                assert(k == key.of(score_model(memories@[i as int], memories@)));
                assert(keys@ =~= at@.map_values(
                    |j: usize| key.of(score_model(memories@[j as int], memories@)),
                ));
            }
        }
        i = i + 1;
    }
    let order: Vec<usize> = rank_top(&keys, keys.len());
    proof {
        gathered(memories@, at@, order@, keys@, key, keys@.len());
        assert(positions(at@).len() == keys@.len());
    }
    gather(memories, edge_scores, counts, &at, &order)
}

/// The scores of the most divergent memories.
fn list_hottest(
    memories: &Vec<Memory>,
    edge_scores: &Vec<Binary64>,
    counts: &Vec<usize>,
) -> (r: Vec<MemoryScore>)
    requires
        are_measures(memories@, edge_scores@, counts@),
    ensures
        models(r@) == highest(
            memories@,
            all_positions(memories@.len()),
            Key::Divergence,
            HOTTEST as nat,
        ),
{
    let n: usize = memories.len();
    let mut at: Vec<usize> = Vec::new();
    let mut i: usize = 0;
    while i < n
        invariant
            i <= n,
            at@.len() == i,
            forall|j: int| 0 <= j < at@.len() ==> #[trigger] at@[j] == j,
        decreases n - i,
    {
        at.push(i);
        i = i + 1;
    }
    let order: Vec<usize> = rank_top(edge_scores, HOTTEST);
    proof {
        let key: Key = Key::Divergence;
        assert(positions(at@) =~= all_positions(n as nat));
        assert(edge_scores@ =~= at@.map_values(
            |j: usize| key.of(score_model(memories@[j as int], memories@)),
        ));
        gathered(memories@, at@, order@, edge_scores@, key, HOTTEST as nat);
    }
    gather(memories, edge_scores, counts, &at, &order)
}

/// The flight score of the graph that the memories make.
pub fn score(memories: &Vec<Memory>) -> (r: FlightScoreReport)
    requires
        memories@.len() * (memories@.len() - 1) <= 2 * usize::MAX,
    ensures
        is_report(r, memories@),
{
    let total: usize = memories.len();
    let (edge_scores, counts): (Vec<Binary64>, Vec<usize>) = measure(memories);
    let (connected, neighbor_total): (usize, u128) = connectivity(memories, &counts);
    let avg_edge_score: Binary64 = if total == 0 {
        Binary64::zero()
    } else {
        sum_of(&edge_scores).over(Binary64::of(total))
    };
    let avg_consensus: Binary64 = if total == 0 {
        Binary64::one()
    } else {
        rest(avg_edge_score)
    };
    let overall_status: FlightStatus = if total == 0 {
        FlightStatus::Crashed
    } else if Binary64::from_bits(GRAPH_LANDED_MIN).le(avg_consensus) {
        FlightStatus::Landed
    } else if Binary64::from_bits(GRAPH_FALLING_MIN).le(avg_consensus) {
        FlightStatus::Falling
    } else {
        FlightStatus::Crashed
    };
    proof {
        laws::large_powers();
    }
    let avg_neighbors: Binary64 = if connected > 0 {
        Binary64::of_wide(neighbor_total).over(Binary64::of(connected))
    } else {
        Binary64::zero()
    };
    let edge_pairs: usize = count_edge_pairs(memories);
    FlightScoreReport {
        total_memories: total,
        landed: list_class(memories, &edge_scores, &counts, FlightStatus::Landed, Key::Consensus),
        falling: list_class(memories, &edge_scores, &counts, FlightStatus::Falling, Key::Divergence),
        crashed: list_class(memories, &edge_scores, &counts, FlightStatus::Crashed, Key::Importance),
        avg_edge_score,
        avg_consensus,
        overall_status,
        topology: TopologyStats { connected, isolated: total - connected, edge_pairs, avg_neighbors },
        hottest_edges: list_hottest(memories, &edge_scores, &counts),
    }
}

// ---- Laws ----

/// A memory without neighbours is crashed, whatever its edge score.
pub proof fn isolated_memories_are_crashed(m: Memory, all: Seq<Memory>)
    requires
        neighbor_count(m, all) == 0,
    ensures
        score_model(m, all).flight_status == FlightStatus::Crashed,
        score_model(m, all).edge_score == Binary64::spec_zero(),
{
}

/// A position is listed under a class if and only if the memory there is of it.
pub proof fn of_class_is_exact(memories: Seq<Memory>, class: FlightStatus, n: nat, i: int)
    ensures
        of_class(memories, class, n).contains(i) <==> 0 <= i < n && score_model(
            memories[i],
            memories,
        ).flight_status == class,
    decreases n,
{
    if n > 0 {
        let rest: Seq<int> = of_class(memories, class, (n - 1) as nat);
        let list: Seq<int> = of_class(memories, class, n);
        of_class_is_exact(memories, class, (n - 1) as nat, i);
        if rest.contains(i) {
            let k: int = choose|k: int| 0 <= k < rest.len() && rest[k] == i;
            assert(list[k] == i);
        }
        if i == n - 1 && score_model(memories[i], memories).flight_status == class {
            assert(list[rest.len() as int] == i);
        }
        if list.contains(i) {
            let k: int = choose|k: int| 0 <= k < list.len() && list[k] == i;
            if k < rest.len() {
                assert(rest[k] == i);
            }
        }
    }
}

proof fn class_sizes(memories: Seq<Memory>, n: nat)
    requires
        n <= memories.len(),
    ensures
        of_class(memories, FlightStatus::Landed, n).len() + of_class(memories, FlightStatus::Falling, n).len()
            + of_class(memories, FlightStatus::Crashed, n).len() == n,
    decreases n,
{
    if n > 0 {
        class_sizes(memories, (n - 1) as nat);
    }
}

/// The three lists of a report hold as many scores as there are memories.
pub proof fn every_memory_is_in_one_class(r: FlightScoreReport, memories: Seq<Memory>)
    requires
        is_report(r, memories),
    ensures
        r.landed@.len() + r.falling@.len() + r.crashed@.len() == r.total_memories,
        r.topology.connected + r.topology.isolated == r.total_memories,
{
    class_sizes(memories, memories.len());
    class_has_all(memories, FlightStatus::Landed, Key::Consensus);
    class_has_all(memories, FlightStatus::Falling, Key::Divergence);
    class_has_all(memories, FlightStatus::Crashed, Key::Importance);
    assert(models(r.landed@).len() == r.landed@.len());
    assert(models(r.falling@).len() == r.falling@.len());
    assert(models(r.crashed@).len() == r.crashed@.len());
}

proof fn class_has_all(memories: Seq<Memory>, class: FlightStatus, key: Key)
    ensures
        class_by(memories, class, key).len() == of_class(memories, class, memories.len()).len(),
{
    let at: Seq<int> = of_class(memories, class, memories.len());
    let scores: Seq<ScoreModel> = at.map_values(|i: int| score_model(memories[i], memories));
    ranking::ranking_exists(scores.map_values(|s: ScoreModel| key.of(s)));
}

/// Every memory is listed under its class, whatever the key the class is ordered by.
pub proof fn every_memory_is_reported(
    memories: Seq<Memory>,
    key: Key,
    i: int,
)
    requires
        0 <= i < memories.len(),
    ensures
        class_by(memories, score_model(memories[i], memories).flight_status, key).contains(
            score_model(memories[i], memories),
        ),
{
    let class: FlightStatus = score_model(memories[i], memories).flight_status;
    let at: Seq<int> = of_class(memories, class, memories.len());
    let scores: Seq<ScoreModel> = at.map_values(|i: int| score_model(memories[i], memories));
    let keys: Seq<Binary64> = scores.map_values(|s: ScoreModel| key.of(s));
    of_class_is_exact(memories, class, memories.len(), i);
    ranking::ranking_exists(keys);
    let p: int = choose|p: int| 0 <= p < at.len() && at[p] == i;
    assert(ranking::ranking(keys).contains(p));
    let q: int = choose|q: int| 0 <= q < keys.len() && ranking::ranking(keys)[q] == p;
    assert(class_by(memories, class, key)[q] == scores[p]);
}

/// Every score listed under a class is that of a memory of the class, and none has a
/// higher key than the one before it.
pub proof fn classes_are_ordered(
    memories: Seq<Memory>,
    class: FlightStatus,
    key: Key,
    i: int,
)
    requires
        0 <= i < class_by(memories, class, key).len(),
    ensures
        class_by(memories, class, key)[i].flight_status == class,
        exists|m: int|
            0 <= m < memories.len() && class_by(memories, class, key)[i] == score_model(
                #[trigger] memories[m],
                memories,
            ),
        i > 0 ==> !key.of(class_by(memories, class, key)[i - 1]).spec_lt(
            key.of(class_by(memories, class, key)[i]),
        ),
{
    let at: Seq<int> = of_class(memories, class, memories.len());
    let scores: Seq<ScoreModel> = at.map_values(|i: int| score_model(memories[i], memories));
    let keys: Seq<Binary64> = scores.map_values(|s: ScoreModel| key.of(s));
    ranking::ranking_exists(keys);
    let p: int = ranking::ranking(keys)[i];
    assert(at.contains(at[p]));
    of_class_is_exact(memories, class, memories.len(), at[p]);
    assert(class_by(memories, class, key)[i] == score_model(memories[at[p]], memories));
    if i > 0 {
        ranking::ranking_descends(keys, i - 1, i);
        assert(class_by(memories, class, key)[i - 1] == scores[ranking::ranking(keys)[i - 1]]);
    }
}

/// No memory that is left out of the hottest diverges more than one of them.
pub proof fn hottest_are_the_most_divergent(memories: Seq<Memory>, m: int)
    requires
        0 <= m < memories.len(),
    ensures
        ({
            let hottest: Seq<ScoreModel> = highest(
                memories,
                all_positions(memories.len()),
                Key::Divergence,
                HOTTEST as nat,
            );
            ||| hottest.contains(score_model(memories[m], memories))
            ||| {
                &&& hottest.len() == HOTTEST
                &&& forall|i: int|
                    0 <= i < hottest.len() ==> !(#[trigger] hottest[i]).edge_score.spec_lt(
                        divergence(memories[m], memories),
                    )
            }
        }),
{
    let by_edge: Key = Key::Divergence;
    let at: Seq<int> = all_positions(memories.len());
    let scores: Seq<ScoreModel> = at.map_values(|i: int| score_model(memories[i], memories));
    let keys: Seq<Binary64> = scores.map_values(|s: ScoreModel| by_edge.of(s));
    let hottest: Seq<ScoreModel> = highest(memories, at, by_edge, HOTTEST as nat);
    ranking::ranking_exists(keys);
    let order: Seq<int> = ranking::ranking(keys);
    assert(at[m] == m);
    assert(order.contains(m));
    let q: int = choose|q: int| 0 <= q < order.len() && order[q] == m;
    if q < hottest.len() {
        assert(hottest[q] == scores[m]);
    } else {
        assert forall|i: int| 0 <= i < hottest.len() implies !(#[trigger] hottest[i]).edge_score.spec_lt(
            divergence(memories[m], memories),
        ) by {
            ranking::ranking_descends(keys, i, q);
            assert(hottest[i] == scores[order[i]]);
        }
    }
}

/// The average edge score and the average consensus lie between zero and one where the
/// edge scores of the memories do.
pub proof fn averages_are_in_unit_range(memories: Seq<Memory>)
    requires
        memories.len() <= 2 * HIDDEN,
        forall|i: int| 0 <= i < memories.len() ==> in_unit_range(divergence(#[trigger] memories[i], memories)),
    ensures
        in_unit_range(average_divergence(memories)),
        in_unit_range(average_consensus(memories)),
{
    if memories.len() > 0 {
        sum_is_at_most(memories, memories.len());
        laws::mean_of_many_in_unit_range(sum(divergences(memories), memories.len()), memories.len());
        laws::rest_in_unit_range(average_divergence(memories));
    }
}

proof fn sum_is_at_most(memories: Seq<Memory>, n: nat)
    requires
        n <= memories.len() <= 2 * HIDDEN,
        forall|i: int| 0 <= i < memories.len() ==> in_unit_range(divergence(#[trigger] memories[i], memories)),
    ensures
        laws::at_most(sum(divergences(memories), n), n),
    decreases n,
{
    if n == 0 {
        laws::zero_in_units();
    } else {
        sum_is_at_most(memories, (n - 1) as nat);
        assert(in_unit_range(divergence(memories[n - 1], memories)));
        laws::sum_is_at_most(
            sum(divergences(memories), (n - 1) as nat),
            (n - 1) as nat,
            divergences(memories)[n - 1],
        );
    }
}

/// In a graph of proper memories every edge score, the average edge score and the
/// average consensus lie between zero and one.
pub proof fn proper_memories_score_in_unit_range(memories: Seq<Memory>)
    requires
        memories.len() <= 2 * HIDDEN,
        forall|i: int| 0 <= i < memories.len() ==> edges::is_proper(#[trigger] memories[i]),
    ensures
        forall|i: int| 0 <= i < memories.len() ==> in_unit_range(divergence(#[trigger] memories[i], memories)),
        in_unit_range(average_divergence(memories)),
        in_unit_range(average_consensus(memories)),
{
    assert forall|i: int| 0 <= i < memories.len() implies in_unit_range(
        divergence(#[trigger] memories[i], memories),
    ) by {
        assert forall|j: int| 0 <= j < memories.len() implies in_unit_range(
            edge(memories[i], #[trigger] memories[j]),
        ) by {
            edges::edge_of_proper_memories(memories[i], memories[j]);
        }
        edges::mean_edge_is_in_unit_range(memories[i], memories);
    }
    averages_are_in_unit_range(memories);
}

proof fn some_is_close(near: Seq<(int, Binary64)>, n: nat)
    requires
        n <= near.len(),
    ensures
        close_among(near, n) > 0 <==> exists|i: int|
            0 <= i < n && (Binary64 { bits: LEAST_OVERLAP }).spec_lt((#[trigger] near[i]).1),
    decreases n,
{
    if n > 0 {
        some_is_close(near, (n - 1) as nat);
        if (Binary64 { bits: LEAST_OVERLAP }).spec_lt(near[n - 1].1) {
            assert(close_among(near, n) > 0);
        }
    }
}

/// A memory is connected if and only if another memory is its neighbour.
pub proof fn connected_memories_have_a_neighbor(m: Memory, all: Seq<Memory>)
    ensures
        neighbor_count(m, all) > 0 <==> exists|i: int|
            0 <= i < all.len() && (#[trigger] all[i]).id != m.id && are_neighbors(m, all[i]),
{
    let k: nat = NEIGHBORS_COUNTED as nat;
    let least: Binary64 = Binary64 { bits: LEAST_OVERLAP };
    let near: Seq<(int, Binary64)> = neighbors(m, all, k);
    some_is_close(near, near.len());
    if neighbor_count(m, all) > 0 {
        let j: int = choose|j: int| 0 <= j < near.len() && least.spec_lt((#[trigger] near[j]).1);
        edges::neighbors_are_related(m, all, k, j);
        let i: int = near[j].0;
        assert(all[i].id != m.id && are_neighbors(m, all[i]));
    }
    if exists|i: int| 0 <= i < all.len() && (#[trigger] all[i]).id != m.id && are_neighbors(m, all[i]) {
        let i: int = choose|i: int|
            0 <= i < all.len() && (#[trigger] all[i]).id != m.id && are_neighbors(m, all[i]);
        edges::neighbors_are_nearest(m, all, k, i);
        if exists|j: int| 0 <= j < near.len() && (#[trigger] near[j]).0 == i {
            let j: int = choose|j: int| 0 <= j < near.len() && (#[trigger] near[j]).0 == i;
            edges::neighbors_are_related(m, all, k, j);
            assert(least.spec_lt(near[j].1));
        } else {
            assert(overlap(m, all[i]).spec_le(near[0].1));
            assert(least.spec_lt(near[0].1));
        }
    }
}

/// The positions of the other memories that are neighbours of a memory, with an overlap
/// above 0.05.
pub open spec fn all_neighbors(m: Memory, all: Seq<Memory>) -> Set<int> {
    Set::new(|i: int| 0 <= i < all.len() && all[i].id != m.id && are_neighbors(m, all[i]))
}

/// The positions of those of the first `n` nearest memories that overlap by more than
/// 0.05.
spec fn close_positions(near: Seq<(int, Binary64)>, n: nat) -> Set<int> {
    Set::new(
        |p: int|
            exists|i: int|
                0 <= i < n && (#[trigger] near[i]).0 == p && (Binary64 { bits: LEAST_OVERLAP }).spec_lt(
                    near[i].1,
                ),
    )
}

proof fn close_positions_are_counted(near: Seq<(int, Binary64)>, n: nat)
    requires
        n <= near.len(),
        forall|i: int, j: int| 0 <= i < j < near.len() ==> (#[trigger] near[i]).0 != (#[trigger] near[j]).0,
    ensures
        close_positions(near, n).finite(),
        close_positions(near, n).len() == close_among(near, n),
    decreases n,
{
    let now: Set<int> = close_positions(near, n);
    if n == 0 {
        assert(now =~= Set::empty());
    } else {
        let before: Set<int> = close_positions(near, (n - 1) as nat);
        close_positions_are_counted(near, (n - 1) as nat);
        let last: (int, Binary64) = near[n - 1];
        assert(!before.contains(last.0));
        assert forall|p: int| before.contains(p) implies now.contains(p) by {
            let i: int = choose|i: int|
                0 <= i < n - 1 && (#[trigger] near[i]).0 == p && (Binary64 { bits: LEAST_OVERLAP }).spec_lt(
                    near[i].1,
                );
            assert(near[i].0 == p);
        }
        if (Binary64 { bits: LEAST_OVERLAP }).spec_lt(last.1) {
            assert(now =~= before.insert(last.0));
        } else {
            assert(now =~= before);
        }
    }
}

proof fn all_are_close(near: Seq<(int, Binary64)>, n: nat)
    requires
        n <= near.len(),
        forall|i: int|
            0 <= i < near.len() ==> (Binary64 { bits: LEAST_OVERLAP }).spec_lt((#[trigger] near[i]).1),
    ensures
        close_among(near, n) == n,
    decreases n,
{
    if n > 0 {
        all_are_close(near, (n - 1) as nat);
    }
}

/// The number of neighbours of a memory is the number of other memories that overlap with
/// it by more than 0.05, as far as ten.
pub proof fn neighbors_are_counted_up_to_ten(m: Memory, all: Seq<Memory>)
    ensures
        all_neighbors(m, all).finite(),
        neighbor_count(m, all) == (if all_neighbors(m, all).len() <= NEIGHBORS_COUNTED {
            all_neighbors(m, all).len()
        } else {
            NEIGHBORS_COUNTED as nat
        }),
{
    let k: nat = NEIGHBORS_COUNTED as nat;
    let least: Binary64 = Binary64 { bits: LEAST_OVERLAP };
    let near: Seq<(int, Binary64)> = neighbors(m, all, k);
    let listed: Set<int> = close_positions(near, near.len());
    let others: Set<int> = all_neighbors(m, all);
    let range: Set<int> = vstd::set_lib::set_int_range(0, all.len() as int);
    vstd::set_lib::lemma_int_range(0, all.len() as int);
    vstd::set_lib::lemma_len_subset(others, range);
    edges::neighbors_are_distinct(m, all, k);
    close_positions_are_counted(near, near.len());
    assert forall|p: int| listed.contains(p) implies others.contains(p) by {
        let i: int = choose|i: int| 0 <= i < near.len() && (#[trigger] near[i]).0 == p && least.spec_lt(near[i].1);
        edges::neighbors_are_related(m, all, k, i);
    }
    if forall|p: int| others.contains(p) ==> listed.contains(p) {
        assert(listed =~= others);
        close_among_is_at_most(near, near.len());
    } else {
        let p: int = choose|p: int| others.contains(p) && !listed.contains(p);
        edges::neighbors_are_nearest(m, all, k, p);
        if exists|i: int| 0 <= i < near.len() && (#[trigger] near[i]).0 == p {
            let i: int = choose|i: int| 0 <= i < near.len() && (#[trigger] near[i]).0 == p;
            edges::neighbors_are_related(m, all, k, i);
            assert(listed.contains(p));
        }
        all_are_close(near, near.len());
        vstd::set_lib::lemma_len_subset(listed.insert(p), others);
    }
}

proof fn close_among_is_at_most(near: Seq<(int, Binary64)>, n: nat)
    ensures
        close_among(near, n) <= n,
    decreases n,
{
    if n > 0 {
        close_among_is_at_most(near, (n - 1) as nat);
    }
}

/// The pairs of positions below `n`, each once.
spec fn pairs_below(n: nat) -> Set<(int, int)> {
    Set::new(|p: (int, int)| 0 <= p.0 < p.1 < n)
}

proof fn pairs_below_are_half_of_all(n: nat)
    ensures
        pairs_below(n).finite(),
        2 * pairs_below(n).len() == n * (n - 1),
    decreases n,
{
    if n == 0 {
        assert(pairs_below(n) =~= Set::empty());
    } else {
        let m: nat = (n - 1) as nat;
        pairs_below_are_half_of_all(m);
        pairs_with_last(m, m);
        let last: Set<(int, int)> = Set::new(|p: (int, int)| 0 <= p.0 < m && p.1 == m);
        assert(pairs_below(n) =~= pairs_below(m).union(last));
        assert(pairs_below(m).disjoint(last));
        vstd::set_lib::lemma_set_disjoint_lens(pairs_below(m), last);
        assert(n * (n - 1) == m * (m - 1) + 2 * m) by (nonlinear_arith)
            requires
                n == m + 1,
        ;
    }
}

/// There are as many pairs of a position below `n` with `last` as there are positions.
proof fn pairs_with_last(n: nat, last: nat)
    ensures
        Set::new(|p: (int, int)| 0 <= p.0 < n && p.1 == last).finite(),
        Set::new(|p: (int, int)| 0 <= p.0 < n && p.1 == last).len() == n,
    decreases n,
{
    let pairs: Set<(int, int)> = Set::new(|p: (int, int)| 0 <= p.0 < n && p.1 == last);
    if n == 0 {
        assert(pairs =~= Set::empty());
    } else {
        let m: nat = (n - 1) as nat;
        pairs_with_last(m, last);
        let fewer: Set<(int, int)> = Set::new(|p: (int, int)| 0 <= p.0 < m && p.1 == last);
        assert(pairs =~= fewer.insert((m as int, last as int)));
    }
}

/// There are no more pairs of neighbours than there are pairs of memories.
pub proof fn neighbor_pairs_are_at_most_all_pairs(memories: Seq<Memory>)
    ensures
        neighbor_pairs(memories).finite(),
        2 * neighbor_pairs(memories).len() <= memories.len() * (memories.len() - 1),
{
    pairs_below_are_half_of_all(memories.len());
    vstd::set_lib::lemma_len_subset(neighbor_pairs(memories), pairs_below(memories.len()));
}

/// Does `order` hold the positions below `n`, each once?
pub open spec fn is_permutation(order: Seq<int>, n: nat) -> bool {
    &&& order.len() == n
    &&& order.no_duplicates()
    &&& forall|i: int| 0 <= i < n ==> 0 <= #[trigger] order[i] < n
}

/// The memories in another order.
pub open spec fn rearranged(memories: Seq<Memory>, order: Seq<int>) -> Seq<Memory> {
    order.map_values(|i: int| memories[i])
}

proof fn permutations_hold_every_position(order: Seq<int>, n: nat, k: int)
    requires
        is_permutation(order, n),
        0 <= k < n,
    ensures
        order.contains(k),
{
    let all: Set<int> = vstd::set_lib::set_int_range(0, n as int);
    vstd::set_lib::lemma_int_range(0, n as int);
    order.unique_seq_to_set();
    assert forall|x: int| order.to_set().contains(x) implies all.contains(x) by {
        let i: int = choose|i: int| 0 <= i < order.len() && order[i] == x;
        assert(0 <= order[i] < n);
    }
    vstd::set_lib::lemma_subset_equality(order.to_set(), all);
    assert(all.contains(k));
}

/// Where the pair at two positions of another order stands among the memories.
spec fn original_pair(order: Seq<int>, p: (int, int)) -> (int, int) {
    if order[p.0] < order[p.1] {
        (order[p.0], order[p.1])
    } else {
        (order[p.1], order[p.0])
    }
}

/// The number of pairs of neighbours does not depend on the order of the memories.
pub proof fn neighbor_pairs_are_as_many_in_any_order(memories: Seq<Memory>, order: Seq<int>)
    requires
        is_permutation(order, memories.len()),
    ensures
        neighbor_pairs(rearranged(memories, order)).len() == neighbor_pairs(memories).len(),
{
    let n: nat = memories.len();
    let moved: Seq<Memory> = rearranged(memories, order);
    let x: Set<(int, int)> = neighbor_pairs(moved);
    let y: Set<(int, int)> = neighbor_pairs(memories);
    let f: spec_fn((int, int)) -> (int, int) = |p: (int, int)| original_pair(order, p);
    neighbor_pairs_are_at_most_all_pairs(moved);
    assert forall|p: (int, int), q: (int, int)|
        x.contains(p) && x.contains(q) && #[trigger] f(p) == #[trigger] f(q) implies p == q by {
        assert(order[p.0] == order[q.0] && order[p.1] == order[q.1] || order[p.0] == order[q.1]
            && order[p.1] == order[q.0]);
    }
    assert forall|p: (int, int)| x.contains(p) implies y.contains(#[trigger] f(p)) by {
        assert(order[p.0] != order[p.1]);
        assert(moved[p.0] == memories[order[p.0]] && moved[p.1] == memories[order[p.1]]);
        edges::edge_is_symmetric(moved[p.0], moved[p.1]);
    }
    assert forall|q: (int, int)| y.contains(q) implies exists|p: (int, int)|
        x.contains(p) && #[trigger] f(p) == q by {
        permutations_hold_every_position(order, n, q.0);
        permutations_hold_every_position(order, n, q.1);
        let i: int = choose|i: int| 0 <= i < n && order[i] == q.0;
        let j: int = choose|j: int| 0 <= j < n && order[j] == q.1;
        assert(moved[i] == memories[q.0] && moved[j] == memories[q.1]);
        edges::edge_is_symmetric(moved[i], moved[j]);
        let p: (int, int) = if i < j {
            (i, j)
        } else {
            (j, i)
        };
        assert(x.contains(p));
        assert(f(p) == q);
    }
    assert(x.map(f) =~= y);
    vstd::set_lib::lemma_map_size(x, y, f);
}

/// A graph with memories has landed from an average consensus of 0.70 on, falls from 0.40
/// on, and has crashed below; an empty one has crashed.
pub proof fn the_class_of_the_graph_is_decided_by_its_consensus(r: FlightScoreReport, memories: Seq<Memory>)
    requires
        is_report(r, memories),
    ensures
        ({
            let high: bool = (Binary64 { bits: 0x3fe6_6666_6666_6666 }).spec_le(r.avg_consensus);
            let middle: bool = (Binary64 { bits: 0x3fd9_9999_9999_999a }).spec_le(r.avg_consensus);
            &&& r.total_memories == memories.len()
            &&& r.total_memories > 0 ==> {
                &&& r.overall_status == FlightStatus::Landed <==> high
                &&& r.overall_status == FlightStatus::Falling <==> middle && !high
                &&& r.overall_status == FlightStatus::Crashed <==> !middle
            }
            &&& r.total_memories == 0 ==> r.overall_status == FlightStatus::Crashed && r.avg_edge_score == (
            Binary64 { bits: 0 }) && r.avg_consensus == (Binary64 { bits: 0x3ff0_0000_0000_0000 })
        }),
{
}

/// The average edge score is what the edge scores of all memories add up to, one by one, over
/// their number, and the average consensus is what that leaves of one.
pub proof fn the_averages_are_over_all_memories(r: FlightScoreReport, memories: Seq<Memory>)
    requires
        is_report(r, memories),
        memories.len() > 0,
    ensures
        ({
            let scores: Seq<Binary64> = Seq::new(
                memories.len(),
                |i: int| score_model(memories[i], memories).edge_score,
            );
            exists|sums: Seq<Binary64>|
                {
                    &&& #[trigger] laws::are_running_sums(sums, Binary64 { bits: 0 }, scores)
                    &&& r.avg_edge_score == sums.last().spec_over(Binary64::spec_of(memories.len()))
                }
        }),
        is_rest_of_one(r.avg_consensus, r.avg_edge_score),
{
    let scores: Seq<Binary64> = Seq::new(
        memories.len(),
        |i: int| score_model(memories[i], memories).edge_score,
    );
    let sums: Seq<Binary64> = Seq::new(memories.len() + 1, |i: int| sum(divergences(memories), i as nat));
    assert forall|i: int| 0 <= i < memories.len() implies #[trigger] sums[i + 1] == sums[i].spec_plus(
        scores[i],
    ) by {}
    assert(laws::are_running_sums(sums, Binary64 { bits: 0 }, scores));
}

/// Is `r` what the number leaves of one, moved between zero and one? A NaN stays one.
pub open spec fn is_rest_of_one(r: Binary64, x: Binary64) -> bool {
    let rest: Binary64 = (Binary64 { bits: 0x3ff0_0000_0000_0000 }).spec_minus(x);
    &&& rest.is_nan() ==> r == rest
    &&& rest.spec_lt(Binary64 { bits: 0 }) ==> r == (Binary64 { bits: 0 })
    &&& (Binary64 { bits: 0x3ff0_0000_0000_0000 }).spec_lt(rest) ==> r == (Binary64 {
        bits: 0x3ff0_0000_0000_0000,
    })
    &&& in_unit_range(rest) ==> r == rest
}

/// A memory has landed with an edge score up to 0.30, falls up to 0.60, and has crashed above
/// that, or where it has no neighbour.
pub proof fn the_class_of_a_memory_is_decided(edge_score: Binary64, neighbor_count: nat)
    ensures
        ({
            let class: FlightStatus = flight_class(edge_score, neighbor_count);
            let low: bool = edge_score.spec_le(Binary64 { bits: 0x3fd3_3333_3333_3333 });
            let middle: bool = edge_score.spec_le(Binary64 { bits: 0x3fe3_3333_3333_3333 });
            &&& class == FlightStatus::Landed <==> neighbor_count > 0 && low
            &&& class == FlightStatus::Falling <==> neighbor_count > 0 && middle && !low
            &&& class == FlightStatus::Crashed <==> neighbor_count == 0 || !middle
        }),
{
}

/// What is reported of a memory: what it says, the mean of its edges to its nearest
/// neighbours, what that leaves of one, its neighbours, and the class that these make.
pub proof fn the_score_of_a_memory_is_that_of_its_edges(m: Memory, all: Seq<Memory>)
    ensures
        ({
            let s: ScoreModel = score_model(m, all);
            &&& s.id == m.id
            &&& s.source == m.source@
            &&& s.collection == m.collection@
            &&& s.topics == texts(m.topics@)
            &&& s.importance == m.importance
            &&& s.neighbor_count == (if all_neighbors(m, all).len() <= 10 {
                all_neighbors(m, all).len()
            } else {
                10
            })
            &&& s.edge_score == (if all_neighbors(m, all).len() > 0 {
                mean_edge(m, all)
            } else {
                Binary64 { bits: 0 }
            })
            &&& is_rest_of_one(s.consensus, s.edge_score)
            &&& s.flight_status == flight_class(s.edge_score, s.neighbor_count)
        }),
{
    neighbors_are_counted_up_to_ten(m, all);
}

/// Memories are neighbours where they overlap by more than 0.05.
pub proof fn neighbors_overlap_by_more_than_the_least(a: Memory, b: Memory)
    ensures
        are_neighbors(a, b) <==> (Binary64 { bits: 0x3fa9_9999_9999_999a }).spec_lt(overlap(a, b)),
{
}

/// The neighbours of a memory are the other memories that overlap with it by more than 0.05.
pub proof fn the_neighbors_are_all_that_overlap(m: Memory, all: Seq<Memory>, i: int)
    ensures
        all_neighbors(m, all).contains(i) <==> 0 <= i < all.len() && all[i].id != m.id && (Binary64 {
            bits: 0x3fa9_9999_9999_999a,
        }).spec_lt(overlap(m, all[i])),
{
}

/// The pairs that are counted are those of two positions whose memories overlap by more than
/// 0.05.
pub proof fn the_pairs_are_all_that_overlap(memories: Seq<Memory>, i: int, j: int)
    ensures
        neighbor_pairs(memories).contains((i, j)) <==> 0 <= i < j < memories.len() && (Binary64 {
            bits: 0x3fa9_9999_9999_999a,
        }).spec_lt(overlap(memories[i], memories[j])),
{
}

proof fn connected_are_counted(memories: Seq<Memory>, n: nat)
    ensures
        connected_count(memories, n) == math::those_below(
            n,
            |i: int| score_model(memories[i], memories).neighbor_count > 0,
        ).len(),
    decreases n,
{
    let p = |i: int| score_model(memories[i], memories).neighbor_count > 0;
    if n > 0 {
        connected_are_counted(memories, (n - 1) as nat);
        math::one_more_below((n - 1) as nat, p);
    } else {
        math::one_more_below(0, p);
    }
}

/// The connectivity of the graph: the memories with a neighbour, those with none, the pairs,
/// and the neighbours of all memories over the number of those that have any.
pub proof fn connectivity_is_counted(r: FlightScoreReport, memories: Seq<Memory>)
    requires
        is_report(r, memories),
    ensures
        ({
            let connected: nat = math::those_below(
                memories.len(),
                |i: int| score_model(memories[i], memories).neighbor_count > 0,
            ).len();
            &&& r.topology.connected == connected
            &&& r.topology.isolated + connected == memories.len()
            &&& r.topology.edge_pairs == neighbor_pairs(memories).len()
            &&& connected == 0 ==> r.topology.avg_neighbors == (Binary64 { bits: 0 })
            &&& connected > 0 ==> exists|sums: Seq<nat>|
                {
                    &&& #[trigger] are_neighbor_sums(sums, memories)
                    &&& r.topology.avg_neighbors == Binary64::spec_of(sums.last()).spec_over(
                        Binary64::spec_of(connected),
                    )
                }
        }),
{
    let n: nat = memories.len();
    connected_are_counted(memories, n);
    let sums: Seq<nat> = Seq::new(n + 1, |i: int| neighbor_sum(memories, i as nat));
    assert forall|i: int| 0 <= i < n implies #[trigger] sums[i + 1] == sums[i] + score_model(
        memories[i],
        memories,
    ).neighbor_count by {}
    assert(are_neighbor_sums(sums, memories));
}

/// Do the sums go through the memories, one by one, and grow by the neighbours of each?
pub open spec fn are_neighbor_sums(sums: Seq<nat>, memories: Seq<Memory>) -> bool {
    &&& sums.len() == memories.len() + 1
    &&& sums[0] == 0
    &&& forall|i: int|
        0 <= i < memories.len() ==> #[trigger] sums[i + 1] == sums[i] + score_model(
            memories[i],
            memories,
        ).neighbor_count
}

/// Are these the positions of the memories of a class, each once, those of the highest key
/// first, and those of the same key in their order?
pub open spec fn are_of_class(at: Seq<int>, memories: Seq<Memory>, class: FlightStatus, key: Key) -> bool {
    let keys: Seq<Binary64> = Seq::new(memories.len(), |i: int| key.of(score_model(memories[i], memories)));
    &&& forall|i: int|
        #[trigger] at.contains(i) <==> 0 <= i < memories.len() && score_model(
            memories[i],
            memories,
        ).flight_status == class
    &&& forall|x: int, y: int|
        0 <= x < y < at.len() ==> ranking::comes_no_later(keys, #[trigger] at[x], #[trigger] at[y])
}

proof fn of_class_is_in_order(memories: Seq<Memory>, class: FlightStatus, n: nat)
    ensures
        ({
            let at: Seq<int> = of_class(memories, class, n);
            &&& forall|x: int| 0 <= x < at.len() ==> 0 <= #[trigger] at[x] < n
            &&& forall|x: int, y: int| 0 <= x < y < at.len() ==> at[x] < at[y]
        }),
    decreases n,
{
    if n > 0 {
        let rest: Seq<int> = of_class(memories, class, (n - 1) as nat);
        let at: Seq<int> = of_class(memories, class, n);
        of_class_is_in_order(memories, class, (n - 1) as nat);
        assert forall|x: int, y: int| 0 <= x < y < at.len() implies at[x] < at[y] by {
            assert(rest[x] < n - 1);
        }
        assert forall|x: int| 0 <= x < at.len() implies 0 <= #[trigger] at[x] < n by {
            if x < rest.len() {
                assert(rest[x] < n - 1);
            }
        }
    }
}

/// The scores of a class are those of its memories, each once, from the highest key down.
pub proof fn the_scores_of_a_class_are_listed_once(
    memories: Seq<Memory>,
    class: FlightStatus,
    key: Key,
)
    ensures
        exists|at: Seq<int>|
            {
                &&& #[trigger] are_of_class(at, memories, class, key)
                &&& class_by(memories, class, key).len() == at.len()
                &&& forall|q: int|
                    0 <= q < at.len() ==> #[trigger] class_by(memories, class, key)[q] == score_model(
                        memories[at[q]],
                        memories,
                    )
            },
{
    let held: Seq<int> = of_class(memories, class, memories.len());
    let scores: Seq<ScoreModel> = held.map_values(|i: int| score_model(memories[i], memories));
    let few: Seq<Binary64> = scores.map_values(|s: ScoreModel| key.of(s));
    let keys: Seq<Binary64> = Seq::new(memories.len(), |i: int| key.of(score_model(memories[i], memories)));
    let order: Seq<int> = ranking::ranking(few);
    let at: Seq<int> = Seq::new(order.len(), |q: int| held[order[q]]);
    ranking::ranking_exists(few);
    ranking::the_highest_are_taken(few, few.len());
    of_class_is_in_order(memories, class, memories.len());
    assert forall|i: int|
        #[trigger] at.contains(i) <==> 0 <= i < memories.len() && score_model(
            memories[i],
            memories,
        ).flight_status == class by {
        of_class_is_exact(memories, class, memories.len(), i);
        if at.contains(i) {
            let q: int = choose|q: int| 0 <= q < at.len() && at[q] == i;
            assert(held[order[q]] == i);
            assert(held.contains(i));
        }
        if held.contains(i) {
            let p: int = choose|p: int| 0 <= p < held.len() && held[p] == i;
            assert(order.contains(p));
            let q: int = choose|q: int| 0 <= q < order.len() && order[q] == p;
            assert(at[q] == i);
        }
    }
    assert forall|x: int, y: int| 0 <= x < y < at.len() implies ranking::comes_no_later(
        keys,
        #[trigger] at[x],
        #[trigger] at[y],
    ) by {
        assert(ranking::comes_no_later(few, order[x], order[y]));
        assert(few[order[x]] == keys[at[x]] && few[order[y]] == keys[at[y]]);
        if order[x] < order[y] {
            assert(held[order[x]] < held[order[y]]);
        }
    }
    assert(are_of_class(at, memories, class, key));
}

/// The report lists landed memories by consensus, falling ones by their edge score, and
/// crashed ones by importance.
pub proof fn the_lists_of_the_report_are_these(r: FlightScoreReport, memories: Seq<Memory>)
    requires
        is_report(r, memories),
    ensures
        models(r.landed@) == class_by(memories, FlightStatus::Landed, Key::Consensus),
        models(r.falling@) == class_by(memories, FlightStatus::Falling, Key::Divergence),
        models(r.crashed@) == class_by(memories, FlightStatus::Crashed, Key::Importance),
        forall|s: ScoreModel|
            #![trigger Key::Consensus.of(s)]
            Key::Consensus.of(s) == s.consensus,
        forall|s: ScoreModel|
            #![trigger Key::Divergence.of(s)]
            Key::Divergence.of(s) == s.edge_score,
        forall|s: ScoreModel|
            #![trigger Key::Importance.of(s)]
            Key::Importance.of(s) == s.importance,
{
}

/// The hottest memories are the five of the highest edge score, from the highest down.
pub proof fn the_hottest_are_the_five_most_divergent(r: FlightScoreReport, memories: Seq<Memory>)
    requires
        is_report(r, memories),
    ensures
        ({
            let scores: Seq<Binary64> = Seq::new(
                memories.len(),
                |i: int| score_model(memories[i], memories).edge_score,
            );
            exists|at: Seq<int>|
                {
                    &&& #[trigger] ranking::are_highest(scores, 5, at)
                    &&& r.hottest_edges@.len() == at.len()
                    &&& forall|q: int|
                        0 <= q < at.len() ==> (#[trigger] r.hottest_edges@[q])@ == score_model(
                            memories[at[q]],
                            memories,
                        )
                }
        }),
{
    let by_edge: Key = Key::Divergence;
    let scores: Seq<Binary64> = Seq::new(
        memories.len(),
        |i: int| score_model(memories[i], memories).edge_score,
    );
    let all: Seq<int> = all_positions(memories.len());
    let listed: Seq<ScoreModel> = all.map_values(|i: int| score_model(memories[i], memories));
    let keys: Seq<Binary64> = listed.map_values(|s: ScoreModel| by_edge.of(s));
    assert(keys =~= scores);
    let at: Seq<int> = top(keys, 5);
    ranking::the_highest_are_taken(scores, 5);
    let hottest: Seq<ScoreModel> = highest(memories, all, by_edge, 5);
    assert(models(r.hottest_edges@).len() == r.hottest_edges@.len());
    assert forall|q: int| 0 <= q < at.len() implies (#[trigger] r.hottest_edges@[q])@ == score_model(
        memories[at[q]],
        memories,
    ) by {
        assert(models(r.hottest_edges@)[q] == hottest[q]);
        assert(0 <= at[q] < scores.len());
    }
}

/// A score says what stands in its fields.
pub proof fn scores_say_what_they_hold(s: MemoryScore, list: Seq<MemoryScore>, i: int)
    ensures
        s@.id == s.id,
        s@.source == s.source@,
        s@.collection == s.collection@,
        s@.topics == texts(s.topics@),
        s@.edge_score == s.edge_score,
        s@.consensus == s.consensus,
        s@.neighbor_count == s.neighbor_count,
        s@.flight_status == s.flight_status,
        s@.importance == s.importance,
        models(list).len() == list.len(),
        0 <= i < list.len() ==> models(list)[i] == list[i]@,
{
}

/// A consensus from 0.70 on has landed, one from 0.40 on falls, and one below has crashed.
pub proof fn the_class_of_a_consensus_is_decided(consensus: Binary64)
    ensures
        ({
            let class: FlightStatus = consensus_class(consensus);
            let high: bool = (Binary64 { bits: 0x3fe6_6666_6666_6666 }).spec_le(consensus);
            let middle: bool = (Binary64 { bits: 0x3fd9_9999_9999_999a }).spec_le(consensus);
            &&& class == FlightStatus::Landed <==> high
            &&& class == FlightStatus::Falling <==> middle && !high
            &&& class == FlightStatus::Crashed <==> !middle
        }),
{
}

} // verus!
