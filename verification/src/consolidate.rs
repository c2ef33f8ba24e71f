//! Consolidation: what a cycle over the memories that wait for it finds, asks and keeps.
//!
//! A cycle takes the unconsolidated memories, detects the edges between them, has the
//! language model describe the strong ones and synthesize an insight, and stores both.

use crate::binary64::laws::in_unit_range;
use crate::binary64::{laws, Binary64, HIDDEN};
use crate::db::{Connection_, Memory};
use crate::decimal::{fixed, integer, push_fixed, push_integer};
use crate::edges::{all_edges, detect_all_edges, edge};
use crate::edges;
use crate::text::{joined, push_joined, text_if_any, texts};
use crate::text;
use vstd::prelude::*;

verus! {

/// 0.6: edges above this are described in words.
pub const DESCRIBED_ABOVE: u64 = 0x3fe3_3333_3333_3333;

/// The least number of memories that a cycle takes.
pub const LEAST_MEMORIES: usize = 2;

/// The number of edges that a cycle keeps as connections, and shows to the language
/// model.
pub const STRONGEST: usize = 10;

/// What the prompt for an insight begins with.
pub const INSIGHT_TASK: &'static str = "You are a memory consolidation agent. Your job is like the brain during sleep:\nreview memories, find connections, compress related information, and generate insights.\n\nPay special attention to \"edges\" — places where related memories DIVERGE in perspective\nor approach. These boundaries are where the most interesting insights live.\n\nMemories to consolidate:\n";

/// What the prompt for an insight ends with.
pub const INSIGHT_FORM: &'static str = "\n\nProduce a concise consolidation report:\n1. Key connections between memories\n2. Cross-cutting themes\n3. Tensions or contradictions (high-edge-score pairs)\n4. One actionable insight that emerges from the synthesis\n\nBe direct and specific. Reference memory IDs.";

/// What the list of edges is headed by.
pub const BOUNDARIES: &'static str = "\nDetected knowledge boundaries (high edge scores = related but divergent):\n";

/// What the prompt for a description begins with.
pub const DESCRIPTION_TASK: &'static str = "In one sentence, describe the relationship between these two pieces of information.\nFocus on where they connect AND where they diverge.\n\nA: ";

/// The result of a cycle.
#[derive(Debug)]
pub struct ConsolidationResult {
    pub consolidation_id: i64,
    pub memories_processed: usize,
    pub edges_detected: usize,
    pub avg_edge_score: Binary64,
    pub insight: String,
}

/// Does the result say that nothing was done?
pub open spec fn is_idle(r: ConsolidationResult) -> bool {
    &&& r.consolidation_id == 0
    &&& r.memories_processed == 0
    &&& r.edges_detected == 0
    &&& r.avg_edge_score == Binary64::spec_zero()
    &&& r.insight@.len() == 0
}

impl Default for ConsolidationResult {
    fn default() -> (r: ConsolidationResult)
        ensures
            is_idle(r),
    {
        ConsolidationResult {
            consolidation_id: 0,
            memories_processed: 0,
            edges_detected: 0,
            avg_edge_score: Binary64::zero(),
            insight: String::new(),
        }
    }
}

/// What a cycle is to do.
#[derive(Debug)]
pub struct ConsolidationPlan {
    /// The memories that it takes.
    pub memory_ids: Vec<i64>,
    /// The edges between them, the highest score first.
    pub edges: Vec<(i64, i64, Binary64)>,
    /// For each edge the prompt that asks for its description, if it is to have one.
    pub descriptions: Vec<Option<String>>,
    /// The prompt that asks for the insight.
    pub insight_prompt: String,
    /// The strongest edges.
    pub connections: Vec<Connection_>,
    /// The mean score of the edges.
    pub avg_edge_score: Binary64,
}

/// Do enough memories wait for the timer to start a cycle?
pub fn is_due(waiting: usize, min_unconsolidated: usize) -> (r: bool)
    ensures
        r == (waiting >= min_unconsolidated),
{
    waiting >= min_unconsolidated
}

// ---- The insight ----

/// The line that shows a memory to the language model.
pub open spec fn memory_line(m: Memory) -> Seq<char> {
    "Memory #"@ + integer(m.id as int) + ": [topics: "@ + joined(texts(m.topics@), ", "@)
        + "] [importance: "@ + fixed(m.importance, 1) + "] "@ + m.summary@ + "\n"@
}

/// The lines that show the first `n` memories.
pub open spec fn memory_lines(memories: Seq<Memory>, n: nat) -> Seq<char>
    decreases n,
{
    if n == 0 {
        Seq::empty()
    } else {
        memory_lines(memories, (n - 1) as nat) + memory_line(memories[n - 1])
    }
}

/// The line that shows an edge to the language model.
pub open spec fn edge_line(e: (i64, i64, Binary64)) -> Seq<char> {
    "  Memory #"@ + integer(e.0 as int) + " <-> Memory #"@ + integer(e.1 as int) + ": edge_score="@ + fixed(
        e.2,
        3,
    ) + "\n"@
}

/// The lines that show the first `n` edges.
pub open spec fn edge_lines(found: Seq<(i64, i64, Binary64)>, n: nat) -> Seq<char>
    decreases n,
{
    if n == 0 {
        Seq::empty()
    } else {
        edge_lines(found, (n - 1) as nat) + edge_line(found[n - 1])
    }
}

/// How many of the edges are the strongest.
pub open spec fn strongest(found: Seq<(i64, i64, Binary64)>) -> nat {
    if found.len() < STRONGEST {
        found.len()
    } else {
        STRONGEST as nat
    }
}

/// What the language model is shown: the memories, and where there are edges, the
/// strongest of them.
pub open spec fn insight_context(memories: Seq<Memory>, found: Seq<(i64, i64, Binary64)>) -> Seq<char> {
    let lines: Seq<char> = memory_lines(memories, memories.len());
    if found.len() == 0 {
        lines
    } else {
        lines + BOUNDARIES@ + edge_lines(found, strongest(found))
    }
}

/// The prompt that asks for an insight.
pub open spec fn insight_request(memories: Seq<Memory>, found: Seq<(i64, i64, Binary64)>) -> Seq<char> {
    INSIGHT_TASK@ + insight_context(memories, found) + INSIGHT_FORM@
}

fn push_memory_line(text: &mut String, m: &Memory)
    ensures
        final(text)@ == old(text)@ + memory_line(*m),
{
    text.append("Memory #");
    push_integer(text, m.id);
    text.append(": [topics: ");
    push_joined(text, &m.topics, ", ");
    text.append("] [importance: ");
    push_fixed(text, m.importance, 1);
    text.append("] ");
    text.append(m.summary.as_str());
    text.append("\n");
    assert(text@ =~= old(text)@ + memory_line(*m));
}

fn push_edge_line(text: &mut String, e: &(i64, i64, Binary64))
    ensures
        final(text)@ == old(text)@ + edge_line(*e),
{
    text.append("  Memory #");
    push_integer(text, e.0);
    text.append(" <-> Memory #");
    push_integer(text, e.1);
    text.append(": edge_score=");
    push_fixed(text, e.2, 3);
    text.append("\n");
    assert(text@ =~= old(text)@ + edge_line(*e));
}

/// The prompt that asks for an insight from memories and the edges between them.
pub fn insight_prompt(memories: &Vec<Memory>, found: &Vec<(i64, i64, Binary64)>) -> (r: String)
    ensures
        r@ == insight_request(memories@, found@),
{
    let mut r: String = INSIGHT_TASK.to_string();
    let n: usize = memories.len();
    let mut i: usize = 0;
    assert(r@ =~= INSIGHT_TASK@ + memory_lines(memories@, 0));
    while i < n
        invariant
            i <= n == memories@.len(),
            r@ == INSIGHT_TASK@ + memory_lines(memories@, i as nat),
        decreases n - i,
    {
        push_memory_line(&mut r, &memories[i]);
        assert(r@ =~= INSIGHT_TASK@ + memory_lines(memories@, (i + 1) as nat));
        i = i + 1;
    }
    if found.len() > 0 {
        r.append(BOUNDARIES);
        let ghost head: Seq<char> = r@;
        let k: usize = if found.len() < STRONGEST {
            found.len()
        } else {
            STRONGEST
        };
        let mut j: usize = 0;
        assert(r@ =~= head + edge_lines(found@, 0));
        while j < k
            invariant
                j <= k <= found@.len(),
                r@ == head + edge_lines(found@, j as nat),
            decreases k - j,
        {
            push_edge_line(&mut r, &found[j]);
            assert(r@ =~= head + edge_lines(found@, (j + 1) as nat));
            j = j + 1;
        }
        assert(r@ =~= INSIGHT_TASK@ + insight_context(memories@, found@));
    }
    r.append(INSIGHT_FORM);
    r
}

// ---- The description of an edge ----

/// The first position at or after `from` of the memory with the given id.
pub open spec fn position_of_id(memories: Seq<Memory>, id: i64, from: nat) -> Option<nat>
    decreases memories.len() - from,
{
    if from >= memories.len() {
        None
    } else if memories[from as int].id == id {
        Some(from)
    } else {
        position_of_id(memories, id, from + 1)
    }
}

/// The prompt that asks how two memories relate; none where one of them is missing.
pub open spec fn description_request(memories: Seq<Memory>, a: i64, b: i64) -> Option<Seq<char>> {
    match (position_of_id(memories, a, 0), position_of_id(memories, b, 0)) {
        (Some(i), Some(j)) => Some(
            DESCRIPTION_TASK@ + memories[i as int].summary@ + "\nB: "@ + memories[j as int].summary@
                + "\n\nOne sentence:"@,
        ),
        _ => None,
    }
}

fn find_id(memories: &Vec<Memory>, id: i64) -> (r: Option<usize>)
    ensures
        match r {
            Some(i) => position_of_id(memories@, id, 0) == Some(i as nat) && i < memories@.len(),
            None => position_of_id(memories@, id, 0) is None,
        },
{
    let mut i: usize = 0;
    while i < memories.len()
        invariant
            i <= memories@.len(),
            position_of_id(memories@, id, 0) == position_of_id(memories@, id, i as nat),
        decreases memories@.len() - i,
    {
        if memories[i].id == id {
            return Some(i);
        }
        i = i + 1;
    }
    None
}

/// The prompt that asks how two memories relate; none where one of them is missing.
pub fn description_prompt(memories: &Vec<Memory>, id_a: i64, id_b: i64) -> (r: Option<String>)
    ensures
        text_if_any(r) == description_request(memories@, id_a, id_b),
{
    match (find_id(memories, id_a), find_id(memories, id_b)) {
        (Some(i), Some(j)) => {
            let mut prompt: String = DESCRIPTION_TASK.to_string();
            prompt.append(memories[i].summary.as_str());
            prompt.append("\nB: ");
            prompt.append(memories[j].summary.as_str());
            prompt.append("\n\nOne sentence:");
            Some(prompt)
        },
        _ => None,
    }
}

/// The prompt that asks for the description of an edge, if it is to have one: a score
/// above 0.6 earns it.
pub open spec fn description_of(memories: Seq<Memory>, e: (i64, i64, Binary64)) -> Option<Seq<char>> {
    if (Binary64 { bits: DESCRIBED_ABOVE }).spec_lt(e.2) {
        description_request(memories, e.0, e.1)
    } else {
        None
    }
}

// ---- The plan ----

/// Is the connection that of the edge?
pub open spec fn is_connection(c: Connection_, e: (i64, i64, Binary64)) -> bool {
    &&& c.from_id == e.0
    &&& c.to_id == e.1
    &&& c.relationship@ == "edge_score="@ + fixed(e.2, 3)
    &&& c.strength == e.2
}

/// The sum of the scores of the first `n` edges.
pub open spec fn score_sum(found: Seq<(i64, i64, Binary64)>, n: nat) -> Binary64
    decreases n,
{
    if n == 0 {
        Binary64::signed(true, 0)
    } else {
        score_sum(found, (n - 1) as nat).spec_plus(found[n - 1].2)
    }
}

/// The mean score of edges; zero where there are none.
pub open spec fn mean_score(found: Seq<(i64, i64, Binary64)>) -> Binary64 {
    if found.len() == 0 {
        Binary64::spec_zero()
    } else {
        score_sum(found, found.len()).spec_over(Binary64::spec_of(found.len()))
    }
}

/// Is the plan that of a cycle over the memories?
pub open spec fn is_plan(p: ConsolidationPlan, memories: Seq<Memory>, threshold: Binary64) -> bool {
    let found: Seq<(i64, i64, Binary64)> = all_edges(memories, threshold);
    &&& p.memory_ids@ == memories.map_values(|m: Memory| m.id)
    &&& p.edges@ == found
    &&& p.descriptions@.len() == found.len()
    &&& forall|i: int|
        0 <= i < found.len() ==> text_if_any(#[trigger] p.descriptions@[i]) == description_of(memories, found[i])
    &&& p.insight_prompt@ == insight_request(memories, found)
    &&& p.connections@.len() == strongest(found)
    &&& forall|i: int| 0 <= i < strongest(found) ==> is_connection(#[trigger] p.connections@[i], found[i])
    &&& p.avg_edge_score == mean_score(found)
}

fn mean_of(found: &Vec<(i64, i64, Binary64)>) -> (r: Binary64)
    ensures
        r == mean_score(found@),
{
    let n: usize = found.len();
    if n == 0 {
        return Binary64::zero();
    }
    let mut sum: Binary64 = Binary64::negative_zero();
    let mut i: usize = 0;
    while i < n
        invariant
            i <= n == found@.len(),
            sum == score_sum(found@, i as nat),
        decreases n - i,
    {
        sum = sum.plus(found[i].2);
        i = i + 1;
    }
    sum.over(Binary64::of(n))
}

fn connections_of(found: &Vec<(i64, i64, Binary64)>) -> (r: Vec<Connection_>)
    ensures
        r@.len() == strongest(found@),
        forall|i: int| 0 <= i < r@.len() ==> is_connection(#[trigger] r@[i], found@[i]),
{
    let k: usize = if found.len() < STRONGEST {
        found.len()
    } else {
        STRONGEST
    };
    let mut r: Vec<Connection_> = Vec::new();
    let mut i: usize = 0;
    while i < k
        invariant
            i <= k <= found@.len(),
            r@.len() == i,
            forall|j: int| 0 <= j < i ==> is_connection(#[trigger] r@[j], found@[j]),
        decreases k - i,
    {
        let e: (i64, i64, Binary64) = found[i];
        let mut relationship: String = "edge_score=".to_string();
        push_fixed(&mut relationship, e.2, 3);
        r.push(Connection_ { from_id: e.0, to_id: e.1, relationship, strength: e.2 });
        i = i + 1;
    }
    r
}

fn descriptions_of(memories: &Vec<Memory>, found: &Vec<(i64, i64, Binary64)>) -> (r: Vec<Option<String>>)
    ensures
        r@.len() == found@.len(),
        forall|i: int|
            0 <= i < r@.len() ==> text_if_any(#[trigger] r@[i]) == description_of(memories@, found@[i]),
{
    let mut r: Vec<Option<String>> = Vec::new();
    let mut i: usize = 0;
    while i < found.len()
        invariant
            i <= found@.len(),
            r@.len() == i,
            forall|j: int|
                0 <= j < i ==> text_if_any(#[trigger] r@[j]) == description_of(memories@, found@[j]),
        decreases found@.len() - i,
    {
        let e: (i64, i64, Binary64) = found[i];
        let prompt: Option<String> = if Binary64::from_bits(DESCRIBED_ABOVE).lt(e.2) {
            description_prompt(memories, e.0, e.1)
        } else {
            None
        };
        r.push(prompt);
        i = i + 1;
    }
    r
}

/// What a cycle over the unconsolidated memories is to do; nothing where there are
/// fewer than two of them.
pub fn plan(unconsolidated: &Vec<Memory>, edge_threshold: Binary64) -> (r: Option<ConsolidationPlan>)
    ensures
        match r {
            Some(p) => unconsolidated@.len() >= LEAST_MEMORIES && is_plan(
                p,
                unconsolidated@,
                edge_threshold,
            ),
            None => unconsolidated@.len() < LEAST_MEMORIES,
        },
{
    let n: usize = unconsolidated.len();
    if n < LEAST_MEMORIES {
        return None;
    }
    let found: Vec<(i64, i64, Binary64)> = detect_all_edges(unconsolidated, edge_threshold);
    let mut memory_ids: Vec<i64> = Vec::new();
    let mut i: usize = 0;
    while i < n
        invariant
            i <= n == unconsolidated@.len(),
            memory_ids@ == unconsolidated@.take(i as int).map_values(|m: Memory| m.id),
        decreases n - i,
    {
        memory_ids.push(unconsolidated[i].id);
        assert(memory_ids@ =~= unconsolidated@.take(i + 1).map_values(|m: Memory| m.id));
        i = i + 1;
    }
    assert(unconsolidated@.take(n as int) =~= unconsolidated@);
    let descriptions: Vec<Option<String>> = descriptions_of(unconsolidated, &found);
    let prompt: String = insight_prompt(unconsolidated, &found);
    let connections: Vec<Connection_> = connections_of(&found);
    let avg_edge_score: Binary64 = mean_of(&found);
    Some(
        ConsolidationPlan {
            memory_ids,
            edges: found,
            descriptions,
            insight_prompt: prompt,
            connections,
            avg_edge_score,
        },
    )
}

/// The description of an edge: what the language model answered, if it did.
pub fn settle_description(answer: Option<String>) -> (r: String)
    ensures
        r@ == (match answer {
            Some(t) => t@,
            None => Seq::empty(),
        }),
{
    match answer {
        Some(t) => t,
        None => String::new(),
    }
}

/// The result of a cycle that was stored under the given id.
pub fn conclude(plan: &ConsolidationPlan, consolidation_id: i64, insight: String) -> (r: ConsolidationResult)
    ensures
        r.consolidation_id == consolidation_id,
        r.memories_processed == plan.memory_ids@.len(),
        r.edges_detected == plan.edges@.len(),
        r.avg_edge_score == plan.avg_edge_score,
        r.insight == insight,
{
    ConsolidationResult {
        consolidation_id,
        memories_processed: plan.memory_ids.len(),
        edges_detected: plan.edges.len(),
        avg_edge_score: plan.avg_edge_score,
        insight,
    }
}

// ---- Laws ----

/// Every edge that is to be described is, since both of its memories are there.
pub proof fn strong_edges_are_described(memories: Seq<Memory>, threshold: Binary64, i: int)
    requires
        0 <= i < all_edges(memories, threshold).len(),
    ensures
        description_of(memories, all_edges(memories, threshold)[i]) is Some <==> (Binary64 {
            bits: DESCRIBED_ABOVE,
        }).spec_lt(all_edges(memories, threshold)[i].2),
{
    let found: Seq<(i64, i64, Binary64)> = all_edges(memories, threshold);
    edges::every_found_edge_is_one(memories, threshold, i);
    let (a, b): (int, int) = choose|a: int, b: int|
        0 <= a < b < memories.len() && found[i] == (
            memories[a].id,
            memories[b].id,
            #[trigger] edge(memories[a], memories[b]),
        );
    id_is_found(memories, a, 0);
    id_is_found(memories, b, 0);
}

proof fn id_is_found(memories: Seq<Memory>, i: int, from: nat)
    requires
        from <= i < memories.len(),
    ensures
        position_of_id(memories, memories[i].id, from) is Some,
    decreases memories.len() - from,
{
    if memories[from as int].id != memories[i].id {
        id_is_found(memories, i, from + 1);
    }
}

/// The mean edge score of a cycle lies between zero and one where the edge scores do.
pub proof fn mean_score_is_in_unit_range(found: Seq<(i64, i64, Binary64)>)
    requires
        found.len() <= 2 * HIDDEN,
        forall|i: int| 0 <= i < found.len() ==> in_unit_range((#[trigger] found[i]).2),
    ensures
        in_unit_range(mean_score(found)),
{
    if found.len() > 0 {
        score_sum_is_at_most(found, found.len());
        laws::mean_of_many_in_unit_range(score_sum(found, found.len()), found.len());
    }
}

proof fn score_sum_is_at_most(found: Seq<(i64, i64, Binary64)>, n: nat)
    requires
        n <= found.len() <= 2 * HIDDEN,
        forall|i: int| 0 <= i < found.len() ==> in_unit_range((#[trigger] found[i]).2),
    ensures
        laws::at_most(score_sum(found, n), n),
    decreases n,
{
    if n == 0 {
        laws::zero_in_units();
        laws::units_follow_magnitudes(Binary64::signed(true, 0), Binary64::spec_zero());
    } else {
        score_sum_is_at_most(found, (n - 1) as nat);
        laws::sum_is_at_most(score_sum(found, (n - 1) as nat), (n - 1) as nat, found[n - 1].2);
    }
}

/// A memory is shown with its id, its topics, its importance and its summary, on a line; an
/// edge with both of its memories and its score.
pub proof fn memories_and_edges_are_shown_with_what_they_say(m: Memory, e: (i64, i64, Binary64))
    ensures
        memory_line(m) == "Memory #"@ + integer(m.id as int) + ": [topics: "@ + joined(texts(m.topics@), ", "@)
            + "] [importance: "@ + fixed(m.importance, 1) + "] "@ + m.summary@ + "\n"@,
        edge_line(e) == "  Memory #"@ + integer(e.0 as int) + " <-> Memory #"@ + integer(e.1 as int)
            + ": edge_score="@ + fixed(e.2, 3) + "\n"@,
{
}

proof fn memory_lines_are_in_a_row(memories: Seq<Memory>, n: nat)
    requires
        n <= memories.len(),
    ensures
        memory_lines(memories, n) == Seq::new(n, |i: int| memory_line(memories[i])).flatten(),
    decreases n,
{
    let lines: Seq<Seq<char>> = Seq::new(n, |i: int| memory_line(memories[i]));
    if n > 0 {
        let rest: Seq<Seq<char>> = Seq::new((n - 1) as nat, |i: int| memory_line(memories[i]));
        memory_lines_are_in_a_row(memories, (n - 1) as nat);
        assert(lines =~= rest.push(memory_line(memories[n - 1])));
        text::lines_in_a_row(rest, memory_line(memories[n - 1]));
    } else {
        assert(lines =~= Seq::empty());
        text::lines_in_a_row(lines, Seq::empty());
    }
}

proof fn edge_lines_are_in_a_row(found: Seq<(i64, i64, Binary64)>, n: nat)
    requires
        n <= found.len(),
    ensures
        edge_lines(found, n) == Seq::new(n, |i: int| edge_line(found[i])).flatten(),
    decreases n,
{
    let lines: Seq<Seq<char>> = Seq::new(n, |i: int| edge_line(found[i]));
    if n > 0 {
        let rest: Seq<Seq<char>> = Seq::new((n - 1) as nat, |i: int| edge_line(found[i]));
        edge_lines_are_in_a_row(found, (n - 1) as nat);
        assert(lines =~= rest.push(edge_line(found[n - 1])));
        text::lines_in_a_row(rest, edge_line(found[n - 1]));
    } else {
        assert(lines =~= Seq::empty());
        text::lines_in_a_row(lines, Seq::empty());
    }
}

/// The prompt for an insight shows every memory of the cycle, one line after the other in
/// their order, and then the edges, up to ten of them.
pub proof fn the_prompt_shows_every_memory(
    memories: Seq<Memory>,
    found: Seq<(i64, i64, Binary64)>,
    shown: nat,
)
    requires
        shown <= found.len(),
        shown == found.len() || shown == 10,
        shown <= 10,
    ensures
        ({
            let lines: Seq<char> = Seq::new(memories.len(), |i: int| memory_line(memories[i])).flatten();
            let boundaries: Seq<char> = Seq::new(shown, |i: int| edge_line(found[i])).flatten();
            &&& found.len() == 0 ==> insight_request(memories, found) == INSIGHT_TASK@ + lines + INSIGHT_FORM@
            &&& found.len() > 0 ==> insight_request(memories, found) == INSIGHT_TASK@ + lines
                + "\nDetected knowledge boundaries (high edge scores = related but divergent):\n"@ + boundaries
                + INSIGHT_FORM@
        }),
{
    memory_lines_are_in_a_row(memories, memories.len());
    edge_lines_are_in_a_row(found, shown);
    let lines: Seq<char> = Seq::new(memories.len(), |i: int| memory_line(memories[i])).flatten();
    let boundaries: Seq<char> = Seq::new(shown, |i: int| edge_line(found[i])).flatten();
    if found.len() > 0 {
        assert(INSIGHT_TASK@ + (lines + BOUNDARIES@ + boundaries) + INSIGHT_FORM@ =~= INSIGHT_TASK@ + lines
            + BOUNDARIES@ + boundaries + INSIGHT_FORM@);
    }
}

/// The line of every memory stands in the prompt for an insight, behind the lines of those
/// before it and ahead of those after it.
pub proof fn each_memory_has_its_line_in_the_prompt(
    memories: Seq<Memory>,
    found: Seq<(i64, i64, Binary64)>,
    i: int,
)
    requires
        0 <= i < memories.len(),
    ensures
        exists|before: Seq<char>, after: Seq<char>|
            insight_request(memories, found) == #[trigger] (before + memory_line(memories[i]) + after) && before
                == INSIGHT_TASK@ + Seq::new(i as nat, |k: int| memory_line(memories[k])).flatten(),
{
    let lines: Seq<char> = memory_lines(memories, memories.len());
    let rest: Seq<char> = lines_from(memories, (i + 1) as nat, memories.len());
    memory_lines_are_in_a_row(memories, i as nat);
    let before: Seq<char> = INSIGHT_TASK@ + memory_lines(memories, i as nat);
    let tail: Seq<char> = if found.len() == 0 {
        INSIGHT_FORM@
    } else {
        BOUNDARIES@ + edge_lines(found, strongest(found)) + INSIGHT_FORM@
    };
    let after: Seq<char> = rest + tail;
    assert(insight_request(memories, found) =~= before + memory_line(memories[i]) + after);
}

proof fn lines_from(memories: Seq<Memory>, from: nat, n: nat) -> (rest: Seq<char>)
    requires
        from <= n,
    ensures
        memory_lines(memories, n) == memory_lines(memories, from) + rest,
    decreases n,
{
    if n == from {
        let rest: Seq<char> = Seq::empty();
        assert(memory_lines(memories, n) =~= memory_lines(memories, from) + rest);
        rest
    } else {
        let rest: Seq<char> = lines_from(memories, from, (n - 1) as nat);
        let more: Seq<char> = rest + memory_line(memories[n - 1]);
        assert(memory_lines(memories, n) =~= memory_lines(memories, from) + more);
        more
    }
}

/// A memory is looked up by its id as the first that has it.
pub proof fn ids_lead_to_the_first_memory(memories: Seq<Memory>, id: i64, from: nat)
    ensures
        match position_of_id(memories, id, from) {
            Some(j) => {
                &&& from <= j < memories.len()
                &&& memories[j as int].id == id
                &&& forall|k: int| from <= k < j ==> (#[trigger] memories[k]).id != id
            },
            None => forall|k: int| from <= k < memories.len() ==> (#[trigger] memories[k]).id != id,
        },
    decreases memories.len() - from,
{
    if from < memories.len() && memories[from as int].id != id {
        ids_lead_to_the_first_memory(memories, id, from + 1);
    }
}

/// Is `i` the first memory that has the id?
pub open spec fn is_first_with_id(memories: Seq<Memory>, id: i64, i: int) -> bool {
    &&& 0 <= i < memories.len()
    &&& memories[i].id == id
    &&& forall|k: int| 0 <= k < i ==> (#[trigger] memories[k]).id != id
}

/// A plan takes every memory, keeps every edge between them, and asks how two memories relate
/// where the score of their edge is above 0.6, by showing the summaries of both.
pub proof fn a_plan_covers_all_memories_and_edges(
    p: ConsolidationPlan,
    memories: Seq<Memory>,
    threshold: Binary64,
    i: int,
)
    requires
        is_plan(p, memories, threshold),
        0 <= i < p.edges@.len(),
    ensures
        p.descriptions@.len() == p.edges@.len(),
        ({
            let described: bool = (Binary64 { bits: 0x3fe3_3333_3333_3333 }).spec_lt(p.edges@[i].2);
            &&& !described ==> p.descriptions@[i] is None
            &&& described ==> exists|a: int, b: int|
                {
                    &&& #[trigger] is_first_with_id(memories, p.edges@[i].0, a)
                    &&& #[trigger] is_first_with_id(memories, p.edges@[i].1, b)
                    &&& text_if_any(p.descriptions@[i]) == Some(
                        DESCRIPTION_TASK@ + memories[a].summary@ + "\nB: "@ + memories[b].summary@
                            + "\n\nOne sentence:"@,
                    )
                }
        }),
{
    let found: Seq<(i64, i64, Binary64)> = all_edges(memories, threshold);
    strong_edges_are_described(memories, threshold, i);
    ids_lead_to_the_first_memory(memories, found[i].0, 0);
    ids_lead_to_the_first_memory(memories, found[i].1, 0);
    assert(text_if_any(p.descriptions@[i]) == description_of(memories, found[i]));
    if (Binary64 { bits: 0x3fe3_3333_3333_3333 }).spec_lt(p.edges@[i].2) {
        let a: int = position_of_id(memories, found[i].0, 0).unwrap() as int;
        let b: int = position_of_id(memories, found[i].1, 0).unwrap() as int;
        assert(is_first_with_id(memories, p.edges@[i].0, a));
        assert(is_first_with_id(memories, p.edges@[i].1, b));
    }
}

/// What a plan holds: the ids of all memories in their order, the edges between them, the
/// prompt that shows them, and up to ten connections, one for each of the strongest edges.
pub proof fn a_plan_is_that_of_its_memories(
    p: ConsolidationPlan,
    memories: Seq<Memory>,
    threshold: Binary64,
)
    requires
        is_plan(p, memories, threshold),
    ensures
        p.memory_ids@.len() == memories.len(),
        forall|i: int| 0 <= i < memories.len() ==> #[trigger] p.memory_ids@[i] == memories[i].id,
        p.edges@ == all_edges(memories, threshold),
        p.insight_prompt@ == insight_request(memories, p.edges@),
        p.connections@.len() == (if p.edges@.len() <= 10 {
            p.edges@.len()
        } else {
            10
        }),
        forall|i: int|
            0 <= i < p.connections@.len() ==> {
                &&& (#[trigger] p.connections@[i]).from_id == p.edges@[i].0
                &&& p.connections@[i].to_id == p.edges@[i].1
                &&& p.connections@[i].relationship@ == "edge_score="@ + fixed(p.edges@[i].2, 3)
                &&& p.connections@[i].strength == p.edges@[i].2
            },
{
    let found: Seq<(i64, i64, Binary64)> = all_edges(memories, threshold);
    assert forall|i: int| 0 <= i < p.connections@.len() implies {
        &&& (#[trigger] p.connections@[i]).from_id == p.edges@[i].0
        &&& p.connections@[i].to_id == p.edges@[i].1
        &&& p.connections@[i].relationship@ == "edge_score="@ + fixed(p.edges@[i].2, 3)
        &&& p.connections@[i].strength == p.edges@[i].2
    } by {
        assert(is_connection(p.connections@[i], found[i]));
    }
}

/// The mean score of a plan is what the scores of its edges add up to, one by one, over
/// their number; zero without edges.
pub proof fn the_mean_score_is_over_all_edges(
    p: ConsolidationPlan,
    memories: Seq<Memory>,
    threshold: Binary64,
)
    requires
        is_plan(p, memories, threshold),
    ensures
        p.edges@.len() == 0 ==> p.avg_edge_score == (Binary64 { bits: 0 }),
        ({
            let scores: Seq<Binary64> = Seq::new(p.edges@.len(), |i: int| p.edges@[i].2);
            p.edges@.len() > 0 ==> exists|sums: Seq<Binary64>|
                {
                    &&& #[trigger] laws::are_running_sums(sums, Binary64 { bits: 0x8000_0000_0000_0000 }, scores)
                    &&& p.avg_edge_score == sums.last().spec_over(Binary64::spec_of(p.edges@.len()))
                }
        }),
{
    let found: Seq<(i64, i64, Binary64)> = all_edges(memories, threshold);
    let scores: Seq<Binary64> = Seq::new(p.edges@.len(), |i: int| p.edges@[i].2);
    let sums: Seq<Binary64> = Seq::new(found.len() + 1, |i: int| score_sum(found, i as nat));
    assert forall|i: int| 0 <= i < found.len() implies #[trigger] sums[i + 1] == sums[i].spec_plus(scores[i]) by {}
    assert(laws::are_running_sums(sums, Binary64 { bits: 0x8000_0000_0000_0000 }, scores));
}

/// A cycle in which nothing was done leaves nothing behind.
pub proof fn an_idle_cycle_leaves_nothing(r: ConsolidationResult)
    requires
        is_idle(r),
    ensures
        r.consolidation_id == 0,
        r.memories_processed == 0,
        r.edges_detected == 0,
        r.avg_edge_score == (Binary64 { bits: 0 }),
        r.insight@ == Seq::<char>::empty(),
{
    assert(r.insight@ =~= Seq::<char>::empty());
}

/// A cycle takes two memories or more.
pub proof fn a_cycle_takes_two_memories_or_more()
    ensures
        LEAST_MEMORIES == 2,
{
}

/// How two memories relate is asked by the summaries of the first memories with their ids,
/// if and only if there are such memories.
pub proof fn relations_are_asked_by_both_summaries(memories: Seq<Memory>, a: i64, b: i64)
    ensures
        description_request(memories, a, b) is Some <==> (exists|i: int|
            #[trigger] is_first_with_id(memories, a, i)) && (exists|j: int|
            #[trigger] is_first_with_id(memories, b, j)),
        forall|i: int, j: int|
            #[trigger] is_first_with_id(memories, a, i) && #[trigger] is_first_with_id(memories, b, j)
                ==> description_request(memories, a, b) == Some(
                DESCRIPTION_TASK@ + memories[i].summary@ + "\nB: "@ + memories[j].summary@
                    + "\n\nOne sentence:"@,
            ),
{
    ids_lead_to_the_first_memory(memories, a, 0);
    ids_lead_to_the_first_memory(memories, b, 0);
    if let Some(i) = position_of_id(memories, a, 0) {
        assert(is_first_with_id(memories, a, i as int));
    }
    if let Some(j) = position_of_id(memories, b, 0) {
        assert(is_first_with_id(memories, b, j as int));
    }
    assert forall|i: int, j: int|
        #[trigger] is_first_with_id(memories, a, i) && #[trigger] is_first_with_id(memories, b, j) implies
        description_request(memories, a, b) == Some(
        DESCRIPTION_TASK@ + memories[i].summary@ + "\nB: "@ + memories[j].summary@ + "\n\nOne sentence:"@,
    ) by {
        let x: int = position_of_id(memories, a, 0).unwrap() as int;
        let y: int = position_of_id(memories, b, 0).unwrap() as int;
        assert(memories[i].id == a && memories[j].id == b);
        assert(x == i) by {
            if x < i {
                assert(memories[x].id != a);
            } else if i < x {
                assert(memories[i].id != a);
            }
        }
        assert(y == j) by {
            if y < j {
                assert(memories[y].id != b);
            } else if j < y {
                assert(memories[j].id != b);
            }
        }
    }
}

} // verus!
