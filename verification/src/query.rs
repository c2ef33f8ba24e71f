//! Queries: which memories, insights and edges a question is answered from.
//!
//! The answer is not a flat retrieval. The language model is shown the memories whose
//! topics the question names, the consolidation insights that reference them, and the
//! edges that touch them.

use crate::binary64::laws::in_unit_range;
use crate::binary64::{laws, Binary64, HIDDEN};
use crate::db::{Consolidation, Edge, Memory};
use crate::decimal::{fixed, integer, integer_list, push_fixed, push_integer, push_integer_list};
use crate::ranking::{positions, rank_top, top};
use crate::ranking;
use crate::math;
use crate::text::{chars_of, joined, push_joined, strip_word, texts, to_lower};
use crate::text;
use crate::wordset::{word_set, words, WordSet};
use vstd::arithmetic::power2::*;
use vstd::prelude::*;

verus! {

/// The most memories that are shown to the language model.
pub const MAX_MEMORIES: usize = 20;

/// The most consolidation insights that are shown to the language model.
pub const MAX_CONSOLIDATIONS: usize = 10;

/// The most edges that are shown to the language model.
pub const MAX_EDGES: usize = 15;

/// The most edges that are given with the answer.
pub const ANSWER_EDGES: usize = 5;

/// 0.3: how much importance counts beside the topics that match.
pub const IMPORTANCE_SHARE: u64 = 0x3fd3_3333_3333_3333;

/// What the prompt for an answer begins with.
pub const QUERY_TASK: &'static str = "You are a memory query agent with access to a structured knowledge store.\nYou know not just facts, but the TOPOLOGY of knowledge — where ideas connect\nand where they diverge (edges). Use this to give nuanced, insightful answers.\n\nWhen answering:\n- Cite memory IDs for specific claims\n- Highlight relevant edges (contradictions/tensions) when they inform the answer\n- Distinguish between confident knowledge and speculative connections\n- Be direct and useful\n\n";

/// What the memories are headed by.
pub const MEMORIES_HEAD: &'static str = "## Stored Memories\n";

/// What the insights are headed by.
pub const INSIGHTS_HEAD: &'static str = "\n## Consolidation Insights\n";

/// What the edges are headed by.
pub const EDGES_HEAD: &'static str = "\n## Knowledge Boundaries (edges)\n";

/// The answer where there are no memories.
pub const NO_MEMORIES: &'static str = "No memories stored yet. Feed me some information first!";

/// The answer to a question.
#[derive(Debug)]
pub struct QueryResult {
    pub answer: String,
    /// The memories that it was answered from.
    pub sources: Vec<i64>,
    /// The edges that touch them: the ids of both memories and the score.
    pub relevant_edges: Vec<(i64, i64, Binary64)>,
}

/// What a question comes to.
#[derive(Debug)]
pub enum QueryPlan {
    /// There is nothing to answer it from.
    Answered(QueryResult),
    /// The language model is to be asked.
    Ask { prompt: String, sources: Vec<i64>, relevant_edges: Vec<(i64, i64, Binary64)> },
}

// ---- Which memories ----

/// The words of a question in lower case, without what is not alphanumeric at their
/// ends.
pub open spec fn query_words(question: Seq<char>) -> Set<Seq<char>> {
    words(question).map(|w: Seq<char>| text::bare_word(text::lowercase(w))).remove(Seq::<char>::empty())
}

/// The number of the first `n` topics that are among the words, whatever the case of
/// their letters.
pub open spec fn topic_matches(topics: Seq<String>, asked: Set<Seq<char>>, n: nat) -> nat
    decreases n,
{
    if n == 0 {
        0
    } else {
        topic_matches(topics, asked, (n - 1) as nat) + (if asked.contains(
            text::lowercase(topics[n - 1]@),
        ) {
            1nat
        } else {
            0nat
        })
    }
}

/// How relevant a memory is: the topics that match, and a share of its importance.
pub open spec fn relevance(m: Memory, asked: Set<Seq<char>>) -> Binary64 {
    Binary64::spec_of(topic_matches(m.topics@, asked, m.topics@.len())).spec_plus(
        m.importance.spec_times(Binary64 { bits: IMPORTANCE_SHARE }),
    )
}

/// How relevant memories are to a question.
pub open spec fn relevances(memories: Seq<Memory>, question: Seq<char>) -> Seq<Binary64> {
    memories.map_values(|m: Memory| relevance(m, query_words(question)))
}

/// The positions of the memories that are most relevant to a question, the most
/// relevant first.
pub open spec fn most_relevant(memories: Seq<Memory>, question: Seq<char>, k: nat) -> Seq<int> {
    top(relevances(memories, question), k)
}

fn split_query(question: &str) -> (r: WordSet)
    ensures
        r@ == query_words(question@),
{
    let all: WordSet = word_set(question);
    let n: usize = all.len();
    let ghost f = |w: Seq<char>| text::bare_word(text::lowercase(w));
    let ghost none: Seq<char> = Seq::empty();
    let mut r: WordSet = WordSet::new();
    let mut i: usize = 0;
    assert(all.list().take(0).to_set().map(f).remove(none) =~= Set::<Seq<char>>::empty());
    while i < n
        invariant
            i <= n == all.list().len(),
            f == |w: Seq<char>| text::bare_word(text::lowercase(w)),
            none == Seq::<char>::empty(),
            r@ == all.list().take(i as int).to_set().map(f).remove(none),
        decreases n - i,
    {
        let lower: String = to_lower(all.get(i).as_str());
        let word: String = strip_word(&chars_of(lower.as_str()));
        let ghost w: Seq<char> = all.list()[i as int];
        proof {
            let done: Seq<Seq<char>> = all.list().take(i as int);
            let next: Seq<Seq<char>> = all.list().take(i + 1);
            assert(next =~= done.push(w));
            mapped_with_one_more(done, w, f);
            if f(w) != none {
                assert(done.to_set().map(f).remove(none).insert(f(w)) =~= done.to_set().map(f).insert(
                    f(w),
                ).remove(none));
            } else {
                assert(done.to_set().map(f).insert(f(w)).remove(none) =~= done.to_set().map(f).remove(none));
            }
        }
        if !word.as_str().is_empty() {
            r.insert(word);
        } else {
            assert(word@ =~= none);
        }
        i = i + 1;
    }
    assert(all.list().take(n as int) =~= all.list());
    r
}

proof fn mapped_with_one_more(list: Seq<Seq<char>>, w: Seq<char>, f: spec_fn(Seq<char>) -> Seq<char>)
    ensures
        list.push(w).to_set().map(f) == list.to_set().map(f).insert(f(w)),
{
    let a: Set<Seq<char>> = list.push(w).to_set().map(f);
    let b: Set<Seq<char>> = list.to_set().map(f).insert(f(w));
    assert forall|x: Seq<char>| a.contains(x) == b.contains(x) by {
        if a.contains(x) {
            let y: Seq<char> = choose|y: Seq<char>| list.push(w).to_set().contains(y) && x == f(y);
            let k: int = choose|k: int| 0 <= k < list.push(w).len() && list.push(w)[k] == y;
            if k < list.len() {
                assert(list[k] == y);
                assert(list.to_set().contains(y));
            }
        }
        if b.contains(x) {
            if x == f(w) {
                assert(list.push(w)[list.len() as int] == w);
                assert(list.push(w).to_set().contains(w));
            } else {
                let y: Seq<char> = choose|y: Seq<char>| list.to_set().contains(y) && x == f(y);
                let k: int = choose|k: int| 0 <= k < list.len() && list[k] == y;
                assert(list.push(w)[k] == y);
                assert(list.push(w).to_set().contains(y));
            }
        }
    }
    assert(a =~= b);
}

fn relevance_of(m: &Memory, asked: &WordSet) -> (r: Binary64)
    ensures
        r == relevance(*m, asked@),
{
    let n: usize = m.topics.len();
    let mut count: usize = 0;
    let mut i: usize = 0;
    while i < n
        invariant
            i <= n == m.topics@.len(),
            count == topic_matches(m.topics@, asked@, i as nat),
            count <= i,
        decreases n - i,
    {
        if asked.contains(&to_lower(m.topics[i].as_str())) {
            count = count + 1;
        }
        i = i + 1;
    }
    Binary64::of(count).plus(m.importance.times(Binary64::from_bits(IMPORTANCE_SHARE)))
}

/// The positions of up to `k` memories that are most relevant to the question by the
/// topics that it names, the most relevant first. Where no topic is named, importance
/// decides.
pub fn top_k_memories(memories: &Vec<Memory>, question: &str, k: usize) -> (r: Vec<usize>)
    ensures
        positions(r@) == most_relevant(memories@, question@, k as nat),
        r@.len() == (if k < memories@.len() {
            k as nat
        } else {
            memories@.len()
        }),
        forall|i: int| 0 <= i < r@.len() ==> #[trigger] r@[i] < memories@.len(),
{
    let asked: WordSet = split_query(question);
    let n: usize = memories.len();
    let mut keys: Vec<Binary64> = Vec::new();
    let mut i: usize = 0;
    while i < n
        invariant
            i <= n == memories@.len(),
            asked@ == query_words(question@),
            keys@ == relevances(memories@, question@).take(i as int),
        decreases n - i,
    {
        keys.push(relevance_of(&memories[i], &asked));
        assert(keys@ =~= relevances(memories@, question@).take(i + 1));
        i = i + 1;
    }
    assert(keys@ =~= relevances(memories@, question@));
    rank_top(&keys, k)
}

// ---- Which insights and edges ----

/// Does the insight reference one of the memories?
pub open spec fn references(c: Consolidation, ids: Seq<i64>) -> bool {
    exists|i: int| 0 <= i < c.memory_ids@.len() && ids.contains(#[trigger] c.memory_ids@[i])
}

/// Does the edge touch one of the memories?
pub open spec fn touches(e: Edge, ids: Seq<i64>) -> bool {
    ids.contains(e.memory_a) || ids.contains(e.memory_b)
}

/// The positions below `n` of the insights that reference one of the memories, at most
/// as many as are shown.
pub open spec fn shown_insights(list: Seq<Consolidation>, ids: Seq<i64>, n: nat) -> Seq<int>
    decreases n,
{
    if n == 0 {
        Seq::empty()
    } else {
        let rest: Seq<int> = shown_insights(list, ids, (n - 1) as nat);
        if rest.len() < MAX_CONSOLIDATIONS && references(list[n - 1], ids) {
            rest.push(n - 1)
        } else {
            rest
        }
    }
}

/// The positions below `n` of the edges that touch one of the memories, at most as many
/// as are shown.
pub open spec fn shown_edges(list: Seq<Edge>, ids: Seq<i64>, n: nat) -> Seq<int>
    decreases n,
{
    if n == 0 {
        Seq::empty()
    } else {
        let rest: Seq<int> = shown_edges(list, ids, (n - 1) as nat);
        if rest.len() < MAX_EDGES && touches(list[n - 1], ids) {
            rest.push(n - 1)
        } else {
            rest
        }
    }
}

fn holds(ids: &Vec<i64>, id: i64) -> (r: bool)
    ensures
        r == ids@.contains(id),
{
    let mut i: usize = 0;
    while i < ids.len()
        invariant
            i <= ids@.len(),
            forall|j: int| 0 <= j < i ==> ids@[j] != id,
        decreases ids@.len() - i,
    {
        if ids[i] == id {
            return true;
        }
        i = i + 1;
    }
    false
}

fn does_reference(c: &Consolidation, ids: &Vec<i64>) -> (r: bool)
    ensures
        r == references(*c, ids@),
{
    let mut i: usize = 0;
    while i < c.memory_ids.len()
        invariant
            i <= c.memory_ids@.len(),
            forall|j: int| 0 <= j < i ==> !ids@.contains(#[trigger] c.memory_ids@[j]),
        decreases c.memory_ids@.len() - i,
    {
        if holds(ids, c.memory_ids[i]) {
            return true;
        }
        i = i + 1;
    }
    false
}

fn choose_insights(list: &Vec<Consolidation>, ids: &Vec<i64>) -> (r: Vec<usize>)
    ensures
        positions(r@) == shown_insights(list@, ids@, list@.len()),
        forall|i: int| 0 <= i < r@.len() ==> #[trigger] r@[i] < list@.len(),
{
    let n: usize = list.len();
    let mut r: Vec<usize> = Vec::new();
    let mut i: usize = 0;
    while i < n
        invariant
            i <= n == list@.len(),
            positions(r@) == shown_insights(list@, ids@, i as nat),
            forall|j: int| 0 <= j < r@.len() ==> #[trigger] r@[j] < n,
        decreases n - i,
    {
        let ghost before: Seq<usize> = r@;
        assert(positions(before).len() == before.len());
        if r.len() < MAX_CONSOLIDATIONS && does_reference(&list[i], ids) {
            r.push(i);
            assert(positions(r@) =~= positions(before).push(i as int));
        }
        i = i + 1;
    }
    r
}

fn choose_edges(list: &Vec<Edge>, ids: &Vec<i64>) -> (r: Vec<usize>)
    ensures
        positions(r@) == shown_edges(list@, ids@, list@.len()),
        forall|i: int| 0 <= i < r@.len() ==> #[trigger] r@[i] < list@.len(),
{
    let n: usize = list.len();
    let mut r: Vec<usize> = Vec::new();
    let mut i: usize = 0;
    while i < n
        invariant
            i <= n == list@.len(),
            positions(r@) == shown_edges(list@, ids@, i as nat),
            forall|j: int| 0 <= j < r@.len() ==> #[trigger] r@[j] < n,
        decreases n - i,
    {
        let ghost before: Seq<usize> = r@;
        assert(positions(before).len() == before.len());
        if r.len() < MAX_EDGES && (holds(ids, list[i].memory_a) || holds(ids, list[i].memory_b)) {
            r.push(i);
            assert(positions(r@) =~= positions(before).push(i as int));
        }
        i = i + 1;
    }
    r
}

// ---- The prompt ----

/// The line that shows a memory to the language model.
pub open spec fn memory_line(m: Memory) -> Seq<char> {
    "Memory #"@ + integer(m.id as int) + " [topics: "@ + joined(texts(m.topics@), ", "@) + "] [importance: "@
        + fixed(m.importance, 1) + "]: "@ + m.summary@ + "\n"@
}

/// The line that shows an insight to the language model.
pub open spec fn insight_line(c: Consolidation) -> Seq<char> {
    "Insight (from memories "@ + integer_list(c.memory_ids@) + ", edge_score="@ + fixed(c.edge_score, 3)
        + "): "@ + c.insight@ + "\n"@
}

/// The line that shows an edge to the language model.
pub open spec fn edge_line(e: Edge) -> Seq<char> {
    "Edge: Memory #"@ + integer(e.memory_a as int) + " <-> Memory #"@ + integer(e.memory_b as int)
        + " (score="@ + fixed(e.edge_score, 3) + ")"@ + (if e.relationship@.len() == 0 {
        Seq::empty()
    } else {
        ": "@ + e.relationship@
    }) + "\n"@
}

/// The lines of the memories at the first `n` positions.
pub open spec fn memory_lines(list: Seq<Memory>, at: Seq<int>, n: nat) -> Seq<char>
    decreases n,
{
    if n == 0 {
        Seq::empty()
    } else {
        memory_lines(list, at, (n - 1) as nat) + memory_line(list[at[n - 1]])
    }
}

/// The lines of the insights at the first `n` positions.
pub open spec fn insight_lines(list: Seq<Consolidation>, at: Seq<int>, n: nat) -> Seq<char>
    decreases n,
{
    if n == 0 {
        Seq::empty()
    } else {
        insight_lines(list, at, (n - 1) as nat) + insight_line(list[at[n - 1]])
    }
}

/// The lines of the edges at the first `n` positions.
pub open spec fn edge_lines(list: Seq<Edge>, at: Seq<int>, n: nat) -> Seq<char>
    decreases n,
{
    if n == 0 {
        Seq::empty()
    } else {
        edge_lines(list, at, (n - 1) as nat) + edge_line(list[at[n - 1]])
    }
}

/// The part of the context that shows insights; nothing where there are none.
pub open spec fn insight_section(list: Seq<Consolidation>, at: Seq<int>) -> Seq<char> {
    if at.len() == 0 {
        Seq::empty()
    } else {
        INSIGHTS_HEAD@ + insight_lines(list, at, at.len())
    }
}

/// The part of the context that shows edges; nothing where there are none.
pub open spec fn edge_section(list: Seq<Edge>, at: Seq<int>) -> Seq<char> {
    if at.len() == 0 {
        Seq::empty()
    } else {
        EDGES_HEAD@ + edge_lines(list, at, at.len())
    }
}

fn push_memories(text: &mut String, list: &Vec<Memory>, at: &Vec<usize>)
    requires
        forall|i: int| 0 <= i < at@.len() ==> #[trigger] at@[i] < list@.len(),
    ensures
        final(text)@ == old(text)@ + (MEMORIES_HEAD@ + memory_lines(list@, positions(at@), at@.len())),
{
    text.append(MEMORIES_HEAD);
    let ghost start: Seq<char> = text@;
    let mut i: usize = 0;
    assert(text@ =~= start + memory_lines(list@, positions(at@), 0));
    while i < at.len()
        invariant
            i <= at@.len(),
            forall|j: int| 0 <= j < at@.len() ==> #[trigger] at@[j] < list@.len(),
            text@ == start + memory_lines(list@, positions(at@), i as nat),
        decreases at@.len() - i,
    {
        let ghost before: Seq<char> = text@;
        let m: &Memory = &list[at[i]];
        assert(positions(at@)[i as int] == at@[i as int]);
        text.append("Memory #");
        push_integer(text, m.id);
        text.append(" [topics: ");
        push_joined(text, &m.topics, ", ");
        text.append("] [importance: ");
        push_fixed(text, m.importance, 1);
        text.append("]: ");
        text.append(m.summary.as_str());
        text.append("\n");
        assert(text@ =~= before + memory_line(*m));
        assert(text@ =~= start + memory_lines(list@, positions(at@), (i + 1) as nat));
        i = i + 1;
    }
    assert(text@ =~= old(text)@ + (MEMORIES_HEAD@ + memory_lines(list@, positions(at@), at@.len())));
}

fn push_insights(text: &mut String, list: &Vec<Consolidation>, at: &Vec<usize>)
    requires
        forall|i: int| 0 <= i < at@.len() ==> #[trigger] at@[i] < list@.len(),
    ensures
        final(text)@ == old(text)@ + insight_section(list@, positions(at@)),
{
    assert(positions(at@).len() == at@.len());
    if at.len() == 0 {
        assert(text@ =~= old(text)@ + insight_section(list@, positions(at@)));
        return;
    }
    text.append(INSIGHTS_HEAD);
    let ghost start: Seq<char> = text@;
    let mut i: usize = 0;
    assert(text@ =~= start + insight_lines(list@, positions(at@), 0));
    while i < at.len()
        invariant
            i <= at@.len(),
            forall|j: int| 0 <= j < at@.len() ==> #[trigger] at@[j] < list@.len(),
            text@ == start + insight_lines(list@, positions(at@), i as nat),
        decreases at@.len() - i,
    {
        let ghost before: Seq<char> = text@;
        let c: &Consolidation = &list[at[i]];
        assert(positions(at@)[i as int] == at@[i as int]);
        text.append("Insight (from memories ");
        push_integer_list(text, &c.memory_ids);
        text.append(", edge_score=");
        push_fixed(text, c.edge_score, 3);
        text.append("): ");
        text.append(c.insight.as_str());
        text.append("\n");
        assert(text@ =~= before + insight_line(*c));
        assert(text@ =~= start + insight_lines(list@, positions(at@), (i + 1) as nat));
        i = i + 1;
    }
    assert(text@ =~= old(text)@ + insight_section(list@, positions(at@)));
}

fn push_edges(text: &mut String, list: &Vec<Edge>, at: &Vec<usize>)
    requires
        forall|i: int| 0 <= i < at@.len() ==> #[trigger] at@[i] < list@.len(),
    ensures
        final(text)@ == old(text)@ + edge_section(list@, positions(at@)),
{
    assert(positions(at@).len() == at@.len());
    if at.len() == 0 {
        assert(text@ =~= old(text)@ + edge_section(list@, positions(at@)));
        return;
    }
    text.append(EDGES_HEAD);
    let ghost start: Seq<char> = text@;
    let mut i: usize = 0;
    assert(text@ =~= start + edge_lines(list@, positions(at@), 0));
    while i < at.len()
        invariant
            i <= at@.len(),
            forall|j: int| 0 <= j < at@.len() ==> #[trigger] at@[j] < list@.len(),
            text@ == start + edge_lines(list@, positions(at@), i as nat),
        decreases at@.len() - i,
    {
        let ghost before: Seq<char> = text@;
        let e: &Edge = &list[at[i]];
        assert(positions(at@)[i as int] == at@[i as int]);
        text.append("Edge: Memory #");
        push_integer(text, e.memory_a);
        text.append(" <-> Memory #");
        push_integer(text, e.memory_b);
        text.append(" (score=");
        push_fixed(text, e.edge_score, 3);
        text.append(")");
        if !e.relationship.as_str().is_empty() {
            text.append(": ");
            text.append(e.relationship.as_str());
        }
        text.append("\n");
        assert(text@ =~= before + edge_line(*e));
        assert(text@ =~= start + edge_lines(list@, positions(at@), (i + 1) as nat));
        i = i + 1;
    }
    assert(text@ =~= old(text)@ + edge_section(list@, positions(at@)));
}

// ---- The plan ----

/// The ids of the memories at the given positions.
pub open spec fn ids_at(memories: Seq<Memory>, at: Seq<int>) -> Seq<i64> {
    at.map_values(|i: int| memories[i].id)
}

/// The prompt that asks the language model to answer a question.
pub open spec fn query_request(
    memories: Seq<Memory>,
    consolidations: Seq<Consolidation>,
    edges: Seq<Edge>,
    question: Seq<char>,
) -> Seq<char> {
    let at: Seq<int> = most_relevant(memories, question, MAX_MEMORIES as nat);
    let ids: Seq<i64> = ids_at(memories, at);
    QUERY_TASK@ + (MEMORIES_HEAD@ + memory_lines(memories, at, at.len())) + insight_section(
        consolidations,
        shown_insights(consolidations, ids, consolidations.len()),
    ) + edge_section(edges, shown_edges(edges, ids, edges.len())) + "\n\nQuestion: "@ + question
        + "\n\nAnswer:"@
}

/// The edges that are given with the answer.
pub open spec fn answer_edges(edges: Seq<Edge>, ids: Seq<i64>) -> Seq<(i64, i64, Binary64)> {
    let at: Seq<int> = shown_edges(edges, ids, edges.len());
    (if at.len() < ANSWER_EDGES {
        at
    } else {
        at.take(ANSWER_EDGES as int)
    }).map_values(|i: int| (edges[i].memory_a, edges[i].memory_b, edges[i].edge_score))
}

fn collect_ids(memories: &Vec<Memory>, at: &Vec<usize>) -> (r: Vec<i64>)
    requires
        forall|i: int| 0 <= i < at@.len() ==> #[trigger] at@[i] < memories@.len(),
    ensures
        r@ == ids_at(memories@, positions(at@)),
{
    let mut r: Vec<i64> = Vec::new();
    let mut i: usize = 0;
    while i < at.len()
        invariant
            i <= at@.len(),
            forall|j: int| 0 <= j < at@.len() ==> #[trigger] at@[j] < memories@.len(),
            r@.len() == i,
            forall|j: int| 0 <= j < i ==> #[trigger] r@[j] == memories@[at@[j] as int].id,
        decreases at@.len() - i,
    {
        r.push(memories[at[i]].id);
        i = i + 1;
    }
    assert(r@ =~= ids_at(memories@, positions(at@)));
    r
}

fn collect_edges(edges: &Vec<Edge>, at: &Vec<usize>) -> (r: Vec<(i64, i64, Binary64)>)
    requires
        forall|i: int| 0 <= i < at@.len() ==> #[trigger] at@[i] < edges@.len(),
    ensures
        r@ == (if at@.len() < ANSWER_EDGES {
            positions(at@)
        } else {
            positions(at@).take(ANSWER_EDGES as int)
        }).map_values(|i: int| (edges@[i].memory_a, edges@[i].memory_b, edges@[i].edge_score)),
{
    let k: usize = if at.len() < ANSWER_EDGES {
        at.len()
    } else {
        ANSWER_EDGES
    };
    let mut r: Vec<(i64, i64, Binary64)> = Vec::new();
    let mut i: usize = 0;
    while i < k
        invariant
            i <= k <= at@.len(),
            forall|j: int| 0 <= j < at@.len() ==> #[trigger] at@[j] < edges@.len(),
            r@.len() == i,
            forall|j: int|
                0 <= j < i ==> #[trigger] r@[j] == (
                    edges@[at@[j] as int].memory_a,
                    edges@[at@[j] as int].memory_b,
                    edges@[at@[j] as int].edge_score,
                ),
        decreases k - i,
    {
        let e: &Edge = &edges[at[i]];
        r.push((e.memory_a, e.memory_b, e.edge_score));
        i = i + 1;
    }
    r
}

/// What a question comes to: without memories an answer at once, else the prompt for
/// the language model, with the memories and edges that the answer will rest on.
pub fn prepare(
    memories: &Vec<Memory>,
    consolidations: &Vec<Consolidation>,
    edges: &Vec<Edge>,
    question: &str,
) -> (r: QueryPlan)
    ensures
        match r {
            QueryPlan::Answered(result) => {
                &&& memories@.len() == 0
                &&& result.answer@ == NO_MEMORIES@
                &&& result.sources@.len() == 0
                &&& result.relevant_edges@.len() == 0
            },
            QueryPlan::Ask { prompt, sources, relevant_edges } => {
                &&& memories@.len() > 0
                &&& prompt@ == query_request(memories@, consolidations@, edges@, question@)
                &&& sources@ == ids_at(
                    memories@,
                    most_relevant(memories@, question@, MAX_MEMORIES as nat),
                )
                &&& relevant_edges@ == answer_edges(edges@, sources@)
            },
        },
{
    if memories.len() == 0 {
        return QueryPlan::Answered(
            QueryResult {
                answer: NO_MEMORIES.to_string(),
                sources: Vec::new(),
                relevant_edges: Vec::new(),
            },
        );
    }
    let at: Vec<usize> = top_k_memories(memories, question, MAX_MEMORIES);
    assert(positions(at@).len() == at@.len());
    let sources: Vec<i64> = collect_ids(memories, &at);
    let insights: Vec<usize> = choose_insights(consolidations, &sources);
    let touched: Vec<usize> = choose_edges(edges, &sources);
    assert(positions(touched@).len() == touched@.len());
    let mut prompt: String = QUERY_TASK.to_string();
    push_memories(&mut prompt, memories, &at);
    push_insights(&mut prompt, consolidations, &insights);
    push_edges(&mut prompt, edges, &touched);
    prompt.append("\n\nQuestion: ");
    prompt.append(question);
    prompt.append("\n\nAnswer:");
    let relevant_edges: Vec<(i64, i64, Binary64)> = collect_edges(edges, &touched);
    QueryPlan::Ask { prompt, sources, relevant_edges }
}

/// The result of a question that the language model answered.
pub fn conclude(answer: String, sources: Vec<i64>, relevant_edges: Vec<(i64, i64, Binary64)>) -> (r: QueryResult)
    ensures
        r.answer == answer,
        r.sources == sources,
        r.relevant_edges == relevant_edges,
{
    QueryResult { answer, sources, relevant_edges }
}

// ---- Laws ----

/// A memory that is left out is no more relevant than any that is taken, and only
/// where as many are taken as were asked for.
pub proof fn the_most_relevant_are_taken(memories: Seq<Memory>, question: Seq<char>, k: nat, m: int)
    requires
        0 <= m < memories.len(),
    ensures
        ({
            let at: Seq<int> = most_relevant(memories, question, k);
            ||| at.contains(m)
            ||| {
                &&& at.len() == k
                &&& forall|i: int|
                    0 <= i < at.len() ==> 0 <= #[trigger] at[i] < memories.len() && !relevance(
                        memories[at[i]],
                        query_words(question),
                    ).spec_lt(relevance(memories[m], query_words(question)))
            }
        }),
{
    let keys: Seq<Binary64> = relevances(memories, question);
    let at: Seq<int> = most_relevant(memories, question, k);
    ranking::ranking_exists(keys);
    let order: Seq<int> = ranking::ranking(keys);
    assert(order.contains(m));
    let q: int = choose|q: int| 0 <= q < order.len() && order[q] == m;
    if q < at.len() {
        assert(at[q] == m);
    } else {
        assert forall|i: int| 0 <= i < at.len() implies 0 <= #[trigger] at[i] < memories.len() && !relevance(
            memories[at[i]],
            query_words(question),
        ).spec_lt(relevance(memories[m], query_words(question))) by {
            assert(at[i] == order[i]);
            ranking::ranking_descends(keys, i, q);
        }
    }
}

/// Every edge that is shown touches a memory that is shown, and no more are shown than
/// there may be.
pub proof fn shown_edges_touch(list: Seq<Edge>, ids: Seq<i64>, n: nat, i: int)
    requires
        n <= list.len(),
        0 <= i < shown_edges(list, ids, n).len(),
    ensures
        0 <= shown_edges(list, ids, n)[i] < n,
        touches(list[shown_edges(list, ids, n)[i]], ids),
        shown_edges(list, ids, n).len() <= MAX_EDGES,
    decreases n,
{
    if n > 0 {
        let rest: Seq<int> = shown_edges(list, ids, (n - 1) as nat);
        if rest.len() > 0 {
            shown_edges_touch(list, ids, (n - 1) as nat, if i < rest.len() { i } else { 0 });
        }
    }
}

/// Every insight that is shown references a memory that is shown, and no more are shown
/// than there may be.
pub proof fn shown_insights_reference(list: Seq<Consolidation>, ids: Seq<i64>, n: nat, i: int)
    requires
        n <= list.len(),
        0 <= i < shown_insights(list, ids, n).len(),
    ensures
        0 <= shown_insights(list, ids, n)[i] < n,
        references(list[shown_insights(list, ids, n)[i]], ids),
        shown_insights(list, ids, n).len() <= MAX_CONSOLIDATIONS,
    decreases n,
{
    if n > 0 {
        let rest: Seq<int> = shown_insights(list, ids, (n - 1) as nat);
        if rest.len() > 0 {
            shown_insights_reference(list, ids, (n - 1) as nat, if i < rest.len() { i } else { 0 });
        }
    }
}

/// Of two memories none of whose topics the question names, the more important one is
/// no less relevant.
pub proof fn importance_decides_without_topics(a: Memory, b: Memory, asked: Set<Seq<char>>)
    requires
        topic_matches(a.topics@, asked, a.topics@.len()) == 0,
        topic_matches(b.topics@, asked, b.topics@.len()) == 0,
        a.importance.is_finite(),
        b.importance.is_finite(),
        a.importance.spec_le(b.importance),
    ensures
        relevance(a, asked).spec_le(relevance(b, asked)),
{
    let share: Binary64 = Binary64 { bits: IMPORTANCE_SHARE };
    laws::counts_are_ordered(0, 0);
    laws::shares_keep_order(a.importance, b.importance, share);
    laws::zero_plus(a.importance.spec_times(share));
    laws::zero_plus(b.importance.spec_times(share));
}

proof fn matches_are_among_the_topics(topics: Seq<String>, asked: Set<Seq<char>>, n: nat)
    ensures
        topic_matches(topics, asked, n) <= n,
    decreases n,
{
    if n > 0 {
        matches_are_among_the_topics(topics, asked, (n - 1) as nat);
    }
}

/// A memory of whose topics the question names more is more relevant than one of whose
/// topics it names fewer, where importances lie between zero and one. Numbers of topics
/// from 2^53 on are rounded, and of two that round to the same nothing is said.
pub proof fn more_topics_are_more_relevant(few: Memory, many: Memory, asked: Set<Seq<char>>)
    requires
        in_unit_range(few.importance),
        in_unit_range(many.importance),
        ({
            let m: nat = topic_matches(few.topics@, asked, few.topics@.len());
            let n: nat = topic_matches(many.topics@, asked, many.topics@.len());
            m < n && (m < 2 * HIDDEN || Binary64::spec_of(m) != Binary64::spec_of(n))
        }),
    ensures
        relevance(few, asked).spec_lt(relevance(many, asked)),
{
    let share: Binary64 = Binary64 { bits: IMPORTANCE_SHARE };
    let m: nat = topic_matches(few.topics@, asked, few.topics@.len());
    let n: nat = topic_matches(many.topics@, asked, many.topics@.len());
    matches_are_among_the_topics(many.topics@, asked, many.topics@.len());
    assert(many.topics.len() <= usize::MAX);
    laws::share_is_no_larger(few.importance, share);
    laws::share_is_no_larger(many.importance, share);
    laws::less_than_half_in_units(share);
    laws::larger_counts_outweigh_less_than_half(
        m,
        n,
        few.importance.spec_times(share),
        many.importance.spec_times(share),
    );
}

/// A memory of whose topics the question names more ranks above one of whose topics it
/// names fewer, where importances lie between zero and one: where the second is listed,
/// the first is listed before it.
pub proof fn more_topics_rank_higher(
    memories: Seq<Memory>,
    question: Seq<char>,
    k: nat,
    few: int,
    many: int,
    p: int,
)
    requires
        0 <= few < memories.len(),
        0 <= many < memories.len(),
        in_unit_range(memories[few].importance),
        in_unit_range(memories[many].importance),
        ({
            let asked: Set<Seq<char>> = query_words(question);
            let m: nat = topic_matches(memories[few].topics@, asked, memories[few].topics@.len());
            let n: nat = topic_matches(memories[many].topics@, asked, memories[many].topics@.len());
            m < n && (m < 2 * HIDDEN || Binary64::spec_of(m) != Binary64::spec_of(n))
        }),
        0 <= p < most_relevant(memories, question, k).len(),
        most_relevant(memories, question, k)[p] == few,
    ensures
        exists|q: int| 0 <= q < p && #[trigger] most_relevant(memories, question, k)[q] == many,
{
    let keys: Seq<Binary64> = relevances(memories, question);
    let at: Seq<int> = most_relevant(memories, question, k);
    let order: Seq<int> = ranking::ranking(keys);
    more_topics_are_more_relevant(memories[few], memories[many], query_words(question));
    ranking::ranking_exists(keys);
    assert(order.contains(many));
    let q: int = choose|q: int| 0 <= q < order.len() && order[q] == many;
    assert(order[p] == few);
    if q > p {
        ranking::ranking_descends(keys, p, q);
    }
    assert(at[q] == many);
}

/// The topics of a memory that count are those that are among the words in lower case.
pub proof fn matches_are_counted(topics: Seq<String>, asked: Set<Seq<char>>, n: nat)
    ensures
        topic_matches(topics, asked, n) == math::those_below(
            n,
            |i: int| asked.contains(text::lowercase(topics[i]@)),
        ).len(),
    decreases n,
{
    let p = |i: int| asked.contains(text::lowercase(topics[i]@));
    if n > 0 {
        matches_are_counted(topics, asked, (n - 1) as nat);
        math::one_more_below((n - 1) as nat, p);
    } else {
        math::one_more_below(0, p);
    }
}

/// What is asked for are the words of the question in lower case, without what is not
/// alphanumeric at their ends, as far as something is left of them.
pub proof fn what_is_asked_for_are_the_words_of_the_question(question: Seq<char>, w: Seq<char>)
    ensures
        query_words(question).contains(w) <==> w.len() > 0 && exists|v: Seq<char>|
            #[trigger] words(question).contains(v) && text::bare_word(text::lowercase(v)) == w,
{
    let f = |v: Seq<char>| text::bare_word(text::lowercase(v));
    assert(w =~= Seq::<char>::empty() <==> w.len() == 0);
    if query_words(question).contains(w) {
        let v: Seq<char> = choose|v: Seq<char>| words(question).contains(v) && w == f(v);
        assert(words(question).contains(v));
    }
    if w.len() > 0 && exists|v: Seq<char>|
        #[trigger] words(question).contains(v) && text::bare_word(text::lowercase(v)) == w {
        let v: Seq<char> = choose|v: Seq<char>|
            #[trigger] words(question).contains(v) && text::bare_word(text::lowercase(v)) == w;
        assert(f(v) == w);
    }
}

/// A memory is as relevant as many of its topics are asked for, with 0.3 of its importance
/// added, however many these are.
pub proof fn relevance_is_topics_and_a_share_of_importance(m: Memory, asked: Set<Seq<char>>)
    ensures
        relevance(m, asked) == Binary64::spec_of(
            math::those_below(
                m.topics@.len(),
                |i: int| asked.contains(text::lowercase(m.topics@[i]@)),
            ).len(),
        ).spec_plus(m.importance.spec_times(Binary64 { bits: 0x3fd3_3333_3333_3333 })),
{
    matches_are_counted(m.topics@, asked, m.topics@.len());
}

/// Of two memories of whose topics the question names equally many, whatever that number,
/// the more important one is no less relevant.
pub proof fn importance_decides_among_equals(a: Memory, b: Memory, asked: Set<Seq<char>>)
    requires
        topic_matches(a.topics@, asked, a.topics@.len()) == topic_matches(b.topics@, asked, b.topics@.len()),
        a.importance.is_finite(),
        b.importance.is_finite(),
        a.importance.spec_le(b.importance),
    ensures
        relevance(a, asked).spec_le(relevance(b, asked)),
{
    let share: Binary64 = Binary64 { bits: IMPORTANCE_SHARE };
    let n: nat = topic_matches(a.topics@, asked, a.topics@.len());
    matches_are_among_the_topics(a.topics@, asked, a.topics@.len());
    assert(a.topics.len() <= usize::MAX);
    laws::counts_are_ordered(n, n);
    laws::shares_keep_order(a.importance, b.importance, share);
    laws::order_is_the_order_of_values(a.importance.spec_times(share), b.importance.spec_times(share));
    laws::plus_keeps_order(
        Binary64::spec_of(n),
        a.importance.spec_times(share),
        b.importance.spec_times(share),
    );
}

/// Of two memories of whose topics the question names equally many, the one whose importance
/// is higher by 2^-k or more is the more relevant one, up to 2^(48 - k) topics.
pub proof fn higher_importance_is_more_relevant_among_equals(
    a: Memory,
    b: Memory,
    asked: Set<Seq<char>>,
    k: nat,
)
    requires
        topic_matches(a.topics@, asked, a.topics@.len()) == topic_matches(b.topics@, asked, b.topics@.len()),
        in_unit_range(a.importance),
        in_unit_range(b.importance),
        k <= 40,
        topic_matches(a.topics@, asked, a.topics@.len()) <= pow2((48 - k) as nat),
        a.importance.units() + pow2((1074 - k) as nat) <= b.importance.units(),
    ensures
        relevance(a, asked).spec_lt(relevance(b, asked)),
{
    let share: Binary64 = Binary64 { bits: IMPORTANCE_SHARE };
    let quarter: Binary64 = Binary64 { bits: 0x3fd0_0000_0000_0000 };
    laws::power_in_units(quarter, 0x3fd);
    laws::units_follow_magnitudes(quarter, share);
    laws::shares_added_to_counts_stay_apart(
        topic_matches(a.topics@, asked, a.topics@.len()),
        a.importance,
        b.importance,
        share,
        k,
    );
}

/// The memories that are taken are the most relevant ones, the most relevant first, and of
/// equally relevant ones those that stand first.
pub proof fn the_most_relevant_come_first(memories: Seq<Memory>, question: Seq<char>, k: nat)
    ensures
        ({
            let keys: Seq<Binary64> = Seq::new(
                memories.len(),
                |i: int| relevance(memories[i], query_words(question)),
            );
            ranking::are_highest(keys, k, most_relevant(memories, question, k))
        }),
{
    let keys: Seq<Binary64> = Seq::new(memories.len(), |i: int| relevance(memories[i], query_words(question)));
    assert(relevances(memories, question) =~= keys);
    ranking::the_highest_are_taken(keys, k);
}

/// A more relevant memory is listed before a less relevant one, wherever that is listed.
pub proof fn more_relevant_memories_rank_higher(
    memories: Seq<Memory>,
    question: Seq<char>,
    k: nat,
    less: int,
    more: int,
    p: int,
)
    requires
        0 <= less < memories.len(),
        0 <= more < memories.len(),
        relevance(memories[less], query_words(question)).spec_lt(
            relevance(memories[more], query_words(question)),
        ),
        0 <= p < most_relevant(memories, question, k).len(),
        most_relevant(memories, question, k)[p] == less,
    ensures
        exists|q: int| 0 <= q < p && #[trigger] most_relevant(memories, question, k)[q] == more,
{
    let keys: Seq<Binary64> = relevances(memories, question);
    let at: Seq<int> = most_relevant(memories, question, k);
    let order: Seq<int> = ranking::ranking(keys);
    ranking::ranking_exists(keys);
    assert(order.contains(more));
    let q: int = choose|q: int| 0 <= q < order.len() && order[q] == more;
    assert(order[p] == less);
    if q > p {
        ranking::ranking_descends(keys, p, q);
    }
    assert(at[q] == more);
}

/// The edges that are shown are the first fifteen that begin or end at a memory that is
/// shown, in their order.
pub proof fn the_first_edges_that_touch_are_shown(list: Seq<Edge>, ids: Seq<i64>, n: nat, i: int)
    requires
        0 <= i < n <= list.len(),
    ensures
        ({
            let at: Seq<int> = shown_edges(list, ids, n);
            &&& at.len() <= 15
            &&& forall|x: int, y: int| 0 <= x < y < at.len() ==> at[x] < at[y]
            &&& at.contains(i) ==> ids.contains(list[i].memory_a) || ids.contains(list[i].memory_b)
            &&& ids.contains(list[i].memory_a) || ids.contains(list[i].memory_b) ==> at.contains(i) || (
            at.len() == 15 && forall|x: int| 0 <= x < at.len() ==> #[trigger] at[x] < i)
        }),
    decreases n,
{
    shown_edges_are_below(list, ids, n);
    let at: Seq<int> = shown_edges(list, ids, n);
    let m: nat = (n - 1) as nat;
    let rest: Seq<int> = shown_edges(list, ids, m);
    shown_edges_are_below(list, ids, m);
    if i < m {
        the_first_edges_that_touch_are_shown(list, ids, m, i);
        if rest.contains(i) {
            let x: int = choose|x: int| 0 <= x < rest.len() && rest[x] == i;
            assert(at[x] == i);
        }
        if at.contains(i) {
            let x: int = choose|x: int| 0 <= x < at.len() && at[x] == i;
            assert(x < rest.len());
            assert(rest[x] == i);
        }
    } else {
        if at.contains(i) {
            let x: int = choose|x: int| 0 <= x < at.len() && at[x] == i;
            if x < rest.len() {
                assert(rest[x] < m);
            }
        }
        if touches(list[i], ids) && rest.len() < MAX_EDGES {
            assert(at[rest.len() as int] == i);
        }
    }
}

proof fn shown_edges_are_below(list: Seq<Edge>, ids: Seq<i64>, n: nat)
    requires
        n <= list.len(),
    ensures
        ({
            let at: Seq<int> = shown_edges(list, ids, n);
            &&& at.len() <= 15
            &&& forall|x: int| 0 <= x < at.len() ==> 0 <= #[trigger] at[x] < n
            &&& forall|x: int, y: int| 0 <= x < y < at.len() ==> at[x] < at[y]
        }),
    decreases n,
{
    if n > 0 {
        let rest: Seq<int> = shown_edges(list, ids, (n - 1) as nat);
        let at: Seq<int> = shown_edges(list, ids, n);
        shown_edges_are_below(list, ids, (n - 1) as nat);
        assert forall|x: int, y: int| 0 <= x < y < at.len() implies at[x] < at[y] by {
            assert(rest[x] < n - 1);
        }
        assert forall|x: int| 0 <= x < at.len() implies 0 <= #[trigger] at[x] < n by {
            if x < rest.len() {
                assert(rest[x] < n - 1);
            }
        }
    }
}

/// The insights that are shown are the first ten that reference a memory that is shown, in
/// their order.
pub proof fn the_first_insights_that_reference_are_shown(
    list: Seq<Consolidation>,
    ids: Seq<i64>,
    n: nat,
    i: int,
)
    requires
        0 <= i < n <= list.len(),
    ensures
        ({
            let at: Seq<int> = shown_insights(list, ids, n);
            let wanted: bool = exists|m: int|
                0 <= m < list[i].memory_ids@.len() && ids.contains(#[trigger] list[i].memory_ids@[m]);
            &&& at.len() <= 10
            &&& forall|x: int, y: int| 0 <= x < y < at.len() ==> at[x] < at[y]
            &&& at.contains(i) ==> wanted
            &&& wanted ==> at.contains(i) || (at.len() == 10 && forall|x: int|
                0 <= x < at.len() ==> #[trigger] at[x] < i)
        }),
    decreases n,
{
    shown_insights_are_below(list, ids, n);
    let at: Seq<int> = shown_insights(list, ids, n);
    let m: nat = (n - 1) as nat;
    let rest: Seq<int> = shown_insights(list, ids, m);
    shown_insights_are_below(list, ids, m);
    if i < m {
        the_first_insights_that_reference_are_shown(list, ids, m, i);
        if rest.contains(i) {
            let x: int = choose|x: int| 0 <= x < rest.len() && rest[x] == i;
            assert(at[x] == i);
        }
        if at.contains(i) {
            let x: int = choose|x: int| 0 <= x < at.len() && at[x] == i;
            assert(x < rest.len());
            assert(rest[x] == i);
        }
    } else {
        if at.contains(i) {
            let x: int = choose|x: int| 0 <= x < at.len() && at[x] == i;
            if x < rest.len() {
                assert(rest[x] < m);
            }
        }
        if references(list[i], ids) && rest.len() < MAX_CONSOLIDATIONS {
            assert(at[rest.len() as int] == i);
        }
    }
}

proof fn shown_insights_are_below(list: Seq<Consolidation>, ids: Seq<i64>, n: nat)
    requires
        n <= list.len(),
    ensures
        ({
            let at: Seq<int> = shown_insights(list, ids, n);
            &&& at.len() <= 10
            &&& forall|x: int| 0 <= x < at.len() ==> 0 <= #[trigger] at[x] < n
            &&& forall|x: int, y: int| 0 <= x < y < at.len() ==> at[x] < at[y]
        }),
    decreases n,
{
    if n > 0 {
        let rest: Seq<int> = shown_insights(list, ids, (n - 1) as nat);
        let at: Seq<int> = shown_insights(list, ids, n);
        shown_insights_are_below(list, ids, (n - 1) as nat);
        assert forall|x: int, y: int| 0 <= x < y < at.len() implies at[x] < at[y] by {
            assert(rest[x] < n - 1);
        }
        assert forall|x: int| 0 <= x < at.len() implies 0 <= #[trigger] at[x] < n by {
            if x < rest.len() {
                assert(rest[x] < n - 1);
            }
        }
    }
}

/// The edges that are given with an answer are the first five of those that are shown.
pub proof fn the_first_five_edges_are_given(edges: Seq<Edge>, ids: Seq<i64>)
    ensures
        ({
            let at: Seq<int> = shown_edges(edges, ids, edges.len());
            let given: Seq<(i64, i64, Binary64)> = answer_edges(edges, ids);
            &&& given.len() == (if at.len() <= 5 {
                at.len()
            } else {
                5
            })
            &&& forall|i: int|
                0 <= i < given.len() ==> #[trigger] given[i] == (
                    edges[at[i]].memory_a,
                    edges[at[i]].memory_b,
                    edges[at[i]].edge_score,
                )
        }),
{
}

/// The sources of an answer are the ids of the memories that are shown, in their order.
pub proof fn the_sources_are_the_memories_shown(memories: Seq<Memory>, at: Seq<int>, i: int)
    requires
        0 <= i < at.len(),
    ensures
        ids_at(memories, at).len() == at.len(),
        ids_at(memories, at)[i] == memories[at[i]].id,
{
}

proof fn memory_lines_are_in_a_row(list: Seq<Memory>, at: Seq<int>, n: nat)
    requires
        n <= at.len(),
    ensures
        memory_lines(list, at, n) == Seq::new(n, |i: int| memory_line(list[at[i]])).flatten(),
    decreases n,
{
    let lines: Seq<Seq<char>> = Seq::new(n, |i: int| memory_line(list[at[i]]));
    if n > 0 {
        let rest: Seq<Seq<char>> = Seq::new((n - 1) as nat, |i: int| memory_line(list[at[i]]));
        memory_lines_are_in_a_row(list, at, (n - 1) as nat);
        assert(lines =~= rest.push(memory_line(list[at[n - 1]])));
        text::lines_in_a_row(rest, memory_line(list[at[n - 1]]));
    } else {
        assert(lines =~= Seq::empty());
        text::lines_in_a_row(lines, Seq::empty());
    }
}

proof fn insight_lines_are_in_a_row(list: Seq<Consolidation>, at: Seq<int>, n: nat)
    requires
        n <= at.len(),
    ensures
        insight_lines(list, at, n) == Seq::new(n, |i: int| insight_line(list[at[i]])).flatten(),
    decreases n,
{
    let lines: Seq<Seq<char>> = Seq::new(n, |i: int| insight_line(list[at[i]]));
    if n > 0 {
        let rest: Seq<Seq<char>> = Seq::new((n - 1) as nat, |i: int| insight_line(list[at[i]]));
        insight_lines_are_in_a_row(list, at, (n - 1) as nat);
        assert(lines =~= rest.push(insight_line(list[at[n - 1]])));
        text::lines_in_a_row(rest, insight_line(list[at[n - 1]]));
    } else {
        assert(lines =~= Seq::empty());
        text::lines_in_a_row(lines, Seq::empty());
    }
}

proof fn edge_lines_are_in_a_row(list: Seq<Edge>, at: Seq<int>, n: nat)
    requires
        n <= at.len(),
    ensures
        edge_lines(list, at, n) == Seq::new(n, |i: int| edge_line(list[at[i]])).flatten(),
    decreases n,
{
    let lines: Seq<Seq<char>> = Seq::new(n, |i: int| edge_line(list[at[i]]));
    if n > 0 {
        let rest: Seq<Seq<char>> = Seq::new((n - 1) as nat, |i: int| edge_line(list[at[i]]));
        edge_lines_are_in_a_row(list, at, (n - 1) as nat);
        assert(lines =~= rest.push(edge_line(list[at[n - 1]])));
        text::lines_in_a_row(rest, edge_line(list[at[n - 1]]));
    } else {
        assert(lines =~= Seq::empty());
        text::lines_in_a_row(lines, Seq::empty());
    }
}

/// A memory is shown with its id, its topics, its importance and its summary, on a line.
pub proof fn memories_are_shown_with_what_they_say(m: Memory)
    ensures
        memory_line(m) == "Memory #"@ + integer(m.id as int) + " [topics: "@ + joined(texts(m.topics@), ", "@)
            + "] [importance: "@ + fixed(m.importance, 1) + "]: "@ + m.summary@ + "\n"@,
{
}

/// An insight is shown with the memories that it rests on, its score and what it says, on a
/// line.
pub proof fn insights_are_shown_with_what_they_say(c: Consolidation)
    ensures
        insight_line(c) == "Insight (from memories "@ + integer_list(c.memory_ids@) + ", edge_score="@ + fixed(
            c.edge_score,
            3,
        ) + "): "@ + c.insight@ + "\n"@,
{
}

/// An edge is shown with both of its memories, its score, and how they relate where that is
/// known, on a line.
pub proof fn edges_are_shown_with_what_they_say(e: Edge)
    ensures
        ({
            let head: Seq<char> = "Edge: Memory #"@ + integer(e.memory_a as int) + " <-> Memory #"@ + integer(
                e.memory_b as int,
            ) + " (score="@ + fixed(e.edge_score, 3) + ")"@;
            &&& e.relationship@.len() > 0 ==> edge_line(e) == head + ": "@ + e.relationship@ + "\n"@
            &&& e.relationship@.len() == 0 ==> edge_line(e) == head + "\n"@
        }),
{
    let head: Seq<char> = "Edge: Memory #"@ + integer(e.memory_a as int) + " <-> Memory #"@ + integer(
        e.memory_b as int,
    ) + " (score="@ + fixed(e.edge_score, 3) + ")"@;
    assert(head + (": "@ + e.relationship@) + "\n"@ =~= head + ": "@ + e.relationship@ + "\n"@);
    assert(head + Seq::<char>::empty() + "\n"@ =~= head + "\n"@);
}

/// The prompt shows every memory that was chosen, each on its line, then every insight and
/// every edge that was, where there are any, and then the question.
pub proof fn the_prompt_shows_all_that_was_chosen(
    memories: Seq<Memory>,
    consolidations: Seq<Consolidation>,
    edges: Seq<Edge>,
    question: Seq<char>,
)
    ensures
        ({
            let at: Seq<int> = most_relevant(memories, question, 20);
            let ids: Seq<i64> = Seq::new(at.len(), |i: int| memories[at[i]].id);
            let insights: Seq<int> = shown_insights(consolidations, ids, consolidations.len());
            let touched: Seq<int> = shown_edges(edges, ids, edges.len());
            query_request(memories, consolidations, edges, question) == QUERY_TASK@ + "## Stored Memories\n"@
                + Seq::new(at.len(), |i: int| memory_line(memories[at[i]])).flatten() + (if insights.len() > 0 {
                "\n## Consolidation Insights\n"@ + Seq::new(
                    insights.len(),
                    |i: int| insight_line(consolidations[insights[i]]),
                ).flatten()
            } else {
                Seq::<char>::empty()
            }) + (if touched.len() > 0 {
                "\n## Knowledge Boundaries (edges)\n"@ + Seq::new(
                    touched.len(),
                    |i: int| edge_line(edges[touched[i]]),
                ).flatten()
            } else {
                Seq::<char>::empty()
            }) + "\n\nQuestion: "@ + question + "\n\nAnswer:"@
        }),
{
    let at: Seq<int> = most_relevant(memories, question, 20);
    let ids: Seq<i64> = Seq::new(at.len(), |i: int| memories[at[i]].id);
    assert(ids_at(memories, at) =~= ids);
    let insights: Seq<int> = shown_insights(consolidations, ids, consolidations.len());
    let touched: Seq<int> = shown_edges(edges, ids, edges.len());
    memory_lines_are_in_a_row(memories, at, at.len());
    insight_lines_are_in_a_row(consolidations, insights, insights.len());
    edge_lines_are_in_a_row(edges, touched, touched.len());
    assert(QUERY_TASK@ + (MEMORIES_HEAD@ + memory_lines(memories, at, at.len())) =~= QUERY_TASK@
        + MEMORIES_HEAD@ + memory_lines(memories, at, at.len()));
}

} // verus!
