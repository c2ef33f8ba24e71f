use always_on_memory::binary64::Binary64;
use always_on_memory::db::{Consolidation, Edge, Memory};
use always_on_memory::query::{conclude, prepare, top_k_memories, QueryPlan};

fn num(x: f64) -> Binary64 {
    Binary64::from_bits(x.to_bits())
}

fn mem(id: i64, topics: &[&str], importance: f64) -> Memory {
    Memory {
        id,
        collection: "default".to_string(),
        content: String::new(),
        summary: format!("summary {id}"),
        source: String::new(),
        file_hash: String::new(),
        importance: num(importance),
        traits: vec![],
        topics: topics.iter().map(|s| s.to_string()).collect(),
        entities: vec![],
        created_at: String::new(),
        consolidated: false,
    }
}

fn insight(id: i64, memory_ids: Vec<i64>) -> Consolidation {
    Consolidation {
        id,
        memory_ids,
        insight: format!("insight {id}"),
        edge_score: num(0.4567),
        connections: vec![],
        created_at: String::new(),
    }
}

fn edge(a: i64, b: i64, score: f64, relationship: &str) -> Edge {
    Edge {
        id: 0,
        memory_a: a,
        memory_b: b,
        edge_score: num(score),
        relationship: relationship.to_string(),
        created_at: String::new(),
    }
}

#[test]
fn topics_that_are_named_come_first() {
    let all = vec![
        mem(1, &["cooking"], 1.0),
        mem(2, &["Databases"], 0.1),
        mem(3, &["databases", "rust"], 0.1),
        mem(4, &["x"], 0.2),
    ];
    assert_eq!(top_k_memories(&all, "What about RUST, and (databases)?", 3), vec![2, 1, 0]);
    // Without a topic importance decides.
    assert_eq!(top_k_memories(&all, "what is this", 10), vec![0, 3, 1, 2]);
    assert_eq!(top_k_memories(&all, "", 0), Vec::<usize>::new());
}

#[test]
fn more_topics_outweigh_importance() {
    let all = vec![
        mem(1, &["x", "y"], 1.0),
        mem(2, &["a", "x"], 1.0),
        mem(3, &["a", "b"], 0.0),
        mem(4, &["c", "b", "a"], 0.0),
    ];
    assert_eq!(top_k_memories(&all, "a b c", 4), vec![3, 2, 1, 0]);
    assert_eq!(top_k_memories(&all, "a b c", 2), vec![3, 2]);
}

#[test]
fn without_memories_there_is_an_answer_at_once() {
    match prepare(&vec![], &vec![], &vec![], "q") {
        QueryPlan::Answered(r) => {
            assert_eq!(r.answer, "No memories stored yet. Feed me some information first!");
            assert!(r.sources.is_empty() && r.relevant_edges.is_empty());
        }
        other => panic!("{other:?}"),
    }
}

#[test]
fn a_question_is_asked_with_its_context() {
    let all = vec![mem(1, &["cooking", "bread"], 0.5), mem(2, &["databases"], 0.25)];
    let insights = vec![insight(7, vec![2, 9]), insight(8, vec![9]), insight(9, vec![1])];
    let edges = vec![edge(2, 5, 0.9, "tension"), edge(5, 6, 0.8, ""), edge(7, 1, 0.5, "")];
    match prepare(&all, &insights, &edges, "what about databases?") {
        QueryPlan::Ask { prompt, sources, relevant_edges } => {
            let expected = r#"You are a memory query agent with access to a structured knowledge store.
You know not just facts, but the TOPOLOGY of knowledge — where ideas connect
and where they diverge (edges). Use this to give nuanced, insightful answers.

When answering:
- Cite memory IDs for specific claims
- Highlight relevant edges (contradictions/tensions) when they inform the answer
- Distinguish between confident knowledge and speculative connections
- Be direct and useful

## Stored Memories
Memory #2 [topics: databases] [importance: 0.2]: summary 2
Memory #1 [topics: cooking, bread] [importance: 0.5]: summary 1

## Consolidation Insights
Insight (from memories [2, 9], edge_score=0.457): insight 7
Insight (from memories [1], edge_score=0.457): insight 9

## Knowledge Boundaries (edges)
Edge: Memory #2 <-> Memory #5 (score=0.900): tension
Edge: Memory #7 <-> Memory #1 (score=0.500)


Question: what about databases?

Answer:"#;
            assert_eq!(prompt, expected);
            assert_eq!(sources, vec![2, 1]);
            assert_eq!(relevant_edges, vec![(2, 5, num(0.9)), (7, 1, num(0.5))]);
            let r = conclude("yes".to_string(), sources, relevant_edges);
            assert_eq!(r.answer, "yes");
            assert_eq!(r.sources, vec![2, 1]);
            assert_eq!(r.relevant_edges.len(), 2);
        }
        other => panic!("{other:?}"),
    }
}

#[test]
fn context_has_its_limits() {
    let all: Vec<Memory> = (0..30).map(|i| mem(i, &["t"], 0.5)).collect();
    let insights: Vec<Consolidation> = (0..30).map(|i| insight(i, vec![i])).collect();
    let edges: Vec<Edge> = (0..30).map(|i| edge(i, 100, 0.5, "")).collect();
    match prepare(&all, &insights, &edges, "t") {
        QueryPlan::Ask { prompt, sources, relevant_edges } => {
            assert_eq!(sources, (0..20).collect::<Vec<i64>>());
            assert_eq!(prompt.matches("[importance:").count(), 20);
            assert_eq!(prompt.matches("Insight (from").count(), 10);
            assert_eq!(prompt.matches("Edge: Memory").count(), 15);
            assert_eq!(relevant_edges.len(), 5);
        }
        other => panic!("{other:?}"),
    }
}

#[test]
fn sections_without_lines_are_left_out() {
    match prepare(&vec![mem(1, &[], 0.5)], &vec![insight(1, vec![2])], &vec![edge(2, 3, 0.5, "")], "q") {
        QueryPlan::Ask { prompt, relevant_edges, .. } => {
            assert!(!prompt.contains("## Consolidation Insights"));
            assert!(!prompt.contains("## Knowledge Boundaries"));
            assert!(relevant_edges.is_empty());
        }
        other => panic!("{other:?}"),
    }
}
