use always_on_memory::binary64::Binary64;
use always_on_memory::consolidate::{
    conclude, description_prompt, is_due, plan, settle_description, ConsolidationResult,
};
use always_on_memory::db::Memory;

fn num(x: f64) -> Binary64 {
    Binary64::from_bits(x.to_bits())
}

fn float(x: Binary64) -> f64 {
    f64::from_bits(x.to_bits())
}

fn mem(id: i64, topics: &[&str], traits: &[f64], importance: f64) -> Memory {
    Memory {
        id,
        collection: "default".to_string(),
        content: String::new(),
        summary: format!("summary {id}"),
        source: String::new(),
        file_hash: String::new(),
        importance: num(importance),
        traits: traits.iter().map(|x| num(*x)).collect(),
        topics: topics.iter().map(|s| s.to_string()).collect(),
        entities: topics.iter().map(|s| s.to_string()).collect(),
        created_at: String::new(),
        consolidated: false,
    }
}

#[test]
fn few_memories_are_left_alone() {
    assert!(plan(&vec![], num(0.4)).is_none());
    assert!(plan(&vec![mem(1, &["a"], &[], 1.0)], num(0.4)).is_none());
    let idle = ConsolidationResult::default();
    assert_eq!((idle.consolidation_id, idle.memories_processed, idle.edges_detected), (0, 0, 0));
    assert_eq!(float(idle.avg_edge_score), 0.0);
    assert_eq!(idle.insight, "");
    assert!(is_due(3, 3) && !is_due(2, 3));
}

#[test]
fn a_cycle_is_planned() {
    let waiting = vec![
        mem(1, &["a"], &[1.0, 0.0], 1.0),
        mem(2, &["a"], &[0.0, 1.0], 0.8),
        mem(3, &["z", "y"], &[0.0, 1.0], 0.25),
        mem(4, &["a"], &[0.0, 1.0], 0.1),
    ];
    let p = plan(&waiting, num(0.4)).unwrap();
    assert_eq!(p.memory_ids, vec![1, 2, 3, 4]);
    assert_eq!(p.edges.len(), 2);
    assert_eq!((p.edges[0].0, p.edges[0].1, float(p.edges[0].2)), (1, 2, 0.9));
    assert_eq!((p.edges[1].0, p.edges[1].1, float(p.edges[1].2)), (1, 4, 0.55));
    // Only the first is strong enough to be described.
    assert_eq!(
        p.descriptions[0],
        Some(
            "In one sentence, describe the relationship between these two pieces of information.\nFocus on where they connect AND where they diverge.\n\nA: summary 1\nB: summary 2\n\nOne sentence:"
                .to_string()
        )
    );
    assert_eq!(p.descriptions[1], None);
    assert_eq!(float(p.avg_edge_score), (0.9 + 0.55) / 2.0);
    assert_eq!(p.connections.len(), 2);
    assert_eq!(p.connections[0].from_id, 1);
    assert_eq!(p.connections[0].to_id, 2);
    assert_eq!(p.connections[0].relationship, "edge_score=0.900");
    assert_eq!(float(p.connections[1].strength), 0.55);
    let expected = r#"You are a memory consolidation agent. Your job is like the brain during sleep:
review memories, find connections, compress related information, and generate insights.

Pay special attention to "edges" — places where related memories DIVERGE in perspective
or approach. These boundaries are where the most interesting insights live.

Memories to consolidate:
Memory #1: [topics: a] [importance: 1.0] summary 1
Memory #2: [topics: a] [importance: 0.8] summary 2
Memory #3: [topics: z, y] [importance: 0.2] summary 3
Memory #4: [topics: a] [importance: 0.1] summary 4

Detected knowledge boundaries (high edge scores = related but divergent):
  Memory #1 <-> Memory #2: edge_score=0.900
  Memory #1 <-> Memory #4: edge_score=0.550


Produce a concise consolidation report:
1. Key connections between memories
2. Cross-cutting themes
3. Tensions or contradictions (high-edge-score pairs)
4. One actionable insight that emerges from the synthesis

Be direct and specific. Reference memory IDs."#;
    assert_eq!(p.insight_prompt, expected);
    let r = conclude(&p, 9, "insight".to_string());
    assert_eq!((r.consolidation_id, r.memories_processed, r.edges_detected), (9, 4, 2));
    assert_eq!(r.avg_edge_score, p.avg_edge_score);
    assert_eq!(r.insight, "insight");
}

#[test]
fn a_cycle_may_find_no_edges() {
    let p = plan(&vec![mem(1, &["a"], &[], 1.0), mem(2, &["b"], &[], 1.0)], num(0.4)).unwrap();
    assert!(p.edges.is_empty() && p.descriptions.is_empty() && p.connections.is_empty());
    assert_eq!(float(p.avg_edge_score), 0.0);
    assert!(!p.insight_prompt.contains("Detected knowledge boundaries"));
}

#[test]
fn no_more_than_ten_connections_are_kept() {
    let waiting: Vec<Memory> =
        (0..6).map(|i| mem(i, &["a"], if i % 2 == 0 { &[1.0, 0.0] } else { &[0.0, 1.0] }, 1.0)).collect();
    let p = plan(&waiting, num(0.0)).unwrap();
    assert_eq!(p.edges.len(), 15);
    assert_eq!(p.connections.len(), 10);
    assert_eq!(p.insight_prompt.matches(" <-> ").count(), 10);
}

#[test]
fn edges_are_described_where_both_memories_are_known() {
    let known = vec![mem(1, &["a"], &[], 1.0)];
    assert_eq!(description_prompt(&known, 1, 2), None);
    assert_eq!(description_prompt(&known, 2, 1), None);
    assert!(description_prompt(&known, 1, 1).is_some());
    assert_eq!(settle_description(Some("x".to_string())), "x");
    assert_eq!(settle_description(None), "");
}
