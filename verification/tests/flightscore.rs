use always_on_memory::binary64::Binary64;
use always_on_memory::db::Memory;
use always_on_memory::flightscore::{classify, count_edge_pairs, score, MemoryScore};
use always_on_memory::revision::FlightStatus;

fn num(x: f64) -> Binary64 {
    Binary64::from_bits(x.to_bits())
}

fn float(x: Binary64) -> f64 {
    f64::from_bits(x.to_bits())
}

fn mem(id: i64, topics: &[&str], traits: &[f64], importance: f64) -> Memory {
    Memory {
        id,
        collection: "default".to_string(),
        content: String::new(),
        summary: String::new(),
        source: format!("source-{id}"),
        file_hash: String::new(),
        importance: num(importance),
        traits: traits.iter().map(|x| num(*x)).collect(),
        topics: topics.iter().map(|s| s.to_string()).collect(),
        entities: vec![],
        created_at: String::new(),
        consolidated: false,
    }
}

fn ids(list: &Vec<MemoryScore>) -> Vec<i64> {
    list.iter().map(|s| s.id).collect()
}

#[test]
fn classify_isolated_is_crashed() {
    assert_eq!(classify(num(0.0), 0), FlightStatus::Crashed);
}

#[test]
fn classify_low_edge_is_landed() {
    assert_eq!(classify(num(0.1), 3), FlightStatus::Landed);
    assert_eq!(classify(num(0.3), 1), FlightStatus::Landed);
}

#[test]
fn classify_mid_edge_is_falling() {
    assert_eq!(classify(num(0.31), 2), FlightStatus::Falling);
    assert_eq!(classify(num(0.6), 1), FlightStatus::Falling);
}

#[test]
fn classify_high_edge_is_crashed() {
    assert_eq!(classify(num(0.61), 2), FlightStatus::Crashed);
    assert_eq!(classify(num(1.0), 5), FlightStatus::Crashed);
}

#[test]
fn count_edge_pairs_unrelated_topics() {
    let a = mem(1, &["rust", "programming"], &[], 0.5);
    let b = mem(2, &["cooking", "recipes"], &[], 0.5);
    assert_eq!(count_edge_pairs(&vec![a, b]), 0);
}

#[test]
fn count_edge_pairs_shared_topics() {
    let a = mem(1, &["ai", "memory"], &[], 0.5);
    let b = mem(2, &["ai", "agents"], &[], 0.5);
    let c = mem(3, &["cooking", "recipes"], &[], 0.5);
    // a-b share "ai" → count=1; a-c and b-c share nothing → count stays 1
    assert_eq!(count_edge_pairs(&vec![a, b, c]), 1);
}

#[test]
fn an_empty_graph_is_crashed() {
    let r = score(&vec![]);
    assert_eq!(r.total_memories, 0);
    assert_eq!(r.overall_status, FlightStatus::Crashed);
    assert_eq!(float(r.avg_edge_score), 0.0);
    assert_eq!(float(r.avg_consensus), 1.0);
    assert_eq!(r.topology.connected, 0);
    assert_eq!(r.topology.isolated, 0);
    assert_eq!(r.topology.edge_pairs, 0);
    assert_eq!(float(r.topology.avg_neighbors), 0.0);
    assert!(r.landed.is_empty() && r.falling.is_empty() && r.crashed.is_empty() && r.hottest_edges.is_empty());
}

#[test]
fn a_report_sorts_memories_by_class() {
    let mut hot = mem(1, &["a"], &[1.0, 0.0], 1.0);
    hot.entities = vec!["E".to_string()];
    let mut cold = mem(2, &["a"], &[0.0, 1.0], 0.8);
    cold.entities = vec!["e".to_string()];
    let graph = vec![
        hot,
        cold,
        mem(3, &["b"], &[1.0], 0.1),
        mem(4, &["b"], &[1.0], 0.1),
        mem(5, &["lonely"], &[1.0], 0.3),
        mem(6, &["island"], &[1.0], 0.7),
        mem(7, &["c"], &[1.0, 0.0], 0.9),
        mem(8, &["c"], &[0.0, 1.0], 0.9),
    ];
    let r = score(&graph);
    // 1 and 2 share everything and disagree: 0.9. 7 and 8 share their topics: 0.45.
    assert_eq!(ids(&r.crashed), vec![1, 2, 6, 5]);
    assert_eq!(ids(&r.falling), vec![7, 8]);
    assert_eq!(ids(&r.landed), vec![3, 4]);
    assert_eq!(ids(&r.hottest_edges), vec![1, 2, 7, 8, 3]);
    assert_eq!(r.total_memories, 8);
    assert_eq!(r.landed.len() + r.falling.len() + r.crashed.len(), 8);
    assert_eq!(float(r.crashed[0].edge_score), 0.9);
    assert_eq!(float(r.crashed[0].consensus), 1.0 - 0.9);
    assert_eq!(r.crashed[0].neighbor_count, 1);
    assert_eq!(r.crashed[0].source, "source-1");
    assert_eq!(r.crashed[0].topics, vec!["a".to_string()]);
    assert_eq!(r.crashed[2].neighbor_count, 0);
    assert_eq!(float(r.crashed[2].edge_score), 0.0);
    let total = 0.0 + 0.9 + 0.9 + 0.0 + 0.0 + 0.0 + 0.0 + 0.45 + 0.45;
    assert_eq!(float(r.avg_edge_score), total / 8.0);
    assert_eq!(float(r.avg_consensus), 1.0 - total / 8.0);
    assert_eq!(r.overall_status, FlightStatus::Falling);
    assert_eq!(r.topology.connected, 6);
    assert_eq!(r.topology.isolated, 2);
    assert_eq!(r.topology.edge_pairs, 3);
    assert_eq!(float(r.topology.avg_neighbors), 1.0);
}

#[test]
fn a_neighbor_overlaps_by_more_than_a_twentieth() {
    // One topic in ten, halved, is a twentieth: related, but no neighbour.
    let many = ["a", "b", "c", "d", "e", "f", "g", "h", "i", "j"];
    let graph = vec![mem(1, &many, &[1.0], 1.0), mem(2, &["a"], &[-1.0], 1.0)];
    let r = score(&graph);
    assert_eq!(r.topology.connected, 0);
    assert_eq!(r.topology.edge_pairs, 0);
    assert_eq!(ids(&r.crashed), vec![1, 2]);
    assert_eq!(float(r.crashed[0].edge_score), 0.0);
    let closer = vec![mem(1, &many[..9], &[1.0], 1.0), mem(2, &["a"], &[-1.0], 1.0)];
    let r = score(&closer);
    assert_eq!(r.topology.connected, 2);
    assert_eq!(r.topology.edge_pairs, 1);
    assert_eq!(ids(&r.landed), vec![1, 2]);
}

#[test]
fn no_more_than_ten_neighbors_are_counted() {
    let graph: Vec<Memory> = (0..13).map(|i| mem(i, &["a"], &[1.0], 0.5)).collect();
    let r = score(&graph);
    assert_eq!(r.landed.len(), 13);
    assert_eq!(r.landed[0].neighbor_count, 10);
    assert_eq!(float(r.topology.avg_neighbors), 10.0);
    assert_eq!(r.topology.edge_pairs, 78);
    assert_eq!(r.hottest_edges.len(), 5);
    assert_eq!(r.overall_status, FlightStatus::Landed);
}

#[test]
fn neighbor_pairs_do_not_depend_on_the_order() {
    let topics: [&[&str]; 5] = [&["a", "b"], &["b", "c"], &["c"], &["d"], &["a", "d"]];
    let in_order = |order: [usize; 5]| -> usize {
        let memories: Vec<Memory> = order.iter().map(|i| mem(*i as i64, topics[*i], &[], 0.5)).collect();
        count_edge_pairs(&memories)
    };
    assert_eq!(in_order([0, 1, 2, 3, 4]), 4);
    assert_eq!(in_order([4, 2, 0, 3, 1]), 4);
    assert_eq!(in_order([3, 4, 1, 0, 2]), 4);
    // All pairs are neighbours.
    let same: Vec<Memory> = (0..6).map(|i| mem(i, &["x"], &[], 0.5)).collect();
    assert_eq!(count_edge_pairs(&same), 6 * 5 / 2);
}

#[test]
fn neighbors_are_those_with_an_overlap_above_the_least() {
    // One of ten topics shared is an overlap of 0.05, which is not above it; one of nine is.
    let words: Vec<String> = (0..12).map(|i| i.to_string()).collect();
    let with = |id: i64, topics: &[String]| {
        let mut m = mem(id, &[], &[], 0.5);
        m.topics = topics.to_vec();
        m
    };
    let ten = vec![with(1, &words[..1]), with(2, &words[..10])];
    let r = score(&ten);
    assert_eq!(r.crashed.iter().map(|s| s.neighbor_count).collect::<Vec<usize>>(), vec![0, 0]);
    for others in [1, 3, 9, 10, 11, 14] {
        let mut all = vec![with(0, &words[..1])];
        all.extend((1..=others).map(|i| with(i, &words[..9])));
        let r = score(&all);
        let first = [&r.landed, &r.falling, &r.crashed].into_iter().flatten().find(|s| s.id == 0).unwrap();
        assert_eq!(first.neighbor_count as i64, others.min(10));
    }
}
