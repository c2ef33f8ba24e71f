use always_on_memory::binary64::Binary64;
use always_on_memory::db::Memory;
use always_on_memory::edges::{detect_all_edges, edge_score, find_neighbors, memory_edge_score};

fn num(x: f64) -> Binary64 {
    Binary64::from_bits(x.to_bits())
}

fn float(x: Binary64) -> f64 {
    f64::from_bits(x.to_bits())
}

fn make_memory(id: i64, topics: &[&str], traits: &[f64], importance: f64) -> Memory {
    Memory {
        id,
        collection: "default".to_string(),
        content: String::new(),
        summary: String::new(),
        source: String::new(),
        file_hash: String::new(),
        importance: num(importance),
        traits: traits.iter().map(|x| num(*x)).collect(),
        topics: topics.iter().map(|s| s.to_string()).collect(),
        entities: vec![],
        created_at: String::new(),
        consolidated: false,
    }
}

#[test]
fn unrelated_memories_have_zero_edge() {
    let a = make_memory(1, &["rust", "programming"], &[1.0, 0.0], 0.8);
    let b = make_memory(2, &["cooking", "recipes"], &[0.0, 1.0], 0.8);
    assert_eq!(float(edge_score(&a, &b)), 0.0);
}

#[test]
fn related_but_different_have_high_edge() {
    let a = make_memory(1, &["ai", "memory", "agents"], &[1.0, 0.0, 0.5], 0.9);
    let b = make_memory(2, &["ai", "memory", "databases"], &[0.0, 1.0, 0.2], 0.9);
    let score = float(edge_score(&a, &b));
    assert!(score > 0.2, "expected high edge, got {score}");
}

#[test]
fn identical_traits_have_low_edge() {
    let a = make_memory(1, &["ai", "memory"], &[1.0, 0.5, 0.3], 0.8);
    let b = make_memory(2, &["ai", "memory"], &[1.0, 0.5, 0.3], 0.8);
    let score = float(edge_score(&a, &b));
    assert!(score < 0.05, "expected low edge, got {score}");
}

#[test]
fn edge_score_is_overlap_times_divergence_times_importance() {
    let a = make_memory(1, &["ai", "memory"], &[1.0, 0.0], 0.6);
    let b = make_memory(2, &["AI", "tools"], &[0.0, 1.0], 0.9);
    let overlap = (1.0 / 3.0 + 0.0) / 2.0;
    let expected = overlap * (1.0 - 0.0) * ((0.6 + 0.9) / 2.0);
    assert_eq!(float(edge_score(&a, &b)), expected);
    assert_eq!(edge_score(&a, &b), edge_score(&b, &a));
}

#[test]
fn memories_without_traits_agree_by_half() {
    let a = make_memory(1, &["ai"], &[], 1.0);
    let b = make_memory(2, &["ai"], &[1.0], 1.0);
    assert_eq!(float(edge_score(&a, &b)), 0.5 * 0.5 * 1.0);
}

#[test]
fn opposite_traits_make_no_more_than_a_whole_edge() {
    let mut a = make_memory(1, &["ai"], &[1.0], 5.0);
    let mut b = make_memory(2, &["ai"], &[-1.0], 5.0);
    a.entities = vec!["X".to_string()];
    b.entities = vec!["x".to_string()];
    assert_eq!(float(edge_score(&a, &b)), 1.0);
    a.importance = num(-5.0);
    b.importance = num(-5.0);
    assert_eq!(float(edge_score(&a, &b)), 0.0);
}

#[test]
fn little_overlap_makes_no_edge() {
    // One topic in eleven, halved, is less than a twentieth.
    let topics = ["a", "b", "c", "d", "e", "f", "g", "h", "i", "j", "k"];
    let a = make_memory(1, &topics, &[1.0], 1.0);
    let b = make_memory(2, &["a"], &[-1.0], 1.0);
    assert_eq!(float(edge_score(&a, &b)), 0.0);
    // One in ten, halved, is just that.
    let c = make_memory(3, &topics[..10], &[1.0], 1.0);
    assert_eq!(float(edge_score(&c, &b)), 0.05);
}

#[test]
fn neighbors_are_the_nearest_first() {
    let all = vec![
        make_memory(1, &["a", "b"], &[], 0.5),
        make_memory(2, &["a", "b"], &[], 0.5),
        make_memory(3, &["x"], &[], 0.5),
        make_memory(4, &["a"], &[], 0.5),
        make_memory(5, &["b"], &[], 0.5),
        make_memory(1, &["a", "b"], &[], 0.5),
    ];
    let near = find_neighbors(&all[0], &all, 10);
    let places: Vec<usize> = near.iter().map(|n| n.0).collect();
    // Itself, what has its id, and what has nothing in common are left out.
    assert_eq!(places, vec![1, 3, 4]);
    assert_eq!(float(near[0].1), 0.5);
    assert_eq!(float(near[1].1), 0.25);
    assert_eq!(find_neighbors(&all[0], &all, 1).len(), 1);
    assert_eq!(find_neighbors(&all[2], &all, 10).len(), 0);
}

#[test]
fn a_memory_scores_the_mean_of_its_five_nearest() {
    let mut all = vec![make_memory(1, &["a"], &[1.0, 0.0], 1.0)];
    for i in 0..7 {
        all.push(make_memory(10 + i, &["a"], &[0.0, 1.0], i as f64 / 10.0));
    }
    let mut total = 0.0;
    for i in 0..5 {
        total += 0.5 * 1.0 * ((1.0 + i as f64 / 10.0) / 2.0);
    }
    assert_eq!(float(memory_edge_score(&all[0], &all)), total / 5.0);
    let alone = vec![make_memory(1, &["a"], &[1.0], 1.0)];
    assert_eq!(float(memory_edge_score(&alone[0], &alone)), 0.0);
}

#[test]
fn edges_are_found_from_the_highest_score_down() {
    let all = vec![
        make_memory(1, &["a"], &[1.0, 0.0], 0.2),
        make_memory(2, &["a"], &[0.0, 1.0], 0.2),
        make_memory(3, &["a"], &[0.0, 1.0], 1.0),
        make_memory(4, &["z"], &[0.0, 1.0], 1.0),
    ];
    let found = detect_all_edges(&all, num(0.1));
    assert_eq!(found.len(), 2);
    assert_eq!((found[0].0, found[0].1), (1, 3));
    assert_eq!(float(found[0].2), 0.5 * 1.0 * ((0.2 + 1.0) / 2.0));
    assert_eq!((found[1].0, found[1].1), (1, 2));
    // The threshold itself is enough.
    assert_eq!(float(found[1].2), 0.1);
    assert_eq!(detect_all_edges(&all, num(0.11)).len(), 1);
    // All pairs reach a threshold of zero.
    assert_eq!(detect_all_edges(&all, num(0.0)).len(), 6);
    assert_eq!(detect_all_edges(&vec![], num(0.0)).len(), 0);
}

#[test]
fn full_consensus_leaves_no_edge() {
    let a = make_memory(1, &["ai"], &[1.0, 0.0], 1.0);
    let b = make_memory(2, &["ai"], &[0.5, 0.0], 1.0);
    assert_eq!(float(edge_score(&a, &b)), 0.0);
}

#[test]
fn edge_scores_of_proper_memories_lie_between_zero_and_one() {
    let mut state: u64 = 99;
    let mut next = || {
        state ^= state << 13;
        state ^= state >> 7;
        state ^= state << 17;
        state
    };
    for _ in 0..300 {
        let mut random = |id: i64| {
            let topics: Vec<&str> = ["a", "b", "c"].into_iter().filter(|_| next() % 2 == 0).collect();
            let traits: Vec<f64> = (0..next() % 4).map(|_| (next() % 201) as f64 / 100.0 - 1.0).collect();
            let importance = (next() % 101) as f64 / 100.0;
            make_memory(id, &topics, &traits, importance)
        };
        let (a, b) = (random(1), random(2));
        let score = float(edge_score(&a, &b));
        assert!((0.0..=1.0).contains(&score), "{score}");
        assert_eq!(edge_score(&a, &b), edge_score(&b, &a));
    }
}

#[test]
fn tiny_traits_count_as_none() {
    // The squares of such traits vanish, so that the vectors count as zero.
    let a = make_memory(1, &["a"], &[1e-200], 1.0);
    let b = make_memory(2, &["a"], &[1e-200], 1.0);
    assert_eq!(float(edge_score(&a, &b)), 0.5);
}

#[test]
fn a_higher_threshold_gives_the_first_edges_of_a_lower_one() {
    let memories: Vec<Memory> = (0..12)
        .map(|i| {
            let own = (i % 4).to_string();
            let shared = (i % 3).to_string();
            make_memory(i, &["all", own.as_str(), shared.as_str()], &[i as f64 / 12.0, 0.5], 0.3 + i as f64 / 20.0)
        })
        .collect();
    let all = detect_all_edges(&memories, num(0.0));
    assert_eq!(all.len(), 66);
    let mut lengths = vec![];
    for threshold in [0.001, 0.01, 0.05, 0.1, 2.0] {
        let some = detect_all_edges(&memories, num(threshold));
        assert_eq!(some[..], all[..some.len()]);
        lengths.push(some.len());
    }
    assert!(lengths.windows(2).all(|w| w[0] >= w[1]));
    assert!(lengths[0] > lengths[2]);
    assert_eq!(lengths[4], 0);
}

#[test]
fn little_overlap_is_no_edge_whatever_the_traits() {
    let words: Vec<String> = (0..20).map(|i| i.to_string()).collect();
    let mut a = make_memory(1, &["0"], &[1.0, 0.0], 1.0);
    let mut b = make_memory(2, &["0"], &[-1.0, 5.0], 1.0);
    a.topics = words[..11].to_vec();
    b.topics = words[10..].to_vec();
    // One of twenty topics is shared: an overlap of 0.025.
    assert_eq!(float(edge_score(&a, &b)), 0.0);
    b.topics = words[9..11].to_vec();
    assert_eq!(float(edge_score(&a, &b)), (2.0 / 11.0 + 0.0) / 2.0);
}
