use always_on_memory::binary64::Binary64;
use always_on_memory::db::Memory;
use always_on_memory::revision::{
    is_content_class, is_semantic_class, judge, CascadeEngine, Classification, ConsensusRegime, ContentRegime,
    FlightStatus, IncomingContent, KnowledgeRegime, NarrativeRegime, ProvenanceRegime, Reading, Regime,
    RevisionResult, SemanticRegime, StructuralRegime, TemporalRegime, TraitRegime,
};

fn num(x: f64) -> Binary64 {
    Binary64::from_bits(x.to_bits())
}

fn float(x: Binary64) -> f64 {
    f64::from_bits(x.to_bits())
}

fn list(items: &[&str]) -> Vec<String> {
    items.iter().map(|s| s.to_string()).collect()
}

fn make_memory(id: i64, content: &str, topics: &[&str], traits: &[f64]) -> Memory {
    Memory {
        id,
        collection: "test".to_string(),
        content: content.to_string(),
        summary: content.chars().take(80).collect(),
        source: "test.txt".to_string(),
        file_hash: String::new(),
        importance: num(0.7),
        traits: traits.iter().map(|x| num(*x)).collect(),
        topics: list(topics),
        entities: vec![],
        created_at: "2026-03-06T12:00:00".to_string(),
        consolidated: false,
    }
}

fn make_incoming(content: &str, topics: &[&str], traits: &[f64]) -> IncomingContent {
    IncomingContent {
        content: content.to_string(),
        summary: content.chars().take(80).collect(),
        source: "test.txt".to_string(),
        topics: list(topics),
        entities: vec![],
        traits: traits.iter().map(|x| num(*x)).collect(),
        importance: num(0.7),
        created_at: Some("2026-03-06T12:00:00".to_string()),
        domain_meta: vec![],
    }
}

struct Fixed(&'static str, f64, f64, f64);

impl Regime for Fixed {
    fn name(&self) -> &str {
        self.0
    }
    fn evaluate(&self, _: &IncomingContent, _: &Memory) -> Binary64 {
        num(self.1)
    }
    fn threshold(&self) -> Binary64 {
        num(self.2)
    }
    fn weight(&self) -> Binary64 {
        num(self.3)
    }
    fn next_on_fail(&self) -> Option<&str> {
        None
    }
}

fn reading(name: &str, score: f64, threshold: f64, weight: f64) -> Reading {
    Reading { name: name.to_string(), score: num(score), threshold: num(threshold), weight: num(weight) }
}

fn scores(r: &RevisionResult) -> Vec<(String, f64)> {
    r.regime_scores.iter().map(|e| (e.0.clone(), float(e.1))).collect()
}

#[test]
fn engine_has_9_core_dimensions() {
    let engine = CascadeEngine::with_core_regimes();
    assert_eq!(engine.dimensions(), 9);
}

#[test]
fn exact_duplicate_is_strong_match() {
    let engine = CascadeEngine::with_core_regimes();
    let existing = vec![make_memory(
        1,
        "AI agents need persistent memory to function effectively",
        &["ai", "memory", "agents"],
        &[0.8, 0.3, 0.6],
    )];
    let incoming = make_incoming(
        "AI agents need persistent memory to function effectively",
        &["ai", "memory", "agents"],
        &[0.8, 0.3, 0.6],
    );
    let result = engine.detect(&incoming, &existing);
    assert_eq!(result.classification, Classification::StrongMatch);
    assert_eq!(result.flight_status, FlightStatus::Landed);
    assert_eq!(result.regime_scores.len(), 9);
}

#[test]
fn novel_content_is_novel() {
    let engine = CascadeEngine::with_core_regimes();
    let existing = vec![make_memory(1, "AI agents need persistent memory", &["ai", "memory"], &[0.8, 0.3, 0.6])];
    let incoming = make_incoming(
        "The best sourdough recipe requires a 72 hour cold ferment",
        &["cooking", "bread", "fermentation"],
        &[-0.5, 0.9, -0.2],
    );
    let result = engine.detect(&incoming, &existing);
    assert_eq!(result.classification, Classification::Novel);
    assert_eq!(result.match_id, None);
}

#[test]
fn custom_regime_adds_dimension() {
    struct NflArchetype;
    impl Regime for NflArchetype {
        fn name(&self) -> &str {
            "nfl_archetype"
        }
        fn evaluate(&self, _: &IncomingContent, _: &Memory) -> Binary64 {
            num(0.42)
        }
        fn threshold(&self) -> Binary64 {
            num(0.5)
        }
        fn weight(&self) -> Binary64 {
            num(1.0)
        }
        fn next_on_fail(&self) -> Option<&str> {
            None
        }
    }
    let mut engine = CascadeEngine::with_core_regimes();
    engine.register(Box::new(NflArchetype));
    assert_eq!(engine.dimensions(), 10);
}

#[test]
fn nothing_to_compare_with_is_novel() {
    let engine = CascadeEngine::with_core_regimes();
    let r = engine.detect(&make_incoming("x", &[], &[]), &vec![]);
    assert_eq!(r.match_id, None);
    assert_eq!(r.classification, Classification::Novel);
    assert_eq!(r.flight_status, FlightStatus::Crashed);
    assert_eq!(r.regime_scores.len(), 0);
    assert_eq!(float(r.total_score), 0.0);
    assert_eq!(r.fired_regime, None);
    assert_eq!(r.explanation, "no existing memories to compare against");
}

#[test]
fn all_core_scores_of_a_pair() {
    let engine = CascadeEngine::with_core_regimes();
    let existing = make_memory(4, "AI agents need persistent memory", &["ai", "memory"], &[0.8, 0.3, 0.6]);
    let incoming = make_incoming(
        "The best sourdough recipe requires a 72 hour cold ferment",
        &["cooking", "bread", "fermentation"],
        &[-0.5, 0.9, -0.2],
    );
    let r = engine.evaluate_pair(&incoming, &existing);
    let names: Vec<&str> = r.regime_scores.iter().map(|e| e.0.as_str()).collect();
    assert_eq!(
        names,
        vec![
            "content",
            "semantic",
            "trait",
            "temporal",
            "provenance",
            "narrative",
            "knowledge",
            "structural",
            "consensus"
        ]
    );
    let (a, b) = ([-0.5, 0.9, -0.2], [0.8, 0.3, 0.6]);
    let dot: f64 = a.iter().zip(b.iter()).map(|(x, y)| x * y).sum();
    let cosine: f64 = dot / (a.iter().map(|x| x * x).sum::<f64>().sqrt() * b.iter().map(|x| x * x).sum::<f64>().sqrt());
    let cosine = cosine.clamp(0.0, 1.0);
    let agree = 1.0 - (0.7f64 - 0.7).abs();
    let sum: f64 = [0.0, 0.0, cosine, agree].iter().sum();
    let expected = [
        0.3 * (32.0 / 57.0) + 0.7 * 0.0,
        (0.45 * 0.0 + 0.20 * agree) / 0.65,
        cosine,
        1.0,
        1.0,
        0.0,
        0.0,
        0.0,
        (1.0 / 4.0 * (sum / 4.0)).clamp(0.0, 1.0),
    ];
    let weights = [1.0, 1.0, 1.0, 0.6, 0.8, 0.7, 0.8, 0.7, 0.5];
    let mut weighted = 0.0;
    let mut total = 0.0;
    for i in 0..9 {
        assert_eq!(float(r.regime_scores[i].1), expected[i], "{}", names[i]);
        weighted += expected[i] * weights[i];
        total += weights[i];
    }
    assert_eq!(float(r.total_score), weighted / total);
    assert_eq!(r.fired_regime, Some("temporal".to_string()));
    assert_eq!(r.classification, Classification::Novel);
    assert_eq!(
        r.explanation,
        format!(
            "novel content (total={:.3}, top: temporal=1.00, provenance=1.00, semantic={:.2})",
            weighted / total,
            expected[1]
        )
    );
}

#[test]
fn content_is_compared_by_length_and_words() {
    let regime = ContentRegime::default();
    let m = make_memory(1, "the cat sat", &[], &[]);
    let got = regime.evaluate(&make_incoming("the dog sat on", &[], &[]), &m);
    assert_eq!(float(got), 0.3 * (11.0 / 14.0) + 0.7 * (2.0 / 5.0));
    // Lengths are in bytes.
    let got = regime.evaluate(&make_incoming("é", &[], &[]), &make_memory(1, "e", &[], &[]));
    assert_eq!(float(got), 0.3 * (1.0 / 2.0) + 0.7 * 0.0);
    assert_eq!(float(regime.evaluate(&make_incoming("", &[], &[]), &m)), 0.0);
    assert_eq!(float(regime.evaluate(&make_incoming("the cat sat", &[], &[]), &m)), 1.0);
}

#[test]
fn meaning_is_compared_by_topics_entities_and_importance() {
    let regime = SemanticRegime::default();
    let mut m = make_memory(1, "x", &["A", "b"], &[]);
    m.importance = num(0.5);
    let mut i = make_incoming("y", &["a", "c"], &[]);
    let t = 1.0 / 3.0;
    let agree = 1.0 - (0.7f64 - 0.5).abs();
    assert_eq!(float(regime.evaluate(&i, &m)), (0.45 * t + 0.20 * agree) / 0.65);
    i.entities = list(&["Z"]);
    m.entities = list(&["z", "w"]);
    assert_eq!(float(regime.evaluate(&i, &m)), (0.45 * t + 0.35 * 0.5 + 0.20 * agree).clamp(0.0, 1.0));
    i.importance = num(100.0);
    assert_eq!(float(regime.evaluate(&i, &m)), 0.0);
}

#[test]
fn traits_are_compared_by_their_cosine() {
    let regime = TraitRegime::default();
    let m = make_memory(1, "x", &[], &[1.0, 0.0]);
    assert_eq!(float(regime.evaluate(&make_incoming("x", &[], &[]), &m)), 0.5);
    assert_eq!(float(regime.evaluate(&make_incoming("x", &[], &[-1.0, 0.0]), &m)), 0.0);
    assert_eq!(float(regime.evaluate(&make_incoming("x", &[], &[1.0, 0.0]), &m)), 1.0);
}

#[test]
fn times_are_compared_by_what_they_begin_with() {
    let regime = TemporalRegime::default();
    let m = make_memory(1, "x", &[], &[]);
    let mut i = make_incoming("x", &[], &[]);
    i.created_at = Some("2026-03-07".to_string());
    assert_eq!(float(regime.evaluate(&i, &m)), 9.0 / 19.0);
    i.created_at = None;
    assert_eq!(float(regime.evaluate(&i, &m)), 0.5);
    i.created_at = Some(String::new());
    assert_eq!(float(regime.evaluate(&i, &m)), 0.5);
}

#[test]
fn sources_are_compared_by_the_parts_of_their_paths() {
    let regime = ProvenanceRegime::default();
    let mut m = make_memory(1, "x", &[], &[]);
    let mut i = make_incoming("x", &[], &[]);
    m.source = "Docs/Notes.TXT".to_string();
    i.source = "docs/notes.txt".to_string();
    assert_eq!(float(regime.evaluate(&i, &m)), 1.0);
    i.source = "docs\\other.txt".to_string();
    assert_eq!(float(regime.evaluate(&i, &m)), 0.5);
    i.source = "x".to_string();
    assert_eq!(float(regime.evaluate(&i, &m)), 0.0);
}

#[test]
fn summaries_are_compared_by_their_words() {
    let regime = NarrativeRegime::default();
    let mut m = make_memory(1, "x", &[], &[]);
    let mut i = make_incoming("x", &[], &[]);
    m.summary = "a b c".to_string();
    i.summary = "b c d".to_string();
    assert_eq!(float(regime.evaluate(&i, &m)), 0.5);
    i.summary = String::new();
    assert_eq!(float(regime.evaluate(&i, &m)), 0.0);
}

#[test]
fn knowledge_is_compared_by_entities_and_mentions() {
    let regime = KnowledgeRegime::default();
    let mut m = make_memory(1, "Rust was made at Mozilla", &[], &[]);
    let mut i = make_incoming("rust is fast", &[], &[]);
    assert_eq!(float(regime.evaluate(&i, &m)), 0.0);
    let same = make_incoming("Rust was here", &[], &[]);
    assert_eq!(float(regime.evaluate(&same, &m)), 2.0 / 6.0);
    m.entities = list(&["Rust", "Mozilla"]);
    i.entities = list(&["RUST"]);
    // One of two entities is shared; the memory's content mentions the incoming entity,
    // the incoming content one of the memory's.
    assert_eq!(float(regime.evaluate(&i, &m)), 0.5 * 0.5 + 0.5 * (2.0 / 3.0));
}

#[test]
fn structure_is_compared_by_the_order_of_topics() {
    let regime = StructuralRegime::default();
    let m = make_memory(1, "x", &["b", "A", "z"], &[]);
    let i = make_incoming("x", &["a", "b"], &[]);
    let earned = 0.0 + 1.0 * (1.0 - (0.0f64 - 1.0).abs() / 3.0) + (1.0 / 2.0) * (1.0 - (1.0f64 - 0.0).abs() / 3.0);
    let norm = 1.0 + 1.0 / 2.0;
    assert_eq!(float(regime.evaluate(&i, &m)), (earned / norm).clamp(0.0, 1.0));
    assert_eq!(float(regime.evaluate(&make_incoming("x", &[], &[]), &m)), 0.0);
    let same = make_incoming("x", &["B", "a", "Z"], &[]);
    assert_eq!(float(regime.evaluate(&same, &m)), 1.0);
}

#[test]
fn consensus_is_the_agreement_of_signals() {
    let regime = ConsensusRegime::default();
    let m = make_memory(1, "x", &["a", "b"], &[]);
    let i = make_incoming("x", &["a", "c"], &[]);
    let sigs = [1.0 / 3.0, 0.0, 0.5, 1.0];
    let avg = sigs.iter().sum::<f64>() / 4.0;
    assert_eq!(float(regime.evaluate(&i, &m)), 3.0 / 4.0 * avg);
}

#[test]
fn core_regimes_fail_over_in_their_order() {
    let engine: Vec<Box<dyn Regime>> = vec![
        Box::new(ContentRegime::default()),
        Box::new(SemanticRegime::default()),
        Box::new(TraitRegime::default()),
        Box::new(TemporalRegime::default()),
        Box::new(ProvenanceRegime::default()),
        Box::new(NarrativeRegime::default()),
        Box::new(KnowledgeRegime::default()),
        Box::new(StructuralRegime::default()),
        Box::new(ConsensusRegime::default()),
    ];
    let thresholds: Vec<f64> = engine.iter().map(|r| float(r.threshold())).collect();
    assert_eq!(thresholds, vec![0.85, 0.55, 0.40, 0.50, 0.80, 0.50, 0.45, 0.45, 0.40]);
    let weights: Vec<f64> = engine.iter().map(|r| float(r.weight())).collect();
    assert_eq!(weights, vec![1.0, 1.0, 1.0, 0.6, 0.8, 0.7, 0.8, 0.7, 0.5]);
    for i in 0..8 {
        assert_eq!(engine[i].next_on_fail(), Some(engine[i + 1].name()));
    }
    assert_eq!(engine[8].next_on_fail(), None);
}

#[test]
fn classes_of_regimes() {
    for name in ["content", "provenance"] {
        assert!(is_content_class(name) && !is_semantic_class(name));
    }
    for name in ["semantic", "knowledge", "structural", "narrative"] {
        assert!(!is_content_class(name) && is_semantic_class(name));
    }
    for name in ["trait", "temporal", "consensus", ""] {
        assert!(!is_content_class(name) && !is_semantic_class(name));
    }
}

#[test]
fn readings_are_judged_by_what_fired_and_the_total() {
    let strong = judge(&vec![reading("content", 0.9, 0.85, 1.0)], 7);
    assert_eq!(strong.classification, Classification::StrongMatch);
    assert_eq!(strong.flight_status, FlightStatus::Landed);
    assert_eq!(strong.match_id, Some(7));
    assert_eq!(strong.explanation, "near-duplicate of #7 (fired=content, total=0.900, top: content=0.90)");

    let semantic = judge(&vec![reading("trait", 0.6, 0.7, 1.0), reading("narrative", 0.6, 0.5, 1.0)], -3);
    assert_eq!(semantic.classification, Classification::SemanticMatch);
    assert_eq!(semantic.flight_status, FlightStatus::Falling);
    assert_eq!(
        semantic.explanation,
        "revision of #-3 (fired=narrative, total=0.600, top: trait=0.60, narrative=0.60)"
    );

    // Content fired, but the total is too low for a strong match.
    let drift = judge(&vec![reading("content", 0.9, 0.85, 1.0), reading("x", 0.1, 0.5, 1.0)], 1);
    assert_eq!(drift.classification, Classification::DriftMatch);
    assert_eq!(drift.match_id, Some(1));
    assert_eq!(drift.explanation, "drift from #1 (fired=content, total=0.500, top: content=0.90, x=0.10)");

    // Nothing fired.
    let quiet = judge(&vec![reading("x", 0.4, 0.5, 1.0)], 1);
    assert_eq!(quiet.classification, Classification::DriftMatch);
    assert_eq!(quiet.fired_regime, None);
    assert_eq!(quiet.explanation, "drift from #1 (fired=none, total=0.400, top: x=0.40)");

    let novel = judge(&vec![reading("content", 0.3, 0.2, 1.0)], 1);
    assert_eq!(novel.classification, Classification::Novel);
    assert_eq!(novel.flight_status, FlightStatus::Crashed);
    assert_eq!(novel.match_id, None);
    assert_eq!(novel.explanation, "novel content (total=0.300, top: content=0.30)");

    let weightless = judge(&vec![reading("content", 1.0, 0.2, 0.0)], 1);
    assert_eq!(float(weightless.total_score), 0.0);
    let none = judge(&vec![], 1);
    assert_eq!(none.classification, Classification::Novel);
    assert_eq!(none.explanation, "novel content (total=0.000, top: )");
}

#[test]
fn floors_and_thresholds_are_reached_at_their_value() {
    assert_eq!(judge(&vec![reading("content", 0.85, 0.85, 1.0)], 1).classification, Classification::StrongMatch);
    assert_eq!(judge(&vec![reading("semantic", 0.55, 0.55, 1.0)], 1).classification, Classification::SemanticMatch);
    assert_eq!(judge(&vec![reading("other", 0.35, 0.4, 1.0)], 1).classification, Classification::DriftMatch);
    assert_eq!(judge(&vec![reading("other", 0.34, 0.4, 1.0)], 1).classification, Classification::Novel);
    assert_eq!(judge(&vec![reading("other", 0.5, 0.4, 1.0)], 1).flight_status, FlightStatus::Falling);
}

#[test]
fn a_later_reading_of_a_name_takes_its_place() {
    let r = judge(
        &vec![reading("a", 0.1, 0.5, 1.0), reading("b", 0.2, 0.5, 1.0), reading("a", 0.9, 0.95, 1.0)],
        1,
    );
    assert_eq!(scores(&r), vec![("a".to_string(), 0.9), ("b".to_string(), 0.2)]);
    // The first of the two fires by the score of the second.
    assert_eq!(r.fired_regime, Some("a".to_string()));
    assert_eq!(float(r.total_score), (0.0 + 0.1 + 0.2 + 0.9) / 3.0);
}

#[test]
fn explanations_name_the_three_highest_scores() {
    let r = judge(
        &vec![
            reading("a", 0.1, 2.0, 1.0),
            reading("b", 0.3, 2.0, 1.0),
            reading("c", 0.2, 2.0, 1.0),
            reading("d", 0.3, 2.0, 1.0),
        ],
        1,
    );
    assert_eq!(r.explanation, "novel content (total=0.225, top: b=0.30, d=0.30, c=0.20)");
}

#[test]
fn the_best_match_is_the_first_with_the_highest_total() {
    let engine = CascadeEngine::with_core_regimes();
    let text = "AI agents need persistent memory";
    let existing = vec![
        make_memory(1, "something else entirely", &["x"], &[0.1]),
        make_memory(2, text, &["ai"], &[0.5]),
        make_memory(3, text, &["ai"], &[0.5]),
    ];
    let r = engine.detect(&make_incoming(text, &["ai"], &[0.5]), &existing);
    assert_eq!(r.match_id, Some(2));
    assert_eq!(r.fired_regime, Some("content".to_string()));
}

#[test]
fn registered_regimes_count_in_the_total() {
    let mut engine = CascadeEngine::new();
    assert_eq!(engine.dimensions(), 0);
    engine.register(Box::new(Fixed("first", 0.5, 0.9, 1.0)));
    engine.register(Box::new(Fixed("second", 1.0, 0.9, 3.0)));
    assert_eq!(engine.dimensions(), 2);
    let existing = vec![make_memory(1, "x", &[], &[])];
    let r = engine.detect(&make_incoming("x", &[], &[]), &existing);
    assert_eq!(float(r.total_score), (0.5 * 1.0 + 1.0 * 3.0) / 4.0);
    assert_eq!(r.fired_regime, Some("second".to_string()));
    assert_eq!(scores(&r), vec![("first".to_string(), 0.5), ("second".to_string(), 1.0)]);
}

#[test]
fn a_registered_regime_decides_the_verdict() {
    let mut engine = CascadeEngine::new();
    engine.register(Box::new(Fixed("nfl_archetype", 0.42, 0.5, 1.0)));
    let r = engine.detect(&make_incoming("x", &[], &[]), &vec![make_memory(7, "y", &[], &[])]);
    assert_eq!(r.match_id, Some(7));
    assert_eq!(r.classification, Classification::DriftMatch);
    assert_eq!(r.flight_status, FlightStatus::Crashed);
    assert_eq!(float(r.total_score), 0.42);
    assert_eq!(r.fired_regime, None);
    assert_eq!(scores(&r), vec![("nfl_archetype".to_string(), 0.42)]);
    assert_eq!(r.explanation, "drift from #7 (fired=none, total=0.420, top: nfl_archetype=0.42)");
}

#[test]
fn registered_regimes_come_after_the_core_ones() {
    let mut engine = CascadeEngine::with_core_regimes();
    let (m, i) = (make_memory(1, "x y", &["a"], &[0.5]), make_incoming("x z", &["b"], &[-0.5]));
    let core = scores(&engine.evaluate_pair(&i, &m));
    engine.register(Box::new(Fixed("one", 0.2, 0.1, 1.0)));
    engine.register(Box::new(Fixed("two", 0.9, 0.1, 1.0)));
    engine.register(Box::new(Fixed("three", 0.4, 0.1, 1.0)));
    assert_eq!(engine.dimensions(), 12);
    let all = scores(&engine.evaluate_pair(&i, &m));
    assert_eq!(all.len(), 12);
    assert_eq!(all[..9], core[..]);
    assert_eq!(all[9..], [("one".to_string(), 0.2), ("two".to_string(), 0.9), ("three".to_string(), 0.4)]);
}

#[test]
fn a_core_regime_can_be_registered_with_another_weight() {
    let mut engine = CascadeEngine::new();
    engine.register(Box::new(ContentRegime { threshold: num(0.2), weight: num(3.0) }));
    engine.register(Box::new(Fixed("none", 0.0, 2.0, 1.0)));
    let r = engine.evaluate_pair(&make_incoming("same", &[], &[]), &make_memory(1, "same", &[], &[]));
    assert_eq!(float(r.total_score), (1.0 * 3.0) / 4.0);
    assert_eq!(r.fired_regime, Some("content".to_string()));
}

#[test]
fn the_first_regime_to_reach_its_own_threshold_fires() {
    let r = judge(
        &vec![reading("a", 0.4, 0.5, 1.0), reading("b", 0.3, 0.3, 1.0), reading("c", 0.9, 0.1, 1.0)],
        1,
    );
    assert_eq!(r.fired_regime, Some("b".to_string()));
}

/// Answers by what it is asked about.
struct ByImportance;

impl Regime for ByImportance {
    fn name(&self) -> &str {
        "by_importance"
    }
    fn evaluate(&self, incoming: &IncomingContent, existing: &Memory) -> Binary64 {
        num(float(incoming.importance) * float(existing.importance))
    }
    fn threshold(&self) -> Binary64 {
        num(0.5)
    }
    fn weight(&self) -> Binary64 {
        num(1.0)
    }
    fn next_on_fail(&self) -> Option<&str> {
        None
    }
}

#[test]
fn what_is_found_is_the_earliest_of_the_best() {
    let mut engine = CascadeEngine::new();
    engine.register(Box::new(ByImportance));
    let mut i = make_incoming("x", &[], &[]);
    i.importance = num(1.0);
    let existing: Vec<Memory> = [0.4, 0.8, 0.6, 0.8]
        .iter()
        .enumerate()
        .map(|(k, x)| {
            let mut m = make_memory(k as i64, "x", &[], &[]);
            m.importance = num(*x);
            m
        })
        .collect();
    let r = engine.detect(&i, &existing);
    assert_eq!(r.match_id, Some(1));
    let alone = engine.evaluate_pair(&i, &existing[1]);
    assert_eq!(r.explanation, alone.explanation);
    assert_eq!(scores(&r), scores(&alone));
    assert_eq!(float(r.total_score), 0.8);
}

#[test]
fn scores_of_proper_content_lie_between_zero_and_one() {
    let engine = CascadeEngine::with_core_regimes();
    let mut state: u64 = 42;
    let mut next = || {
        state ^= state << 13;
        state ^= state >> 7;
        state ^= state << 17;
        state
    };
    let words = ["ai", "memory", "Rust", "cold", "bread", "edge", "of", "the"];
    for _ in 0..200 {
        let mut text = || {
            let n = next() % 6;
            (0..n).map(|_| words[(next() % 8) as usize]).collect::<Vec<&str>>().join(" ")
        };
        let (ta, tb, tc, td) = (text(), text(), text(), text());
        let mut m = make_memory(1, &ta, &[], &[]);
        let mut i = make_incoming(&tb, &[], &[]);
        m.topics = tc.split_whitespace().map(|s| s.to_string()).collect();
        i.topics = td.split_whitespace().map(|s| s.to_string()).collect();
        m.entities = m.topics.iter().take(1).cloned().collect();
        i.entities = i.topics.iter().take((next() % 2) as usize).cloned().collect();
        m.importance = num((next() % 101) as f64 / 100.0);
        i.importance = num((next() % 101) as f64 / 100.0);
        m.traits = (0..next() % 4).map(|_| num((next() % 201) as f64 / 100.0 - 1.0)).collect();
        i.traits = (0..next() % 4).map(|_| num((next() % 201) as f64 / 100.0 - 1.0)).collect();
        let r = engine.detect(&i, &vec![m]);
        for (name, score) in scores(&r) {
            assert!((0.0..=1.0).contains(&score), "{name} {score}");
        }
        assert!((0.0..=1.0).contains(&float(r.total_score)));
    }
}
