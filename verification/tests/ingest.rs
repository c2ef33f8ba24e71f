use always_on_memory::binary64::Binary64;
use always_on_memory::db::{decode_texts, Memory};
use always_on_memory::ingest::{
    after_hash, after_store, check_content, check_extension, decide, exact_duplicate, extraction_prompt, file_source,
    revision_link, settle_extraction, sha256_hash, was_stored, Extraction, HashAnswer, IngestDecision, IngestResult,
};
use always_on_memory::revision::{Classification, FlightStatus};

fn num(x: f64) -> Binary64 {
    Binary64::from_bits(x.to_bits())
}

fn float(x: Binary64) -> f64 {
    f64::from_bits(x.to_bits())
}

fn extraction(summary: &str, topics: &[&str], importance: f64) -> Extraction {
    Extraction {
        summary: summary.to_string(),
        topics: topics.iter().map(|s| s.to_string()).collect(),
        entities: vec!["DuckDB".to_string()],
        importance: num(importance),
        traits: vec![num(0.5), num(-0.5)],
    }
}

fn stored(id: i64, content: &str, source: &str, e: &Extraction) -> Memory {
    Memory {
        id,
        collection: "default".to_string(),
        content: content.to_string(),
        summary: e.summary.clone(),
        source: source.to_string(),
        file_hash: sha256_hash(content),
        importance: e.importance,
        traits: e.traits.clone(),
        topics: e.topics.clone(),
        entities: e.entities.clone(),
        created_at: "2026-01-01 00:00:00".to_string(),
        consolidated: false,
    }
}

fn refused(r: Result<(), IngestResult>) -> String {
    let e = r.unwrap_err();
    assert_eq!(e.id, -1);
    assert_eq!(e.revision.classification, Classification::Novel);
    assert_eq!(e.revision.flight_status, FlightStatus::Crashed);
    assert_eq!(e.revision.match_id, None);
    assert_eq!(e.revision.fired_regime, None);
    assert_eq!(float(e.revision.total_score), 0.0);
    e.revision.explanation
}

#[test]
fn hashes_are_sha_256_in_hexadecimal() {
    assert_eq!(sha256_hash(""), "e3b0c44298fc1c149afbf4c8996fb92427ae41e4649b934ca495991b7852b855");
    assert_eq!(sha256_hash("abc"), "ba7816bf8f01cfea414140de5dae2223b00361a396177a9cb410ff61f20015ad");
}

#[test]
fn the_model_is_asked_for_an_extraction() {
    let prompt = extraction_prompt("Some text.", 16);
    let expected = format!(
        r#"Analyze the following content and extract structured information.
Return ONLY a JSON object with these fields:
- "summary": a 1-2 sentence summary
- "topics": array of 2-6 topic keywords (lowercase)
- "entities": array of named entities (people, companies, technologies, places)
- "importance": float 0.0-1.0 (how significant/actionable is this information)
- "traits": array of exactly {0} floats between -1.0 and 1.0, representing the content's character along these axes:
  [technical-creative, abstract-concrete, theoretical-practical, broad-focused,
   objective-subjective, static-dynamic, historical-forward, individual-collective,
   simple-complex, cautious-bold, formal-casual, analytical-intuitive,
   incremental-revolutionary, local-global, passive-active, certain-speculative]
  (use only the first {0} axes)

Content:
{1}

JSON:"#,
        16, "Some text."
    );
    assert_eq!(prompt, expected);
}

#[test]
fn long_content_is_shown_in_part() {
    let content = "é".repeat(5000);
    let prompt = extraction_prompt(&content, 1);
    assert_eq!(prompt.matches('é').count(), 4000);
    let exact = "x".repeat(8000);
    assert!(extraction_prompt(&exact, 1).contains(&exact));
}

#[test]
fn an_answer_is_taken_or_made_up_for() {
    let e = settle_extraction(Some(extraction("s", &["a"], 0.9)), "content", 3);
    assert_eq!(e.summary, "s");
    let content = "é".repeat(300);
    let e = settle_extraction(None, &content, 3);
    assert_eq!(e.summary, "é".repeat(200));
    assert!(e.topics.is_empty() && e.entities.is_empty());
    assert_eq!(float(e.importance), 0.5);
    assert_eq!(e.traits, vec![num(0.0), num(0.0), num(0.0)]);
    assert_eq!(settle_extraction(None, "short", 0).summary, "short");
}

#[test]
fn known_hashes_end_an_ingestion() {
    match after_hash(true, "abc", 4) {
        HashAnswer::Done(r) => {
            assert_eq!(r.id, -1);
            assert_eq!(r.revision.explanation, "exact duplicate (hash match)");
        }
        other => panic!("{other:?}"),
    }
    match after_hash(false, "abc", 4) {
        HashAnswer::Extract(prompt) => assert_eq!(prompt, extraction_prompt("abc", 4)),
        other => panic!("{other:?}"),
    }
    let r = exact_duplicate();
    assert_eq!(r.revision.classification, Classification::StrongMatch);
    assert_eq!(r.revision.flight_status, FlightStatus::Landed);
    assert_eq!(r.revision.fired_regime, Some("file_hash".to_string()));
    assert_eq!(float(r.revision.total_score), 1.0);
    assert!(!was_stored(&r));
}

#[test]
fn near_duplicates_are_skipped() {
    let e = extraction("About databases", &["databases", "analytics"], 0.6);
    let content = "DuckDB is an in-process analytical database for everyone";
    let existing = vec![stored(5, content, "notes.txt", &e)];
    match decide(content, "notes.txt", "default", "h", &e, &existing) {
        IngestDecision::Skip(r) => {
            assert_eq!(r.id, -1);
            assert_eq!(r.revision.match_id, Some(5));
            assert_eq!(r.revision.classification, Classification::StrongMatch);
        }
        other => panic!("{other:?}"),
    }
}

#[test]
fn novel_content_is_stored() {
    let e = extraction("About databases", &["databases", "analytics"], 7.5);
    match decide("DuckDB", "notes.txt", "c", "h", &e, &vec![]) {
        IngestDecision::Store { memory, revision } => {
            assert_eq!(memory.collection, "c");
            assert_eq!(memory.content, "DuckDB");
            assert_eq!(memory.summary, "About databases");
            assert_eq!(memory.source, "notes.txt");
            assert_eq!(memory.file_hash, "h");
            assert_eq!(float(memory.importance), 1.0);
            assert_eq!(memory.traits, e.traits);
            assert_eq!(memory.topics, "[\"databases\",\"analytics\"]");
            assert_eq!(decode_texts(&memory.topics), e.topics);
            assert_eq!(memory.entities, "[\"DuckDB\"]");
            assert_eq!(revision.classification, Classification::Novel);
            let (link, result) = after_store(revision, 12);
            assert!(link.is_none());
            assert_eq!(result.id, 12);
            assert!(was_stored(&result));
        }
        other => panic!("{other:?}"),
    }
}

#[test]
fn revisions_are_stored_and_linked() {
    let e = extraction("About databases", &["databases", "analytics"], 0.6);
    let existing = vec![stored(5, "DuckDB is an in-process analytical database", "notes.txt", &e)];
    let changed = extraction("About databases today", &["databases", "analytics"], 0.6);
    match decide("DuckDB is fast and small and columnar", "other.md", "default", "h", &changed, &existing) {
        IngestDecision::Store { revision, .. } => {
            assert_eq!(revision.classification, Classification::SemanticMatch);
            assert_eq!(revision.match_id, Some(5));
            let link = revision_link(&revision, 6).unwrap();
            assert_eq!(link.memory_a, 5);
            assert_eq!(link.memory_b, 6);
            assert_eq!(link.edge_score, revision.total_score);
            assert_eq!(link.relationship, format!("\"SemanticMatch\":{}", revision.explanation));
        }
        other => panic!("{other:?}"),
    }
}

#[test]
fn only_some_files_are_read() {
    for ext in [
        "txt", "md", "json", "csv", "log", "xml", "yaml", "yml", "toml", "rs", "py", "js", "ts", "html", "css", "TXT", "Md",
    ] {
        assert!(check_extension(ext).is_ok(), "{ext}");
    }
    assert_eq!(refused(check_extension("PNG")), "unsupported file type: png");
    assert_eq!(refused(check_extension("")), "unsupported file type: ");
}

#[test]
fn empty_files_are_refused() {
    assert_eq!(refused(check_content(" \n\t ")), "empty file");
    assert_eq!(refused(check_content("")), "empty file");
    assert!(check_content(" x ").is_ok());
}

#[test]
fn memories_of_files_are_named_after_them() {
    assert_eq!(file_source(Some("a.txt".to_string())), "a.txt");
    assert_eq!(file_source(None), "unknown");
}
