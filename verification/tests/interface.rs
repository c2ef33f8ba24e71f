use always_on_memory::api::{ingest_status, ingest_target};
use always_on_memory::binary64::Binary64;
use always_on_memory::db::Memory;
use always_on_memory::ingest::{exact_duplicate, IngestResult};
use always_on_memory::localrecall::{
    delete_status, entry_chunks, list_entries, search_results, upload_content, upload_source, upload_status, Field,
};

fn text(s: &str) -> Field {
    Field::Text(s.to_string())
}

fn mem(id: i64, source: &str) -> Memory {
    Memory {
        id,
        collection: "default".to_string(),
        content: format!("content {id}"),
        summary: format!("summary {id}"),
        source: source.to_string(),
        file_hash: String::new(),
        importance: Binary64::one(),
        traits: vec![Binary64::two()],
        topics: vec!["t".to_string()],
        entities: vec!["e".to_string()],
        created_at: String::new(),
        consolidated: false,
    }
}

fn stored(id: i64) -> IngestResult {
    IngestResult { id, revision: exact_duplicate().revision }
}

#[test]
fn uploads_name_their_content() {
    assert_eq!(upload_content(text("a"), text("b")), Ok("a".to_string()));
    assert_eq!(upload_content(Field::Absent, text("b")), Ok("b".to_string()));
    let missing = Err("missing 'content' or 'text' field".to_string());
    assert_eq!(upload_content(Field::Absent, Field::Absent), missing);
    // Something other than text is not passed over.
    assert_eq!(upload_content(Field::Other, text("b")), missing);
    assert_eq!(upload_content(Field::Absent, Field::Other), missing);
}

#[test]
fn uploads_may_name_their_source() {
    assert_eq!(upload_source(text("a"), text("b")), "a");
    assert_eq!(upload_source(Field::Absent, text("b")), "b");
    assert_eq!(upload_source(Field::Absent, Field::Absent), "upload");
    assert_eq!(upload_source(Field::Other, text("b")), "upload");
}

#[test]
fn statuses_say_what_happened() {
    assert_eq!(upload_status(&stored(1)), "ok");
    assert_eq!(upload_status(&stored(-1)), "duplicate");
    assert_eq!(ingest_status(&stored(1)), "ingested");
    assert_eq!(ingest_status(&stored(0)), "duplicate");
    assert_eq!(delete_status(true), "ok");
    assert_eq!(delete_status(false), "not_found");
}

#[test]
fn requests_may_leave_out_source_and_collection() {
    assert_eq!(ingest_target(None, None), ("api".to_string(), "default".to_string()));
    assert_eq!(
        ingest_target(Some("s".to_string()), Some("c".to_string())),
        ("s".to_string(), "c".to_string())
    );
}

#[test]
fn entries_are_the_memories_of_a_collection() {
    let list = list_entries(&vec![mem(1, "a.txt"), mem(2, "b.txt")]);
    assert_eq!(list.len(), 2);
    assert_eq!(list[1].name, "b.txt");
    assert_eq!(list[1].id, 2);
    assert_eq!(list[1].summary, "summary 2");
    assert_eq!(list[1].importance, Binary64::one());
    assert_eq!(list[1].topics, vec!["t".to_string()]);
}

#[test]
fn an_entry_has_the_chunks_of_its_file() {
    let memories = vec![mem(1, "a.txt"), mem(2, "b.txt"), mem(3, "a.txt"), mem(4, "A.txt")];
    assert_eq!(entry_chunks(&memories, "a.txt"), vec![0, 2]);
    assert_eq!(entry_chunks(&memories, "c.txt"), Vec::<usize>::new());
}

#[test]
fn searches_give_the_first_memories() {
    let memories: Vec<Memory> = (0..8).map(|i| mem(i, "s")).collect();
    assert_eq!(search_results(&memories, None, "answer").len(), 5);
    assert_eq!(search_results(&memories, Some(20), "answer").len(), 8);
    assert_eq!(search_results(&memories, Some(0), "answer").len(), 0);
    let r = &search_results(&memories, Some(3), "answer")[2];
    assert_eq!(r.content, "content 2");
    assert_eq!(r.source, "s");
    assert_eq!(r.similarity, Binary64::one());
    assert_eq!(r.summary, "summary 2");
    assert_eq!(r.entities, vec!["e".to_string()]);
    assert_eq!(r.traits, vec![Binary64::two()]);
    assert_eq!(r.edge_aware_answer, "answer");
}
