use always_on_memory::binary64::Binary64;
use always_on_memory::db::{
    consolidation_from_row, decode_integers, decode_texts, encode_integers, encode_text, encode_texts, memory_from_row,
    ConsolidationRow, Connection_, MemoryRow,
};

fn list(items: &[&str]) -> Vec<String> {
    items.iter().map(|s| s.to_string()).collect()
}

#[test]
fn texts_are_json_in_a_column() {
    assert_eq!(encode_texts(&list(&["ai", "a \"b\" \\ \n"])), "[\"ai\",\"a \\\"b\\\" \\\\ \\n\"]");
    assert_eq!(encode_texts(&list(&[])), "[]");
    assert_eq!(decode_texts("[\"x\", \"y\"]"), list(&["x", "y"]));
    assert_eq!(encode_text("DriftMatch"), "\"DriftMatch\"");
    assert_eq!(encode_text("a\"b"), "\"a\\\"b\"");
}

#[test]
fn control_characters_are_escaped() {
    assert_eq!(encode_text("\u{8}\t\n\u{c}\r"), "\"\\b\\t\\n\\f\\r\"");
    assert_eq!(encode_text("\u{0}\u{1f}\u{7f}/é"), "\"\\u0000\\u001f\u{7f}/é\"");
    assert_eq!(encode_texts(&list(&["\u{b}", "a,b"])), "[\"\\u000b\",\"a,b\"]");
    assert_eq!(encode_integers(&vec![]), "[]");
    assert_eq!(encode_integers(&vec![0, -7, i64::MIN]), "[0,-7,-9223372036854775808]");
}

#[test]
fn what_is_written_is_read_back() {
    for items in [list(&[]), list(&["", "é\u{0}\u{7f}\"\\/", "日本"])] {
        assert_eq!(decode_texts(&encode_texts(&items)), items);
    }
    for ids in [vec![], vec![1, -1, i64::MAX, i64::MIN]] {
        assert_eq!(decode_integers(&encode_integers(&ids)), ids);
    }
    assert_eq!(encode_integers(&vec![1, 22]), "[1,22]");
}

#[test]
fn columns_that_hold_no_list_are_empty() {
    assert_eq!(decode_texts(""), list(&[]));
    assert_eq!(decode_texts("[1]"), list(&[]));
    assert_eq!(decode_texts("{"), list(&[]));
    assert_eq!(decode_integers("[1.5]"), Vec::<i64>::new());
    assert_eq!(decode_integers("null"), Vec::<i64>::new());
}

#[test]
fn rows_become_memories() {
    let m = memory_from_row(MemoryRow {
        id: 7,
        collection: "c".to_string(),
        content: "text".to_string(),
        summary: "s".to_string(),
        source: "f.txt".to_string(),
        file_hash: "h".to_string(),
        importance: Binary64::one(),
        traits: vec![Binary64::zero()],
        topics: "[\"ai\",\"memory\"]".to_string(),
        entities: "broken".to_string(),
        created_at: "2026-01-01".to_string(),
        consolidated: true,
    });
    assert_eq!(m.id, 7);
    assert_eq!(m.collection, "c");
    assert_eq!(m.content, "text");
    assert_eq!(m.summary, "s");
    assert_eq!(m.source, "f.txt");
    assert_eq!(m.file_hash, "h");
    assert_eq!(m.importance, Binary64::one());
    assert_eq!(m.traits, vec![Binary64::zero()]);
    assert_eq!(m.topics, list(&["ai", "memory"]));
    assert_eq!(m.entities, list(&[]));
    assert_eq!(m.created_at, "2026-01-01");
    assert!(m.consolidated);
}

#[test]
fn rows_become_consolidations() {
    let c = consolidation_from_row(ConsolidationRow {
        id: 3,
        memory_ids: "[4,5]".to_string(),
        insight: "i".to_string(),
        edge_score: Binary64::one(),
        connections: vec![Connection_ {
            from_id: 4,
            to_id: 5,
            relationship: "r".to_string(),
            strength: Binary64::one(),
        }],
        created_at: "t".to_string(),
    });
    assert_eq!(c.id, 3);
    assert_eq!(c.memory_ids, vec![4, 5]);
    assert_eq!(c.insight, "i");
    assert_eq!(c.connections.len(), 1);
    assert_eq!(c.created_at, "t");
}
