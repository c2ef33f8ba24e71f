//! What the store keeps, and how a row of it is read and written.
//!
//! Lists stand in a row as JSON text, one column each.

use crate::binary64::Binary64;
use crate::decimal::integer;
use crate::text::{hex_digit, joined, texts};
use vstd::prelude::*;

verus! {

/// A single memory unit extracted from ingested content.
#[derive(Debug)]
pub struct Memory {
    pub id: i64,
    pub collection: String,
    pub content: String,
    pub summary: String,
    pub source: String,
    pub file_hash: String,
    pub importance: Binary64,
    pub traits: Vec<Binary64>,
    pub topics: Vec<String>,
    pub entities: Vec<String>,
    pub created_at: String,
    pub consolidated: bool,
}

/// A consolidation insight linking multiple memories.
#[derive(Debug)]
pub struct Consolidation {
    pub id: i64,
    pub memory_ids: Vec<i64>,
    pub insight: String,
    pub edge_score: Binary64,
    pub connections: Vec<Connection_>,
    pub created_at: String,
}

/// A connection that a consolidation found between two memories.
#[derive(Debug)]
pub struct Connection_ {
    pub from_id: i64,
    pub to_id: i64,
    pub relationship: String,
    pub strength: Binary64,
}

/// An edge between two memories, where they share context and disagree.
#[derive(Debug)]
pub struct Edge {
    pub id: i64,
    pub memory_a: i64,
    pub memory_b: i64,
    pub edge_score: Binary64,
    pub relationship: String,
    pub created_at: String,
}

/// A row of the table of memories.
#[derive(Debug)]
pub struct MemoryRow {
    pub id: i64,
    pub collection: String,
    pub content: String,
    pub summary: String,
    pub source: String,
    pub file_hash: String,
    pub importance: Binary64,
    pub traits: Vec<Binary64>,
    /// A JSON list of texts.
    pub topics: String,
    /// A JSON list of texts.
    pub entities: String,
    pub created_at: String,
    pub consolidated: bool,
}

/// A row of the table of consolidations.
#[derive(Debug)]
pub struct ConsolidationRow {
    pub id: i64,
    /// A JSON list of integers.
    pub memory_ids: String,
    pub insight: String,
    pub edge_score: Binary64,
    pub connections: Vec<Connection_>,
    pub created_at: String,
}

// ---- Lists as JSON ----

/// An error of `serde_json`.
#[verifier::external_type_specification]
#[verifier::external_body]
pub struct ExJsonError(serde_json::Error);

/// The list of texts that `serde_json::from_str` reads, if it reads one.
pub uninterp spec fn texts_of_json(json: Seq<char>) -> Option<Seq<Seq<char>>>;

/// The list of integers that `serde_json::from_str` reads, if it reads one.
pub uninterp spec fn integers_of_json(json: Seq<char>) -> Option<Seq<i64>>;

/// A character as it stands in a JSON text: quotation marks, backslashes and control
/// characters are escaped.
pub open spec fn escaped(c: char) -> Seq<char> {
    if c == '"' {
        "\\\""@
    } else if c == '\\' {
        "\\\\"@
    } else if c == '\u{8}' {
        "\\b"@
    } else if c == '\t' {
        "\\t"@
    } else if c == '\n' {
        "\\n"@
    } else if c == '\u{c}' {
        "\\f"@
    } else if c == '\r' {
        "\\r"@
    } else if ' ' > c {
        "\\u00"@ + seq![hex_digit((c as u32 / 16) as nat), hex_digit((c as u32 % 16) as nat)]
    } else {
        seq![c]
    }
}

/// The characters of a text as they stand in a JSON text.
pub open spec fn escaped_text(text: Seq<char>) -> Seq<char>
    decreases text.len(),
{
    if text.len() == 0 {
        Seq::empty()
    } else {
        escaped_text(text.drop_last()) + escaped(text.last())
    }
}

/// The JSON of a text.
pub open spec fn text_json(text: Seq<char>) -> Seq<char> {
    "\""@ + escaped_text(text) + "\""@
}

/// The JSON of a list of texts.
pub open spec fn texts_json(list: Seq<Seq<char>>) -> Seq<char> {
    "["@ + joined(list.map_values(|t: Seq<char>| text_json(t)), ","@) + "]"@
}

/// The JSON of a list of integers.
pub open spec fn integers_json(list: Seq<i64>) -> Seq<char> {
    "["@ + joined(list.map_values(|n: i64| integer(n as int)), ","@) + "]"@
}

/// Does the text hold nothing that JSON escapes: no quotation mark, no backslash and no
/// control character?
pub open spec fn is_plain(text: Seq<char>) -> bool {
    forall|i: int| 0 <= i < text.len() ==> #[trigger] text[i] >= ' ' && text[i] != '"' && text[i] != '\\'
}

/// A plain text stands in JSON as it is.
pub proof fn plain_text_is_not_escaped(text: Seq<char>)
    requires
        is_plain(text),
    ensures
        escaped_text(text) == text,
    decreases text.len(),
{
    if text.len() > 0 {
        plain_text_is_not_escaped(text.drop_last());
        assert(text.last() == text[text.len() - 1]);
        assert(text.drop_last() + seq![text.last()] =~= text);
    }
}

/// `serde_json::to_string` on a text. The contract claims that it does not fail, and that
/// it puts the text between quotation marks, with quotation marks, backslashes and control
/// characters escaped.
#[verifier::external_body]
fn write_text(text: &str) -> (r: Result<String, serde_json::Error>)
    ensures
        r is Ok,
        r->Ok_0@ == text_json(text@),
{
    serde_json::to_string(text)
}

/// The JSON of a text.
pub fn encode_text(text: &str) -> (r: String)
    ensures
        r@ == text_json(text@),
        is_plain(text@) ==> r@ == "\""@ + text@ + "\""@,
{
    proof {
        if is_plain(text@) {
            plain_text_is_not_escaped(text@);
        }
    }
    match write_text(text) {
        Ok(json) => json,
        Err(_) => String::new(),
    }
}

/// `serde_json::to_string` on a list of texts. The contract claims that it does not
/// fail, that it puts the JSON of the texts between brackets, with commas between them,
/// and that reading it as a list of texts gives back the same texts.
#[verifier::external_body]
fn write_texts(list: &Vec<String>) -> (r: Result<String, serde_json::Error>)
    ensures
        r is Ok,
        r->Ok_0@ == texts_json(texts(list@)),
        texts_of_json(r->Ok_0@) == Some(texts(list@)),
{
    serde_json::to_string(list)
}

/// `serde_json::from_str` into a list of texts. The contract claims that what it
/// reads, and whether it fails, depends on the JSON alone.
#[verifier::external_body]
fn read_texts(json: &str) -> (r: Result<Vec<String>, serde_json::Error>)
    ensures
        match r {
            Ok(list) => texts_of_json(json@) == Some(texts(list@)),
            Err(_) => texts_of_json(json@) is None,
        },
{
    serde_json::from_str(json)
}

/// `serde_json::to_string` on a list of integers. The contract claims that it does
/// not fail, that it puts the integers in decimal between brackets, with commas between
/// them, and that reading it as a list of integers gives back the same integers.
#[verifier::external_body]
fn write_integers(list: &Vec<i64>) -> (r: Result<String, serde_json::Error>)
    ensures
        r is Ok,
        r->Ok_0@ == integers_json(list@),
        integers_of_json(r->Ok_0@) == Some(list@),
{
    serde_json::to_string(list)
}

/// `serde_json::from_str` into a list of integers. The contract claims that what it
/// reads, and whether it fails, depends on the JSON alone.
#[verifier::external_body]
fn read_integers(json: &str) -> (r: Result<Vec<i64>, serde_json::Error>)
    ensures
        match r {
            Ok(list) => integers_of_json(json@) == Some(list@),
            Err(_) => integers_of_json(json@) is None,
        },
{
    serde_json::from_str(json)
}

/// The texts of a JSON column: none where it does not hold a list of texts.
pub open spec fn column_texts(json: Seq<char>) -> Seq<Seq<char>> {
    match texts_of_json(json) {
        Some(list) => list,
        None => Seq::empty(),
    }
}

/// The integers of a JSON column: none where it does not hold a list of integers.
pub open spec fn column_integers(json: Seq<char>) -> Seq<i64> {
    match integers_of_json(json) {
        Some(list) => list,
        None => Seq::empty(),
    }
}

/// The JSON column for a list of texts. Reading it gives the texts back.
pub fn encode_texts(list: &Vec<String>) -> (r: String)
    ensures
        r@ == texts_json(texts(list@)),
        column_texts(r@) == texts(list@),
{
    match write_texts(list) {
        Ok(json) => json,
        Err(_) => String::new(),
    }
}

/// The texts of a JSON column.
pub fn decode_texts(json: &str) -> (r: Vec<String>)
    ensures
        texts(r@) == column_texts(json@),
{
    match read_texts(json) {
        Ok(list) => list,
        Err(_) => {
            let none: Vec<String> = Vec::new();
            assert(texts(none@) =~= Seq::empty());
            none
        },
    }
}

/// The JSON column for a list of integers. Reading it gives the integers back.
pub fn encode_integers(list: &Vec<i64>) -> (r: String)
    ensures
        r@ == integers_json(list@),
        column_integers(r@) == list@,
{
    match write_integers(list) {
        Ok(json) => json,
        Err(_) => String::new(),
    }
}

/// The integers of a JSON column.
pub fn decode_integers(json: &str) -> (r: Vec<i64>)
    ensures
        r@ == column_integers(json@),
{
    match read_integers(json) {
        Ok(list) => list,
        Err(_) => Vec::new(),
    }
}

/// The memory that a row holds.
pub fn memory_from_row(row: MemoryRow) -> (r: Memory)
    ensures
        r.id == row.id,
        r.collection == row.collection,
        r.content == row.content,
        r.summary == row.summary,
        r.source == row.source,
        r.file_hash == row.file_hash,
        r.importance == row.importance,
        r.traits == row.traits,
        texts(r.topics@) == column_texts(row.topics@),
        texts(r.entities@) == column_texts(row.entities@),
        r.created_at == row.created_at,
        r.consolidated == row.consolidated,
{
    let topics: Vec<String> = decode_texts(row.topics.as_str());
    let entities: Vec<String> = decode_texts(row.entities.as_str());
    Memory {
        id: row.id,
        collection: row.collection,
        content: row.content,
        summary: row.summary,
        source: row.source,
        file_hash: row.file_hash,
        importance: row.importance,
        traits: row.traits,
        topics,
        entities,
        created_at: row.created_at,
        consolidated: row.consolidated,
    }
}

/// The consolidation that a row holds.
pub fn consolidation_from_row(row: ConsolidationRow) -> (r: Consolidation)
    ensures
        r.id == row.id,
        r.memory_ids@ == column_integers(row.memory_ids@),
        r.insight == row.insight,
        r.edge_score == row.edge_score,
        r.connections == row.connections,
        r.created_at == row.created_at,
{
    let memory_ids: Vec<i64> = decode_integers(row.memory_ids.as_str());
    Consolidation {
        id: row.id,
        memory_ids,
        insight: row.insight,
        edge_score: row.edge_score,
        connections: row.connections,
        created_at: row.created_at,
    }
}

} // verus!
