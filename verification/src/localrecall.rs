//! The interface of a LocalRecall server: what requests ask for and what is answered.

use crate::binary64::Binary64;
use crate::db::Memory;
use crate::ingest::{was_stored, IngestResult};
use crate::ranking::positions;
use crate::text::{copy_texts, same_text, texts};
use vstd::prelude::*;

verus! {

/// The number of search results where the request names none.
pub const DEFAULT_RESULTS: usize = 5;

/// A field of a JSON request.
#[derive(Debug)]
pub enum Field {
    Absent,
    Text(String),
    /// Something other than text.
    Other,
}

/// The field that is there: the first, or where it is absent, the second.
pub open spec fn present(first: Field, second: Field) -> Field {
    if first is Absent {
        second
    } else {
        first
    }
}

/// The content of an upload: the text under `content`, or where that is absent, under
/// `text`.
pub fn upload_content(content: Field, text: Field) -> (r: Result<String, String>)
    ensures
        match r {
            Ok(t) => present(content, text) == Field::Text(t),
            Err(e) => !(present(content, text) is Text) && e@ == "missing 'content' or 'text' field"@,
        },
{
    let field: Field = match content {
        Field::Absent => text,
        other => other,
    };
    match field {
        Field::Text(t) => Ok(t),
        _ => Err("missing 'content' or 'text' field".to_string()),
    }
}

/// The source of an upload: the text under `source`, or where that is absent, under
/// `filename`; else `upload`.
pub fn upload_source(source: Field, filename: Field) -> (r: String)
    ensures
        r@ == (match present(source, filename) {
            Field::Text(t) => t@,
            _ => "upload"@,
        }),
{
    let field: Field = match source {
        Field::Absent => filename,
        other => other,
    };
    match field {
        Field::Text(t) => t,
        _ => "upload".to_string(),
    }
}

/// The status of an upload: whether it made a memory.
pub fn upload_status(result: &IngestResult) -> (r: String)
    ensures
        r@ == (if result.id > 0 {
            "ok"@
        } else {
            "duplicate"@
        }),
{
    if was_stored(result) {
        "ok".to_string()
    } else {
        "duplicate".to_string()
    }
}

/// The status of a deletion: whether there was something to delete.
pub fn delete_status(deleted: bool) -> (r: String)
    ensures
        r@ == (if deleted {
            "ok"@
        } else {
            "not_found"@
        }),
{
    if deleted {
        "ok".to_string()
    } else {
        "not_found".to_string()
    }
}

// ---- Entries ----

/// An entry of a collection.
#[derive(Debug)]
pub struct Entry {
    pub name: String,
    pub id: i64,
    pub summary: String,
    pub importance: Binary64,
    pub topics: Vec<String>,
}

/// Is the entry that of the memory?
pub open spec fn is_entry(e: Entry, m: Memory) -> bool {
    &&& e.name@ == m.source@
    &&& e.id == m.id
    &&& e.summary@ == m.summary@
    &&& e.importance == m.importance
    &&& texts(e.topics@) == texts(m.topics@)
}

/// The entries of a collection, one for each of its memories, in their order.
pub fn list_entries(memories: &Vec<Memory>) -> (r: Vec<Entry>)
    ensures
        r@.len() == memories@.len(),
        forall|i: int| 0 <= i < r@.len() ==> is_entry(#[trigger] r@[i], memories@[i]),
{
    let mut r: Vec<Entry> = Vec::new();
    let mut i: usize = 0;
    while i < memories.len()
        invariant
            i <= memories@.len(),
            r@.len() == i,
            forall|j: int| 0 <= j < i ==> is_entry(#[trigger] r@[j], memories@[j]),
        decreases memories@.len() - i,
    {
        let m: &Memory = &memories[i];
        r.push(
            Entry {
                name: m.source.clone(),
                id: m.id,
                summary: m.summary.clone(),
                importance: m.importance,
                topics: copy_texts(&m.topics),
            },
        );
        i = i + 1;
    }
    r
}

/// The positions below `n` of the memories that come from a source.
pub open spec fn from_source(memories: Seq<Memory>, source: Seq<char>, n: nat) -> Seq<int>
    decreases n,
{
    if n == 0 {
        Seq::empty()
    } else {
        let rest: Seq<int> = from_source(memories, source, (n - 1) as nat);
        if memories[n - 1].source@ == source {
            rest.push(n - 1)
        } else {
            rest
        }
    }
}

/// The positions of the memories that come from a file: the chunks of its entry.
pub fn entry_chunks(memories: &Vec<Memory>, filename: &str) -> (r: Vec<usize>)
    ensures
        positions(r@) == from_source(memories@, filename@, memories@.len()),
        forall|i: int| 0 <= i < r@.len() ==> #[trigger] r@[i] < memories@.len(),
{
    let n: usize = memories.len();
    let mut r: Vec<usize> = Vec::new();
    let mut i: usize = 0;
    assert(positions(r@) =~= Seq::empty());
    while i < n
        invariant
            i <= n == memories@.len(),
            positions(r@) == from_source(memories@, filename@, i as nat),
            forall|j: int| 0 <= j < r@.len() ==> #[trigger] r@[j] < n,
        decreases n - i,
    {
        let ghost before: Seq<usize> = r@;
        if same_text(memories[i].source.as_str(), filename) {
            r.push(i);
            assert(positions(r@) =~= positions(before).push(
                i as int,
            ));
        }
        i = i + 1;
    }
    r
}

// ---- Search ----

/// A result of a search.
#[derive(Debug)]
pub struct SearchResult {
    pub content: String,
    pub source: String,
    /// The importance of the memory stands for its similarity.
    pub similarity: Binary64,
    pub summary: String,
    pub topics: Vec<String>,
    pub entities: Vec<String>,
    pub traits: Vec<Binary64>,
    pub edge_aware_answer: String,
}

/// Is the result that of the memory, with the answer to the query?
pub open spec fn is_search_result(r: SearchResult, m: Memory, answer: Seq<char>) -> bool {
    &&& r.content@ == m.content@
    &&& r.source@ == m.source@
    &&& r.similarity == m.importance
    &&& r.summary@ == m.summary@
    &&& texts(r.topics@) == texts(m.topics@)
    &&& texts(r.entities@) == texts(m.entities@)
    &&& r.traits@ == m.traits@
    &&& r.edge_aware_answer@ == answer
}

/// The number of results of a search over `n` memories.
pub open spec fn result_count(n: nat, max_results: Option<usize>) -> nat {
    let most: nat = match max_results {
        Some(max) => max as nat,
        None => DEFAULT_RESULTS as nat,
    };
    if n < most {
        n
    } else {
        most
    }
}

/// The results of a search in a collection: its first memories, with the answer that the
/// query engine gave.
pub fn search_results(memories: &Vec<Memory>, max_results: Option<usize>, answer: &str) -> (r: Vec<
    SearchResult,
>)
    ensures
        r@.len() == result_count(memories@.len(), max_results),
        forall|i: int| 0 <= i < r@.len() ==> is_search_result(#[trigger] r@[i], memories@[i], answer@),
{
    let most: usize = match max_results {
        Some(max) => max,
        None => DEFAULT_RESULTS,
    };
    let k: usize = if memories.len() < most {
        memories.len()
    } else {
        most
    };
    let mut r: Vec<SearchResult> = Vec::new();
    let mut i: usize = 0;
    while i < k
        invariant
            i <= k <= memories@.len(),
            r@.len() == i,
            forall|j: int| 0 <= j < i ==> is_search_result(#[trigger] r@[j], memories@[j], answer@),
        decreases k - i,
    {
        let m: &Memory = &memories[i];
        r.push(
            SearchResult {
                content: m.content.clone(),
                source: m.source.clone(),
                similarity: m.importance,
                summary: m.summary.clone(),
                topics: copy_texts(&m.topics),
                entities: copy_texts(&m.entities),
                traits: m.traits.clone(),
                edge_aware_answer: answer.to_string(),
            },
        );
        i = i + 1;
    }
    r
}

// ---- Laws ----

/// A memory is a chunk of an entry if and only if it comes from the file.
pub proof fn chunks_are_exact(memories: Seq<Memory>, source: Seq<char>, n: nat, i: int)
    ensures
        from_source(memories, source, n).contains(i) <==> 0 <= i < n && memories[i].source@ == source,
    decreases n,
{
    if n > 0 {
        let rest: Seq<int> = from_source(memories, source, (n - 1) as nat);
        let list: Seq<int> = from_source(memories, source, n);
        chunks_are_exact(memories, source, (n - 1) as nat, i);
        if rest.contains(i) {
            let k: int = choose|k: int| 0 <= k < rest.len() && rest[k] == i;
            assert(list[k] == i);
        }
        if i == n - 1 && memories[i].source@ == source {
            assert(list[rest.len() as int] == i);
        }
        if list.contains(i) {
            let k: int = choose|k: int| 0 <= k < list.len() && list[k] == i;
            if k < rest.len() {
                assert(rest[k] == i);
            }
        }
    }
}

/// The chunks of an entry are listed in the order of the memories, each once.
pub proof fn chunks_are_in_order(memories: Seq<Memory>, source: Seq<char>, n: nat)
    ensures
        ({
            let at: Seq<int> = from_source(memories, source, n);
            &&& forall|x: int| 0 <= x < at.len() ==> 0 <= #[trigger] at[x] < n
            &&& forall|x: int, y: int| 0 <= x < y < at.len() ==> at[x] < at[y]
        }),
    decreases n,
{
    if n > 0 {
        let rest: Seq<int> = from_source(memories, source, (n - 1) as nat);
        let at: Seq<int> = from_source(memories, source, n);
        chunks_are_in_order(memories, source, (n - 1) as nat);
        assert forall|x: int, y: int| 0 <= x < y < at.len() implies at[x] < at[y] by {
            assert(rest[x] < n - 1);
        }
        assert forall|x: int| 0 <= x < at.len() implies 0 <= #[trigger] at[x] < n by {
            if x < rest.len() {
                assert(rest[x] < n - 1);
            }
        }
    }
}

/// A search gives as many results as asked for, and five where nothing is said of it, as far
/// as there are memories.
pub proof fn searches_give_as_many_results_as_asked_for(n: nat, most: usize)
    ensures
        result_count(n, Some(most)) <= most,
        result_count(n, Some(most)) <= n,
        result_count(n, Some(most)) == most || result_count(n, Some(most)) == n,
        result_count(n, None) == result_count(n, Some(5)),
{
}

/// An entry and a search result say what their memory says.
pub proof fn results_say_what_their_memory_says(e: Entry, r: SearchResult, m: Memory, answer: Seq<char>)
    ensures
        is_entry(e, m) ==> {
            &&& e.name@ == m.source@
            &&& e.id == m.id
            &&& e.summary@ == m.summary@
            &&& e.importance == m.importance
            &&& texts(e.topics@) == texts(m.topics@)
        },
        is_search_result(r, m, answer) ==> {
            &&& r.content@ == m.content@
            &&& r.source@ == m.source@
            &&& r.similarity == m.importance
            &&& r.summary@ == m.summary@
            &&& texts(r.topics@) == texts(m.topics@)
            &&& texts(r.entities@) == texts(m.entities@)
            &&& r.traits@ == m.traits@
            &&& r.edge_aware_answer@ == answer
        },
{
}

/// The first of two fields counts wherever it is there, text or not.
pub proof fn the_first_field_counts_where_it_is_there(first: Field, second: Field)
    ensures
        first is Absent ==> present(first, second) == second,
        !(first is Absent) ==> present(first, second) == first,
{
}

} // verus!
