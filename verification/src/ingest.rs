//! From content to a memory.
//!
//! Ingestion asks the store whether the content is there already, the language model
//! what the content is about, and the store for the memories of the collection; then it
//! decides whether the content becomes a memory, and which one it is a revision of.

use crate::binary64::Binary64;
use crate::db::Memory;
use crate::db::{column_texts, encode_text, encode_texts, is_plain, texts_json};
use crate::decimal::{digits, push_digits};
use crate::revision::engine::{core_row, core_rows, detected};
use crate::revision::verdict::{entries, ReadingModel, RevisionModel};
use crate::revision::{CascadeEngine, Classification, FlightStatus, IncomingContent, RevisionResult};
use crate::text::{chars_of, copy_texts, hex_digit, same_text, text_of, texts, to_lower, trim_range};
use crate::text;
use sha2::Digest;
use vstd::prelude::*;
use vstd::utf8::*;

verus! {

// ---- The hash of the content ----

/// The SHA-256 digest of some bytes, as `sha2` computes it.
pub uninterp spec fn sha256(bytes: Seq<u8>) -> Seq<u8>;

/// `sha2::Sha256`: `new`, `update` with the bytes of the text, `finalize`. The contract
/// claims that the digest depends on the bytes alone and has 32 bytes.
#[verifier::external_body]
fn digest(content: &str) -> (r: Vec<u8>)
    ensures
        r@ == sha256(encode_utf8(content@)),
        r@.len() == 32,
{
    let mut hasher = sha2::Sha256::new();
    hasher.update(content.as_bytes());
    hasher.finalize().to_vec()
}

/// Bytes in hexadecimal, two digits for each.
pub open spec fn hex_text(bytes: Seq<u8>) -> Seq<char> {
    Seq::new(
        2 * bytes.len(),
        |i: int|
            if i % 2 == 0 {
                hex_digit((bytes[i / 2] / 16) as nat)
            } else {
                hex_digit((bytes[i / 2] % 16) as nat)
            },
    )
}

/// `hex::encode`. The contract claims that each byte becomes two digits in lower case,
/// the higher one first.
#[verifier::external_body]
fn to_hex(bytes: &Vec<u8>) -> (r: String)
    ensures
        r@ == hex_text(bytes@),
{
    hex::encode(bytes)
}

/// The SHA-256 hash of a text, in hexadecimal.
pub fn sha256_hash(content: &str) -> (r: String)
    ensures
        r@ == hex_text(sha256(encode_utf8(content@))),
        r@.len() == 64,
{
    to_hex(&digest(content))
}

// ---- What the language model extracts ----

/// What a language model says of content.
#[derive(Debug)]
pub struct Extraction {
    pub summary: String,
    pub topics: Vec<String>,
    pub entities: Vec<String>,
    pub importance: Binary64,
    pub traits: Vec<Binary64>,
}

/// The most bytes of content that are shown to the language model.
pub const SHOWN_BYTES: usize = 8000;

/// The number of characters of the content that stand in for a summary.
pub const SUMMARY_CHARS: usize = 200;

/// 0.5: the importance of content of which nothing is known.
pub const UNKNOWN_IMPORTANCE: u64 = 0x3fe0_0000_0000_0000;

/// The prompt for an extraction, up to the number of traits.
pub const EXTRACTION_FIELDS: &'static str = "Analyze the following content and extract structured information.\nReturn ONLY a JSON object with these fields:\n- \"summary\": a 1-2 sentence summary\n- \"topics\": array of 2-6 topic keywords (lowercase)\n- \"entities\": array of named entities (people, companies, technologies, places)\n- \"importance\": float 0.0-1.0 (how significant/actionable is this information)\n- \"traits\": array of exactly ";

/// The prompt from there up to the number of axes.
pub const EXTRACTION_AXES: &'static str = " floats between -1.0 and 1.0, representing the content's character along these axes:\n  [technical-creative, abstract-concrete, theoretical-practical, broad-focused,\n   objective-subjective, static-dynamic, historical-forward, individual-collective,\n   simple-complex, cautious-bold, formal-casual, analytical-intuitive,\n   incremental-revolutionary, local-global, passive-active, certain-speculative]\n  (use only the first ";

/// The prompt from there up to the content.
pub const EXTRACTION_CONTENT: &'static str = " axes)\n\nContent:\n";

/// What the prompt for an extraction ends with.
pub const EXTRACTION_END: &'static str = "\n\nJSON:";

/// The part of the content that is shown to the language model: its first bytes where
/// it is long.
pub open spec fn shown(content: Seq<char>) -> Seq<char> {
    if text::byte_len(content) > SHOWN_BYTES {
        decode_utf8(encode_utf8(content).subrange(0, SHOWN_BYTES as int))
    } else {
        content
    }
}

/// Does the part that is shown end between two characters?
pub open spec fn can_be_shown(content: Seq<char>) -> bool {
    text::byte_len(content) > SHOWN_BYTES ==> is_char_boundary(encode_utf8(content), SHOWN_BYTES as int)
}

/// The prompt that asks for an extraction with `trait_dims` traits.
pub open spec fn extraction_request(content: Seq<char>, trait_dims: nat) -> Seq<char> {
    EXTRACTION_FIELDS@ + digits(trait_dims) + EXTRACTION_AXES@ + digits(trait_dims) + EXTRACTION_CONTENT@
        + shown(content) + EXTRACTION_END@
}

/// The prompt that asks for an extraction with `trait_dims` traits.
pub fn extraction_prompt(content: &str, trait_dims: usize) -> (r: String)
    requires
        can_be_shown(content@),
    ensures
        r@ == extraction_request(content@, trait_dims as nat),
{
    let mut r: String = EXTRACTION_FIELDS.to_string();
    push_digits(&mut r, trait_dims as u128);
    r.append(EXTRACTION_AXES);
    push_digits(&mut r, trait_dims as u128);
    r.append(EXTRACTION_CONTENT);
    if content.len() > SHOWN_BYTES {
        let (head, rest): (&str, &str) = content.split_at(SHOWN_BYTES);
        proof {
            encode_utf8_decode_utf8(head@);
        }
        r.append(head);
    } else {
        r.append(content);
    }
    r.append(EXTRACTION_END);
    r
}

/// What is taken of content where the language model gives no proper answer: its
/// beginning for a summary, no topics, no entities, a middling importance and traits
/// that are all zero.
pub open spec fn is_fallback(e: Extraction, content: Seq<char>, trait_dims: nat) -> bool {
    &&& e.summary@ == (if content.len() > SUMMARY_CHARS {
        content.take(SUMMARY_CHARS as int)
    } else {
        content
    })
    &&& e.topics@.len() == 0
    &&& e.entities@.len() == 0
    &&& e.importance.bits == UNKNOWN_IMPORTANCE
    &&& e.traits@ == Seq::new(trait_dims, |i: int| Binary64::spec_zero())
}

fn fallback_extraction(content: &str, trait_dims: usize) -> (r: Extraction)
    ensures
        is_fallback(r, content@, trait_dims as nat),
{
    let chars: Vec<char> = chars_of(content);
    let n: usize = if chars.len() > SUMMARY_CHARS {
        SUMMARY_CHARS
    } else {
        chars.len()
    };
    let mut traits: Vec<Binary64> = Vec::new();
    let mut i: usize = 0;
    while i < trait_dims
        invariant
            i <= trait_dims,
            traits@ == Seq::new(i as nat, |k: int| Binary64::spec_zero()),
        decreases trait_dims - i,
    {
        traits.push(Binary64::zero());
        assert(traits@ =~= Seq::new((i + 1) as nat, |k: int| Binary64::spec_zero()));
        i = i + 1;
    }
    assert(chars@.subrange(0, n as int) =~= (if content@.len() > SUMMARY_CHARS {
        content@.take(SUMMARY_CHARS as int)
    } else {
        content@
    }));
    Extraction {
        summary: text_of(&chars, 0, n),
        topics: Vec::new(),
        entities: Vec::new(),
        importance: Binary64::from_bits(UNKNOWN_IMPORTANCE),
        traits,
    }
}

/// The extraction to go on with: what the language model answered, if it could be read,
/// else a minimal one.
pub fn settle_extraction(answer: Option<Extraction>, content: &str, trait_dims: usize) -> (r: Extraction)
    ensures
        answer matches Some(e) ==> r == e,
        answer is None ==> is_fallback(r, content@, trait_dims as nat),
{
    match answer {
        Some(e) => e,
        None => fallback_extraction(content, trait_dims),
    }
}

// ---- The decision ----

/// Result of an ingestion: the id of the new memory, or -1 where there is none, and what
/// was found on the way.
#[derive(Debug)]
pub struct IngestResult {
    pub id: i64,
    pub revision: RevisionResult,
}

/// The id of a memory that was not made.
pub const NOT_STORED: i64 = -1;

/// A memory that is to be stored. Lists are JSON.
#[derive(Debug)]
pub struct NewMemory {
    pub collection: String,
    pub content: String,
    pub summary: String,
    pub source: String,
    pub file_hash: String,
    pub importance: Binary64,
    pub traits: Vec<Binary64>,
    pub topics: String,
    pub entities: String,
}

/// What is to be done with content.
#[derive(Debug)]
pub enum IngestDecision {
    /// It is there already.
    Skip(IngestResult),
    /// It becomes a memory.
    Store { memory: NewMemory, revision: RevisionResult },
}

/// The content as the cascade compares it. It has no time of its own yet.
pub open spec fn is_incoming(
    incoming: IncomingContent,
    content: Seq<char>,
    source: Seq<char>,
    e: Extraction,
) -> bool {
    &&& incoming.content@ == content
    &&& incoming.summary@ == e.summary@
    &&& incoming.source@ == source
    &&& incoming.topics@ == e.topics@
    &&& incoming.entities@ == e.entities@
    &&& incoming.traits@ == e.traits@
    &&& incoming.importance == e.importance
    &&& incoming.created_at is None
    &&& incoming.domain_meta@.len() == 0
}

/// What the core cascade finds of content against the memories of its collection.
pub open spec fn is_found(
    found: RevisionModel,
    content: Seq<char>,
    source: Seq<char>,
    e: Extraction,
    existing: Seq<Memory>,
) -> bool {
    exists|incoming: IncomingContent|
        #[trigger] is_incoming(incoming, content, source, e) && found == detected(
            core_rows(incoming, existing),
            existing,
        )
}

/// Is `m` the memory that the content becomes?
pub open spec fn is_new_memory(
    m: NewMemory,
    content: Seq<char>,
    source: Seq<char>,
    collection: Seq<char>,
    hash: Seq<char>,
    e: Extraction,
) -> bool {
    &&& m.collection@ == collection
    &&& m.content@ == content
    &&& m.summary@ == e.summary@
    &&& m.source@ == source
    &&& m.file_hash@ == hash
    &&& m.importance == e.importance.spec_clamp(Binary64::spec_zero(), Binary64::spec_one())
    &&& m.traits@ == e.traits@
    &&& m.topics@ == texts_json(texts(e.topics@))
    &&& column_texts(m.topics@) == texts(e.topics@)
    &&& m.entities@ == texts_json(texts(e.entities@))
    &&& column_texts(m.entities@) == texts(e.entities@)
}

/// What is to be done with content: a near-duplicate of a memory of the collection is
/// skipped, everything else is stored, with its importance between zero and one.
pub fn decide(
    content: &str,
    source: &str,
    collection: &str,
    hash: &str,
    extraction: &Extraction,
    existing: &Vec<Memory>,
) -> (r: IngestDecision)
    ensures
        match r {
            IngestDecision::Skip(result) => {
                &&& is_found(result.revision@, content@, source@, *extraction, existing@)
                &&& result.revision.classification == Classification::StrongMatch
                &&& result.id == NOT_STORED
            },
            IngestDecision::Store { memory, revision } => {
                &&& is_found(revision@, content@, source@, *extraction, existing@)
                &&& revision.classification != Classification::StrongMatch
                &&& is_new_memory(memory, content@, source@, collection@, hash@, *extraction)
            },
        },
{
    let incoming: IncomingContent = IncomingContent {
        content: content.to_string(),
        summary: extraction.summary.clone(),
        source: source.to_string(),
        topics: copy_texts(&extraction.topics),
        entities: copy_texts(&extraction.entities),
        traits: extraction.traits.clone(),
        importance: extraction.importance,
        created_at: None,
        domain_meta: Vec::new(),
    };
    let engine: CascadeEngine = CascadeEngine::with_core_regimes();
    let revision: RevisionResult = engine.detect(&incoming, existing);
    assert(is_incoming(incoming, content@, source@, *extraction));
    match revision.classification {
        Classification::StrongMatch => IngestDecision::Skip(IngestResult { id: NOT_STORED, revision }),
        _ => IngestDecision::Store {
            memory: NewMemory {
                collection: collection.to_string(),
                content: content.to_string(),
                summary: extraction.summary.clone(),
                source: source.to_string(),
                file_hash: hash.to_string(),
                importance: extraction.importance.clamp(Binary64::zero(), Binary64::one()),
                traits: extraction.traits.clone(),
                topics: encode_texts(&extraction.topics),
                entities: encode_texts(&extraction.entities),
            },
            revision,
        },
    }
}

/// Is the result that for content whose hash is in the store?
pub open spec fn is_exact_duplicate(r: IngestResult) -> bool {
    &&& r.id == NOT_STORED
    &&& r.revision@ == (RevisionModel {
        match_id: None,
        classification: Classification::StrongMatch,
        flight_status: FlightStatus::Landed,
        regime_scores: Seq::empty(),
        total_score: Binary64::spec_one(),
        fired_regime: Some("file_hash"@),
        explanation: "exact duplicate (hash match)"@,
    })
}

/// The result for content whose hash is in the store.
pub fn exact_duplicate() -> (r: IngestResult)
    ensures
        is_exact_duplicate(r),
{
    let revision: RevisionResult = RevisionResult {
        match_id: None,
        classification: Classification::StrongMatch,
        flight_status: FlightStatus::Landed,
        regime_scores: Vec::new(),
        total_score: Binary64::one(),
        fired_regime: Some("file_hash".to_string()),
        explanation: "exact duplicate (hash match)".to_string(),
    };
    assert(entries(revision.regime_scores@) =~= Seq::empty());
    IngestResult { id: NOT_STORED, revision }
}

/// What comes after the store was asked for the hash of content.
#[derive(Debug)]
pub enum HashAnswer {
    /// The content is there already.
    Done(IngestResult),
    /// The prompt that asks the language model for an extraction.
    Extract(String),
}

/// What is to be done once the store has said whether it knows the hash of the content.
pub fn after_hash(known: bool, content: &str, trait_dims: usize) -> (r: HashAnswer)
    requires
        !known ==> can_be_shown(content@),
    ensures
        match r {
            HashAnswer::Done(result) => known && is_exact_duplicate(result),
            HashAnswer::Extract(prompt) => !known && prompt@ == extraction_request(
                content@,
                trait_dims as nat,
            ),
        },
{
    if known {
        HashAnswer::Done(exact_duplicate())
    } else {
        HashAnswer::Extract(extraction_prompt(content, trait_dims))
    }
}

// ---- The link to the memory that was revised ----

/// An edge that is to be stored.
#[derive(Debug)]
pub struct NewEdge {
    pub memory_a: i64,
    pub memory_b: i64,
    pub edge_score: Binary64,
    pub relationship: String,
}

/// The name of a class.
pub open spec fn class_name(class: Classification) -> Seq<char> {
    match class {
        Classification::StrongMatch => "StrongMatch"@,
        Classification::SemanticMatch => "SemanticMatch"@,
        Classification::DriftMatch => "DriftMatch"@,
        Classification::Novel => "Novel"@,
    }
}

/// Is this the edge from the memory that new content matches to the new one? There is
/// none where it matches none.
pub open spec fn is_link(link: Option<NewEdge>, revision: RevisionResult, id: i64) -> bool {
    match link {
        Some(e) => {
            &&& revision.match_id == Some(e.memory_a)
            &&& e.memory_b == id
            &&& e.edge_score == revision.total_score
            &&& e.relationship@ == "\""@ + class_name(revision.classification) + "\""@ + ":"@
                + revision.explanation@
        },
        None => revision.match_id is None,
    }
}

/// The edge from the memory that new content is a revision of, or drifted from, to the
/// new one. There is none for novel content.
pub fn revision_link(revision: &RevisionResult, id: i64) -> (r: Option<NewEdge>)
    ensures
        is_link(r, *revision, id),
{
    match revision.match_id {
        None => None,
        Some(parent) => {
            let name: &str = match revision.classification {
                Classification::StrongMatch => "StrongMatch",
                Classification::SemanticMatch => "SemanticMatch",
                Classification::DriftMatch => "DriftMatch",
                Classification::Novel => "Novel",
            };
            proof {
                reveal_strlit("StrongMatch");
                reveal_strlit("SemanticMatch");
                reveal_strlit("DriftMatch");
                reveal_strlit("Novel");
                assert(is_plain(name@));
            }
            let mut relationship: String = encode_text(name);
            relationship.append(":");
            relationship.append(revision.explanation.as_str());
            Some(NewEdge { memory_a: parent, memory_b: id, edge_score: revision.total_score, relationship })
        },
    }
}

/// What is to be done once a memory was stored: the edge to store beside it, if any, and
/// the result.
pub fn after_store(revision: RevisionResult, id: i64) -> (r: (Option<NewEdge>, IngestResult))
    ensures
        is_link(r.0, revision, id),
        r.1.id == id,
        r.1.revision == revision,
{
    let link: Option<NewEdge> = revision_link(&revision, id);
    (link, IngestResult { id, revision })
}

// ---- Files ----

/// Is a file of this kind read? The extension is given in lower case.
pub open spec fn is_supported(extension: Seq<char>) -> bool {
    ||| extension == "txt"@
    ||| extension == "md"@
    ||| extension == "json"@
    ||| extension == "csv"@
    ||| extension == "log"@
    ||| extension == "xml"@
    ||| extension == "yaml"@
    ||| extension == "yml"@
    ||| extension == "toml"@
    ||| extension == "rs"@
    ||| extension == "py"@
    ||| extension == "js"@
    ||| extension == "ts"@
    ||| extension == "html"@
    ||| extension == "css"@
}

/// The result for a file from which nothing is taken.
pub open spec fn is_refusal(r: IngestResult, explanation: Seq<char>) -> bool {
    &&& r.id == NOT_STORED
    &&& r.revision@ == (RevisionModel {
        match_id: None,
        classification: Classification::Novel,
        flight_status: FlightStatus::Crashed,
        regime_scores: Seq::empty(),
        total_score: Binary64::spec_zero(),
        fired_regime: None,
        explanation,
    })
}

fn refusal(explanation: String) -> (r: IngestResult)
    ensures
        is_refusal(r, explanation@),
{
    let revision: RevisionResult = RevisionResult {
        match_id: None,
        classification: Classification::Novel,
        flight_status: FlightStatus::Crashed,
        regime_scores: Vec::new(),
        total_score: Binary64::zero(),
        fired_regime: None,
        explanation,
    };
    assert(entries(revision.regime_scores@) =~= Seq::empty());
    IngestResult { id: NOT_STORED, revision }
}

/// Is a file with this extension to be read, whatever the case of its letters? If not,
/// the result says so.
pub fn check_extension(extension: &str) -> (r: Result<(), IngestResult>)
    ensures
        match r {
            Ok(_) => is_supported(text::lowercase(extension@)),
            Err(e) => !is_supported(text::lowercase(extension@)) && is_refusal(
                e,
                "unsupported file type: "@ + text::lowercase(extension@),
            ),
        },
{
    let lower: String = to_lower(extension);
    let e: &str = lower.as_str();
    if same_text(e, "txt") || same_text(e, "md") || same_text(e, "json") || same_text(e, "csv")
        || same_text(e, "log") || same_text(e, "xml") || same_text(e, "yaml") || same_text(e, "yml")
        || same_text(e, "toml") || same_text(e, "rs") || same_text(e, "py") || same_text(e, "js")
        || same_text(e, "ts") || same_text(e, "html") || same_text(e, "css") {
        Ok(())
    } else {
        let mut explanation: String = "unsupported file type: ".to_string();
        explanation.append(e);
        Err(refusal(explanation))
    }
}

/// Is there anything but white space in what a file holds? If not, the result says so.
pub fn check_content(content: &str) -> (r: Result<(), IngestResult>)
    ensures
        match r {
            Ok(_) => text::trimmed(content@).len() > 0,
            Err(e) => text::trimmed(content@).len() == 0 && is_refusal(e, "empty file"@),
        },
{
    let chars: Vec<char> = chars_of(content);
    let trimmed: String = trim_range(&chars, 0, chars.len());
    assert(chars@.subrange(0, chars@.len() as int) =~= content@);
    if trimmed.as_str().is_empty() {
        Err(refusal("empty file".to_string()))
    } else {
        Ok(())
    }
}

/// The source of a memory that comes from a file: the name of the file.
pub fn file_source(file_name: Option<String>) -> (r: String)
    ensures
        r@ == (match file_name {
            Some(name) => name@,
            None => "unknown"@,
        }),
{
    match file_name {
        Some(name) => name,
        None => "unknown".to_string(),
    }
}

/// Was a memory made?
pub fn was_stored(result: &IngestResult) -> (r: bool)
    ensures
        r == (result.id > 0),
{
    result.id > 0
}

// ---- Laws ----

/// What is found of content depends on the content, its source, the extraction and the
/// memories of the collection alone.
pub proof fn what_is_found_is_fixed(
    a: RevisionModel,
    b: RevisionModel,
    content: Seq<char>,
    source: Seq<char>,
    e: Extraction,
    existing: Seq<Memory>,
)
    requires
        is_found(a, content, source, e, existing),
        is_found(b, content, source, e, existing),
    ensures
        a == b,
{
    let x: IncomingContent = choose|x: IncomingContent|
        #[trigger] is_incoming(x, content, source, e) && a == detected(
            core_rows(x, existing),
            existing,
        );
    let y: IncomingContent = choose|y: IncomingContent|
        #[trigger] is_incoming(y, content, source, e) && b == detected(
            core_rows(y, existing),
            existing,
        );
    let rx: Seq<Seq<ReadingModel>> = core_rows(x, existing);
    let ry: Seq<Seq<ReadingModel>> = core_rows(y, existing);
    assert forall|i: int| 0 <= i < existing.len() implies rx[i] == ry[i] by {
        same_readings(x, y, content, source, e, existing[i]);
    }
    assert(rx =~= ry);
}

proof fn same_readings(
    x: IncomingContent,
    y: IncomingContent,
    content: Seq<char>,
    source: Seq<char>,
    e: Extraction,
    m: Memory,
)
    requires
        is_incoming(x, content, source, e),
        is_incoming(y, content, source, e),
    ensures
        core_row(x, m) == core_row(y, m),
{
    let a: Seq<ReadingModel> = core_row(x, m);
    let b: Seq<ReadingModel> = core_row(y, m);
    assert(a =~= b);
}

/// The language model is shown the whole content, or its first 8000 bytes where it has more,
/// and asked for the given number of traits.
pub proof fn the_beginning_of_the_content_is_shown(content: Seq<char>, trait_dims: nat)
    requires
        encode_utf8(content).len() <= usize::MAX,
    ensures
        ({
            let part: Seq<char> = if encode_utf8(content).len() > 8000 {
                decode_utf8(encode_utf8(content).take(8000))
            } else {
                content
            };
            extraction_request(content, trait_dims) == EXTRACTION_FIELDS@ + digits(trait_dims) + EXTRACTION_AXES@
                + digits(trait_dims) + EXTRACTION_CONTENT@ + part + "\n\nJSON:"@
        }),
{
    if encode_utf8(content).len() > 8000 {
        assert(encode_utf8(content).take(8000) =~= encode_utf8(content).subrange(0, 8000));
    }
}

/// Where the language model gives no proper answer, up to 200 characters of the content make
/// the summary, there are no topics and no entities, the importance is a half, and every
/// trait is zero.
pub proof fn without_an_answer_little_is_known(e: Extraction, content: Seq<char>, trait_dims: nat)
    requires
        is_fallback(e, content, trait_dims),
    ensures
        e.summary@.len() == (if content.len() <= 200 {
            content.len()
        } else {
            200
        }),
        forall|i: int| 0 <= i < e.summary@.len() ==> e.summary@[i] == content[i],
        e.topics@.len() == 0,
        e.entities@.len() == 0,
        e.importance.bits == 0x3fe0_0000_0000_0000,
        e.traits@.len() == trait_dims,
        forall|i: int| 0 <= i < trait_dims ==> (#[trigger] e.traits@[i]).bits == 0,
{
}

/// What is compared with the memories is the content with what was extracted from it.
pub proof fn the_cascade_compares_what_was_extracted(
    found: RevisionModel,
    content: Seq<char>,
    source: Seq<char>,
    e: Extraction,
    existing: Seq<Memory>,
)
    requires
        is_found(found, content, source, e, existing),
    ensures
        exists|incoming: IncomingContent|
            {
                &&& incoming.content@ == content
                &&& incoming.summary@ == e.summary@
                &&& incoming.source@ == source
                &&& incoming.topics@ == e.topics@
                &&& incoming.entities@ == e.entities@
                &&& incoming.traits@ == e.traits@
                &&& incoming.importance == e.importance
                &&& incoming.created_at is None
                &&& incoming.domain_meta@.len() == 0
                &&& found == detected(#[trigger] core_rows(incoming, existing), existing)
            },
{
    let x: IncomingContent = choose|x: IncomingContent|
        #[trigger] is_incoming(x, content, source, e) && found == detected(core_rows(x, existing), existing);
    assert(found == detected(core_rows(x, existing), existing));
}

/// A memory keeps the content and all that was extracted from it, with its importance moved
/// between zero and one.
pub proof fn a_memory_keeps_what_was_extracted(
    m: NewMemory,
    content: Seq<char>,
    source: Seq<char>,
    collection: Seq<char>,
    hash: Seq<char>,
    e: Extraction,
)
    requires
        is_new_memory(m, content, source, collection, hash, e),
    ensures
        m.collection@ == collection,
        m.content@ == content,
        m.summary@ == e.summary@,
        m.source@ == source,
        m.file_hash@ == hash,
        m.traits@ == e.traits@,
        column_texts(m.topics@) == texts(e.topics@),
        column_texts(m.entities@) == texts(e.entities@),
        e.importance.is_nan() ==> m.importance == e.importance,
        e.importance.spec_lt(Binary64 { bits: 0 }) ==> m.importance == (Binary64 { bits: 0 }),
        (Binary64 { bits: 0x3ff0_0000_0000_0000 }).spec_lt(e.importance) ==> m.importance == (Binary64 {
            bits: 0x3ff0_0000_0000_0000,
        }),
        (Binary64 { bits: 0 }).spec_le(e.importance) && e.importance.spec_le(
            Binary64 { bits: 0x3ff0_0000_0000_0000 },
        ) ==> m.importance == e.importance,
{
}

/// Content whose hash is known makes no memory: it is a strong match that fired by its hash.
pub proof fn a_known_hash_is_a_strong_match(r: IngestResult)
    requires
        is_exact_duplicate(r),
    ensures
        r.id == -1,
        r.revision.match_id is None,
        r.revision.classification == Classification::StrongMatch,
        r.revision.flight_status == FlightStatus::Landed,
        r.revision.regime_scores@.len() == 0,
        r.revision.total_score.bits == 0x3ff0_0000_0000_0000,
        text::text_if_any(r.revision.fired_regime) == Some("file_hash"@),
        r.revision.explanation@ == "exact duplicate (hash match)"@,
{
    assert(entries(r.revision.regime_scores@).len() == r.revision.regime_scores@.len());
}

/// A file from which nothing is taken makes no memory: what it holds is novel and matches
/// nothing.
pub proof fn a_refused_file_makes_no_memory(r: IngestResult, explanation: Seq<char>)
    requires
        is_refusal(r, explanation),
    ensures
        r.id == -1,
        r.revision.match_id is None,
        r.revision.classification == Classification::Novel,
        r.revision.flight_status == FlightStatus::Crashed,
        r.revision.regime_scores@.len() == 0,
        r.revision.total_score.bits == 0,
        r.revision.fired_regime is None,
        r.revision.explanation@ == explanation,
{
    assert(entries(r.revision.regime_scores@).len() == r.revision.regime_scores@.len());
}

/// The files that are read are text, markup, data and source files.
pub proof fn the_supported_files_are_these(extension: Seq<char>)
    ensures
        is_supported(extension) <==> seq![
            "txt"@,
            "md"@,
            "json"@,
            "csv"@,
            "log"@,
            "xml"@,
            "yaml"@,
            "yml"@,
            "toml"@,
            "rs"@,
            "py"@,
            "js"@,
            "ts"@,
            "html"@,
            "css"@,
        ].contains(extension),
{
    let all: Seq<Seq<char>> = seq![
        "txt"@,
        "md"@,
        "json"@,
        "csv"@,
        "log"@,
        "xml"@,
        "yaml"@,
        "yml"@,
        "toml"@,
        "rs"@,
        "py"@,
        "js"@,
        "ts"@,
        "html"@,
        "css"@,
    ];
    assert(all[0] == "txt"@ && all[1] == "md"@ && all[2] == "json"@ && all[3] == "csv"@ && all[4] == "log"@);
    assert(all[5] == "xml"@ && all[6] == "yaml"@ && all[7] == "yml"@ && all[8] == "toml"@ && all[9] == "rs"@);
    assert(all[10] == "py"@ && all[11] == "js"@ && all[12] == "ts"@ && all[13] == "html"@ && all[14] == "css"@);
}

/// New content is linked to the memory that it matches, by how much it does, with what was
/// found in words, if and only if it matches one.
pub proof fn a_revision_is_linked_to_what_it_revises(link: Option<NewEdge>, revision: RevisionResult, id: i64)
    requires
        is_link(link, revision, id),
    ensures
        link is Some <==> revision.match_id is Some,
        link matches Some(e) ==> {
            &&& revision.match_id == Some(e.memory_a)
            &&& e.memory_b == id
            &&& e.edge_score == revision.total_score
            &&& revision.classification == Classification::StrongMatch ==> e.relationship@
                == "\"StrongMatch\":"@ + revision.explanation@
            &&& revision.classification == Classification::SemanticMatch ==> e.relationship@
                == "\"SemanticMatch\":"@ + revision.explanation@
            &&& revision.classification == Classification::DriftMatch ==> e.relationship@
                == "\"DriftMatch\":"@ + revision.explanation@
            &&& revision.classification == Classification::Novel ==> e.relationship@ == "\"Novel\":"@
                + revision.explanation@
        },
{
    reveal_strlit("\"");
    reveal_strlit(":");
    reveal_strlit("StrongMatch");
    reveal_strlit("SemanticMatch");
    reveal_strlit("DriftMatch");
    reveal_strlit("Novel");
    reveal_strlit("\"StrongMatch\":");
    reveal_strlit("\"SemanticMatch\":");
    reveal_strlit("\"DriftMatch\":");
    reveal_strlit("\"Novel\":");
    assert("\""@ + "StrongMatch"@ + "\""@ + ":"@ =~= "\"StrongMatch\":"@);
    assert("\""@ + "SemanticMatch"@ + "\""@ + ":"@ =~= "\"SemanticMatch\":"@);
    assert("\""@ + "DriftMatch"@ + "\""@ + ":"@ =~= "\"DriftMatch\":"@);
    assert("\""@ + "Novel"@ + "\""@ + ":"@ =~= "\"Novel\":"@);
}

/// Content can be shown unless it has more than 8000 bytes and the cut would fall into a
/// character.
pub proof fn content_can_be_shown_unless_a_character_is_cut(content: Seq<char>)
    requires
        encode_utf8(content).len() <= usize::MAX,
    ensures
        can_be_shown(content) <==> encode_utf8(content).len() <= 8000 || is_char_boundary(
            encode_utf8(content),
            8000,
        ),
{
}

} // verus!
