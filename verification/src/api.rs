//! The native interface: what requests leave out and what is answered.

use crate::ingest::{was_stored, IngestResult};
use vstd::prelude::*;

verus! {

/// The source of a text that comes without one.
pub const DEFAULT_SOURCE: &'static str = "api";

/// The collection of a text that comes without one.
pub const DEFAULT_COLLECTION: &'static str = "default";

/// The source and the collection of a text that is to be ingested.
pub fn ingest_target(source: Option<String>, collection: Option<String>) -> (r: (String, String))
    ensures
        r.0@ == (match source {
            Some(s) => s@,
            None => DEFAULT_SOURCE@,
        }),
        r.1@ == (match collection {
            Some(c) => c@,
            None => DEFAULT_COLLECTION@,
        }),
{
    let from: String = match source {
        Some(s) => s,
        None => DEFAULT_SOURCE.to_string(),
    };
    let into: String = match collection {
        Some(c) => c,
        None => DEFAULT_COLLECTION.to_string(),
    };
    (from, into)
}

/// The status of an ingestion: whether it made a memory.
pub fn ingest_status(result: &IngestResult) -> (r: String)
    ensures
        r@ == (if result.id > 0 {
            "ingested"@
        } else {
            "duplicate"@
        }),
{
    if was_stored(result) {
        "ingested".to_string()
    } else {
        "duplicate".to_string()
    }
}

/// What a text comes from, and goes to, where the request does not say.
pub proof fn the_defaults_are_these()
    ensures
        DEFAULT_SOURCE@ == "api"@,
        DEFAULT_COLLECTION@ == "default"@,
{
}

} // verus!
