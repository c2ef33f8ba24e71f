//! Revision detection through a cascade of regimes.
//!
//! Each regime is a dimension along which incoming content is compared with a memory.
//! All regimes contribute to the total score; the first whose score reaches its own
//! threshold is the one that fired. Both decide whether the content is a duplicate, a
//! revision, a drift or novel.
//!
//! The number of regimes is the number of dimensions: nine of them are always there,
//! and a domain may register its own.

pub mod bounds;
pub mod engine;
pub mod regimes;
pub mod verdict;

pub use engine::CascadeEngine;
pub use regimes::{
    ConsensusRegime, ContentRegime, KnowledgeRegime, NarrativeRegime, ProvenanceRegime, Regime, SemanticRegime,
    StructuralRegime, TemporalRegime, TraitRegime,
};
pub use verdict::{is_content_class, is_semantic_class, judge, Reading, RevisionResult};

use crate::binary64::Binary64;
use vstd::prelude::*;

verus! {

/// What incoming content is in relation to a memory.
#[derive(Debug, Clone, Copy, PartialEq, Eq, Structural)]
pub enum Classification {
    StrongMatch,
    SemanticMatch,
    DriftMatch,
    Novel,
}

/// How settled a memory, or the graph of memories, is.
#[derive(Debug, Clone, Copy, PartialEq, Eq, Structural)]
pub enum FlightStatus {
    Landed,
    Falling,
    Crashed,
}

/// Content that is about to become a memory.
#[derive(Debug)]
pub struct IncomingContent {
    pub content: String,
    pub summary: String,
    pub source: String,
    pub topics: Vec<String>,
    pub entities: Vec<String>,
    pub traits: Vec<Binary64>,
    pub importance: Binary64,
    pub created_at: Option<String>,
    /// What a domain knows of the content: JSON by name.
    pub domain_meta: Vec<(String, String)>,
}

} // verus!
