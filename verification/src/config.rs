//! Configuration.

use crate::binary64::Binary64;
use vstd::prelude::*;

verus! {

/// Everything that the agent is configured with.
#[derive(Debug)]
pub struct Config {
    pub server: ServerConfig,
    pub watcher: WatcherConfig,
    pub consolidation: ConsolidationConfig,
    pub llm: LlmConfig,
    pub database: DatabaseConfig,
    pub traits: TraitsConfig,
}

/// Where the HTTP server listens.
#[derive(Debug)]
pub struct ServerConfig {
    pub host: String,
    pub port: u16,
}

/// Where files are picked up.
#[derive(Debug)]
pub struct WatcherConfig {
    pub inbox_dir: String,
    pub poll_interval_secs: u64,
}

/// When memories are consolidated.
#[derive(Debug)]
pub struct ConsolidationConfig {
    pub interval_minutes: u64,
    /// No consolidation before at least this many memories wait for one.
    pub min_unconsolidated: usize,
    /// The least edge score that makes an interesting boundary.
    pub edge_threshold: Binary64,
}

/// The language model.
#[derive(Debug)]
pub struct LlmConfig {
    /// `ollama` for the Ollama API, anything else for the OpenAI-compatible one.
    pub provider: String,
    pub base_url: String,
    pub model: String,
    pub api_key: String,
}

/// The database.
#[derive(Debug)]
pub struct DatabaseConfig {
    pub path: String,
}

/// The trait vectors.
#[derive(Debug)]
pub struct TraitsConfig {
    /// Trait axes per memory.
    pub dimensions: usize,
}

} // verus!
