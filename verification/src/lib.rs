//! Topology-aware memory for an always-on agent.

pub mod api;
pub mod binary64;
pub mod config;
pub mod consolidate;
pub mod db;
pub mod decimal;
pub mod edges;
pub mod flightscore;
pub mod ingest;
pub mod llm;
pub mod localrecall;
pub mod math;
pub mod query;
pub mod ranking;
pub mod revision;
pub mod text;
pub mod wordset;
