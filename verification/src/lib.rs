//! Verified core of a caching reverse proxy for chat-completion APIs.
//!
//! The library covers the question/answer cache (in-memory tier, pending-write
//! staging, and a model of the persistent store), the dispatch logic that
//! hashes questions, looks answers up and schedules writebacks, the context
//! trimmer, the token estimator, and the tolerant upstream-response reader.
//! Network, database and timer plumbing live outside the library and only
//! hand plain values in and out.

pub mod api_model;
pub mod cache_maintenance;
pub mod codec;
pub mod config;
pub mod context_trim;
pub mod db_writer;
pub mod dispatch;
pub mod fingerprint;
pub mod idle_flush;
pub mod json;
pub mod memory_cache;
pub mod store;
pub mod tokens;
pub mod upstream;
