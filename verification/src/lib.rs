//! Verified core of a file-manager indexing service: it tracks the lifecycle
//! of versioned objects in an S3-compatible store and maintains, for every
//! `(bucket, key)` identity, which recorded object version is the current
//! visible state.
//!
//! The crate models the relational `s3_object` table in memory and verifies
//! the event-ordering and current-state reconciliation engine that drives it:
//! deduplication and sorting of raw events, transactional upsert, synthesis of
//! sequencers for crawl records, the live-set rule that picks the current
//! version, attribute carry-over across re-crawls, and the JSON-Patch based
//! update engine for record attributes and ingest ids.

pub mod error;
pub mod event;
pub mod filter;
pub mod ids;
pub mod json;
pub mod laws;
pub mod normalize;
pub mod patch;
pub mod store;
pub mod table;
pub mod text;
