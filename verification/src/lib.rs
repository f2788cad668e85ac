//! Verified core of a mirror access-log analyser: record-boundary chunking,
//! per-record classification against the release-track taxonomy, and the
//! aggregation store with unique-visitor deduplication.
//!
//! `bytes` and `addr` hold the byte-level and address parsing primitives;
//! `classify` turns one raw record into facts; `model` is the mathematical
//! store that `store` is proved to implement; `reader` aligns input windows
//! to record boundaries; `laws` states and proves what holds of every run.
pub mod addr;
pub mod bytes;
pub mod classify;
pub mod laws;
pub mod model;
pub mod reader;
pub mod store;
