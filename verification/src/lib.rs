//! A log-structured-merge key-value storage core with multi-version
//! timestamps: an in-memory write buffer, immutable versioned storage,
//! a manifest that schedules compaction, and a sharded facade.

pub mod api;
pub mod compaction;
pub mod db;
pub mod entry;
pub mod error;
pub mod laws;
pub mod manifest;
pub mod memtable;
pub mod storage;
