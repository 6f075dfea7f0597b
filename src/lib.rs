//! An embedded hierarchical key-value store: slash-delimited paths map to
//! scalar values, made durable by a write-ahead log and kept in sorted,
//! immutable segments.
pub mod codec;
pub mod hash;
pub mod bloom;
pub mod order;
pub mod block;
pub mod errors;
pub mod cache;
pub mod segment;
pub mod wal;
pub mod memtable;
pub mod text;
pub mod store;
pub mod manifest;
