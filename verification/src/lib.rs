//! In-memory data structures behind an editable sequence of bytes.
//!
//! [`chunk_tree`] holds a persistent tree of byte runs: every edit gives a
//! new version and leaves the earlier ones usable. [`memstore`] holds a cache
//! of fixed-size chunks in front of a backing store, which loads on first
//! access and writes back what was marked as changed. The two do not call
//! each other.
pub mod chunk_tree;
pub mod error;
pub mod memstore;
