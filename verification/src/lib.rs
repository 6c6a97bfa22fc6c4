//! A content-addressed, append-only revision and blob store with a
//! hierarchical path index.
//!
//! Records ("data items") and binary attachments ("blobs") are organized
//! under a top-level collection identifier (a "hive"). Content is persisted
//! into a content-addressed entry store and registered into a path index;
//! once written, an entry is never mutated or deleted, only superseded by
//! new revisions.

pub mod codec;
pub mod digits;
pub mod entry;
pub mod hive;
pub mod laws;
pub mod roundtrip;
pub mod store;
