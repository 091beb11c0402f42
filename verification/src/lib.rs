//! A verified core of a segment-building full-text indexer.
//!
//! The crate builds immutable inverted-index segments from a stream of
//! documents: postings are accumulated in a bounded in-memory term hash
//! table, columnar per-doc values and field norms are collected alongside,
//! and `finalize` lays the segment out as files of an in-memory directory.

use vstd::prelude::*;

pub mod directory;
pub mod error;
pub mod fastfield;
pub mod fieldnorm;
pub mod postings;
pub mod schema;
pub mod segment_writer;
pub mod serializer;
pub mod stacker;
pub mod tokenizer;
pub mod term;

verus! {

/// A document's index within one segment, assigned in insertion order of
/// successful `add_document` calls.
pub type DocId = u32;

/// The monotonic logical timestamp the outer layer assigns to each add
/// operation.
pub type Opstamp = u64;

} // verus!
