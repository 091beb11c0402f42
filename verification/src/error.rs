//! The error kinds the indexing core surfaces.

use vstd::prelude::*;

verus! {

/// An error surfaced by the segment writer or the directory.
#[derive(Clone, Copy, Debug, PartialEq, Eq, Structural)]
pub enum TantivyError {
    /// The per-thread memory budget is too small for the smallest term hash
    /// table, or an argument is otherwise malformed.
    InvalidArgument,
    /// `open_write` was asked to create a file that already exists.
    FileAlreadyExists,
    /// `open_read` or `delete` named a file that does not exist.
    FileDoesNotExist,
    /// A non-blocking `acquire_lock` found the lock held.
    LockBusy,
    /// An underlying storage failure.
    Io,
    /// A document value whose type disagrees with its field's type.
    SchemaMismatch,
    /// The bounded term hash table has no free bucket left; the owning
    /// segment writer must be finalized and a fresh one begun.
    TableFull,
}

} // verus!
