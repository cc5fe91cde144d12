//! The ways in which an operation on the monorepo fails.

use vstd::prelude::*;

verus! {

/// Why an operation failed.
#[derive(Clone, Copy, Debug, PartialEq, Eq, Structural)]
pub enum MonoError {
    /// A component of the path names nothing in its tree.
    PathNotFound,
    /// A component of the path names something that is no tree.
    PathNotDirectory,
    /// The merge request was opened against a commit that the ref of its
    /// path no longer points at.
    RefHashConflict,
    /// No merge request has the given number.
    MRNotFound,
    /// The merge request has been closed or merged.
    MRNotOpen,
    /// The number of objects announced differs from the number produced.
    PackMismatch,
    /// The store does not hold what it must hold.
    StorageError,
    /// The pack is malformed.
    ProtocolError,
}

} // verus!
