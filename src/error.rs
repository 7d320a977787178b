//! Errors of the graph index.

use vstd::prelude::*;

verus! {

/// Why an operation on the graph index failed.
#[derive(Clone, Copy, Debug, PartialEq, Eq, Structural)]
pub enum DagError {
    /// The coordinating lock of the location is held by another writer;
    /// the caller may retry.
    Contention,
    /// The parent resolver failed for some vertex.
    ResolverFailure,
    /// The map and the resolver disagree: an id without a vertex, a parent
    /// without an id, or a history that is not acyclic.
    Integrity,
    /// A group has no free id left.
    IdsExhausted,
}

} // verus!
