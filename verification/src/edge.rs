//! Edge data trait for user-defined edge types.

use vstd::prelude::*;

verus! {

/// Trait for user-defined graph edge data.
/// Implementations define what data edges carry and how they are matched in patterns.
///
/// An implementation computes an edge's kind from the edge alone: `kind`
/// gives `spec_kind` of the edge, every time.
pub trait EdgeData: Clone + Eq {
    /// The "kind" used for pattern matching in rules.
    type Kind: Copy + Eq + core::fmt::Debug;

    /// The kind of an edge, as a function of the edge.
    spec fn spec_kind(&self) -> Self::Kind;

    /// Get this edge's kind for pattern matching.
    fn kind(&self) -> (r: Self::Kind)
        ensures
            r == self.spec_kind(),
    ;
}

} // verus!
