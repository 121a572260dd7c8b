//! Node data trait for user-defined node types.

use vstd::prelude::*;

verus! {

/// Trait for user-defined graph node data.
/// Implementations define what data nodes carry and how they are matched in patterns.
///
/// An implementation computes a node's kind from the node alone: `kind`
/// gives `spec_kind` of the node, every time. The library reads the kind
/// once per node when it matches patterns or checks constraints.
pub trait NodeData: Clone + Eq {
    /// The "kind" used for pattern matching in rules.
    /// Must be cheap to copy and compare.
    type Kind: Copy + Eq + core::fmt::Debug;

    /// The kind of a node, as a function of the node.
    spec fn spec_kind(&self) -> Self::Kind;

    /// Get this node's kind for pattern matching.
    fn kind(&self) -> (r: Self::Kind)
        ensures
            r == self.spec_kind(),
    ;
}

} // verus!
