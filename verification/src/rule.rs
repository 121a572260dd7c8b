//! Graph rewriting rules.

use vstd::prelude::*;
use crate::pattern::{Pattern, LocalId};
use crate::node::NodeData;
use crate::edge::EdgeData;

verus! {

/// What to do with a matched node during replacement.
#[derive(Debug, Clone)]
pub enum ReplacementAction<N: NodeData> {
    /// Keep the node as-is.
    Keep,
    /// Replace the node's data.
    Replace(N),
    /// Remove the node.
    Remove,
}

/// A node in the replacement subgraph.
#[derive(Debug, Clone)]
pub struct ReplacementNode<N: NodeData> {
    /// If Some, maps to a node from the LHS pattern.
    pub from_lhs: Option<LocalId>,
    /// The replacement action.
    pub action: ReplacementAction<N>,
    /// Data for newly created nodes (when from_lhs is None).
    pub data: Option<N>,
}

/// How to reconnect dangling edges after replacement.
#[derive(Debug, Clone)]
pub struct Reconnection {
    /// The old node (LHS pattern LocalId) whose edges should be redirected.
    pub from: LocalId,
    /// The new node (RHS LocalId) to redirect edges to.
    pub to: LocalId,
}

/// The replacement specification (right-hand side of a rule).
#[derive(Debug, Clone)]
pub struct Replacement<N: NodeData, E: EdgeData> {
    /// Nodes in the replacement.
    pub nodes: Vec<ReplacementNode<N>>,
    /// Edges in the replacement.
    pub edges: Vec<(LocalId, LocalId, E)>,
    /// How to reconnect dangling edges.
    pub reconnections: Vec<Reconnection>,
}

impl<N: NodeData, E: EdgeData> Replacement<N, E> {
    /// Every local id the replacement uses is in range for a match of
    /// `lhs_len` pattern nodes, and every new node carries data.
    pub open spec fn fits_lhs(&self, lhs_len: nat) -> bool {
        &&& forall|i: int|
            0 <= i < self.nodes@.len() ==> match (#[trigger] self.nodes@[i]).from_lhs {
                Some(l) => l.0 < lhs_len,
                None => self.nodes@[i].data is Some,
            }
        &&& forall|j: int|
            0 <= j < self.edges@.len() ==> (#[trigger] self.edges@[j]).0.0 < self.nodes@.len()
                && self.edges@[j].1.0 < self.nodes@.len()
        &&& forall|c: int|
            0 <= c < self.reconnections@.len() ==> (#[trigger] self.reconnections@[c]).from.0
                < lhs_len && self.reconnections@[c].to.0 < self.nodes@.len()
    }
}

/// A graph rewriting rule: pattern -> replacement.
pub struct Rule<N: NodeData, E: EdgeData> {
    /// Pattern to match (left-hand side).
    pub lhs: Pattern<N::Kind, E::Kind>,
    /// Replacement specification (right-hand side).
    pub rhs: Replacement<N, E>,
    /// Priority/weight for selection when multiple rules match.
    pub weight: u32,
    /// Human-readable name for debugging/observation.
    pub name: &'static str,
}

impl<N: NodeData, E: EdgeData> Rule<N, E> {
    /// The pattern is well formed and the replacement only refers to nodes
    /// that a match of the pattern provides.
    pub open spec fn wf(&self) -> bool {
        &&& self.lhs.wf()
        &&& self.rhs.fits_lhs(self.lhs.nodes@.len())
    }
}

} // verus!
