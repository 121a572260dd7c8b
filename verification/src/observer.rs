//! Observer trait for monitoring rewriting progress.

use vstd::prelude::*;
use crate::graph::{Graph, NodeId};
use crate::node::NodeData;
use crate::edge::EdgeData;

verus! {

/// Observer for monitoring graph rewriting progress.
/// Every method does nothing unless an implementation overrides it.
pub trait RewriteObserver<N: NodeData, E: EdgeData> {
    /// Called when a rule is matched (before application).
    fn on_match(&mut self, _rule_index: usize, _matched_nodes: &[NodeId]) {
    }

    /// Called after a rule is applied.
    fn on_rule_applied(&mut self, _rule_index: usize, _rule_name: &str) {
    }

    /// Called when a constraint check fails (application rolled back).
    fn on_constraint_violated(&mut self, _rule_index: usize) {
    }

    /// Called after each step completes.
    fn on_step_complete(&mut self, _step: usize, _graph: &Graph<N, E>) {
    }

    /// Called when no rules match (rewriting complete).
    fn on_no_match(&mut self) {
    }
}

/// No-op observer.
pub struct NoOpRewriteObserver;

impl<N: NodeData, E: EdgeData> RewriteObserver<N, E> for NoOpRewriteObserver {
}

} // verus!
