//! A generic graph rewriting engine with game-constraint semantics.

pub mod graph;
pub mod node;
pub mod edge;
pub mod pattern;
pub mod rule;
pub mod config;
pub mod observer;
pub mod error;
pub mod strategy;
pub mod constraint;
pub mod rewriter;
pub mod demo;

pub use graph::{Graph, NodeId, EdgeId};
pub use node::NodeData;
pub use edge::EdgeData;
pub use pattern::{Pattern, PatternNode, PatternEdge};
pub use rule::{Rule, Replacement, ReplacementNode, ReplacementAction, Reconnection};
pub use rewriter::{Rewriter, StepResult, RewriteResult};
pub use constraint::{StructuralConstraint, LockKeyConstraint, ReachabilityConstraint, CycleConstraint, AcyclicConstraint};
pub use config::{RewriterConfig, SelectionStrategy, ApplicationMode};
pub use observer::{RewriteObserver, NoOpRewriteObserver};
pub use error::RewriteError;
