//! Rule application and the rewriting engine.

use grammex::constraint::AcyclicConstraint;
use grammex::config::{ApplicationMode, RewriterConfig, SelectionStrategy};
use grammex::graph::{Graph, NodeId};
use grammex::observer::{NoOpRewriteObserver, RewriteObserver};
use grammex::pattern::{self, LocalId, Match, Pattern};
use grammex::rewriter::{apply_rule, ObserverCall, Rewriter, StepResult};
use grammex::rule::{Reconnection, Replacement, ReplacementAction, ReplacementNode, Rule};
use grammex::strategy::RandomSource;
use grammex::{EdgeData, NodeData};

#[derive(Clone, PartialEq, Eq, Debug)]
struct TNode(u8);
impl NodeData for TNode {
    type Kind = u8;

    fn spec_kind(&self) -> Self::Kind {
        self.kind()
    }
    fn kind(&self) -> u8 {
        self.0
    }
}

#[derive(Clone, PartialEq, Eq, Debug)]
struct TEdge(u8);
impl EdgeData for TEdge {
    type Kind = u8;

    fn spec_kind(&self) -> Self::Kind {
        self.kind()
    }
    fn kind(&self) -> u8 {
        self.0
    }
}

struct FakeRng(u64);
impl RandomSource for FakeRng {
    fn next_u64(&mut self) -> u64 {
        self.0 = self.0.wrapping_mul(6364136223846793005).wrapping_add(1442695040888963407);
        self.0
    }
}

/// Helper: build a rule that expands a single "Start"(1) node into
/// Start -[0]-> Room(2) -[0]-> Room(2)
fn expansion_rule() -> Rule<TNode, TEdge> {
    let mut lhs = Pattern::new();
    lhs.add_node(1u8); // match Start

    let rhs = Replacement {
        nodes: vec![
            // RHS node 0: keep the Start
            ReplacementNode { from_lhs: Some(LocalId(0)), action: ReplacementAction::Keep, data: None },
            // RHS node 1: new Room
            ReplacementNode { from_lhs: None, action: ReplacementAction::Keep, data: Some(TNode(2)) },
            // RHS node 2: new Room
            ReplacementNode { from_lhs: None, action: ReplacementAction::Keep, data: Some(TNode(2)) },
        ],
        edges: vec![
            (LocalId(0), LocalId(1), TEdge(0)), // Start -> Room1
            (LocalId(1), LocalId(2), TEdge(0)), // Room1 -> Room2
        ],
        reconnections: vec![Reconnection { from: LocalId(0), to: LocalId(0) }],
    };

    Rule { lhs, rhs, weight: 1, name: "expand_start" }
}

#[test]
fn simple_expansion() {
    // Start with single Start node, apply expansion rule
    let mut g = Graph::<TNode, TEdge>::new();
    g.add_node(TNode(1)); // Start

    let rule = expansion_rule();
    let matches = pattern::find_matches(&g, &rule.lhs);
    assert_eq!(matches.len(), 1);

    apply_rule(&mut g, &rule, &matches[0]);

    // Should now have: Start(1), Room(2), Room(2) = 3 nodes
    assert_eq!(g.node_count(), 3);
    // 2 edges: Start->Room1, Room1->Room2
    assert_eq!(g.edge_count(), 2);
}

#[test]
fn node_replacement() {
    // Replace "Empty"(5) with "Key"(6), preserving edges
    let mut g = Graph::<TNode, TEdge>::new();
    let a = g.add_node(TNode(1));
    let empty = g.add_node(TNode(5));
    let c = g.add_node(TNode(3));
    g.add_edge(a, empty, TEdge(0));
    g.add_edge(empty, c, TEdge(0));

    let mut lhs = Pattern::new();
    lhs.add_node(5u8); // match Empty

    let rhs = Replacement {
        nodes: vec![ReplacementNode {
            from_lhs: Some(LocalId(0)),
            action: ReplacementAction::Replace(TNode(6)),
            data: None,
        }],
        edges: vec![],
        reconnections: vec![Reconnection { from: LocalId(0), to: LocalId(0) }],
    };

    let rule = Rule { lhs, rhs, weight: 1, name: "replace_empty" };
    let matches = pattern::find_matches(&g, &rule.lhs);
    assert_eq!(matches.len(), 1);

    apply_rule(&mut g, &rule, &matches[0]);

    // Same number of nodes, but empty is now Key(6)
    assert_eq!(g.node_count(), 3);
    assert_eq!(g.node(empty).unwrap().kind(), 6);
    // Edges preserved
    assert_eq!(g.edge_count(), 2);
}

#[test]
fn reconnection() {
    // A(1) -> B(2) -> C(3), replace B with D(4)
    let mut g = Graph::<TNode, TEdge>::new();
    let a = g.add_node(TNode(1));
    let b = g.add_node(TNode(2));
    let c = g.add_node(TNode(3));
    g.add_edge(a, b, TEdge(0));
    g.add_edge(b, c, TEdge(0));

    let mut lhs = Pattern::new();
    lhs.add_node(2u8); // match B

    let rhs = Replacement {
        nodes: vec![
            // New node D replaces B
            ReplacementNode { from_lhs: None, action: ReplacementAction::Keep, data: Some(TNode(4)) },
        ],
        edges: vec![],
        reconnections: vec![
            Reconnection { from: LocalId(0), to: LocalId(0) }, // redirect B's edges to D
        ],
    };

    let rule = Rule { lhs, rhs, weight: 1, name: "replace_b" };
    let matches = pattern::find_matches(&g, &rule.lhs);
    assert_eq!(matches.len(), 1);

    apply_rule(&mut g, &rule, &matches[0]);

    // B removed, D added = 3 nodes (A, C, D)
    assert_eq!(g.node_count(), 3);
    assert!(g.node(b).is_none()); // B removed

    // Find node D (should be kind 4)
    let d_id: Vec<NodeId> =
        g.node_ids().into_iter().filter(|&id| g.node(id).unwrap().kind() == 4).collect();
    assert_eq!(d_id.len(), 1);
    let d = d_id[0];

    // A -> D and D -> C edges should exist
    let a_out: Vec<_> = g.outgoing(a).to_vec();
    assert_eq!(a_out.len(), 1);
    assert_eq!(g.edge_endpoints(a_out[0]), Some((a, d)));

    let d_out: Vec<_> = g.outgoing(d).to_vec();
    assert_eq!(d_out.len(), 1);
    assert_eq!(g.edge_endpoints(d_out[0]), Some((d, c)));
}

#[test]
fn step_no_match() {
    // No rules → NoMatch
    let g = Graph::<TNode, TEdge>::new();
    let config = RewriterConfig::new().selection(SelectionStrategy::FirstMatch);
    let mut rewriter = Rewriter::new(g, config);
    let mut rng = FakeRng(42);

    match rewriter.step(&mut rng) {
        StepResult::NoMatch => {}
        _ => panic!("Expected NoMatch"),
    }
}

#[test]
fn step_applies_rule() {
    let mut g = Graph::<TNode, TEdge>::new();
    g.add_node(TNode(1)); // Start

    let config = RewriterConfig::new().selection(SelectionStrategy::FirstMatch);
    let mut rewriter = Rewriter::new(g, config);
    rewriter.add_rule(expansion_rule());

    let mut rng = FakeRng(42);
    match rewriter.step(&mut rng) {
        StepResult::Applied { rule_name, .. } => {
            assert_eq!(rule_name, "expand_start");
        }
        StepResult::NoMatch => panic!("Expected Applied"),
    }

    assert_eq!(rewriter.graph().node_count(), 3);
}

#[test]
fn step_constraint_rollback() {
    // Rule adds a cycle, AcyclicConstraint should cause rollback
    let mut g = Graph::<TNode, TEdge>::new();
    let a = g.add_node(TNode(1));
    let b = g.add_node(TNode(2));
    g.add_edge(a, b, TEdge(0));

    // Rule: match node(2), add edge back to create cycle
    let mut lhs = Pattern::new();
    lhs.add_node(2u8);

    let rhs = Replacement {
        nodes: vec![
            ReplacementNode { from_lhs: Some(LocalId(0)), action: ReplacementAction::Keep, data: None },
            ReplacementNode { from_lhs: None, action: ReplacementAction::Keep, data: Some(TNode(3)) },
        ],
        edges: vec![
            (LocalId(0), LocalId(1), TEdge(0)),
            (LocalId(1), LocalId(0), TEdge(0)), // creates cycle potential
        ],
        reconnections: vec![],
    };

    let rule = Rule { lhs, rhs, weight: 1, name: "cycle_maker" };

    let config = RewriterConfig::new().selection(SelectionStrategy::FirstMatch);
    let mut rewriter = Rewriter::new(g, config);
    rewriter.add_rule(rule);
    rewriter.add_constraint(AcyclicConstraint);

    let mut rng = FakeRng(42);
    // Step should apply but rollback due to constraint
    match rewriter.step(&mut rng) {
        StepResult::Applied { .. } => {}
        StepResult::NoMatch => panic!("Expected Applied (with rollback)"),
    }

    // Graph should be unchanged (rolled back)
    assert_eq!(rewriter.graph().node_count(), 2);
    assert_eq!(rewriter.graph().edge_count(), 1);
}

#[test]
fn rewrite_runs_to_completion() {
    let mut g = Graph::<TNode, TEdge>::new();
    g.add_node(TNode(1)); // Start

    let config = RewriterConfig::new().max_steps(5).selection(SelectionStrategy::FirstMatch);
    let mut rewriter = Rewriter::new(g, config);
    rewriter.add_rule(expansion_rule());

    let mut rng = FakeRng(42);
    let result = rewriter.rewrite(&mut rng).unwrap();

    // After first step: Start no longer matches kind 1 for expansion
    // Actually, Start is kept so it still matches → will keep expanding
    // But max_steps=5 should limit it
    assert!(result.steps <= 5);
    assert!(result.graph.node_count() > 1);
}

#[test]
fn step_observed_calls_observer() {
    struct TestObserver {
        match_called: bool,
        applied_called: bool,
        step_complete_called: bool,
    }
    impl RewriteObserver<TNode, TEdge> for TestObserver {
        fn on_match(&mut self, _rule_index: usize, _matched_nodes: &[NodeId]) {
            self.match_called = true;
        }
        fn on_rule_applied(&mut self, _rule_index: usize, _rule_name: &str) {
            self.applied_called = true;
        }
        fn on_step_complete(&mut self, _step: usize, _graph: &Graph<TNode, TEdge>) {
            self.step_complete_called = true;
        }
    }

    let mut g = Graph::<TNode, TEdge>::new();
    g.add_node(TNode(1));

    let config = RewriterConfig::new().selection(SelectionStrategy::FirstMatch);
    let mut rewriter = Rewriter::new(g, config);
    rewriter.add_rule(expansion_rule());

    let mut rng = FakeRng(42);
    let mut observer = TestObserver { match_called: false, applied_called: false, step_complete_called: false };

    rewriter.step_observed(&mut rng, &mut observer);

    assert!(observer.match_called, "on_match should be called");
    assert!(observer.applied_called, "on_rule_applied should be called");
    assert!(observer.step_complete_called, "on_step_complete should be called");
}

// ----- further cases -----

fn removal_rule() -> Rule<TNode, TEdge> {
    // Match 1 -> 2; remove the 2, keep the 1.
    let mut lhs = Pattern::new();
    let a = lhs.add_node(1u8);
    let b = lhs.add_node(2u8);
    lhs.add_edge(a, b, 0u8);
    let rhs = Replacement {
        nodes: vec![
            ReplacementNode { from_lhs: Some(LocalId(0)), action: ReplacementAction::Keep, data: None },
            ReplacementNode { from_lhs: Some(LocalId(1)), action: ReplacementAction::Remove, data: None },
        ],
        edges: vec![],
        reconnections: vec![],
    };
    Rule { lhs, rhs, weight: 1, name: "drop_two" }
}

#[test]
fn unkept_matched_nodes_are_removed() {
    let mut g = Graph::<TNode, TEdge>::new();
    let a = g.add_node(TNode(1));
    let b = g.add_node(TNode(2));
    let c = g.add_node(TNode(3));
    g.add_edge(a, b, TEdge(0));
    g.add_edge(b, c, TEdge(0));
    let rule = removal_rule();
    apply_rule(&mut g, &rule, &Match { node_map: vec![a, b] });
    assert!(g.node(b).is_none());
    assert_eq!(g.node_ids(), vec![a, c]);
    assert_eq!(g.edge_count(), 0);
    // A matched node that no replacement node names is removed as well.
    let mut h = Graph::<TNode, TEdge>::new();
    let x = h.add_node(TNode(1));
    let y = h.add_node(TNode(2));
    let forget = Rule {
        lhs: Pattern::new(),
        rhs: Replacement { nodes: vec![], edges: vec![], reconnections: vec![] },
        weight: 1,
        name: "forget",
    };
    apply_rule(&mut h, &forget, &Match { node_map: vec![x] });
    assert_eq!(h.node_ids(), vec![y]);
}

#[test]
fn removed_endpoint_drops_replacement_edge() {
    // The rhs edge to a removed node is not added.
    let mut g = Graph::<TNode, TEdge>::new();
    let a = g.add_node(TNode(1));
    let rhs = Replacement {
        nodes: vec![
            ReplacementNode { from_lhs: Some(LocalId(0)), action: ReplacementAction::Remove, data: None },
            ReplacementNode { from_lhs: None, action: ReplacementAction::Keep, data: Some(TNode(7)) },
        ],
        edges: vec![(LocalId(1), LocalId(0), TEdge(1)), (LocalId(1), LocalId(1), TEdge(2))],
        reconnections: vec![Reconnection { from: LocalId(0), to: LocalId(0) }],
    };
    let rule = Rule { lhs: Pattern::new(), rhs, weight: 1, name: "swap" };
    apply_rule(&mut g, &rule, &Match { node_map: vec![a] });
    assert!(g.node(a).is_none());
    assert_eq!(g.node_ids(), vec![NodeId(1)]);
    assert_eq!(g.node(NodeId(1)), Some(&TNode(7)));
    assert_eq!(g.edge_count(), 1);
    assert_eq!(g.edge_endpoints(g.edge_ids()[0]), Some((NodeId(1), NodeId(1))));
}

#[test]
fn edges_inside_the_match_are_replaced() {
    // X -> A -> B -> Y with A, B matched; A's external edge moves to a new N.
    let mut g = Graph::<TNode, TEdge>::new();
    let x = g.add_node(TNode(9));
    let a = g.add_node(TNode(1));
    let b = g.add_node(TNode(2));
    let y = g.add_node(TNode(9));
    let xa = g.add_edge(x, a, TEdge(5));
    g.add_edge(a, b, TEdge(6));
    g.add_edge(b, y, TEdge(7));
    let rhs = Replacement {
        nodes: vec![
            ReplacementNode { from_lhs: Some(LocalId(0)), action: ReplacementAction::Keep, data: None },
            ReplacementNode { from_lhs: Some(LocalId(1)), action: ReplacementAction::Keep, data: None },
            ReplacementNode { from_lhs: None, action: ReplacementAction::Keep, data: Some(TNode(4)) },
        ],
        edges: vec![],
        reconnections: vec![Reconnection { from: LocalId(0), to: LocalId(2) }],
    };
    let rule = Rule { lhs: Pattern::new(), rhs, weight: 1, name: "move_in" };
    apply_rule(&mut g, &rule, &Match { node_map: vec![a, b] });
    let n = NodeId(4);
    assert!(g.edge(xa).is_none());
    let into_n = g.incoming(n).to_vec();
    assert_eq!(into_n.len(), 1);
    assert_eq!(g.edge_endpoints(into_n[0]), Some((x, n)));
    assert_eq!(g.edge(into_n[0]), Some(&TEdge(5)));
    // The edge between matched nodes is gone; the replacement adds none.
    assert_eq!(g.outgoing(a).len(), 0);
    assert_eq!(g.incoming(a).len(), 0);
    assert_eq!(g.edge_count(), 2);
}

#[test]
fn weighted_step_picks_only_weighted_rules_once_some_weigh() {
    let mut g = Graph::<TNode, TEdge>::new();
    g.add_node(TNode(1));
    let mut zero = expansion_rule();
    zero.weight = 0;
    zero.name = "never";
    let config = RewriterConfig::new();
    let mut rewriter = Rewriter::new(g, config);
    rewriter.add_rule(zero);
    let mut rng = FakeRng(7);
    // Only a zero-weight rule matches: the first match is applied.
    match rewriter.step(&mut rng) {
        StepResult::Applied { rule_index, rule_name } => {
            assert_eq!(rule_index, 0);
            assert_eq!(rule_name, "never");
        }
        StepResult::NoMatch => panic!("a match exists"),
    }
    assert_eq!(rewriter.steps(), 1);
    rewriter.add_rule(expansion_rule());
    for _ in 0..5 {
        match rewriter.step(&mut rng) {
            StepResult::Applied { rule_index, rule_name } => {
                assert_eq!(rule_index, 1);
                assert_eq!(rule_name, "expand_start");
            }
            StepResult::NoMatch => panic!("expected an application"),
        }
    }
    assert_eq!(rewriter.steps(), 6);
}

#[test]
fn rewrite_stops_when_nothing_matches() {
    // 1 -> 2: the removal rule applies once, then nothing matches.
    let mut g = Graph::<TNode, TEdge>::new();
    let a = g.add_node(TNode(1));
    let b = g.add_node(TNode(2));
    g.add_edge(a, b, TEdge(0));
    let config = RewriterConfig::new().max_steps(100).selection(SelectionStrategy::FirstMatch);
    let mut rewriter = Rewriter::new(g, config);
    rewriter.add_rule(removal_rule());
    let mut rng = FakeRng(1);
    let result = rewriter.rewrite(&mut rng).unwrap();
    assert_eq!(result.steps, 1);
    assert_eq!(result.rules_applied, vec![0]);
    assert_eq!(result.graph.node_ids(), vec![a]);
}

#[test]
fn rewrite_respects_max_steps_exactly() {
    let mut g = Graph::<TNode, TEdge>::new();
    g.add_node(TNode(1));
    let config = RewriterConfig::new().max_steps(3).selection(SelectionStrategy::FirstMatch);
    let mut rewriter = Rewriter::new(g, config);
    rewriter.add_rule(expansion_rule());
    let mut rng = FakeRng(3);
    let result = rewriter.rewrite(&mut rng).unwrap();
    assert_eq!(result.steps, 3);
    assert_eq!(result.rules_applied, vec![0, 0, 0]);
    assert_eq!(result.graph.node_count(), 7);
    assert_eq!(result.graph.edge_count(), 6);
}

#[test]
fn parallel_step_applies_all_disjoint_matches() {
    // Three separate Start nodes: one parallel step expands all of them.
    let mut g = Graph::<TNode, TEdge>::new();
    for _ in 0..3 {
        g.add_node(TNode(1));
    }
    let config = RewriterConfig::new().selection(SelectionStrategy::Parallel);
    let mut rewriter = Rewriter::new(g, config);
    rewriter.add_rule(expansion_rule());
    let mut rng = FakeRng(0);
    match rewriter.step(&mut rng) {
        StepResult::Applied { rule_index, .. } => assert_eq!(rule_index, 0),
        StepResult::NoMatch => panic!("expected an application"),
    }
    assert_eq!(rewriter.graph().node_count(), 9);
    assert_eq!(rewriter.steps(), 1);
    // The observed step is the same step.
    let mut g2 = Graph::<TNode, TEdge>::new();
    for _ in 0..3 {
        g2.add_node(TNode(1));
    }
    let config2 = RewriterConfig::new().selection(SelectionStrategy::Parallel);
    let mut r2 = Rewriter::new(g2, config2);
    r2.add_rule(expansion_rule());
    let mut obs = NoOpRewriteObserver;
    r2.step_observed(&mut rng, &mut obs);
    assert_eq!(r2.graph().node_count(), 9);
    assert_eq!(r2.steps(), 1);
}

#[test]
fn observer_sees_rollback_and_no_match() {
    struct Log(Vec<&'static str>);
    impl RewriteObserver<TNode, TEdge> for Log {
        fn on_constraint_violated(&mut self, _rule_index: usize) {
            self.0.push("violated");
        }
        fn on_no_match(&mut self) {
            self.0.push("none");
        }
        fn on_step_complete(&mut self, _step: usize, _graph: &Graph<TNode, TEdge>) {
            self.0.push("complete");
        }
    }
    let mut g = Graph::<TNode, TEdge>::new();
    g.add_node(TNode(2));
    let mut lhs = Pattern::new();
    lhs.add_node(2u8);
    let rhs = Replacement {
        nodes: vec![ReplacementNode { from_lhs: Some(LocalId(0)), action: ReplacementAction::Keep, data: None }],
        edges: vec![(LocalId(0), LocalId(0), TEdge(0))],
        reconnections: vec![],
    };
    let config = RewriterConfig::new().selection(SelectionStrategy::FirstMatch);
    let mut rewriter = Rewriter::new(g, config);
    rewriter.add_rule(Rule { lhs, rhs, weight: 1, name: "loop" });
    rewriter.add_constraint(AcyclicConstraint);
    let mut log = Log(vec![]);
    let mut rng = FakeRng(5);
    rewriter.step_observed(&mut rng, &mut log);
    assert_eq!(log.0, vec!["violated"]);
    assert_eq!(rewriter.graph().edge_count(), 0);
    assert_eq!(rewriter.steps(), 0);
    let empty = Rewriter::new(Graph::<TNode, TEdge>::new(), RewriterConfig::new());
    let mut e = empty;
    e.step_observed(&mut rng, &mut log);
    assert_eq!(log.0, vec!["violated", "none"]);
}

#[test]
fn config_builders() {
    let c = RewriterConfig::new();
    assert_eq!(c.max_steps, 10_000);
    assert!(matches!(c.selection, SelectionStrategy::WeightedRandom));
    let d = c.max_steps(4).selection(SelectionStrategy::Parallel);
    assert_eq!(d.max_steps, 4);
    assert!(matches!(d.selection, SelectionStrategy::Parallel));
}

#[test]
fn nodes_outside_the_match_are_untouched() {
    // U(9) -> A(1) <- V(8); the rule replaces A and removes nothing else.
    let mut g = Graph::<TNode, TEdge>::new();
    let u = g.add_node(TNode(9));
    let a = g.add_node(TNode(1));
    let v = g.add_node(TNode(8));
    g.add_edge(u, a, TEdge(0));
    g.add_edge(v, a, TEdge(1));
    let rhs = Replacement {
        nodes: vec![ReplacementNode { from_lhs: Some(LocalId(0)), action: ReplacementAction::Replace(TNode(2)), data: None }],
        edges: vec![],
        reconnections: vec![],
    };
    let rule = Rule { lhs: Pattern::new(), rhs, weight: 1, name: "swap_kind" };
    let before = g.clone();
    apply_rule(&mut g, &rule, &Match { node_map: vec![a] });
    assert_eq!(g.node(u), before.node(u));
    assert_eq!(g.node(v), before.node(v));
    assert_eq!(g.node(a), Some(&TNode(2)));
    assert_eq!(g.edge_count(), 2);
}

#[test]
fn all_non_overlapping_applies_every_disjoint_match() {
    let mut g = Graph::<TNode, TEdge>::new();
    g.add_node(TNode(1));
    g.add_node(TNode(1));
    let config = RewriterConfig::new()
        .selection(SelectionStrategy::FirstMatch)
        .application(ApplicationMode::AllNonOverlapping);
    let mut rewriter = Rewriter::new(g, config);
    rewriter.add_rule(expansion_rule());
    let mut rng = FakeRng(42);
    match rewriter.step(&mut rng) {
        StepResult::Applied { rule_index, .. } => assert_eq!(rule_index, 0),
        StepResult::NoMatch => panic!("expected an application"),
    }
    assert_eq!(rewriter.graph().node_count(), 6);
    assert_eq!(rewriter.steps(), 1);
}

#[test]
fn edge_between_kept_matched_nodes_is_replaced() {
    // a -[10]-> b matched and kept; the replacement puts c between them.
    let mut g = Graph::<TNode, TEdge>::new();
    let a = g.add_node(TNode(1));
    let b = g.add_node(TNode(2));
    g.add_edge(a, b, TEdge(10));
    let rhs = Replacement {
        nodes: vec![
            ReplacementNode { from_lhs: Some(LocalId(0)), action: ReplacementAction::Keep, data: None },
            ReplacementNode { from_lhs: Some(LocalId(1)), action: ReplacementAction::Keep, data: None },
            ReplacementNode { from_lhs: None, action: ReplacementAction::Keep, data: Some(TNode(3)) },
        ],
        edges: vec![(LocalId(0), LocalId(2), TEdge(10)), (LocalId(2), LocalId(1), TEdge(10))],
        reconnections: vec![
            Reconnection { from: LocalId(0), to: LocalId(0) },
            Reconnection { from: LocalId(1), to: LocalId(1) },
        ],
    };
    let rule = Rule { lhs: Pattern::new(), rhs, weight: 1, name: "insert_c" };
    apply_rule(&mut g, &rule, &Match { node_map: vec![a, b] });
    let c = NodeId(2);
    assert_eq!(g.node_count(), 3);
    assert_eq!(g.edge_count(), 2);
    let mut ends: Vec<(usize, usize)> =
        g.edge_ids().iter().map(|e| g.edge_endpoints(*e).unwrap()).map(|(s, t)| (s.0, t.0)).collect();
    ends.sort();
    assert_eq!(ends, vec![(a.0, c.0), (c.0, b.0)]);
}

#[test]
fn recorded_step_lists_the_observer_calls() {
    let mut g = Graph::<TNode, TEdge>::new();
    let a = g.add_node(TNode(1));
    let config = RewriterConfig::new().selection(SelectionStrategy::FirstMatch);
    let mut rewriter = Rewriter::new(g, config);
    rewriter.add_rule(expansion_rule());
    let mut rng = FakeRng(42);
    let (r, calls) = rewriter.step_recorded(&mut rng);
    assert!(matches!(r, StepResult::Applied { rule_index: 0, rule_name: "expand_start" }));
    assert_eq!(calls.len(), 3);
    match &calls[0] {
        ObserverCall::Match { rule_index, nodes } => {
            assert_eq!(*rule_index, 0);
            assert_eq!(nodes, &vec![a]);
        }
        _ => panic!("expected the match first"),
    }
    assert!(matches!(calls[1], ObserverCall::RuleApplied { rule_index: 0, rule_name: "expand_start" }));
    assert!(matches!(calls[2], ObserverCall::StepComplete { step: 1 }));
    // With no rule at all the only call is the missing match.
    let mut empty = Rewriter::<TNode, TEdge>::new(Graph::new(), RewriterConfig::new());
    let (r2, calls2) = empty.step_recorded(&mut rng);
    assert!(matches!(r2, StepResult::NoMatch));
    assert_eq!(calls2.len(), 1);
    assert!(matches!(calls2[0], ObserverCall::NoMatch));
}

#[test]
fn refused_applications_count_toward_max_steps() {
    // The only rule always makes a cycle, which the constraint refuses.
    let mut g = Graph::<TNode, TEdge>::new();
    g.add_node(TNode(2));
    let mut lhs = Pattern::new();
    lhs.add_node(2u8);
    let rhs = Replacement {
        nodes: vec![
            ReplacementNode { from_lhs: Some(LocalId(0)), action: ReplacementAction::Keep, data: None },
            ReplacementNode { from_lhs: None, action: ReplacementAction::Keep, data: Some(TNode(3)) },
        ],
        edges: vec![(LocalId(0), LocalId(1), TEdge(0)), (LocalId(1), LocalId(0), TEdge(0))],
        reconnections: vec![],
    };
    let config = RewriterConfig::new().max_steps(3).selection(SelectionStrategy::FirstMatch);
    let mut rewriter = Rewriter::new(g, config);
    rewriter.add_rule(Rule { lhs, rhs, weight: 1, name: "cycle_maker" });
    rewriter.add_constraint(AcyclicConstraint);
    let result = rewriter.rewrite(&mut FakeRng(1)).unwrap();
    assert_eq!(result.steps, 0);
    assert_eq!(result.rules_applied, vec![0, 0, 0]);
    assert_eq!(result.graph.node_count(), 1);
}
