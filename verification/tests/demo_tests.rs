//! The demo grammars, settings and stepped runs.

use grammex::constraint::{AcyclicConstraint, LockKeyConstraint, StructuralConstraint};
use grammex::demo::{
    dungeon_rules, edge_index_pairs, generate_demo_run, is_config_readable, is_quest, parse_config,
    quest_rules, selection_from_str, DemoConfig, DemoEdge, DemoKind, DemoNode, DemoStepper, StepEvent,
};
use grammex::graph::{Graph, NodeId};
use grammex::{NodeData, SelectionStrategy};

fn cfg(json: &str) -> DemoConfig {
    assert!(is_config_readable(json.as_bytes()));
    parse_config(json.as_bytes())
}

#[test]
fn parse_full_config() {
    let c = cfg(
        "{\"seed\":7,\"mode\":\"quest\",\"max_steps\":25,\"strategy\":\"parallel\",\"lock_key\":false,\"reachability\":true,\"acyclic\":false}",
    );
    assert_eq!(c.seed, 7);
    assert_eq!(c.mode, b"quest".to_vec());
    assert_eq!(c.max_steps, 25);
    assert_eq!(c.strategy, b"parallel".to_vec());
    assert!(!c.lock_key);
    assert!(c.reachability);
    assert!(!c.acyclic);
}

#[test]
fn parse_defaults_for_missing_keys() {
    let c = cfg("{}");
    assert_eq!(c.seed, 0);
    assert!(c.mode.is_empty());
    assert_eq!(c.max_steps, 0);
    assert!(c.strategy.is_empty());
    assert!(c.lock_key && c.reachability && c.acyclic);
}

#[test]
fn parse_numbers_and_spaces() {
    // Spaces before the value, digits after other text, an overflowing number.
    let c = cfg("{\"seed\": x12y, \"max_steps\":99999999999999999999, \"acyclic\":   true, \"lock_key\":\ttrue}");
    assert_eq!(c.seed, 12);
    assert_eq!(c.max_steps, 0);
    assert!(c.acyclic);
    assert!(c.lock_key);
    // Unicode white space (no-break space, ideographic space) is skipped too.
    let d = cfg("{\"reachability\":\u{a0}\u{3000}true,\"acyclic\":\u{a0}false}");
    assert!(d.reachability);
    assert!(!d.acyclic);
}

#[test]
fn unreadable_config_is_refused() {
    // The key is at the very end: its value would start past the end.
    assert!(!is_config_readable(b"{\"seed\""));
    // The value would start inside a two-byte character.
    assert!(!is_config_readable("\"mode\"\u{e9}".as_bytes()));
    assert!(is_config_readable("\"mode\":\u{e9}".as_bytes()));
}

#[test]
fn strategy_names() {
    assert!(matches!(selection_from_str(b"first"), SelectionStrategy::FirstMatch));
    assert!(matches!(selection_from_str(b"parallel"), SelectionStrategy::Parallel));
    assert!(matches!(selection_from_str(b"weighted"), SelectionStrategy::WeightedRandom));
    assert!(matches!(selection_from_str(b""), SelectionStrategy::WeightedRandom));
    assert!(is_quest(b"quest"));
    assert!(!is_quest(b"quests"));
}

#[test]
fn grammar_shapes() {
    let d = dungeon_rules();
    let names: Vec<&str> = d.iter().map(|r| r.name).collect();
    assert_eq!(names, vec!["start_expand", "expand_room", "add_lock_key", "room_to_boss", "boss_to_exit"]);
    let weights: Vec<u32> = d.iter().map(|r| r.weight).collect();
    assert_eq!(weights, vec![3, 5, 1, 1, 2]);
    let q = quest_rules();
    assert_eq!(q.len(), 2);
    assert_eq!(q[1].rhs.edges[0].0 .0, 1);
    assert_eq!(DemoKind::SubObjective.label(), "task");
    assert_eq!(DemoNode::Prerequisite.kind(), DemoKind::Prerequisite);
    assert!(DemoKind::Key != DemoKind::Lock);
}

#[test]
fn dungeon_run_keeps_locks_behind_keys() {
    for seed in 0..10u64 {
        let c = cfg(&format!(
            "{{\"seed\":{},\"mode\":\"dungeon\",\"max_steps\":40,\"strategy\":\"weighted\",\"lock_key\":true,\"reachability\":true,\"acyclic\":false}}",
            seed
        ));
        let result = generate_demo_run(&c);
        assert!(result.steps <= 40);
        assert!(result.graph.node_count() > 1);
        let start = NodeId(0);
        assert!(LockKeyConstraint::new(start, vec![(DemoKind::Key, DemoKind::Lock)]).check(&result.graph));
    }
}

#[test]
fn quest_run_is_acyclic() {
    let c = cfg("{\"seed\":3,\"mode\":\"quest\",\"max_steps\":20,\"strategy\":\"first\",\"acyclic\":true}");
    let result = generate_demo_run(&c);
    assert_eq!(result.steps, 20);
    assert!(AcyclicConstraint.check(&result.graph));
    assert_eq!(result.graph.node(NodeId(0)), Some(&DemoNode::Objective));
}

#[test]
fn stepper_reports_each_step() {
    let c = cfg("{\"seed\":0,\"mode\":\"dungeon\",\"max_steps\":5,\"strategy\":\"first\",\"lock_key\":false,\"reachability\":false,\"acyclic\":false}");
    let mut s = DemoStepper::new(&c);
    // First match: the start expands into a room, node 1 and edge 0.
    match s.step() {
        StepEvent::Applied { rule, nodes_added, edges_added } => {
            assert_eq!(rule, "start_expand");
            assert_eq!(nodes_added, vec![1]);
            assert_eq!(edges_added, vec![0]);
        }
        _ => panic!("expected an application"),
    }
    let st = s.stats();
    assert_eq!((st.nodes, st.edges, st.steps, st.rules_applied, st.constraint_violations), (2, 1, 1, 1, 0));
    assert_eq!(s.steps(), 1);
}

#[test]
fn stepper_quest_keeps_applying() {
    // The objective always matches, so every first-match step applies.
    let c = cfg("{\"mode\":\"quest\",\"strategy\":\"first\",\"acyclic\":false}");
    let mut s = DemoStepper::new(&c);
    for _ in 0..3 {
        assert!(matches!(s.step(), StepEvent::Applied { rule: "expand_objective", .. }));
    }
    assert_eq!(s.stats().rules_applied, 3);
    assert_eq!(s.stats().nodes, 7);
}

#[test]
fn stepper_reports_refusals() {
    // Acyclicity never refuses the quest grammar; lock-and-key on a dungeon
    // can. Every step is either counted as applied or as refused.
    let c = cfg("{\"seed\":5,\"mode\":\"dungeon\",\"strategy\":\"weighted\",\"lock_key\":true,\"reachability\":true}");
    let mut s = DemoStepper::new(&c);
    for _ in 0..30 {
        let _ = s.step();
    }
    let st = s.stats();
    assert_eq!(st.steps, 30);
    assert!(st.rules_applied + st.constraint_violations <= 30);
    assert!(LockKeyConstraint::new(NodeId(0), vec![(DemoKind::Key, DemoKind::Lock)]).check(s.graph()));
}

#[test]
fn edge_pairs_use_list_positions() {
    let mut g: Graph<DemoNode, DemoEdge> = Graph::new();
    let a = g.add_node(DemoNode::Start);
    let b = g.add_node(DemoNode::Room);
    let c = g.add_node(DemoNode::Exit);
    g.add_edge(a, c, DemoEdge);
    g.add_edge(c, b, DemoEdge);
    g.remove_node(b);
    let d = g.add_node(DemoNode::Boss);
    g.add_edge(d, a, DemoEdge);
    // Live nodes a, c, d sit at positions 0, 1, 2.
    assert_eq!(edge_index_pairs(&g), vec![(0, 1), (2, 0)]);
}
