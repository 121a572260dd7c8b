//! Structural constraints.

use grammex::constraint::{
    bfs_visit, AcyclicConstraint, CycleConstraint, LockKeyConstraint, ReachabilityConstraint,
    StructuralConstraint,
};
use grammex::graph::{Graph, NodeId};
use grammex::{EdgeData, NodeData};

#[derive(Clone, PartialEq, Eq, Debug)]
struct TNode(u8);
impl NodeData for TNode {
    type Kind = u8;

    fn spec_kind(&self) -> Self::Kind {
        self.kind()
    }
    fn kind(&self) -> u8 {
        self.0
    }
}

#[derive(Clone, PartialEq, Eq, Debug)]
struct TEdge(u8);
impl EdgeData for TEdge {
    type Kind = u8;

    fn spec_kind(&self) -> Self::Kind {
        self.kind()
    }
    fn kind(&self) -> u8 {
        self.0
    }
}

// --- Reachability ---

#[test]
fn reachability_connected_passes() {
    // A(1) -> B(2) -> C(3), all connected
    let mut g = Graph::<TNode, TEdge>::new();
    let a = g.add_node(TNode(1));
    let b = g.add_node(TNode(2));
    let c = g.add_node(TNode(3));
    g.add_edge(a, b, TEdge(0));
    g.add_edge(b, c, TEdge(0));

    let constraint = ReachabilityConstraint::new(a, vec![1, 2, 3]);
    assert!(constraint.check(&g));
}

#[test]
fn reachability_disconnected_fails() {
    // A(1) -> B(2), C(3) disconnected
    let mut g = Graph::<TNode, TEdge>::new();
    let a = g.add_node(TNode(1));
    let b = g.add_node(TNode(2));
    g.add_node(TNode(3)); // disconnected
    g.add_edge(a, b, TEdge(0));

    let constraint = ReachabilityConstraint::new(a, vec![1, 2, 3]);
    assert!(!constraint.check(&g));
}

#[test]
fn reachability_ignores_missing_kinds_and_edge_direction() {
    // B(2) -> A(1): A reaches B against the edge direction; kind 9 is absent.
    let mut g = Graph::<TNode, TEdge>::new();
    let a = g.add_node(TNode(1));
    let b = g.add_node(TNode(2));
    g.add_edge(b, a, TEdge(0));
    assert!(ReachabilityConstraint::new(a, vec![2, 9]).check(&g));
    // A removed start reaches nothing but itself.
    g.remove_node(a);
    assert!(!ReachabilityConstraint::new(a, vec![2]).check(&g));
    assert!(ReachabilityConstraint::new(a, vec![]).check(&g));
}

#[test]
fn reachability_wants_every_node_of_a_required_kind() {
    // start -> b(2), and a second node of kind 2 that nothing reaches.
    let mut g = Graph::<TNode, TEdge>::new();
    let start = g.add_node(TNode(1));
    let b = g.add_node(TNode(2));
    g.add_edge(start, b, TEdge(0));
    assert!(ReachabilityConstraint::new(start, vec![2]).check(&g));
    let lone = g.add_node(TNode(2));
    assert!(!ReachabilityConstraint::new(start, vec![2]).check(&g));
    g.add_edge(lone, b, TEdge(0));
    assert!(ReachabilityConstraint::new(start, vec![2]).check(&g));
}

#[test]
fn bfs_order_is_breadth_first() {
    // 0 -> 1, 0 -> 2, 3 -> 0, 1 -> 4
    let mut g = Graph::<TNode, TEdge>::new();
    let n: Vec<NodeId> = (0..5).map(|k| g.add_node(TNode(k))).collect();
    g.add_edge(n[0], n[1], TEdge(0));
    g.add_edge(n[0], n[2], TEdge(0));
    g.add_edge(n[3], n[0], TEdge(0));
    g.add_edge(n[1], n[4], TEdge(0));
    assert_eq!(bfs_visit(&g, n[0]), vec![n[0], n[1], n[2], n[3], n[4]]);
    assert_eq!(bfs_visit(&g, n[4]), vec![n[4], n[1], n[0], n[2], n[3]]);
}

// --- Cycle ---

#[test]
fn cycle_count_tree() {
    // Tree: A -> B, A -> C (0 cycles)
    let mut g = Graph::<TNode, TEdge>::new();
    let a = g.add_node(TNode(1));
    let b = g.add_node(TNode(1));
    let c = g.add_node(TNode(1));
    g.add_edge(a, b, TEdge(0));
    g.add_edge(a, c, TEdge(0));

    let constraint = CycleConstraint::new(0);
    assert!(constraint.check(&g));
}

#[test]
fn cycle_count_one_loop() {
    // A -> B -> C -> A (1 cycle: 3 edges, 3 nodes, 1 component => 3-3+1=1)
    let mut g = Graph::<TNode, TEdge>::new();
    let a = g.add_node(TNode(1));
    let b = g.add_node(TNode(1));
    let c = g.add_node(TNode(1));
    g.add_edge(a, b, TEdge(0));
    g.add_edge(b, c, TEdge(0));
    g.add_edge(c, a, TEdge(0));

    let constraint = CycleConstraint::new(1);
    assert!(constraint.check(&g));
}

#[test]
fn cycle_rank_counts_components() {
    // Two triangles and an isolated node: 6 edges - 7 nodes + 3 components = 2.
    let mut g = Graph::<TNode, TEdge>::new();
    let n: Vec<NodeId> = (0..7).map(|_| g.add_node(TNode(1))).collect();
    for t in 0..2 {
        let b = 3 * t;
        g.add_edge(n[b], n[b + 1], TEdge(0));
        g.add_edge(n[b + 1], n[b + 2], TEdge(0));
        g.add_edge(n[b + 2], n[b], TEdge(0));
    }
    assert_eq!(CycleConstraint::count_components(&g), 3);
    assert!(CycleConstraint::new(2).check(&g));
    assert!(!CycleConstraint::new(1).check(&g));
    // A parallel edge is one more independent cycle.
    g.add_edge(n[0], n[1], TEdge(0));
    assert!(CycleConstraint::new(3).check(&g));
    // The empty graph has none.
    let e = Graph::<TNode, TEdge>::new();
    assert_eq!(CycleConstraint::count_components(&e), 0);
    assert!(CycleConstraint::new(0).check(&e));
}

// --- Acyclic ---

#[test]
fn acyclic_dag_passes() {
    // DAG: A -> B -> C, A -> C
    let mut g = Graph::<TNode, TEdge>::new();
    let a = g.add_node(TNode(1));
    let b = g.add_node(TNode(1));
    let c = g.add_node(TNode(1));
    g.add_edge(a, b, TEdge(0));
    g.add_edge(b, c, TEdge(0));
    g.add_edge(a, c, TEdge(0));

    assert!(AcyclicConstraint.check(&g));
}

#[test]
fn acyclic_with_cycle_fails() {
    // Cycle: A -> B -> C -> A
    let mut g = Graph::<TNode, TEdge>::new();
    let a = g.add_node(TNode(1));
    let b = g.add_node(TNode(1));
    let c = g.add_node(TNode(1));
    g.add_edge(a, b, TEdge(0));
    g.add_edge(b, c, TEdge(0));
    g.add_edge(c, a, TEdge(0));

    assert!(!AcyclicConstraint.check(&g));
}

#[test]
fn acyclic_self_loop_and_removal() {
    let mut g = Graph::<TNode, TEdge>::new();
    let a = g.add_node(TNode(1));
    let b = g.add_node(TNode(1));
    g.add_edge(a, b, TEdge(0));
    let l = g.add_edge(b, b, TEdge(0));
    assert!(!AcyclicConstraint::is_acyclic(&g));
    g.remove_edge(l);
    assert!(AcyclicConstraint::is_acyclic(&g));
    // Edges in both directions between two nodes form a cycle.
    g.add_edge(b, a, TEdge(0));
    assert!(!AcyclicConstraint.check(&g));
}

// --- LockKey ---

#[test]
fn key_before_lock_passes() {
    // Start(1) -> Key(2) -> Lock(3) -> End(4)
    // Pair: (2=key, 3=lock)
    let mut g = Graph::<TNode, TEdge>::new();
    let start = g.add_node(TNode(1));
    let key = g.add_node(TNode(2));
    let lock = g.add_node(TNode(3));
    let end = g.add_node(TNode(4));
    g.add_edge(start, key, TEdge(0));
    g.add_edge(key, lock, TEdge(0));
    g.add_edge(lock, end, TEdge(0));

    let constraint = LockKeyConstraint::new(start, vec![(2u8, 3u8)]);
    assert!(constraint.check(&g));
}

#[test]
fn lock_without_key_fails() {
    // Start(1) -> Lock(3) -> End(4), no key
    let mut g = Graph::<TNode, TEdge>::new();
    let start = g.add_node(TNode(1));
    let lock = g.add_node(TNode(3));
    let end = g.add_node(TNode(4));
    g.add_edge(start, lock, TEdge(0));
    g.add_edge(lock, end, TEdge(0));

    let constraint = LockKeyConstraint::new(start, vec![(2u8, 3u8)]);
    assert!(!constraint.check(&g));
}

#[test]
fn multiple_lock_key_pairs() {
    // Start(1) -> Key1(2) -> Lock1(3) -> Key2(4) -> Lock2(5)
    // Pairs: (2=key1, 3=lock1), (4=key2, 5=lock2)
    let mut g = Graph::<TNode, TEdge>::new();
    let start = g.add_node(TNode(1));
    let k1 = g.add_node(TNode(2));
    let l1 = g.add_node(TNode(3));
    let k2 = g.add_node(TNode(4));
    let l2 = g.add_node(TNode(5));
    g.add_edge(start, k1, TEdge(0));
    g.add_edge(k1, l1, TEdge(0));
    g.add_edge(l1, k2, TEdge(0));
    g.add_edge(k2, l2, TEdge(0));

    let constraint = LockKeyConstraint::new(start, vec![(2u8, 3u8), (4u8, 5u8)]);
    assert!(constraint.check(&g));
}

#[test]
fn lock_reached_before_key_fails() {
    // Start(1) -> Lock(3), Start(1) -> Room(5) -> Key(2): the lock comes first.
    let mut g = Graph::<TNode, TEdge>::new();
    let start = g.add_node(TNode(1));
    let lock = g.add_node(TNode(3));
    let room = g.add_node(TNode(5));
    let key = g.add_node(TNode(2));
    g.add_edge(start, lock, TEdge(0));
    g.add_edge(start, room, TEdge(0));
    g.add_edge(room, key, TEdge(0));
    assert!(!LockKeyConstraint::new(start, vec![(2u8, 3u8)]).check(&g));
    // An unreachable lock does not matter.
    let mut h = Graph::<TNode, TEdge>::new();
    let s = h.add_node(TNode(1));
    h.add_node(TNode(3));
    assert!(LockKeyConstraint::new(s, vec![(2u8, 3u8)]).check(&h));
}

#[test]
fn lock_reachable_around_its_key_fails() {
    // Start(1) -> Key(2) and Start(1) -> Lock(3): the lock is reached without the key.
    let mut g = Graph::<TNode, TEdge>::new();
    let s = g.add_node(TNode(1));
    let k = g.add_node(TNode(2));
    let l = g.add_node(TNode(3));
    g.add_edge(s, k, TEdge(0));
    g.add_edge(s, l, TEdge(0));
    assert!(!LockKeyConstraint::new(s, vec![(2u8, 3u8)]).check(&g));
    // A lock that nothing reaches asks nothing.
    let mut g2 = Graph::<TNode, TEdge>::new();
    let s2 = g2.add_node(TNode(1));
    g2.add_node(TNode(3));
    assert!(LockKeyConstraint::new(s2, vec![(2u8, 3u8)]).check(&g2));
}
