//! Subgraph matching.

use grammex::graph::{Graph, NodeId};
use grammex::pattern::{find_matches, Pattern};
use grammex::{EdgeData, NodeData};

#[derive(Clone, PartialEq, Eq, Debug)]
struct TNode(u8);
impl NodeData for TNode {
    type Kind = u8;

    fn spec_kind(&self) -> Self::Kind {
        self.kind()
    }
    fn kind(&self) -> u8 {
        self.0
    }
}

#[derive(Clone, PartialEq, Eq, Debug)]
struct TEdge(u8);
impl EdgeData for TEdge {
    type Kind = u8;

    fn spec_kind(&self) -> Self::Kind {
        self.kind()
    }
    fn kind(&self) -> u8 {
        self.0
    }
}

#[test]
fn single_node_match() {
    // 5-node graph with kinds [1, 2, 1, 1, 3]
    let mut g = Graph::<TNode, TEdge>::new();
    g.add_node(TNode(1));
    g.add_node(TNode(2));
    g.add_node(TNode(1));
    g.add_node(TNode(1));
    g.add_node(TNode(3));

    // Pattern: single node of kind 1
    let mut p = Pattern::new();
    p.add_node(1u8);

    let matches = find_matches(&g, &p);
    assert_eq!(matches.len(), 3, "Should find 3 nodes of kind 1");
}

#[test]
fn two_connected_nodes_match() {
    // Graph: 0(1) -> 1(2), 2(1) -> 3(2), 4(1) (no outgoing)
    let mut g = Graph::<TNode, TEdge>::new();
    let n0 = g.add_node(TNode(1));
    let n1 = g.add_node(TNode(2));
    let n2 = g.add_node(TNode(1));
    let n3 = g.add_node(TNode(2));
    g.add_node(TNode(1)); // n4, no edges

    g.add_edge(n0, n1, TEdge(10));
    g.add_edge(n2, n3, TEdge(10));

    // Pattern: node(1) -> node(2) with edge kind 10
    let mut p = Pattern::new();
    let pa = p.add_node(1u8);
    let pb = p.add_node(2u8);
    p.add_edge(pa, pb, 10u8);

    let matches = find_matches(&g, &p);
    assert_eq!(matches.len(), 2, "Should find 2 matching edges");
}

#[test]
fn triangle_match() {
    // Graph: triangle 0->1->2->0, all kind 1, edge kind 5
    let mut g = Graph::<TNode, TEdge>::new();
    let n0 = g.add_node(TNode(1));
    let n1 = g.add_node(TNode(1));
    let n2 = g.add_node(TNode(1));
    g.add_edge(n0, n1, TEdge(5));
    g.add_edge(n1, n2, TEdge(5));
    g.add_edge(n2, n0, TEdge(5));

    // Pattern: triangle a->b->c->a
    let mut p = Pattern::new();
    let pa = p.add_node(1u8);
    let pb = p.add_node(1u8);
    let pc = p.add_node(1u8);
    p.add_edge(pa, pb, 5u8);
    p.add_edge(pb, pc, 5u8);
    p.add_edge(pc, pa, 5u8);

    let matches = find_matches(&g, &p);
    // 3 rotations of the triangle
    assert_eq!(matches.len(), 3, "Should find 3 rotations of the triangle");
}

#[test]
fn no_match_returns_empty() {
    let mut g = Graph::<TNode, TEdge>::new();
    g.add_node(TNode(1));
    g.add_node(TNode(2));

    // Pattern: node of kind 99 (doesn't exist)
    let mut p = Pattern::new();
    p.add_node(99u8);

    let matches = find_matches(&g, &p);
    assert!(matches.is_empty(), "Should find no matches");
}

#[test]
fn matches_come_in_lexicographic_order() {
    let mut g = Graph::<TNode, TEdge>::new();
    let n0 = g.add_node(TNode(1));
    let n1 = g.add_node(TNode(1));
    let n2 = g.add_node(TNode(2));
    g.add_edge(n1, n2, TEdge(0));
    g.add_edge(n0, n2, TEdge(0));
    let mut p = Pattern::new();
    let a = p.add_node(1u8);
    let b = p.add_node(2u8);
    p.add_edge(a, b, 0u8);
    let maps: Vec<Vec<NodeId>> = find_matches(&g, &p).into_iter().map(|m| m.node_map).collect();
    assert_eq!(maps, vec![vec![n0, n2], vec![n1, n2]]);
}

#[test]
fn matches_are_injective_and_respect_edge_kinds() {
    // Two kind-1 nodes joined both ways; the pattern asks for two distinct nodes.
    let mut g = Graph::<TNode, TEdge>::new();
    let n0 = g.add_node(TNode(1));
    let n1 = g.add_node(TNode(1));
    g.add_edge(n0, n1, TEdge(3));
    g.add_edge(n1, n0, TEdge(4));
    let mut p = Pattern::new();
    let a = p.add_node(1u8);
    let b = p.add_node(1u8);
    p.add_edge(a, b, 3u8);
    let maps: Vec<Vec<NodeId>> = find_matches(&g, &p).into_iter().map(|m| m.node_map).collect();
    assert_eq!(maps, vec![vec![n0, n1]]);

    // A single node never maps twice.
    let mut g1 = Graph::<TNode, TEdge>::new();
    g1.add_node(TNode(1));
    let mut p1 = Pattern::new();
    p1.add_node(1u8);
    p1.add_node(1u8);
    assert!(find_matches(&g1, &p1).is_empty());
}

#[test]
fn removed_nodes_do_not_match() {
    let mut g = Graph::<TNode, TEdge>::new();
    let n0 = g.add_node(TNode(1));
    let n1 = g.add_node(TNode(1));
    g.remove_node(n0);
    let mut p = Pattern::new();
    p.add_node(1u8);
    let maps: Vec<Vec<NodeId>> = find_matches(&g, &p).into_iter().map(|m| m.node_map).collect();
    assert_eq!(maps, vec![vec![n1]]);
}

#[test]
fn empty_pattern_matches_once() {
    let g = Graph::<TNode, TEdge>::new();
    let p: Pattern<u8, u8> = Pattern::new();
    let ms = find_matches(&g, &p);
    assert_eq!(ms.len(), 1);
    assert!(ms[0].node_map.is_empty());
}

#[test]
fn single_node_pattern_matches_every_node_of_its_kind() {
    let mut g = Graph::<TNode, TEdge>::new();
    let ids: Vec<NodeId> = [1u8, 2, 1, 1, 3].iter().map(|k| g.add_node(TNode(*k))).collect();
    let mut p = Pattern::new();
    p.add_node(1u8);
    let found: Vec<Vec<NodeId>> = find_matches(&g, &p).into_iter().map(|m| m.node_map).collect();
    assert_eq!(found, vec![vec![ids[0]], vec![ids[2]], vec![ids[3]]]);
}
