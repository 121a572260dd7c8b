//! Graph storage: nodes, edges, removal and ids.

use grammex::graph::{EdgeId, Graph, NodeId};
use grammex::{EdgeData, NodeData};

#[derive(Clone, PartialEq, Eq, Debug)]
struct TestNode(u8);
impl NodeData for TestNode {
    type Kind = u8;

    fn spec_kind(&self) -> Self::Kind {
        self.kind()
    }
    fn kind(&self) -> u8 {
        self.0
    }
}

#[derive(Clone, PartialEq, Eq, Debug)]
struct TestEdge(u8);
impl EdgeData for TestEdge {
    type Kind = u8;

    fn spec_kind(&self) -> Self::Kind {
        self.kind()
    }
    fn kind(&self) -> u8 {
        self.0
    }
}

#[test]
fn add_and_query_nodes() {
    let mut g = Graph::<TestNode, TestEdge>::new();
    let a = g.add_node(TestNode(1));
    let b = g.add_node(TestNode(2));
    assert_eq!(g.node_count(), 2);
    assert_eq!(g.node(a).unwrap().0, 1);
    assert_eq!(g.node(b).unwrap().0, 2);
}

#[test]
fn add_and_query_edges() {
    let mut g = Graph::<TestNode, TestEdge>::new();
    let a = g.add_node(TestNode(1));
    let b = g.add_node(TestNode(2));
    let e = g.add_edge(a, b, TestEdge(10));
    assert_eq!(g.edge_count(), 1);
    assert_eq!(g.edge(e).unwrap().0, 10);
    assert_eq!(g.edge_endpoints(e), Some((a, b)));
    assert_eq!(g.outgoing(a).len(), 1);
    assert_eq!(g.incoming(b).len(), 1);
}

#[test]
fn remove_node_removes_edges() {
    let mut g = Graph::<TestNode, TestEdge>::new();
    let a = g.add_node(TestNode(1));
    let b = g.add_node(TestNode(2));
    g.add_edge(a, b, TestEdge(10));
    g.remove_node(a);
    assert_eq!(g.node_count(), 1);
    assert_eq!(g.edge_count(), 0);
    assert!(g.node(a).is_none());
}

#[test]
fn node_ids_iteration() {
    let mut g = Graph::<TestNode, TestEdge>::new();
    g.add_node(TestNode(1));
    let b = g.add_node(TestNode(2));
    g.add_node(TestNode(3));
    g.remove_node(b);
    let ids: Vec<NodeId> = g.node_ids();
    assert_eq!(ids.len(), 2);
}

#[test]
fn ids_are_slot_positions_and_never_reused() {
    let mut g = Graph::<TestNode, TestEdge>::new();
    let a = g.add_node(TestNode(1));
    let b = g.add_node(TestNode(2));
    assert_eq!(a, NodeId(0));
    assert_eq!(b, NodeId(1));
    g.remove_node(a);
    let c = g.add_node(TestNode(3));
    assert_eq!(c, NodeId(2));
    assert_eq!(g.node_ids(), vec![NodeId(1), NodeId(2)]);
    let e0 = g.add_edge(b, c, TestEdge(1));
    g.remove_edge(e0);
    let e1 = g.add_edge(c, b, TestEdge(2));
    assert_eq!(e0, EdgeId(0));
    assert_eq!(e1, EdgeId(1));
    assert_eq!(g.edge_ids(), vec![EdgeId(1)]);
}

#[test]
fn remove_edge_updates_adjacency() {
    let mut g = Graph::<TestNode, TestEdge>::new();
    let a = g.add_node(TestNode(1));
    let b = g.add_node(TestNode(2));
    let e0 = g.add_edge(a, b, TestEdge(1));
    let e1 = g.add_edge(a, b, TestEdge(2));
    g.remove_edge(e0);
    assert_eq!(g.outgoing(a), &[e1][..]);
    assert_eq!(g.incoming(b), &[e1][..]);
    assert!(g.edge(e0).is_none());
    assert_eq!(g.edge_endpoints(e0), None);
    assert_eq!(g.edge_count(), 1);
    // Removing it again changes nothing.
    g.remove_edge(e0);
    assert_eq!(g.edge_count(), 1);
}

#[test]
fn remove_node_keeps_other_edges() {
    let mut g = Graph::<TestNode, TestEdge>::new();
    let a = g.add_node(TestNode(1));
    let b = g.add_node(TestNode(2));
    let c = g.add_node(TestNode(3));
    let ab = g.add_edge(a, b, TestEdge(1));
    let bc = g.add_edge(b, c, TestEdge(2));
    let ca = g.add_edge(c, a, TestEdge(3));
    g.remove_node(b);
    assert_eq!(g.edge_ids(), vec![ca]);
    assert!(g.edge(ab).is_none());
    assert!(g.edge(bc).is_none());
    assert_eq!(g.outgoing(c), &[ca][..]);
    assert_eq!(g.incoming(a), &[ca][..]);
    assert!(g.outgoing(b).is_empty());
    // Removing a removed node changes nothing.
    g.remove_node(b);
    assert_eq!(g.node_count(), 2);
}

#[test]
fn self_loop_is_both_outgoing_and_incoming() {
    let mut g = Graph::<TestNode, TestEdge>::new();
    let a = g.add_node(TestNode(1));
    let e = g.add_edge(a, a, TestEdge(7));
    assert_eq!(g.outgoing(a), &[e][..]);
    assert_eq!(g.incoming(a), &[e][..]);
    g.remove_node(a);
    assert_eq!(g.edge_count(), 0);
    assert_eq!(g.node_count(), 0);
}

#[test]
fn set_node_data_and_node_mut() {
    let mut g = Graph::<TestNode, TestEdge>::new();
    let a = g.add_node(TestNode(1));
    g.set_node_data(a, TestNode(9));
    assert_eq!(g.node(a), Some(&TestNode(9)));
    if let Some(d) = g.node_mut(a) {
        *d = TestNode(4);
    }
    assert_eq!(g.node(a).unwrap().kind(), 4);
    g.remove_node(a);
    g.set_node_data(a, TestNode(5));
    assert!(g.node(a).is_none());
    assert!(g.node_mut(NodeId(17)).is_none());
}

#[test]
fn clone_keeps_ids_and_data() {
    let mut g = Graph::<TestNode, TestEdge>::new();
    let a = g.add_node(TestNode(1));
    let b = g.add_node(TestNode(2));
    let e = g.add_edge(a, b, TestEdge(3));
    g.remove_node(a);
    let c = g.add_node(TestNode(5));
    let f = g.add_edge(b, c, TestEdge(6));
    let h = g.clone();
    assert_eq!(h.node_ids(), g.node_ids());
    assert_eq!(h.edge_ids(), vec![f]);
    assert!(h.edge(e).is_none());
    assert_eq!(h.node(c), Some(&TestNode(5)));
    assert_eq!(h.edge_endpoints(f), Some((b, c)));
    assert_eq!(h.outgoing(b), g.outgoing(b));
    let d: Graph<TestNode, TestEdge> = Graph::default();
    assert_eq!(d.node_count(), 0);
}

#[test]
fn queries_on_unknown_ids() {
    let g = Graph::<TestNode, TestEdge>::new();
    assert!(g.node(NodeId(3)).is_none());
    assert!(g.edge(EdgeId(3)).is_none());
    assert_eq!(g.edge_endpoints(EdgeId(0)), None);
    assert!(g.outgoing(NodeId(0)).is_empty());
    assert!(g.incoming(NodeId(0)).is_empty());
    assert!(g.node_ids().is_empty());
}
