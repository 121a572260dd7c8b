//! Core graph rewriting engine.

use vstd::prelude::*;
use vstd::laws_eq::obeys_concrete_eq;
use crate::graph::{Graph, GraphKinds, GraphView, NodeId, EdgeId, EdgeView, edges_in_upto, edges_out_upto, node_kinds, edge_kinds, is_clone_of, lemma_seq_push_contains};
use crate::node::NodeData;
use crate::edge::EdgeData;
use crate::rule::{Rule, Replacement, ReplacementNode, ReplacementAction, Reconnection};
use crate::pattern::{
    Match, LocalId, contains_node, copy_node_ids, find_matches_in, lists_all_matches, maps_of, is_match, position_ok,
};
use crate::strategy::{
    RandomSource, select_match, find_non_overlapping, weight_total, picked_by, greedy_picks,
    candidate_maps, selected_at, lemma_greedy_picks, lemma_weight_total_nonneg, overlaps,
};
use crate::constraint::StructuralConstraint;
use crate::config::{RewriterConfig, SelectionStrategy, ApplicationMode};
use crate::observer::{RewriteObserver, NoOpRewriteObserver};
use crate::error::RewriteError;

verus! {

// ----- what applying a rule does to a graph -----

/// Number of new nodes (those not taken from the match) among `nodes`.
pub open spec fn new_node_count<N: NodeData>(nodes: Seq<ReplacementNode<N>>) -> nat
    decreases nodes.len(),
{
    if nodes.len() == 0 {
        0
    } else {
        new_node_count(nodes.drop_last()) + if nodes.last().from_lhs is None {
            1nat
        } else {
            0nat
        }
    }
}

/// The graph node each replacement node stands for when the graph had
/// `base` node slots before: its matched node, unless it is removed
/// (`None`); for a new node, the next fresh slot.
pub open spec fn placed_ids<N: NodeData>(
    base: nat,
    nodes: Seq<ReplacementNode<N>>,
    m: Seq<NodeId>,
) -> Seq<Option<NodeId>>
    decreases nodes.len(),
{
    if nodes.len() == 0 {
        Seq::empty()
    } else {
        let prev = placed_ids(base, nodes.drop_last(), m);
        let rn = nodes.last();
        prev.push(
            match rn.from_lhs {
                Some(l) => if rn.action is Remove {
                    None
                } else {
                    Some(m[l.0 as int])
                },
                None => Some(NodeId((base + new_node_count(nodes.drop_last())) as usize)),
            },
        )
    }
}

/// The graph after the replacement nodes are put in place, one after
/// another: a `Replace` overwrites the data of its matched node, a new node
/// takes a fresh slot. `nd[j]` is the data replacement node `j` brings.
pub open spec fn place_nodes<N: NodeData, E>(
    g: GraphView<N, E>,
    nodes: Seq<ReplacementNode<N>>,
    m: Seq<NodeId>,
    nd: Seq<N>,
) -> GraphView<N, E>
    decreases nodes.len(),
{
    if nodes.len() == 0 {
        g
    } else {
        let g1 = place_nodes(g, nodes.drop_last(), m, nd.drop_last());
        let rn = nodes.last();
        match rn.from_lhs {
            Some(l) => match rn.action {
                ReplacementAction::Replace(_) => g1.set_node_data(m[l.0 as int].0 as int, nd.last()),
                _ => g1,
            },
            None => g1.add_node(nd.last()),
        }
    }
}

/// Both ends of a replacement edge stand for graph nodes.
pub open spec fn edge_placed<E>(ids: Seq<Option<NodeId>>, edge: (LocalId, LocalId, E)) -> bool {
    ids[edge.0.0 as int] is Some && ids[edge.1.0 as int] is Some
}

/// The graph after adding, in order, the replacement edges whose ends are
/// placed; `ed[j]` is the data edge `j` brings.
pub open spec fn place_edges<N, E>(
    g: GraphView<N, E>,
    edges: Seq<(LocalId, LocalId, E)>,
    ids: Seq<Option<NodeId>>,
    ed: Seq<E>,
) -> GraphView<N, E>
    decreases edges.len(),
{
    if edges.len() == 0 {
        g
    } else {
        let g1 = place_edges(g, edges.drop_last(), ids, ed.drop_last());
        let e = edges.last();
        if edge_placed(ids, e) {
            g1.add_edge(ids[e.0.0 as int]->0, ids[e.1.0 as int]->0, ed.last())
        } else {
            g1
        }
    }
}

/// The graph after moving, one after another, each live edge of `list`
/// whose source is outside `matched` so that it ends at `new`: the edge is
/// removed and a new edge with its data is added.
pub open spec fn redirect_in<N, E>(
    g: GraphView<N, E>,
    list: Seq<EdgeId>,
    new: NodeId,
    matched: Seq<NodeId>,
) -> GraphView<N, E>
    decreases list.len(),
{
    if list.len() == 0 {
        g
    } else {
        let g1 = redirect_in(g, list.drop_last(), new, matched);
        let e = list.last().0 as int;
        if g1.edge_live(e) && !matched.contains(g1.edge_at(e).source) {
            g1.remove_edge(e).add_edge(g1.edge_at(e).source, new, g1.edge_at(e).data)
        } else {
            g1
        }
    }
}

/// The graph after moving, one after another, each live edge of `list`
/// whose target is outside `matched` so that it starts at `new`.
pub open spec fn redirect_out<N, E>(
    g: GraphView<N, E>,
    list: Seq<EdgeId>,
    new: NodeId,
    matched: Seq<NodeId>,
) -> GraphView<N, E>
    decreases list.len(),
{
    if list.len() == 0 {
        g
    } else {
        let g1 = redirect_out(g, list.drop_last(), new, matched);
        let e = list.last().0 as int;
        if g1.edge_live(e) && !matched.contains(g1.edge_at(e).target) {
            g1.remove_edge(e).add_edge(new, g1.edge_at(e).target, g1.edge_at(e).data)
        } else {
            g1
        }
    }
}

/// The external edges of `old` moved to `new`: first the incoming ones, as
/// listed before any moves, then the outgoing ones, as listed after the
/// incoming ones moved. Nothing happens when `old` is `new`.
pub open spec fn redirect<N, E>(
    g: GraphView<N, E>,
    old: NodeId,
    new: NodeId,
    matched: Seq<NodeId>,
) -> GraphView<N, E> {
    if old == new {
        g
    } else {
        let g1 = redirect_in(g, g.in_edges(old), new, matched);
        redirect_out(g1, g1.out_edges(old), new, matched)
    }
}

/// Edge `e` of `g` is one that moving the edges of `list` into `new` moves:
/// it is listed, live, and its source lies outside `matched`.
pub open spec fn moved_in<N, E>(g: GraphView<N, E>, list: Seq<EdgeId>, matched: Seq<NodeId>, e: int) -> bool {
    list.contains(EdgeId(e as usize)) && g.edge_live(e) && !matched.contains(g.edge_at(e).source)
}

/// Edge `e` of `g` is one that moving the edges of `list` out of `new`
/// moves: it is listed, live, and its target lies outside `matched`.
pub open spec fn moved_out<N, E>(g: GraphView<N, E>, list: Seq<EdgeId>, matched: Seq<NodeId>, e: int) -> bool {
    list.contains(EdgeId(e as usize)) && g.edge_live(e) && !matched.contains(g.edge_at(e).target)
}

/// What `redirect_in` does: each moved edge is gone from its slot and a new
/// slot holds an edge from its source to `new` with its data; every other
/// slot is as it was, and every new slot holds such a moved edge.
proof fn lemma_redirect_in_effect<N, E>(g: GraphView<N, E>, list: Seq<EdgeId>, new: NodeId, matched: Seq<NodeId>)
    requires
        forall|t: int| 0 <= t < list.len() ==> (#[trigger] list[t]).0 < g.edges.len(),
        g.edges.len() <= usize::MAX,
    ensures
        redirect_in(g, list, new, matched).nodes == g.nodes,
        redirect_in(g, list, new, matched).edges.len() >= g.edges.len(),
        redirect_in(g, list, new, matched).edges.len() <= g.edges.len() + list.len(),
        forall|e: int|
            0 <= e < g.edges.len() ==> #[trigger] redirect_in(g, list, new, matched).edges[e] == if moved_in(
                g,
                list,
                matched,
                e,
            ) {
                None
            } else {
                g.edges[e]
            },
        forall|e: int|
            0 <= e < g.edges.len() && #[trigger] moved_in(g, list, matched, e) ==> exists|e2: int|
                g.edges.len() <= e2 < redirect_in(g, list, new, matched).edges.len() && #[trigger] redirect_in(
                    g,
                    list,
                    new,
                    matched,
                ).edges[e2] == Some(
                    EdgeView { source: g.edge_at(e).source, target: new, data: g.edge_at(e).data },
                ),
        forall|e2: int|
            g.edges.len() <= e2 < redirect_in(g, list, new, matched).edges.len() ==> #[trigger] redirect_in(
                g,
                list,
                new,
                matched,
            ).edges[e2] is Some && redirect_in(g, list, new, matched).edges[e2]->0.target == new && !matched.contains(
                redirect_in(g, list, new, matched).edges[e2]->0.source,
            ),
    decreases list.len(),
{
    let h = redirect_in(g, list, new, matched);
    if list.len() > 0 {
        let prev = list.drop_last();
        lemma_redirect_in_effect(g, prev, new, matched);
        let h1 = redirect_in(g, prev, new, matched);
        let x = list.last().0 as int;
        assert(x < g.edges.len());
        assert forall|e: int| 0 <= e < g.edges.len() implies moved_in(g, list, matched, e) == (moved_in(
            g,
            prev,
            matched,
            e,
        ) || (e == x && g.edge_live(e) && !matched.contains(g.edge_at(e).source))) by {
            assert(list =~= prev.push(list.last()));
            if list.contains(EdgeId(e as usize)) {
                let t = choose|t: int| 0 <= t < list.len() && list[t] == EdgeId(e as usize);
                if t < prev.len() {
                    assert(prev[t] == list[t]);
                } else {
                    assert(list[t].0 == e);
                }
            }
            if prev.contains(EdgeId(e as usize)) {
                let t = choose|t: int| 0 <= t < prev.len() && prev[t] == EdgeId(e as usize);
                assert(list[t] == prev[t]);
            }
            if e == x {
                assert(list[list.len() - 1] == EdgeId(e as usize));
            }
        }
        if h1.edge_live(x) && !matched.contains(h1.edge_at(x).source) {
            assert(h1.edges[x] == g.edges[x]);
            let moved = EdgeView { source: h1.edge_at(x).source, target: new, data: h1.edge_at(x).data };
            assert(h == h1.remove_edge(x).add_edge(h1.edge_at(x).source, new, h1.edge_at(x).data));
            assert(h.edges.len() == h1.edges.len() + 1);
            assert(h.edges[h1.edges.len() as int] == Some(moved));
            assert forall|e: int|
                0 <= e < g.edges.len() && #[trigger] moved_in(g, list, matched, e) implies exists|e2: int|
                    g.edges.len() <= e2 < h.edges.len() && #[trigger] h.edges[e2] == Some(
                        EdgeView { source: g.edge_at(e).source, target: new, data: g.edge_at(e).data },
                    ) by {
                if moved_in(g, prev, matched, e) {
                    let e2 = choose|e2: int|
                        g.edges.len() <= e2 < h1.edges.len() && #[trigger] h1.edges[e2] == Some(
                            EdgeView { source: g.edge_at(e).source, target: new, data: g.edge_at(e).data },
                        );
                    assert(h.edges[e2] == h1.edges[e2]);
                } else {
                    assert(e == x);
                    assert(h.edges[h1.edges.len() as int] == Some(moved));
                }
            }
        } else {
            assert(h == h1);
            assert forall|e: int|
                0 <= e < g.edges.len() && #[trigger] moved_in(g, list, matched, e) implies exists|e2: int|
                    g.edges.len() <= e2 < h.edges.len() && #[trigger] h.edges[e2] == Some(
                        EdgeView { source: g.edge_at(e).source, target: new, data: g.edge_at(e).data },
                    ) by {
                if !moved_in(g, prev, matched, e) {
                    assert(e == x);
                    assert(h1.edges[x] == g.edges[x] || moved_in(g, prev, matched, x));
                }
            }
        }
    }
}

/// What `redirect_out` does: each moved edge is gone from its slot and a new
/// slot holds an edge from `new` to its target with its data; every other
/// slot is as it was, and every new slot holds such a moved edge.
proof fn lemma_redirect_out_effect<N, E>(g: GraphView<N, E>, list: Seq<EdgeId>, new: NodeId, matched: Seq<NodeId>)
    requires
        forall|t: int| 0 <= t < list.len() ==> (#[trigger] list[t]).0 < g.edges.len(),
        g.edges.len() <= usize::MAX,
    ensures
        redirect_out(g, list, new, matched).nodes == g.nodes,
        redirect_out(g, list, new, matched).edges.len() >= g.edges.len(),
        redirect_out(g, list, new, matched).edges.len() <= g.edges.len() + list.len(),
        forall|e: int|
            0 <= e < g.edges.len() ==> #[trigger] redirect_out(g, list, new, matched).edges[e] == if moved_out(
                g,
                list,
                matched,
                e,
            ) {
                None
            } else {
                g.edges[e]
            },
        forall|e: int|
            0 <= e < g.edges.len() && #[trigger] moved_out(g, list, matched, e) ==> exists|e2: int|
                g.edges.len() <= e2 < redirect_out(g, list, new, matched).edges.len() && #[trigger] redirect_out(
                    g,
                    list,
                    new,
                    matched,
                ).edges[e2] == Some(
                    EdgeView { source: new, target: g.edge_at(e).target, data: g.edge_at(e).data },
                ),
        forall|e2: int|
            g.edges.len() <= e2 < redirect_out(g, list, new, matched).edges.len() ==> #[trigger] redirect_out(
                g,
                list,
                new,
                matched,
            ).edges[e2] is Some && redirect_out(g, list, new, matched).edges[e2]->0.source == new && !matched.contains(
                redirect_out(g, list, new, matched).edges[e2]->0.target,
            ),
    decreases list.len(),
{
    let h = redirect_out(g, list, new, matched);
    if list.len() > 0 {
        let prev = list.drop_last();
        lemma_redirect_out_effect(g, prev, new, matched);
        let h1 = redirect_out(g, prev, new, matched);
        let x = list.last().0 as int;
        assert(x < g.edges.len());
        assert forall|e: int| 0 <= e < g.edges.len() implies moved_out(g, list, matched, e) == (moved_out(
            g,
            prev,
            matched,
            e,
        ) || (e == x && g.edge_live(e) && !matched.contains(g.edge_at(e).target))) by {
            assert(list =~= prev.push(list.last()));
            if list.contains(EdgeId(e as usize)) {
                let t = choose|t: int| 0 <= t < list.len() && list[t] == EdgeId(e as usize);
                if t < prev.len() {
                    assert(prev[t] == list[t]);
                } else {
                    assert(list[t].0 == e);
                }
            }
            if prev.contains(EdgeId(e as usize)) {
                let t = choose|t: int| 0 <= t < prev.len() && prev[t] == EdgeId(e as usize);
                assert(list[t] == prev[t]);
            }
            if e == x {
                assert(list[list.len() - 1] == EdgeId(e as usize));
            }
        }
        if h1.edge_live(x) && !matched.contains(h1.edge_at(x).target) {
            assert(h1.edges[x] == g.edges[x]);
            let moved = EdgeView { source: new, target: h1.edge_at(x).target, data: h1.edge_at(x).data };
            assert(h == h1.remove_edge(x).add_edge(new, h1.edge_at(x).target, h1.edge_at(x).data));
            assert(h.edges.len() == h1.edges.len() + 1);
            assert(h.edges[h1.edges.len() as int] == Some(moved));
            assert forall|e: int|
                0 <= e < g.edges.len() && #[trigger] moved_out(g, list, matched, e) implies exists|e2: int|
                    g.edges.len() <= e2 < h.edges.len() && #[trigger] h.edges[e2] == Some(
                        EdgeView { source: new, target: g.edge_at(e).target, data: g.edge_at(e).data },
                    ) by {
                if moved_out(g, prev, matched, e) {
                    let e2 = choose|e2: int|
                        g.edges.len() <= e2 < h1.edges.len() && #[trigger] h1.edges[e2] == Some(
                            EdgeView { source: new, target: g.edge_at(e).target, data: g.edge_at(e).data },
                        );
                    assert(h.edges[e2] == h1.edges[e2]);
                } else {
                    assert(e == x);
                    assert(h.edges[h1.edges.len() as int] == Some(moved));
                }
            }
        } else {
            assert(h == h1);
            assert forall|e: int|
                0 <= e < g.edges.len() && #[trigger] moved_out(g, list, matched, e) implies exists|e2: int|
                    g.edges.len() <= e2 < h.edges.len() && #[trigger] h.edges[e2] == Some(
                        EdgeView { source: new, target: g.edge_at(e).target, data: g.edge_at(e).data },
                    ) by {
                if !moved_out(g, prev, matched, e) {
                    assert(e == x);
                    assert(h1.edges[x] == g.edges[x] || moved_out(g, prev, matched, x));
                }
            }
        }
    }
}

/// Listing the edges of the first `k` slots into or out of a node lists at
/// most `k` of them.
proof fn lemma_upto_len<E>(edges: Seq<Option<EdgeView<E>>>, n: NodeId, k: nat)
    ensures
        edges_in_upto(edges, n, k).len() <= k,
        edges_out_upto(edges, n, k).len() <= k,
    decreases k,
{
    if k > 0 {
        lemma_upto_len(edges, n, (k - 1) as nat);
    }
}

/// Reconnecting `old` to `new` moves every edge between `old` and a node
/// outside the match: an edge into `old` from outside now ends at `new`, an
/// edge out of `old` to outside now starts at `new`, each with its data,
/// whether or not `new` is itself matched. Every other edge stays in its
/// slot, and no edge between `old` and the outside is left.
pub proof fn lemma_redirect_moves_external_edges<N, E>(
    g: GraphView<N, E>,
    old: NodeId,
    new: NodeId,
    matched: Seq<NodeId>,
)
    requires
        old != new,
        g.node_live(old.0 as int),
        matched.contains(old),
        g.edges.len() + g.edges.len() <= usize::MAX,
    ensures
        redirect(g, old, new, matched).nodes == g.nodes,
        forall|e: int|
            0 <= e < g.edges.len() && g.edge_live(e) && g.edge_at(e).target == old && !matched.contains(
                g.edge_at(e).source,
            ) ==> !#[trigger] redirect(g, old, new, matched).edge_live(e) && exists|e2: int|
                g.edges.len() <= e2 < redirect(g, old, new, matched).edges.len() && #[trigger] redirect(
                    g,
                    old,
                    new,
                    matched,
                ).edges[e2] == Some(EdgeView { source: g.edge_at(e).source, target: new, data: g.edge_at(e).data }),
        forall|e: int|
            0 <= e < g.edges.len() && g.edge_live(e) && g.edge_at(e).source == old && !matched.contains(
                g.edge_at(e).target,
            ) ==> !#[trigger] redirect(g, old, new, matched).edge_live(e) && exists|e2: int|
                g.edges.len() <= e2 < redirect(g, old, new, matched).edges.len() && #[trigger] redirect(
                    g,
                    old,
                    new,
                    matched,
                ).edges[e2] == Some(EdgeView { source: new, target: g.edge_at(e).target, data: g.edge_at(e).data }),
        forall|e: int|
            0 <= e < g.edges.len() && !(g.edge_live(e) && g.edge_at(e).target == old && !matched.contains(
                g.edge_at(e).source,
            )) && !(g.edge_live(e) && g.edge_at(e).source == old && !matched.contains(g.edge_at(e).target))
                ==> #[trigger] redirect(g, old, new, matched).edges[e] == g.edges[e],
        forall|e: int|
            #[trigger] redirect(g, old, new, matched).edge_live(e) ==> !(redirect(g, old, new, matched).edge_at(
                e,
            ).target == old && !matched.contains(redirect(g, old, new, matched).edge_at(e).source)) && !(redirect(
                g,
                old,
                new,
                matched,
            ).edge_at(e).source == old && !matched.contains(redirect(g, old, new, matched).edge_at(e).target)),
{
    let h = redirect(g, old, new, matched);
    let l1 = g.in_edges(old);
    lemma_upto_len(g.edges, old, g.edges.len());
    assert forall|t: int| 0 <= t < l1.len() implies (#[trigger] l1[t]).0 < g.edges.len() by {
        g.lemma_upto_contains(old, g.edges.len(), l1[t]);
        assert(l1.contains(l1[t]));
    }
    lemma_redirect_in_effect(g, l1, new, matched);
    let g1 = redirect_in(g, l1, new, matched);
    assert forall|e: int| 0 <= e < g.edges.len() implies moved_in(g, l1, matched, e) == (g.edge_live(e)
        && g.edge_at(e).target == old && !matched.contains(g.edge_at(e).source)) by {
        g.lemma_upto_contains(old, g.edges.len(), EdgeId(e as usize));
    }
    let l2 = g1.out_edges(old);
    assert(g1.node_live(old.0 as int));
    lemma_upto_len(g1.edges, old, g1.edges.len());
    assert forall|t: int| 0 <= t < l2.len() implies (#[trigger] l2[t]).0 < g1.edges.len() by {
        g1.lemma_upto_contains(old, g1.edges.len(), l2[t]);
        assert(l2.contains(l2[t]));
    }
    lemma_redirect_out_effect(g1, l2, new, matched);
    assert(h == redirect_out(g1, l2, new, matched));
    assert forall|e: int| 0 <= e < g1.edges.len() implies moved_out(g1, l2, matched, e) == (g1.edge_live(e)
        && g1.edge_at(e).source == old && !matched.contains(g1.edge_at(e).target)) by {
        g1.lemma_upto_contains(old, g1.edges.len(), EdgeId(e as usize));
    }
    // The edges moved in have left their slots and now end at `new`; those
    // appended do not start at `old`, which is matched.
    assert forall|e: int|
        0 <= e < g.edges.len() && g.edge_live(e) && g.edge_at(e).target == old && !matched.contains(
            g.edge_at(e).source,
        ) implies !#[trigger] h.edge_live(e) && exists|e2: int|
            g.edges.len() <= e2 < h.edges.len() && #[trigger] h.edges[e2] == Some(
                EdgeView { source: g.edge_at(e).source, target: new, data: g.edge_at(e).data },
            ) by {
        assert(moved_in(g, l1, matched, e));
        assert(g1.edges[e] is None);
        assert(!moved_out(g1, l2, matched, e));
        let e2 = choose|e2: int|
            g.edges.len() <= e2 < g1.edges.len() && #[trigger] g1.edges[e2] == Some(
                EdgeView { source: g.edge_at(e).source, target: new, data: g.edge_at(e).data },
            );
        assert(g1.edges[e2] is Some && g1.edges[e2]->0.source == g.edge_at(e).source);
        assert(!moved_out(g1, l2, matched, e2));
        assert(h.edges[e2] == g1.edges[e2]);
    }
    assert forall|e: int|
        0 <= e < g.edges.len() && g.edge_live(e) && g.edge_at(e).source == old && !matched.contains(
            g.edge_at(e).target,
        ) implies !#[trigger] h.edge_live(e) && exists|e2: int|
            g.edges.len() <= e2 < h.edges.len() && #[trigger] h.edges[e2] == Some(
                EdgeView { source: new, target: g.edge_at(e).target, data: g.edge_at(e).data },
            ) by {
        assert(!moved_in(g, l1, matched, e));
        assert(g1.edges[e] == g.edges[e]);
        assert(g1.edge_live(e) && g1.edge_at(e).source == old);
        g1.lemma_upto_contains(old, g1.edges.len(), EdgeId(e as usize));
        assert(l2.contains(EdgeId(e as usize)));
        assert(moved_out(g1, l2, matched, e));
        let e2 = choose|e2: int|
            g1.edges.len() <= e2 < h.edges.len() && #[trigger] h.edges[e2] == Some(
                EdgeView { source: new, target: g1.edge_at(e).target, data: g1.edge_at(e).data },
            );
    }
    assert forall|e: int|
        0 <= e < g.edges.len() && !(g.edge_live(e) && g.edge_at(e).target == old && !matched.contains(
            g.edge_at(e).source,
        )) && !(g.edge_live(e) && g.edge_at(e).source == old && !matched.contains(g.edge_at(e).target))
            implies #[trigger] h.edges[e] == g.edges[e] by {
        assert(!moved_in(g, l1, matched, e));
        assert(g1.edges[e] == g.edges[e]);
        assert(!moved_out(g1, l2, matched, e));
    }
    assert forall|e: int| #[trigger] h.edge_live(e) implies !(h.edge_at(e).target == old && !matched.contains(
        h.edge_at(e).source,
    )) && !(h.edge_at(e).source == old && !matched.contains(h.edge_at(e).target)) by {
        if e < g.edges.len() {
            assert(!moved_out(g1, l2, matched, e));
            assert(h.edges[e] == g1.edges[e]);
            assert(!moved_in(g, l1, matched, e));
            assert(g1.edges[e] == g.edges[e]);
        } else if e < g1.edges.len() {
            assert(g1.edges[e] is Some && g1.edges[e]->0.target == new);
            assert(g1.edges[e]->0.source != old);
            assert(!moved_out(g1, l2, matched, e));
            assert(h.edges[e] == g1.edges[e]);
        } else {
            assert(h.edges[e]->0.source == new);
        }
    }
}

/// The graph after carrying out the reconnections in order; one whose
/// target is removed does nothing.
pub open spec fn reconnect<N, E>(
    g: GraphView<N, E>,
    recs: Seq<Reconnection>,
    ids: Seq<Option<NodeId>>,
    m: Seq<NodeId>,
) -> GraphView<N, E>
    decreases recs.len(),
{
    if recs.len() == 0 {
        g
    } else {
        let g1 = reconnect(g, recs.drop_last(), ids, m);
        let c = recs.last();
        match ids[c.to.0 as int] {
            Some(new) => redirect(g1, m[c.from.0 as int], new, m),
            None => g1,
        }
    }
}

/// The placed ids that are present, in order.
pub open spec fn kept_ids(ids: Seq<Option<NodeId>>) -> Seq<NodeId>
    decreases ids.len(),
{
    if ids.len() == 0 {
        Seq::empty()
    } else {
        let prev = kept_ids(ids.drop_last());
        match ids.last() {
            Some(n) => prev.push(n),
            None => prev,
        }
    }
}

/// The graph after removing, in order, each node of `list` not in `kept`.
pub open spec fn remove_unkept<N, E>(
    g: GraphView<N, E>,
    list: Seq<NodeId>,
    kept: Seq<NodeId>,
) -> GraphView<N, E>
    decreases list.len(),
{
    if list.len() == 0 {
        g
    } else {
        let g1 = remove_unkept(g, list.drop_last(), kept);
        let n = list.last();
        if kept.contains(n) {
            g1
        } else {
            g1.remove_node(n.0 as int)
        }
    }
}

/// The matched nodes that replacement nodes mark for removal, in order.
pub open spec fn removal_list<N: NodeData>(nodes: Seq<ReplacementNode<N>>, m: Seq<NodeId>) -> Seq<NodeId>
    decreases nodes.len(),
{
    if nodes.len() == 0 {
        Seq::empty()
    } else {
        let prev = removal_list(nodes.drop_last(), m);
        let rn = nodes.last();
        match rn.from_lhs {
            Some(l) => if rn.action is Remove {
                prev.push(m[l.0 as int])
            } else {
                prev
            },
            None => prev,
        }
    }
}

/// There is one placed id per replacement node.
pub proof fn lemma_placed_ids_len<N: NodeData>(base: nat, nodes: Seq<ReplacementNode<N>>, m: Seq<NodeId>)
    ensures
        placed_ids(base, nodes, m).len() == nodes.len(),
    decreases nodes.len(),
{
    if nodes.len() > 0 {
        lemma_placed_ids_len(base, nodes.drop_last(), m);
    }
}

/// The graph after applying replacement `rhs` at match `m`, where `nd` and
/// `ed` are the node and edge data the replacement brings: the edges between
/// matched nodes removed, nodes placed, the replacement's edges added,
/// reconnections carried out, then the matched nodes that no replacement
/// node keeps removed, and last the nodes marked for removal that are not
/// kept.
pub open spec fn rewritten<N: NodeData, E: EdgeData>(
    g: GraphView<N, E>,
    rhs: Replacement<N, E>,
    m: Seq<NodeId>,
    nd: Seq<N>,
    ed: Seq<E>,
) -> GraphView<N, E> {
    let ids = placed_ids(g.nodes.len(), rhs.nodes@, m);
    let g1 = place_nodes(g.without_edges_within(m), rhs.nodes@, m, nd);
    let g2 = place_edges(g1, rhs.edges@, ids, ed);
    let g3 = reconnect(g2, rhs.reconnections@, ids, m);
    let kept = kept_ids(ids);
    let g4 = remove_unkept(g3, m, kept);
    remove_unkept(g4, removal_list(rhs.nodes@, m), kept)
}

/// `nd[j]` is a clone of the data replacement node `j` carries wherever that
/// data is put into the graph: for a new node, and for a `Replace` of a live
/// matched node.
pub open spec fn node_clones<N: NodeData, E>(
    g: GraphView<N, E>,
    nodes: Seq<ReplacementNode<N>>,
    m: Seq<NodeId>,
    nd: Seq<N>,
) -> bool {
    forall|j: int|
        0 <= j < nodes.len() ==> match (#[trigger] nodes[j]).from_lhs {
            Some(l) => match nodes[j].action {
                ReplacementAction::Replace(d) => g.node_live(m[l.0 as int].0 as int) ==> cloned(
                    d,
                    nd[j],
                ),
                _ => true,
            },
            None => cloned(nodes[j].data->0, nd[j]),
        }
}

/// `ed[j]` is a clone of the data of replacement edge `j` wherever that edge
/// is added.
pub open spec fn edge_clones<E: EdgeData>(
    edges: Seq<(LocalId, LocalId, E)>,
    ids: Seq<Option<NodeId>>,
    ed: Seq<E>,
) -> bool {
    forall|j: int|
        0 <= j < edges.len() && edge_placed(ids, #[trigger] edges[j]) ==> cloned(edges[j].2, ed[j])
}

/// `h` is what applying `rhs` at match `m` makes of `g`, for the data the
/// replacement brings being clones of its own.
pub open spec fn applies<N: NodeData, E: EdgeData>(
    g: GraphView<N, E>,
    rhs: Replacement<N, E>,
    m: Seq<NodeId>,
    h: GraphView<N, E>,
) -> bool {
    exists|nd: Seq<N>, ed: Seq<E>|
        {
            &&& nd.len() == rhs.nodes@.len()
            &&& ed.len() == rhs.edges@.len()
            &&& node_clones(g, rhs.nodes@, m, nd)
            &&& edge_clones(rhs.edges@, placed_ids(g.nodes.len(), rhs.nodes@, m), ed)
            &&& h == rewritten(g, rhs, m, nd, ed)
        }
}

// ----- applying a rule -----

/// A present id names a slot below `n`.
pub open spec fn id_below(o: Option<NodeId>, n: nat) -> bool {
    match o {
        Some(x) => x.0 < n,
        None => true,
    }
}

/// Put the replacement nodes in place. Returns the graph node each
/// replacement node stands for, the matched nodes marked for removal, and
/// the data the replacement nodes brought.
#[verifier::spinoff_prover]
fn place_replacement_nodes<N: NodeData, E: EdgeData>(
    graph: &mut Graph<N, E>,
    rhs: &Replacement<N, E>,
    matched: &Vec<NodeId>,
) -> (r: (Vec<Option<NodeId>>, Vec<NodeId>, Ghost<Seq<N>>))
    requires
        old(graph).wf(),
        rhs.fits_lhs(matched@.len()),
        forall|i: int| 0 <= i < matched@.len() ==> (#[trigger] matched@[i]).0 < old(graph)@.nodes.len(),
    ensures
        final(graph).wf(),
        r.2@.len() == rhs.nodes@.len(),
        final(graph)@ == place_nodes(old(graph)@, rhs.nodes@, matched@, r.2@),
        final(graph)@.nodes.len() == old(graph)@.nodes.len() + new_node_count(rhs.nodes@),
        r.0@ == placed_ids(old(graph)@.nodes.len(), rhs.nodes@, matched@),
        r.1@ == removal_list(rhs.nodes@, matched@),
        node_clones(old(graph)@, rhs.nodes@, matched@, r.2@),
        forall|j: int|
            0 <= j < r.0@.len() ==> id_below(#[trigger] r.0@[j], final(graph)@.nodes.len()),
        forall|j: int| 0 <= j < r.1@.len() ==> (#[trigger] r.1@[j]).0 < old(graph)@.nodes.len(),
{
    let ghost g0 = graph@;
    let ghost nodes = rhs.nodes@;
    let mut ids: Vec<Option<NodeId>> = Vec::new();
    let mut to_remove: Vec<NodeId> = Vec::new();
    let ghost mut nd: Seq<N> = Seq::empty();
    proof {
        graph.lemma_wf_len();
        assert(nodes.take(0) =~= Seq::<ReplacementNode<N>>::empty());
    }
    let mut i: usize = 0;
    while i < rhs.nodes.len()
        invariant
            graph.wf(),
            nodes == rhs.nodes@,
            rhs.fits_lhs(matched@.len()),
            forall|k: int| 0 <= k < matched@.len() ==> (#[trigger] matched@[k]).0 < g0.nodes.len(),
            0 <= i <= nodes.len(),
            nd.len() == i,
            graph@ == place_nodes(g0, nodes.take(i as int), matched@, nd),
            graph@.nodes.len() == g0.nodes.len() + new_node_count(nodes.take(i as int)),
            ids@ == placed_ids(g0.nodes.len(), nodes.take(i as int), matched@),
            to_remove@ == removal_list(nodes.take(i as int), matched@),
            forall|k: int| 0 <= k < g0.nodes.len() ==> (#[trigger] graph@.nodes[k] is Some) == (g0.nodes[k] is Some),
            node_clones(g0, nodes.take(i as int), matched@, nd),
            forall|k: int|
                0 <= k < ids@.len() ==> id_below(#[trigger] ids@[k], graph@.nodes.len()),
            forall|k: int| 0 <= k < to_remove@.len() ==> (#[trigger] to_remove@[k]).0 < g0.nodes.len(),
        decreases nodes.len() - i,
    {
        let rn = &rhs.nodes[i];
        let ghost nd1 = nd;
        proof {
            graph.lemma_wf_len();
            assert(nodes.take(i + 1).drop_last() =~= nodes.take(i as int));
            assert(nodes.take(i + 1).last() == nodes[i as int]);
            assert(nodes[i as int] == *rn);
        }
        match rn.from_lhs {
            Some(l) => {
                let graph_id = matched[l.0];
                match &rn.action {
                    ReplacementAction::Keep => {
                        ids.push(Some(graph_id));
                        proof {
                            nd = nd.push(arbitrary());
                        }
                    },
                    ReplacementAction::Replace(new_data) => {
                        if graph.node(graph_id).is_some() {
                            let d = new_data.clone();
                            let ghost dv = d;
                            graph.set_node_data(graph_id, d);
                            proof {
                                nd = nd.push(dv);
                            }
                        } else {
                            proof {
                                nd = nd.push(arbitrary());
                            }
                        }
                        ids.push(Some(graph_id));
                    },
                    ReplacementAction::Remove => {
                        to_remove.push(graph_id);
                        ids.push(None);
                        proof {
                            nd = nd.push(arbitrary());
                        }
                    },
                }
            },
            None => {
                match &rn.data {
                    Some(data) => {
                        let d = data.clone();
                        let ghost dv = d;
                        let id = graph.add_node(d);
                        ids.push(Some(id));
                        proof {
                            nd = nd.push(dv);
                        }
                    },
                    None => {
                        proof {
                            assert(false);
                        }
                    },
                }
            },
        }
        proof {
            assert(nd.drop_last() =~= nd1);
            let t1 = nodes.take(i + 1);
            assert forall|j: int| 0 <= j < t1.len() implies match (#[trigger] t1[j]).from_lhs {
                Some(l) => match t1[j].action {
                    ReplacementAction::Replace(d) => g0.node_live(matched@[l.0 as int].0 as int) ==> cloned(
                        d,
                        nd[j],
                    ),
                    _ => true,
                },
                None => cloned(t1[j].data->0, nd[j]),
            } by {
                if j < i {
                    assert(t1[j] == nodes.take(i as int)[j]);
                    assert(nd[j] == nd1[j]);
                }
            }
        }
        i = i + 1;
    }
    proof {
        assert(nodes.take(nodes.len() as int) =~= nodes);
    }
    (ids, to_remove, Ghost(nd))
}

/// Add the replacement edges whose ends are both placed. Returns the data
/// the edges brought.
fn place_replacement_edges<N: NodeData, E: EdgeData>(
    graph: &mut Graph<N, E>,
    rhs: &Replacement<N, E>,
    ids: &Vec<Option<NodeId>>,
) -> (ed: Ghost<Seq<E>>)
    requires
        old(graph).wf(),
        forall|j: int|
            0 <= j < rhs.edges@.len() ==> (#[trigger] rhs.edges@[j]).0.0 < ids@.len()
                && rhs.edges@[j].1.0 < ids@.len(),
        forall|j: int| 0 <= j < ids@.len() ==> id_below(#[trigger] ids@[j], old(graph)@.nodes.len()),
    ensures
        final(graph).wf(),
        ed@.len() == rhs.edges@.len(),
        final(graph)@ == place_edges(old(graph)@, rhs.edges@, ids@, ed@),
        final(graph)@.nodes.len() == old(graph)@.nodes.len(),
        edge_clones(rhs.edges@, ids@, ed@),
{
    let ghost g0 = graph@;
    let ghost edges = rhs.edges@;
    let ghost mut ed: Seq<E> = Seq::empty();
    proof {
        assert(edges.take(0) =~= Seq::<(LocalId, LocalId, E)>::empty());
    }
    let mut i: usize = 0;
    while i < rhs.edges.len()
        invariant
            graph.wf(),
            edges == rhs.edges@,
            forall|j: int|
                0 <= j < edges.len() ==> (#[trigger] edges[j]).0.0 < ids@.len() && edges[j].1.0
                    < ids@.len(),
            forall|j: int| 0 <= j < ids@.len() ==> id_below(#[trigger] ids@[j], g0.nodes.len()),
            0 <= i <= edges.len(),
            ed.len() == i,
            graph@ == place_edges(g0, edges.take(i as int), ids@, ed),
            graph@.nodes.len() == g0.nodes.len(),
            edge_clones(edges.take(i as int), ids@, ed),
        decreases edges.len() - i,
    {
        let e = &rhs.edges[i];
        let ghost ed1 = ed;
        let ls: LocalId = e.0;
        let lt: LocalId = e.1;
        proof {
            assert(edges.take(i + 1).drop_last() =~= edges.take(i as int));
            assert(edges.take(i + 1).last() == edges[i as int]);
            assert(id_below(ids@[ls.0 as int], g0.nodes.len()));
            assert(id_below(ids@[lt.0 as int], g0.nodes.len()));
        }
        match ids[ls.0] {
            Some(s) => {
                match ids[lt.0] {
                    Some(t) => {
                        let d = e.2.clone();
                        let ghost dv = d;
                        graph.add_edge(s, t, d);
                        proof {
                            ed = ed.push(dv);
                        }
                    },
                    None => {
                        proof {
                            ed = ed.push(arbitrary());
                        }
                    },
                }
            },
            None => {
                proof {
                    ed = ed.push(arbitrary());
                }
            },
        }
        proof {
            assert(ed.drop_last() =~= ed1);
            let t1 = edges.take(i + 1);
            assert forall|j: int|
                0 <= j < t1.len() && edge_placed(ids@, #[trigger] t1[j]) implies cloned(t1[j].2, ed[j]) by {
                if j < i {
                    assert(t1[j] == edges.take(i as int)[j]);
                    assert(ed[j] == ed1[j]);
                }
            }
        }
        i = i + 1;
    }
    proof {
        assert(edges.take(edges.len() as int) =~= edges);
    }
    Ghost(ed)
}

/// A copy of a list of edge ids.
fn edge_list(s: &[EdgeId]) -> (r: Vec<EdgeId>)
    ensures
        r@ == s@,
{
    let mut r: Vec<EdgeId> = Vec::new();
    let mut i: usize = 0;
    while i < s.len()
        invariant
            0 <= i <= s@.len(),
            r@ == s@.take(i as int),
        decreases s@.len() - i,
    {
        proof {
            assert(s@.take(i + 1) =~= s@.take(i as int).push(s@[i as int]));
        }
        r.push(s[i]);
        i = i + 1;
    }
    proof {
        assert(s@.take(s@.len() as int) =~= s@);
    }
    r
}

/// Redirect external edges from old_node to new_node.
/// Only redirects edges that connect to nodes OUTSIDE the matched set.
/// A redirected edge keeps its data.
#[verifier::spinoff_prover]
fn redirect_edges<N: NodeData, E: EdgeData>(
    graph: &mut Graph<N, E>,
    old_node: NodeId,
    new_node: NodeId,
    matched: &Vec<NodeId>,
)
    requires
        old(graph).wf(),
        new_node.0 < old(graph)@.nodes.len(),
    ensures
        final(graph).wf(),
        final(graph)@ == redirect(old(graph)@, old_node, new_node, matched@),
        final(graph)@.nodes.len() == old(graph)@.nodes.len(),
{
    if old_node == new_node {
        return;
    }
    let ghost g0 = graph@;
    // Incoming edges from outside the match now end at the new node.
    let incoming = edge_list(graph.incoming(old_node));
    proof {
        graph.lemma_wf_len();
        assert(incoming@.take(0) =~= Seq::<EdgeId>::empty());
    }
    let mut i: usize = 0;
    while i < incoming.len()
        invariant
            graph.wf(),
            new_node.0 < graph@.nodes.len(),
            graph@.nodes.len() == g0.nodes.len(),
            graph@.edges.len() >= g0.edges.len(),
            g0.edges.len() <= usize::MAX,
            incoming@ == g0.in_edges(old_node),
            0 <= i <= incoming@.len(),
            graph@ == redirect_in(g0, incoming@.take(i as int), new_node, matched@),
        decreases incoming@.len() - i,
    {
        let eid = incoming[i];
        let ghost g1 = graph@;
        proof {
            assert(incoming@.take(i + 1).drop_last() =~= incoming@.take(i as int));
            assert(incoming@.take(i + 1).last() == eid);
            if g0.node_live(old_node.0 as int) {
                g0.lemma_upto_contains(old_node, g0.edges.len(), eid);
            }
            assert(incoming@.contains(eid));
        }
        match graph.edge_endpoints(eid) {
            Some((source, _)) => {
                if !contains_node(matched, source) {
                    proof {
                        assert(g1.edges[eid.0 as int] is Some);
                    }
                    let taken = graph.take_edge(eid);
                    match taken {
                        Some(d) => {
                            graph.add_edge(source, new_node, d);
                        },
                        None => {},
                    }
                }
            },
            None => {},
        }
        i = i + 1;
    }
    proof {
        assert(incoming@.take(incoming@.len() as int) =~= incoming@);
        graph.lemma_wf_len();
    }
    // Outgoing edges to outside the match now start at the new node.
    let ghost g1 = graph@;
    let outgoing = edge_list(graph.outgoing(old_node));
    proof {
        assert(outgoing@.take(0) =~= Seq::<EdgeId>::empty());
    }
    let mut i: usize = 0;
    while i < outgoing.len()
        invariant
            graph.wf(),
            new_node.0 < graph@.nodes.len(),
            graph@.nodes.len() == g0.nodes.len(),
            graph@.edges.len() >= g1.edges.len(),
            g1.edges.len() <= usize::MAX,
            outgoing@ == g1.out_edges(old_node),
            0 <= i <= outgoing@.len(),
            graph@ == redirect_out(g1, outgoing@.take(i as int), new_node, matched@),
        decreases outgoing@.len() - i,
    {
        let eid = outgoing[i];
        let ghost g2 = graph@;
        proof {
            assert(outgoing@.take(i + 1).drop_last() =~= outgoing@.take(i as int));
            assert(outgoing@.take(i + 1).last() == eid);
            if g1.node_live(old_node.0 as int) {
                g1.lemma_upto_contains(old_node, g1.edges.len(), eid);
            }
            assert(outgoing@.contains(eid));
        }
        match graph.edge_endpoints(eid) {
            Some((_, target)) => {
                if !contains_node(matched, target) {
                    proof {
                        assert(g2.edges[eid.0 as int] is Some);
                    }
                    let taken = graph.take_edge(eid);
                    match taken {
                        Some(d) => {
                            graph.add_edge(new_node, target, d);
                        },
                        None => {},
                    }
                }
            },
            None => {},
        }
        i = i + 1;
    }
    proof {
        assert(outgoing@.take(outgoing@.len() as int) =~= outgoing@);
    }
}


/// The ids that are present, in order.
fn kept_list(ids: &Vec<Option<NodeId>>) -> (r: Vec<NodeId>)
    ensures
        r@ == kept_ids(ids@),
{
    let mut r: Vec<NodeId> = Vec::new();
    let mut i: usize = 0;
    while i < ids.len()
        invariant
            0 <= i <= ids@.len(),
            r@ == kept_ids(ids@.take(i as int)),
        decreases ids@.len() - i,
    {
        proof {
            assert(ids@.take(i + 1).drop_last() =~= ids@.take(i as int));
            assert(ids@.take(i + 1).last() == ids@[i as int]);
        }
        match ids[i] {
            Some(n) => {
                r.push(n);
            },
            None => {},
        }
        i = i + 1;
    }
    proof {
        assert(ids@.take(ids@.len() as int) =~= ids@);
    }
    r
}

/// Remove, in order, each node of `list` that is not in `kept`.
fn remove_unkept_nodes<N: NodeData, E: EdgeData>(
    graph: &mut Graph<N, E>,
    list: &Vec<NodeId>,
    kept: &Vec<NodeId>,
)
    requires
        old(graph).wf(),
        forall|j: int| 0 <= j < list@.len() ==> (#[trigger] list@[j]).0 < old(graph)@.nodes.len(),
    ensures
        final(graph).wf(),
        final(graph)@ == remove_unkept(old(graph)@, list@, kept@),
        final(graph)@.nodes.len() == old(graph)@.nodes.len(),
{
    let ghost g0 = graph@;
    proof {
        assert(list@.take(0) =~= Seq::<NodeId>::empty());
    }
    let mut i: usize = 0;
    while i < list.len()
        invariant
            graph.wf(),
            forall|j: int| 0 <= j < list@.len() ==> (#[trigger] list@[j]).0 < g0.nodes.len(),
            graph@.nodes.len() == g0.nodes.len(),
            0 <= i <= list@.len(),
            graph@ == remove_unkept(g0, list@.take(i as int), kept@),
        decreases list@.len() - i,
    {
        let n = list[i];
        proof {
            assert(list@.take(i + 1).drop_last() =~= list@.take(i as int));
            assert(list@.take(i + 1).last() == n);
        }
        if !contains_node(kept, n) {
            graph.remove_node(n);
        }
        i = i + 1;
    }
    proof {
        assert(list@.take(list@.len() as int) =~= list@);
    }
}

/// Apply a single rule to the graph at the given match: put the replacement
/// nodes in place, add the replacement edges, carry out the reconnections,
/// then remove the matched nodes the replacement does not keep.
pub fn apply_rule<N: NodeData, E: EdgeData>(graph: &mut Graph<N, E>, rule: &Rule<N, E>, m: &Match)
    requires
        old(graph).wf(),
        rule.rhs.fits_lhs(m.node_map@.len()),
        forall|i: int| 0 <= i < m.node_map@.len() ==> (#[trigger] m.node_map@[i]).0 < old(graph)@.nodes.len(),
    ensures
        final(graph).wf(),
        applies(old(graph)@, rule.rhs, m.node_map@, final(graph)@),
        final(graph)@.nodes.len() == old(graph)@.nodes.len() + new_node_count(rule.rhs.nodes@),
{
    let ghost g0 = graph@;
    let matched = &m.node_map;
    let rhs = &rule.rhs;
    // 0. Edges between matched nodes are replaced by the replacement's edges.
    graph.remove_edges_within(matched);
    proof {
        assert(graph@.nodes == g0.nodes);
    }
    // 1. The replacement nodes.
    let (new_node_ids, nodes_to_remove, Ghost(nd)) = place_replacement_nodes(graph, rhs, matched);
    let ghost g1 = graph@;
    let ghost ids = new_node_ids@;
    proof {
        lemma_placed_ids_len(g0.nodes.len(), rhs.nodes@, matched@);
    }
    // 2. The replacement edges.
    let Ghost(ed) = place_replacement_edges(graph, rhs, &new_node_ids);
    let ghost g2 = graph@;
    // 3. Reconnections: redirect external edges.
    proof {
        assert(rhs.reconnections@.take(0) =~= Seq::<Reconnection>::empty());
    }
    let mut c: usize = 0;
    while c < rhs.reconnections.len()
        invariant
            graph.wf(),
            rhs.fits_lhs(matched@.len()),
            ids == new_node_ids@,
            ids.len() == rhs.nodes@.len(),
            forall|j: int| 0 <= j < ids.len() ==> id_below(#[trigger] ids[j], g1.nodes.len()),
            graph@.nodes.len() == g1.nodes.len(),
            0 <= c <= rhs.reconnections@.len(),
            graph@ == reconnect(g2, rhs.reconnections@.take(c as int), ids, matched@),
        decreases rhs.reconnections@.len() - c,
    {
        let rec = &rhs.reconnections[c];
        proof {
            assert(rhs.reconnections@.take(c + 1).drop_last() =~= rhs.reconnections@.take(c as int));
            assert(rhs.reconnections@.take(c + 1).last() == *rec);
            assert(rhs.reconnections@[c as int] == *rec);
            assert(id_below(ids[rec.to.0 as int], g1.nodes.len()));
        }
        let old_node = matched[rec.from.0];
        match new_node_ids[rec.to.0] {
            Some(new_node) => {
                redirect_edges(graph, old_node, new_node, matched);
            },
            None => {},
        }
        c = c + 1;
    }
    proof {
        assert(rhs.reconnections@.take(rhs.reconnections@.len() as int) =~= rhs.reconnections@);
    }
    // 4. Remove old matched nodes that aren't kept in the replacement,
    // then the nodes marked for removal that aren't kept.
    let kept_nodes = kept_list(&new_node_ids);
    remove_unkept_nodes(graph, matched, &kept_nodes);
    remove_unkept_nodes(graph, &nodes_to_remove, &kept_nodes);
    proof {
        assert(rewritten(g0, rule.rhs, m.node_map@, nd, ed) == graph@);
    }
}

// ----- candidates -----

/// The candidates of a step as values: rule index, node map, weight.
pub open spec fn cand_view(cands: Seq<(usize, Match, u32)>) -> Seq<(usize, Seq<NodeId>, u32)> {
    cands.map_values(|c: (usize, Match, u32)| (c.0, c.1.node_map@, c.2))
}

/// The matches of the first `k` rules, rules in order, each match tagged with
/// its rule's index and weight; `per_rule[r]` lists the matches of rule `r`.
pub open spec fn flat_candidates<N: NodeData, E: EdgeData>(
    rules: Seq<Rule<N, E>>,
    per_rule: Seq<Seq<Seq<NodeId>>>,
    k: nat,
) -> Seq<(usize, Seq<NodeId>, u32)>
    decreases k,
{
    if k == 0 {
        Seq::empty()
    } else {
        flat_candidates(rules, per_rule, (k - 1) as nat) + per_rule[k - 1].map_values(
            |mm: Seq<NodeId>| (((k - 1) as usize), mm, rules[k - 1].weight),
        )
    }
}

/// `cands` holds every match of every rule in the graph whose kinds are
/// `nk` and `ek`: the rules in order, each rule's matches in lexicographic
/// order, each with its rule's index and weight.
pub open spec fn lists_candidates<N: NodeData, E: EdgeData>(
    g: GraphView<N, E>,
    nk: Seq<Option<N::Kind>>,
    ek: Seq<Option<E::Kind>>,
    rules: Seq<Rule<N, E>>,
    cands: Seq<(usize, Match, u32)>,
) -> bool {
    exists|per_rule: Seq<Seq<Seq<NodeId>>>|
        {
            &&& per_rule.len() == rules.len()
            &&& forall|r: int|
                0 <= r < rules.len() ==> lists_all_matches(g, nk, ek, rules[r].lhs, #[trigger] per_rule[r])
            &&& cand_view(cands) == flat_candidates(rules, per_rule, rules.len())
        }
}

/// A candidate names a rule, maps every node of the rule's pattern, and
/// only to existing node slots.
pub open spec fn valid_candidate<N: NodeData, E: EdgeData>(
    g: GraphView<N, E>,
    rules: Seq<Rule<N, E>>,
    rule_index: usize,
    m: Seq<NodeId>,
) -> bool {
    &&& rule_index < rules.len()
    &&& m.len() == rules[rule_index as int].lhs.nodes@.len()
    &&& forall|j: int| 0 <= j < m.len() ==> (#[trigger] m[j]).0 < g.nodes.len()
}

/// Whether a step applies every greedily chosen non-overlapping candidate:
/// in parallel selection, and when every non-overlapping match is to be
/// applied.
pub open spec fn parallel_mode(config: RewriterConfig) -> bool {
    config.selection is Parallel || config.application is AllNonOverlapping
}

/// The candidates without their weights.
pub open spec fn without_weights(cands: Seq<(usize, Match, u32)>) -> Seq<(usize, Match)> {
    cands.map_values(|c: (usize, Match, u32)| (c.0, c.1))
}

/// How a step with configuration `cfg` that found `cands` and applied `sel`
/// used a source that states its values: with weighted selection of a single
/// candidate and some weight, it drew once and applied the candidate picked by
/// the value drawn; otherwise it did not draw.
pub open spec fn drawn_by<R: RandomSource>(
    cfg: RewriterConfig,
    cands: Seq<(usize, Match, u32)>,
    sel: Seq<(usize, Match)>,
    before: R,
    after: R,
) -> bool {
    R::obeys_draws() ==> if !parallel_mode(cfg) && cfg.selection is WeightedRandom && cands.len() > 0
        && weight_total(cands) > 0 {
        &&& after == before.after_draw()
        &&& exists|i: int|
            #[trigger] picked_by(cands, before.next_value() as int % weight_total(cands), i) && sel[0].0
                == cands[i].0 && sel[0].1.node_map@ == cands[i].1.node_map@
    } else {
        after == before
    }
}

/// `cands` lists every match of every rule in `g`, for the kinds of `g`'s
/// nodes and edges.
pub open spec fn candidates_of<N: NodeData, E: EdgeData>(
    g: GraphView<N, E>,
    rules: Seq<Rule<N, E>>,
    cands: Seq<(usize, Match, u32)>,
) -> bool {
    lists_candidates(g, node_kinds(g), edge_kinds(g), rules, cands)
}

/// No rule matches `g`, for the kinds of its nodes and edges.
pub open spec fn rewriting_done<N: NodeData, E: EdgeData>(g: GraphView<N, E>, rules: Seq<Rule<N, E>>) -> bool {
    forall|r: int, m: Seq<NodeId>|
        0 <= r < rules.len() ==> !#[trigger] is_match(g, node_kinds(g), edge_kinds(g), rules[r].lhs, m)
}

/// Every match of every rule, rules in order and each rule's matches in
/// lexicographic order, with the rule's index and weight.
#[verifier::spinoff_prover]
fn collect_candidates<N: NodeData, E: EdgeData>(
    graph: &Graph<N, E>,
    kinds: &GraphKinds<N::Kind, E::Kind>,
    rules: &Vec<Rule<N, E>>,
) -> (r: Vec<(usize, Match, u32)>)
    requires
        graph.wf(),
        kinds.fits(graph@),
        forall|i: int| 0 <= i < rules@.len() ==> (#[trigger] rules@[i]).wf(),
        obeys_concrete_eq::<N::Kind>(),
        obeys_concrete_eq::<E::Kind>(),
    ensures
        lists_candidates(graph@, kinds.nodes@, kinds.edges@, rules@, r@),
        forall|i: int|
            0 <= i < r@.len() ==> valid_candidate(graph@, rules@, (#[trigger] r@[i]).0, r@[i].1.node_map@),
{
    let ghost g = graph@;
    let mut candidates: Vec<(usize, Match, u32)> = Vec::new();
    let ghost mut per_rule: Seq<Seq<Seq<NodeId>>> = Seq::empty();
    let mut rule_idx: usize = 0;
    while rule_idx < rules.len()
        invariant
            graph.wf(),
            g == graph@,
            kinds.fits(g),
            forall|i: int| 0 <= i < rules@.len() ==> (#[trigger] rules@[i]).wf(),
            obeys_concrete_eq::<N::Kind>(),
            obeys_concrete_eq::<E::Kind>(),
            0 <= rule_idx <= rules@.len(),
            per_rule.len() == rule_idx,
            forall|r: int|
                0 <= r < rule_idx ==> lists_all_matches(g, kinds.nodes@, kinds.edges@, rules@[r].lhs, #[trigger] per_rule[r]),
            cand_view(candidates@) == flat_candidates(rules@, per_rule, rule_idx as nat),
            forall|i: int|
                0 <= i < candidates@.len() ==> valid_candidate(g, rules@, (#[trigger] candidates@[i]).0, candidates@[i].1.node_map@),
        decreases rules@.len() - rule_idx,
    {
        let rule = &rules[rule_idx];
        proof {
            assert(rules@[rule_idx as int].wf());
        }
        let matches = find_matches_in(graph, kinds, &rule.lhs);
        let ghost found = maps_of(matches@);
        let ghost base = candidates@;
        let ghost tagged = found.map_values(|mm: Seq<NodeId>| (rule_idx, mm, rule.weight));
        let mut j: usize = 0;
        while j < matches.len()
            invariant
                0 <= j <= matches@.len(),
                found == maps_of(matches@),
                tagged == found.map_values(|mm: Seq<NodeId>| (rule_idx, mm, rule.weight)),
                lists_all_matches(g, kinds.nodes@, kinds.edges@, rule.lhs, found),
                *rule == rules@[rule_idx as int],
                rule_idx < rules@.len(),
                cand_view(candidates@) == cand_view(base) + tagged.take(j as int),
                candidates@.len() == base.len() + j,
                forall|i: int|
                    0 <= i < candidates@.len() ==> valid_candidate(g, rules@, (#[trigger] candidates@[i]).0, candidates@[i].1.node_map@),
            decreases matches@.len() - j,
        {
            let m = matches[j].clone();
            let ghost before = candidates@;
            candidates.push((rule_idx, m, rule.weight));
            proof {
                assert(tagged.take(j + 1) =~= tagged.take(j as int).push(tagged[j as int]));
                assert(cand_view(candidates@) =~= cand_view(before).push((rule_idx, m.node_map@, rule.weight)));
                assert(found[j as int] == matches@[j as int].node_map@);
                assert(is_match(g, kinds.nodes@, kinds.edges@, rule.lhs, found[j as int]));
                assert forall|i: int|
                    0 <= i < candidates@.len() implies valid_candidate(g, rules@, (#[trigger] candidates@[i]).0, candidates@[i].1.node_map@) by {
                    if i == before.len() {
                        let mm = found[j as int];
                        assert forall|t: int| 0 <= t < mm.len() implies (#[trigger] mm[t]).0 < g.nodes.len() by {
                            assert(position_ok(g, kinds.nodes@, kinds.edges@, rule.lhs, mm, t));
                        }
                    } else {
                        assert(candidates@[i] == before[i]);
                    }
                }
            }
            j = j + 1;
        }
        proof {
            assert(tagged.take(matches@.len() as int) =~= tagged);
            let pr = per_rule.push(found);
            assert(pr.drop_last() =~= per_rule);
            assert forall|r: int| 0 <= r < rule_idx + 1 implies lists_all_matches(g, kinds.nodes@, kinds.edges@, rules@[r].lhs, #[trigger] pr[r]) by {
                if r < rule_idx {
                    assert(pr[r] == per_rule[r]);
                }
            }
            assert(flat_candidates(rules@, pr, (rule_idx + 1) as nat) =~= flat_candidates(rules@, per_rule, rule_idx as nat) + tagged) by {
                assert(flat_candidates(rules@, pr, rule_idx as nat) == flat_candidates(rules@, per_rule, rule_idx as nat)) by {
                    lemma_flat_prefix(rules@, pr, per_rule, rule_idx as nat);
                }
            }
            per_rule = pr;
        }
        rule_idx = rule_idx + 1;
    }
    proof {
        assert(per_rule.len() == rules@.len());
    }
    candidates
}

/// The flattened candidates of the first `k` rules depend on the first `k`
/// per-rule lists only.
proof fn lemma_flat_prefix<N: NodeData, E: EdgeData>(
    rules: Seq<Rule<N, E>>,
    a: Seq<Seq<Seq<NodeId>>>,
    b: Seq<Seq<Seq<NodeId>>>,
    k: nat,
)
    requires
        k <= a.len(),
        k <= b.len(),
        forall|r: int| 0 <= r < k ==> a[r] == b[r],
    ensures
        flat_candidates(rules, a, k) == flat_candidates(rules, b, k),
    decreases k,
{
    if k > 0 {
        lemma_flat_prefix(rules, a, b, (k - 1) as nat);
    }
}

// ----- the engine -----

/// Result of a single rewrite step.
#[derive(Debug)]
pub enum StepResult {
    /// A rule was applied.
    Applied { rule_index: usize, rule_name: &'static str },
    /// No rule matched -- rewriting is complete.
    NoMatch,
}

/// A call a step makes on its observer, with its arguments.
pub enum ObserverCall {
    /// `on_match` with the rule's index and the matched nodes.
    Match { rule_index: usize, nodes: Vec<NodeId> },
    /// `on_rule_applied` with the rule's index and name.
    RuleApplied { rule_index: usize, rule_name: &'static str },
    /// `on_constraint_violated` with the rule's index.
    ConstraintViolated { rule_index: usize },
    /// `on_step_complete` with the new step count (and the current graph).
    StepComplete { step: usize },
    /// `on_no_match`.
    NoMatch,
}

/// An observer call as a value.
pub enum CallView {
    Match(usize, Seq<NodeId>),
    RuleApplied(usize, &'static str),
    ConstraintViolated(usize),
    StepComplete(usize),
    NoMatch,
}

/// The value of an observer call.
pub open spec fn call_view(c: ObserverCall) -> CallView {
    match c {
        ObserverCall::Match { rule_index, nodes } => CallView::Match(rule_index, nodes@),
        ObserverCall::RuleApplied { rule_index, rule_name } => CallView::RuleApplied(rule_index, rule_name),
        ObserverCall::ConstraintViolated { rule_index } => CallView::ConstraintViolated(rule_index),
        ObserverCall::StepComplete { step } => CallView::StepComplete(step),
        ObserverCall::NoMatch => CallView::NoMatch,
    }
}

/// The values of a list of observer calls.
pub open spec fn calls_view(cs: Seq<ObserverCall>) -> Seq<CallView> {
    cs.map_values(|c: ObserverCall| call_view(c))
}

/// For each applied candidate in turn, its match and its application.
pub open spec fn application_calls<N: NodeData, E: EdgeData>(
    rules: Seq<Rule<N, E>>,
    sel: Seq<(usize, Match)>,
) -> Seq<CallView>
    decreases sel.len(),
{
    if sel.len() == 0 {
        Seq::empty()
    } else {
        application_calls(rules, sel.drop_last()) + seq![
            CallView::Match(sel.last().0, sel.last().1.node_map@),
            CallView::RuleApplied(sel.last().0, rules[sel.last().0 as int].name),
        ]
    }
}

/// Result of a complete rewrite.
pub struct RewriteResult<N: NodeData, E: EdgeData> {
    pub graph: Graph<N, E>,
    pub steps: usize,
    pub rules_applied: Vec<usize>,
}

/// The graph rewriting engine.
#[verifier::reject_recursive_types(N)]
#[verifier::reject_recursive_types(E)]
pub struct Rewriter<N: NodeData, E: EdgeData> {
    graph: Graph<N, E>,
    rules: Vec<Rule<N, E>>,
    constraints: Vec<Box<dyn StructuralConstraint<N, E>>>,
    /// Whether any constraint was added.
    constrained: bool,
    config: RewriterConfig,
    steps: usize,
}

impl<N: NodeData, E: EdgeData> Rewriter<N, E> {
    /// The current graph.
    pub closed spec fn spec_graph(&self) -> Graph<N, E> {
        self.graph
    }

    /// The rules, in the order they were added.
    pub closed spec fn spec_rules(&self) -> Seq<Rule<N, E>> {
        self.rules@
    }

    pub closed spec fn spec_config(&self) -> RewriterConfig {
        self.config
    }

    /// The number of applications that stood.
    pub closed spec fn spec_steps(&self) -> nat {
        self.steps as nat
    }

    /// Whether any constraint was added.
    pub closed spec fn has_constraints(&self) -> bool {
        self.constrained
    }

    /// The constraints, in the order they were added.
    pub closed spec fn spec_constraints(&self) -> Seq<Box<dyn StructuralConstraint<N, E>>> {
        self.constraints@
    }

    /// Every constraint accepts `g`.
    pub open spec fn accepts_all(&self, g: GraphView<N, E>) -> bool {
        forall|k: int| 0 <= k < self.spec_constraints().len() ==> #[trigger] self.spec_constraints()[k].accepts(g)
    }

    /// Without an added constraint the list of constraints is empty.
    pub closed spec fn constraints_recorded(&self) -> bool {
        !self.constrained ==> self.constraints@.len() == 0
    }

    /// The graph is well formed, every rule can be applied at its matches,
    /// and the constraints are recorded.
    pub open spec fn wf(&self) -> bool {
        &&& self.spec_graph().wf()
        &&& forall|r: int| 0 <= r < self.spec_rules().len() ==> (#[trigger] self.spec_rules()[r]).wf()
        &&& self.constraints_recorded()
    }

    /// What a step reports when it applied rule `rule_index`.
    pub open spec fn applied_result(&self, rule_index: int) -> StepResult {
        StepResult::Applied {
            rule_index: rule_index as usize,
            rule_name: self.spec_rules()[rule_index].name,
        }
    }

    /// `new` follows from `self` by a step that leaves the rules, the
    /// configuration and the constraints alone.
    pub open spec fn same_setup(&self, new: &Self) -> bool {
        &&& new.spec_rules() == self.spec_rules()
        &&& new.spec_config() == self.spec_config()
        &&& new.has_constraints() == self.has_constraints()
        &&& new.spec_constraints() == self.spec_constraints()
    }

    /// `new` is `self` after a step that changed nothing.
    pub open spec fn unchanged(&self, new: &Self) -> bool {
        &&& new.spec_graph() == self.spec_graph()
        &&& new.spec_steps() == self.spec_steps()
    }

    /// `new` is `self` after the step produced `h`: when every constraint
    /// accepts `h` it stands and the step count goes up by one; otherwise the
    /// graph is a clone of the old one and the count is unchanged.
    pub open spec fn settles(&self, new: &Self, h: GraphView<N, E>) -> bool {
        if self.accepts_all(h) {
            new.spec_steps() == self.spec_steps() + 1 && new.spec_graph()@ == h
        } else {
            new.spec_steps() == self.spec_steps() && is_clone_of(new.spec_graph()@, self.spec_graph()@)
        }
    }

    /// `new` is `self` after applying rule `rule_index` at `m`, the result
    /// kept or refused as `settles` says.
    pub open spec fn applied_once(&self, new: &Self, rule_index: int, m: Seq<NodeId>) -> bool {
        exists|h: GraphView<N, E>|
            #[trigger] applies(self.spec_graph()@, self.spec_rules()[rule_index].rhs, m, h) && self.settles(new, h)
    }

    /// `new` is `self` after applying the selected matches one after another,
    /// the result kept or refused as a whole as `settles` says.
    pub open spec fn applied_in_turn(&self, new: &Self, sel: Seq<(usize, Match)>) -> bool {
        exists|h: GraphView<N, E>|
            #[trigger] applies_in_turn(self.spec_graph()@, self.spec_rules(), sel, h) && self.settles(new, h)
    }

    /// What one step does, given the candidates it found on the graph, with
    /// `sel` the candidates it applied, in order: with none found it changes
    /// nothing and reports `NoMatch`. In parallel mode it applies the greedy
    /// selection of non-overlapping candidates and reports the last rule
    /// applied. With weighted selection and some weight it applies the
    /// candidate drawn by weight; otherwise, the first candidate.
    pub open spec fn step_made(
        &self,
        new: &Self,
        cands: Seq<(usize, Match, u32)>,
        r: StepResult,
        sel: Seq<(usize, Match)>,
    ) -> bool {
        if cands.len() == 0 {
            r is NoMatch && self.unchanged(new) && sel.len() == 0
        } else if parallel_mode(self.spec_config()) {
            &&& selected_at(
                without_weights(cands),
                greedy_picks(candidate_maps(without_weights(cands)), cands.len()),
                sel,
            )
            &&& sel.len() > 0
            &&& r == self.applied_result(sel.last().0 as int)
            &&& self.applied_in_turn(new, sel)
        } else {
            &&& sel.len() == 1
            &&& r == self.applied_result(sel[0].0 as int)
            &&& self.applied_once(new, sel[0].0 as int, sel[0].1.node_map@)
            &&& if self.spec_config().selection is WeightedRandom && weight_total(cands) > 0 {
                exists|pick: int, i: int|
                    #[trigger] picked_by(cands, pick, i) && sel[0].0 == cands[i].0 && sel[0].1.node_map@
                        == cands[i].1.node_map@
            } else {
                sel[0].0 == cands[0].0 && sel[0].1.node_map@ == cands[0].1.node_map@
            }
        }
    }

    /// What one step does, given the candidates it found on the graph: what
    /// `step_made` says, for the candidates it applied.
    pub open spec fn step_outcome(&self, new: &Self, cands: Seq<(usize, Match, u32)>, r: StepResult) -> bool {
        exists|sel: Seq<(usize, Match)>| #[trigger] self.step_made(new, cands, r, sel)
    }

    /// The observer calls of a step that applied `sel` and went from `self`
    /// to `new`: nothing matched; or, for each applied candidate, the match
    /// and the application, then the refusal by a constraint or the completed
    /// step with its new count.
    pub open spec fn step_calls(&self, new: &Self, sel: Seq<(usize, Match)>) -> Seq<CallView> {
        if sel.len() == 0 {
            seq![CallView::NoMatch]
        } else {
            application_calls(self.spec_rules(), sel) + seq![self.step_end(new, sel.last().0)]
        }
    }

    /// The last observer call of a step that applied something, with rule
    /// `rule_index` applied last: the refusal, or the completed step.
    pub open spec fn step_end(&self, new: &Self, rule_index: usize) -> CallView {
        if new.spec_steps() == self.spec_steps() {
            CallView::ConstraintViolated(rule_index)
        } else {
            CallView::StepComplete(new.spec_steps() as usize)
        }
    }
}


impl<N: NodeData, E: EdgeData> Rewriter<N, E> {
    /// `new` follows from `self` by one step that reported `r`.
    pub open spec fn steps_to(&self, new: &Self, r: StepResult) -> bool {
        &&& self.same_setup(new)
        &&& exists|cands: Seq<(usize, Match, u32)>| #[trigger] candidates_of(self.spec_graph()@, self.spec_rules(), cands) && self.step_outcome(new, cands, r)
    }

    /// `states` are this rewriter and the states after a run of steps, the
    /// step at position `t` reporting that it applied rule `applied[t]`.
    pub open spec fn applied_run(&self, states: Seq<Self>, applied: Seq<usize>) -> bool {
        &&& states.len() == applied.len() + 1
        &&& states[0] == *self
        &&& forall|t: int|
            0 <= t < applied.len() ==> #[trigger] states[t].steps_to(
                &states[t + 1],
                states[t].applied_result(applied[t] as int),
            )
    }

    /// A step keeps its result exactly when every constraint accepts it:
    /// when the count goes up, the new graph is accepted by every constraint;
    /// when a rule was applied and the count stayed, the graph is a clone of
    /// the old one.
    pub proof fn lemma_kept_means_accepted(&self, new: &Self, r: StepResult)
        requires
            self.steps_to(new, r),
        ensures
            new.spec_steps() == self.spec_steps() + 1 ==> self.accepts_all(new.spec_graph()@)
                && new.accepts_all(new.spec_graph()@),
            r is Applied && new.spec_steps() == self.spec_steps() ==> is_clone_of(
                new.spec_graph()@,
                self.spec_graph()@,
            ),
    {
        let cands = choose|cands: Seq<(usize, Match, u32)>| #[trigger] candidates_of(self.spec_graph()@, self.spec_rules(), cands) && self.step_outcome(new, cands, r);
        let sel = choose|sel: Seq<(usize, Match)>| #[trigger] self.step_made(new, cands, r, sel);
        if cands.len() > 0 {
            if parallel_mode(self.spec_config()) {
                let h = choose|h: GraphView<N, E>|
                    #[trigger] applies_in_turn(self.spec_graph()@, self.spec_rules(), sel, h) && self.settles(new, h);
                if !self.accepts_all(h) && self.constraints_recorded() {
                    self.lemma_refused_constrained(h);
                }
            } else {
                let h = choose|h: GraphView<N, E>|
                    #[trigger] applies(self.spec_graph()@, self.spec_rules()[sel[0].0 as int].rhs, sel[0].1.node_map@, h)
                        && self.settles(new, h);
                if !self.accepts_all(h) && self.constraints_recorded() {
                    self.lemma_refused_constrained(h);
                }
            }
        }
    }

    /// Along a run the rules, configuration and constraints stay those of
    /// the start.
    proof fn lemma_run_setup(&self, states: Seq<Self>, applied: Seq<usize>, t: int)
        requires
            self.applied_run(states, applied),
            0 <= t < states.len(),
        ensures
            self.same_setup(&states[t]),
        decreases t,
    {
        if t > 0 {
            let u = t - 1;
            self.lemma_run_setup(states, applied, u);
            assert(0 <= u < applied.len());
            assert(states[u].steps_to(&states[u + 1], states[u].applied_result(applied[u] as int)));
            assert(u + 1 == t);
        }
    }

    /// In a run of steps, every graph a step kept is accepted by every
    /// constraint, and a step whose result was refused leaves a clone of the
    /// graph before it.
    pub proof fn lemma_run_keeps_accepted(&self, states: Seq<Self>, applied: Seq<usize>)
        requires
            self.applied_run(states, applied),
        ensures
            forall|t: int|
                0 <= t < applied.len() && #[trigger] states[t + 1].spec_steps() == states[t].spec_steps() + 1
                    ==> self.accepts_all(states[t + 1].spec_graph()@),
            forall|t: int|
                0 <= t < applied.len() && #[trigger] states[t + 1].spec_steps() == states[t].spec_steps()
                    ==> is_clone_of(states[t + 1].spec_graph()@, states[t].spec_graph()@),
    {
        assert forall|t: int|
            0 <= t < applied.len() && #[trigger] states[t + 1].spec_steps() == states[t].spec_steps() + 1
                implies self.accepts_all(states[t + 1].spec_graph()@) by {
            let r = states[t].applied_result(applied[t] as int);
            assert(states[t].steps_to(&states[t + 1], r));
            states[t].lemma_kept_means_accepted(&states[t + 1], r);
            self.lemma_run_setup(states, applied, t);
        }
        assert forall|t: int|
            0 <= t < applied.len() && #[trigger] states[t + 1].spec_steps() == states[t].spec_steps()
                implies is_clone_of(states[t + 1].spec_graph()@, states[t].spec_graph()@) by {
            let r = states[t].applied_result(applied[t] as int);
            assert(states[t].steps_to(&states[t + 1], r));
            states[t].lemma_kept_means_accepted(&states[t + 1], r);
        }
    }

    /// A graph that some constraint refuses means a constraint was added.
    proof fn lemma_refused_constrained(&self, h: GraphView<N, E>)
        requires
            self.constraints_recorded(),
            !self.accepts_all(h),
        ensures
            self.has_constraints(),
    {
    }

    /// A step that found nothing leaves the count alone; one that applied a
    /// rule reports it and raises the count by one, unless a constraint
    /// refused the result.
    proof fn lemma_outcome_counts(&self, new: &Self, cands: Seq<(usize, Match, u32)>, r: StepResult)
        requires
            self.constraints_recorded(),
            self.step_outcome(new, cands, r),
        ensures
            r is NoMatch ==> new.spec_steps() == self.spec_steps() && cands.len() == 0,
            r matches StepResult::Applied { rule_index, .. } ==> r == self.applied_result(rule_index as int),
            r is Applied ==> new.spec_steps() == self.spec_steps() + 1 || (self.has_constraints()
                && new.spec_steps() == self.spec_steps()),
    {
        let sel = choose|sel: Seq<(usize, Match)>| #[trigger] self.step_made(new, cands, r, sel);
        if cands.len() > 0 {
            if parallel_mode(self.spec_config()) {
                let h = choose|h: GraphView<N, E>|
                    #[trigger] applies_in_turn(self.spec_graph()@, self.spec_rules(), sel, h) && self.settles(new, h);
                if !self.accepts_all(h) && self.constraints_recorded() {
                    self.lemma_refused_constrained(h);
                }
            } else {
                let h = choose|h: GraphView<N, E>|
                    #[trigger] applies(self.spec_graph()@, self.spec_rules()[sel[0].0 as int].rhs, sel[0].1.node_map@, h)
                        && self.settles(new, h);
                if !self.accepts_all(h) && self.constraints_recorded() {
                    self.lemma_refused_constrained(h);
                }
            }
        }
    }
}

/// `h` is what applying the selected matches of `rules` one after another
/// makes of `g`: a chain of graphs leads from `g` to `h`, each obtained
/// from the one before by applying the next selected match.
pub open spec fn applies_in_turn<N: NodeData, E: EdgeData>(
    g: GraphView<N, E>,
    rules: Seq<Rule<N, E>>,
    sel: Seq<(usize, Match)>,
    h: GraphView<N, E>,
) -> bool {
    exists|chain: Seq<GraphView<N, E>>| #[trigger] applies_along(chain, g, rules, sel, h)
}

/// `chain` leads from `g` to `h` by applying the selected matches in turn.
pub open spec fn applies_along<N: NodeData, E: EdgeData>(
    chain: Seq<GraphView<N, E>>,
    g: GraphView<N, E>,
    rules: Seq<Rule<N, E>>,
    sel: Seq<(usize, Match)>,
    h: GraphView<N, E>,
) -> bool {
    &&& chain.len() == sel.len() + 1
    &&& chain[0] == g
    &&& chain.last() == h
    &&& forall|t: int|
        0 <= t < sel.len() ==> applies(
            #[trigger] chain[t],
            rules[sel[t].0 as int].rhs,
            sel[t].1.node_map@,
            chain[t + 1],
        )
}

impl<N: NodeData, E: EdgeData> Rewriter<N, E> {
    /// Create a new rewriter with the given initial graph and configuration.
    pub fn new(graph: Graph<N, E>, config: RewriterConfig) -> (r: Self)
        requires
            graph.wf(),
        ensures
            r.wf(),
            r.spec_graph() == graph,
            r.spec_rules().len() == 0,
            r.spec_config() == config,
            r.spec_steps() == 0,
            !r.has_constraints(),
            r.spec_constraints().len() == 0,
    {
        let constraints: Vec<Box<dyn StructuralConstraint<N, E>>> = Vec::new();
        assert(constraints@.len() == 0);
        Self { graph, rules: Vec::new(), constraints, constrained: false, config, steps: 0 }
    }

    /// Add a rewriting rule.
    pub fn add_rule(&mut self, rule: Rule<N, E>)
        requires
            old(self).wf(),
            rule.wf(),
        ensures
            final(self).wf(),
            final(self).spec_rules() == old(self).spec_rules().push(rule),
            final(self).spec_graph() == old(self).spec_graph(),
            final(self).spec_config() == old(self).spec_config(),
            final(self).spec_steps() == old(self).spec_steps(),
            final(self).has_constraints() == old(self).has_constraints(),
    {
        self.rules.push(rule);
        proof {
            assert forall|r: int| 0 <= r < self.rules@.len() implies (#[trigger] self.rules@[r]).wf() by {
                if r < old(self).rules@.len() {
                    assert(self.rules@[r] == old(self).spec_rules()[r]);
                }
            }
        }
    }

    /// Add a structural constraint checked after each rule application.
    pub fn add_constraint<C: StructuralConstraint<N, E> + 'static>(&mut self, constraint: C)
        requires
            old(self).wf(),
        ensures
            final(self).wf(),
            final(self).has_constraints(),
            final(self).spec_rules() == old(self).spec_rules(),
            final(self).spec_graph() == old(self).spec_graph(),
            final(self).spec_config() == old(self).spec_config(),
            final(self).spec_steps() == old(self).spec_steps(),
    {
        let b: Box<dyn StructuralConstraint<N, E>> = Box::new(constraint);
        self.constraints.push(b);
        self.constrained = true;
        proof {
            assert forall|r: int| 0 <= r < self.rules@.len() implies (#[trigger] self.rules@[r]).wf() by {
                assert(self.rules@[r] == old(self).spec_rules()[r]);
            }
        }
    }

    /// Whether every constraint accepts the current graph.
    fn constraints_hold(&self) -> (r: bool)
        requires
            self.graph.wf(),
            obeys_concrete_eq::<N::Kind>(),
            obeys_concrete_eq::<E::Kind>(),
        ensures
            r == self.accepts_all(self.spec_graph()@),
    {
        let mut k: usize = 0;
        while k < self.constraints.len()
            invariant
                self.graph.wf(),
                obeys_concrete_eq::<N::Kind>(),
                obeys_concrete_eq::<E::Kind>(),
                0 <= k <= self.constraints@.len(),
                forall|t: int| 0 <= t < k ==> #[trigger] self.constraints@[t].accepts(self.graph@),
            decreases self.constraints@.len() - k,
        {
            if !self.constraints[k].check(&self.graph) {
                proof {
                    assert(!self.spec_constraints()[k as int].accepts(self.spec_graph()@));
                }
                return false;
            }
            k = k + 1;
        }
        proof {
            assert forall|t: int| 0 <= t < self.spec_constraints().len() implies #[trigger] self.spec_constraints()[t].accepts(
                self.spec_graph()@,
            ) by {
                assert(self.constraints@[t].accepts(self.graph@));
            }
        }
        true
    }

    /// Apply rule `rule_idx` at `m` and keep the result if every constraint
    /// accepts it, recording the observer calls this makes.
    fn try_apply_rule(&mut self, rule_idx: usize, m: Match, calls: &mut Vec<ObserverCall>) -> (r: StepResult)
        requires
            old(self).wf(),
            old(self).spec_steps() < usize::MAX,
            valid_candidate(old(self).spec_graph()@, old(self).spec_rules(), rule_idx, m.node_map@),
            obeys_concrete_eq::<N::Kind>(),
            obeys_concrete_eq::<E::Kind>(),
        ensures
            final(self).wf(),
            old(self).same_setup(final(self)),
            r == old(self).applied_result(rule_idx as int),
            old(self).applied_once(final(self), rule_idx as int, m.node_map@),
            calls_view(final(calls)@) == calls_view(old(calls)@) + application_calls(
                old(self).spec_rules(),
                seq![(rule_idx, m)],
            ) + seq![old(self).step_end(final(self), rule_idx)],
    {
        let ghost m0 = m;
        let ghost c0 = calls@;
        // Notify observer of match
        calls.push(ObserverCall::Match { rule_index: rule_idx, nodes: copy_node_ids(&m.node_map) });
        // Snapshot graph (for constraint rollback)
        let snapshot = self.graph.clone();
        let rule = &self.rules[rule_idx];
        proof {
            assert(self.rules@[rule_idx as int].wf());
        }
        apply_rule(&mut self.graph, rule, &m);
        let ghost h = self.graph@;
        calls.push(ObserverCall::RuleApplied { rule_index: rule_idx, rule_name: self.rules[rule_idx].name });
        proof {
            assert(applies(old(self).spec_graph()@, old(self).spec_rules()[rule_idx as int].rhs, m.node_map@, h));
            let one = seq![(rule_idx, m0)];
            assert(one.drop_last() =~= Seq::<(usize, Match)>::empty());
            assert(one.last() == (rule_idx, m0));
            assert(application_calls(old(self).spec_rules(), Seq::<(usize, Match)>::empty()) =~= Seq::<CallView>::empty());
            assert(application_calls(old(self).spec_rules(), one) =~= seq![
                CallView::Match(rule_idx, m0.node_map@),
                CallView::RuleApplied(rule_idx, old(self).spec_rules()[rule_idx as int].name),
            ]);
            assert(calls_view(calls@) =~= calls_view(c0) + application_calls(old(self).spec_rules(), one));
        }
        // Check constraints
        let ok = self.constraints_hold();
        proof {
            assert(self.spec_graph()@ == h);
            assert(ok == self.accepts_all(h));
            assert(self.spec_constraints() == old(self).spec_constraints());
            assert(ok == old(self).accepts_all(h));
        }
        let ghost c1 = calls@;
        if !ok {
            self.graph = snapshot; // rollback
            calls.push(ObserverCall::ConstraintViolated { rule_index: rule_idx });
            proof {
                assert(!old(self).accepts_all(h));
                assert(is_clone_of(self.spec_graph()@, old(self).spec_graph()@));
                assert(old(self).settles(self, h));
                assert(calls_view(calls@) =~= calls_view(c1).push(old(self).step_end(self, rule_idx)));
            }
            return StepResult::Applied { rule_index: rule_idx, rule_name: self.rules[rule_idx].name };
        }
        self.steps = self.steps + 1;
        calls.push(ObserverCall::StepComplete { step: self.steps });
        proof {
            assert(old(self).settles(self, h));
            assert(calls_view(calls@) =~= calls_view(c1).push(old(self).step_end(self, rule_idx)));
        }
        StepResult::Applied { rule_index: rule_idx, rule_name: self.rules[rule_idx].name }
    }
}

/// The candidates without their weights, the matches copied.
fn drop_weights(candidates: &Vec<(usize, Match, u32)>) -> (r: Vec<(usize, Match)>)
    ensures
        r@.len() == candidates@.len(),
        forall|i: int|
            0 <= i < r@.len() ==> (#[trigger] r@[i]).0 == candidates@[i].0 && r@[i].1.node_map@
                == candidates@[i].1.node_map@,
{
    let mut r: Vec<(usize, Match)> = Vec::new();
    let mut i: usize = 0;
    while i < candidates.len()
        invariant
            0 <= i <= candidates@.len(),
            r@.len() == i,
            forall|j: int|
                0 <= j < i ==> (#[trigger] r@[j]).0 == candidates@[j].0 && r@[j].1.node_map@
                    == candidates@[j].1.node_map@,
        decreases candidates@.len() - i,
    {
        let c = &candidates[i];
        r.push((c.0, c.1.clone()));
        i = i + 1;
    }
    r
}

/// Greedy picks and selections depend on the rule indices and node maps
/// only.
proof fn lemma_same_maps(a: Seq<(usize, Match)>, cands: Seq<(usize, Match, u32)>, sel: Seq<(usize, Match)>)
    requires
        a.len() == cands.len(),
        forall|i: int|
            0 <= i < a.len() ==> (#[trigger] a[i]).0 == cands[i].0 && a[i].1.node_map@
                == cands[i].1.node_map@,
    ensures
        candidate_maps(a) == candidate_maps(without_weights(cands)),
        selected_at(a, greedy_picks(candidate_maps(a), a.len()), sel) ==> selected_at(
            without_weights(cands),
            greedy_picks(candidate_maps(without_weights(cands)), cands.len()),
            sel,
        ),
{
    assert(candidate_maps(a) =~= candidate_maps(without_weights(cands)));
    let picks = greedy_picks(candidate_maps(a), a.len());
    if selected_at(a, picks, sel) {
        lemma_greedy_picks(candidate_maps(a), a.len());
        assert forall|t: int| 0 <= t < sel.len() implies (#[trigger] sel[t]).0 == without_weights(cands)[picks[t]].0
            && sel[t].1.node_map@ == without_weights(cands)[picks[t]].1.node_map@ by {
            assert(0 <= picks[t] < a.len());
            assert(a[picks[t]].0 == cands[picks[t]].0);
        }
    }
}

impl<N: NodeData, E: EdgeData> Rewriter<N, E> {
    /// Apply the selected matches one after another, then check the
    /// constraints once, recording the observer calls this makes.
    #[verifier::spinoff_prover]
    fn apply_parallel(&mut self, selected: &Vec<(usize, Match)>, calls: &mut Vec<ObserverCall>) -> (r: StepResult)
        requires
            old(self).wf(),
            old(self).spec_steps() < usize::MAX,
            selected@.len() > 0,
            forall|t: int|
                0 <= t < selected@.len() ==> valid_candidate(
                    old(self).spec_graph()@,
                    old(self).spec_rules(),
                    (#[trigger] selected@[t]).0,
                    selected@[t].1.node_map@,
                ),
            obeys_concrete_eq::<N::Kind>(),
            obeys_concrete_eq::<E::Kind>(),
        ensures
            final(self).wf(),
            old(self).same_setup(final(self)),
            r == old(self).applied_result(selected@.last().0 as int),
            old(self).applied_in_turn(final(self), selected@),
            calls_view(final(calls)@) == calls_view(old(calls)@) + application_calls(
                old(self).spec_rules(),
                selected@,
            ) + seq![old(self).step_end(final(self), selected@.last().0)],
    {
        let ghost g0 = self.graph@;
        let ghost c0 = calls@;
        let ghost rules = self.rules@;
        proof {
            assert forall|r: int| 0 <= r < rules.len() implies (#[trigger] rules[r]).wf() by {
                assert(self.spec_rules()[r] == rules[r]);
            }
        }
        // Snapshot for rollback
        let snapshot = self.graph.clone();
        let mut last_rule_idx: usize = 0;
        let mut k: usize = 0;
        let ghost mut chain: Seq<GraphView<N, E>> = seq![g0];
        proof {
            assert(selected@.take(0) =~= Seq::<(usize, Match)>::empty());
        }
        while k < selected.len()
            invariant
                self.wf(),
                rules == self.rules@,
                forall|r: int| 0 <= r < rules.len() ==> (#[trigger] rules[r]).wf(),
                self.config == old(self).config,
                self.steps == old(self).steps,
                self.constrained == old(self).constrained,
                self.constraints@ == old(self).constraints@,
                calls_view(calls@) == calls_view(c0) + application_calls(rules, selected@.take(k as int)),
                0 <= k <= selected@.len(),
                self.graph@.nodes.len() >= g0.nodes.len(),
                forall|t: int|
                    0 <= t < selected@.len() ==> valid_candidate(
                        g0,
                        rules,
                        (#[trigger] selected@[t]).0,
                        selected@[t].1.node_map@,
                    ),
                applies_along(chain, g0, rules, selected@.take(k as int), self.graph@),
                k > 0 ==> last_rule_idx == selected@[k - 1].0,
            decreases selected@.len() - k,
        {
            let ghost before = self.graph@;
            let rule_idx = selected[k].0;
            let m = &selected[k].1;
            proof {
                assert(valid_candidate(g0, rules, selected@[k as int].0, selected@[k as int].1.node_map@));
                assert(rules[rule_idx as int].wf());
            }
            last_rule_idx = rule_idx;
            let ghost cb = calls@;
            calls.push(ObserverCall::Match { rule_index: rule_idx, nodes: copy_node_ids(&m.node_map) });
            apply_rule(&mut self.graph, &self.rules[rule_idx], m);
            calls.push(ObserverCall::RuleApplied { rule_index: rule_idx, rule_name: self.rules[rule_idx].name });
            proof {
                let t1 = selected@.take(k + 1);
                assert(t1.drop_last() =~= selected@.take(k as int));
                assert(t1.last() == selected@[k as int]);
                assert(calls_view(calls@) =~= calls_view(cb) + seq![
                    CallView::Match(rule_idx, selected@[k as int].1.node_map@),
                    CallView::RuleApplied(rule_idx, rules[rule_idx as int].name),
                ]);
                assert(application_calls(rules, t1) == application_calls(rules, selected@.take(k as int)) + seq![
                    CallView::Match(rule_idx, selected@[k as int].1.node_map@),
                    CallView::RuleApplied(rule_idx, rules[rule_idx as int].name),
                ]);
                assert(calls_view(calls@) =~= calls_view(c0) + application_calls(rules, t1));
            }
            proof {
                let t1 = selected@.take(k + 1);
                assert(t1.drop_last() =~= selected@.take(k as int));
                assert(t1.last() == selected@[k as int]);
                let c1 = chain.push(self.graph@);
                assert forall|t: int| 0 <= t < t1.len() implies applies(
                    #[trigger] c1[t],
                    rules[t1[t].0 as int].rhs,
                    t1[t].1.node_map@,
                    c1[t + 1],
                ) by {
                    if t < k {
                        assert(c1[t] == chain[t]);
                        assert(t1[t] == selected@.take(k as int)[t]);
                    }
                }
                chain = c1;
                assert forall|r: int| 0 <= r < self.spec_rules().len() implies (#[trigger] self.spec_rules()[r]).wf() by {
                    assert(self.spec_rules()[r] == rules[r]);
                }
            }
            k = k + 1;
        }
        proof {
            assert(selected@.take(selected@.len() as int) =~= selected@);
            assert(applies_along(chain, g0, rules, selected@, self.graph@));
        }
        let ghost h = self.graph@;
        proof {
            assert(applies_in_turn(g0, rules, selected@, h));
            assert(last_rule_idx == selected@.last().0);
        }
        let ghost c1 = calls@;
        // Check constraints
        let ok = self.constraints_hold();
        proof {
            assert(ok == self.accepts_all(h));
            assert(self.spec_constraints() == old(self).spec_constraints());
            assert(ok == old(self).accepts_all(h));
        }
        if !ok {
            self.graph = snapshot;
            calls.push(ObserverCall::ConstraintViolated { rule_index: last_rule_idx });
            proof {
                assert(old(self).settles(self, h));
                assert(calls_view(calls@) =~= calls_view(c1).push(old(self).step_end(self, last_rule_idx)));
            }
            return StepResult::Applied { rule_index: last_rule_idx, rule_name: self.rules[last_rule_idx].name };
        }
        self.steps = self.steps + 1;
        calls.push(ObserverCall::StepComplete { step: self.steps });
        proof {
            assert(old(self).settles(self, h));
            assert(calls_view(calls@) =~= calls_view(c1).push(old(self).step_end(self, last_rule_idx)));
        }
        StepResult::Applied { rule_index: last_rule_idx, rule_name: self.rules[last_rule_idx].name }
    }
}

impl<N: NodeData, E: EdgeData> Rewriter<N, E> {
    /// A step that found candidates applies something: the greedy selection
    /// always takes the first candidate.
    proof fn lemma_greedy_nonempty(maps: Seq<Seq<NodeId>>)
        requires
            maps.len() > 0,
        ensures
            greedy_picks(maps, maps.len()).len() > 0,
    {
        lemma_greedy_picks(maps, maps.len());
        let picks = greedy_picks(maps, maps.len());
        if !picks.contains(0) {
            let t = choose|t: int| 0 <= t < picks.len() && picks[t] < 0 && overlaps(maps[0], maps[picks[t]]);
            assert(0 <= picks[t]);
        }
    }

    /// Perform one rewrite step: match -> select -> apply -> verify constraints.
    ///
    /// The candidates are every match of every rule on the current graph, as
    /// `lists_candidates` describes them; the step does what `step_outcome`
    /// says of them. With none it changes nothing and reports `NoMatch`. In
    /// parallel selection, or when every non-overlapping match is to be
    /// applied, it applies the greedy selection of non-overlapping candidates
    /// one after another and reports the last rule applied. Otherwise it
    /// applies one candidate: drawn by weight with a value from `rng`, or the
    /// first one (first-match selection, or weights that sum to zero). The
    /// result stands if every constraint accepts it, and is rolled back
    /// otherwise.
    pub fn step<R: RandomSource>(&mut self, rng: &mut R) -> (r: StepResult)
        requires
            old(self).wf(),
            old(self).spec_steps() < usize::MAX,
            obeys_concrete_eq::<N::Kind>(),
            obeys_concrete_eq::<E::Kind>(),
        ensures
            final(self).wf(),
            old(self).same_setup(final(self)),
            r matches StepResult::Applied { rule_index, .. } ==> rule_index < old(self).spec_rules().len(),
            exists|cands: Seq<(usize, Match, u32)>| #[trigger] candidates_of(old(self).spec_graph()@, old(self).spec_rules(), cands) && old(self).step_outcome(final(self), cands, r),
            exists|cands: Seq<(usize, Match, u32)>, sel: Seq<(usize, Match)>|
                #[trigger] candidates_of(old(self).spec_graph()@, old(self).spec_rules(), cands)
                    && #[trigger] old(self).step_made(final(self), cands, r, sel) && drawn_by(
                    old(self).spec_config(),
                    cands,
                    sel,
                    *old(rng),
                    *final(rng),
                ),
    {
        let (r, _calls) = self.step_recorded(rng);
        r
    }

    /// The step of `step`, together with the observer calls it makes, in
    /// order: `step_calls` of the candidates it applied.
    #[verifier::spinoff_prover]
    pub fn step_recorded<R: RandomSource>(&mut self, rng: &mut R) -> (r: (StepResult, Vec<ObserverCall>))
        requires
            old(self).wf(),
            old(self).spec_steps() < usize::MAX,
            obeys_concrete_eq::<N::Kind>(),
            obeys_concrete_eq::<E::Kind>(),
        ensures
            final(self).wf(),
            old(self).same_setup(final(self)),
            r.0 matches StepResult::Applied { rule_index, .. } ==> rule_index < old(self).spec_rules().len(),
            exists|cands: Seq<(usize, Match, u32)>, sel: Seq<(usize, Match)>|
                #[trigger] candidates_of(old(self).spec_graph()@, old(self).spec_rules(), cands)
                    && #[trigger] old(self).step_made(final(self), cands, r.0, sel) && calls_view(r.1@)
                    == old(self).step_calls(final(self), sel) && drawn_by(
                    old(self).spec_config(),
                    cands,
                    sel,
                    *old(rng),
                    *final(rng),
                ),
    {
        let mut calls: Vec<ObserverCall> = Vec::new();
        // 1. Find all matches for all rules
        let kinds = self.graph.kinds();
        let candidates = collect_candidates(&self.graph, &kinds, &self.rules);
        let ghost cands = candidates@;
        proof {
            assert(candidates_of(self.graph@, self.rules@, cands));
            lemma_weight_total_nonneg(cands);
        }
        if candidates.len() == 0 {
            calls.push(ObserverCall::NoMatch);
            proof {
                let sel = Seq::<(usize, Match)>::empty();
                assert(old(self).step_made(self, cands, StepResult::NoMatch, sel));
                assert(calls_view(calls@) =~= old(self).step_calls(self, sel));
            }
            return (StepResult::NoMatch, calls);
        }
        // 2. Select
        let all_matches = match self.config.application {
            ApplicationMode::AllNonOverlapping => true,
            ApplicationMode::Single => false,
        };
        let parallel = match self.config.selection {
            SelectionStrategy::Parallel => true,
            _ => all_matches,
        };
        if parallel {
            let pairs = drop_weights(&candidates);
            let non_overlapping = find_non_overlapping(pairs.as_slice());
            proof {
                lemma_same_maps(pairs@, cands, non_overlapping@);
                lemma_greedy_picks(candidate_maps(pairs@), pairs@.len());
                Self::lemma_greedy_nonempty(candidate_maps(pairs@));
                let picks = greedy_picks(candidate_maps(pairs@), pairs@.len());
                assert forall|t: int| 0 <= t < non_overlapping@.len() implies valid_candidate(
                    self.graph@,
                    self.rules@,
                    (#[trigger] non_overlapping@[t]).0,
                    non_overlapping@[t].1.node_map@,
                ) by {
                    assert(0 <= picks[t] < pairs@.len());
                    assert(valid_candidate(self.graph@, self.rules@, cands[picks[t]].0, cands[picks[t]].1.node_map@));
                }
            }
            let r = self.apply_parallel(&non_overlapping, &mut calls);
            proof {
                let sel = non_overlapping@;
                assert(old(self).step_made(self, cands, r, sel));
                assert(calls_view(calls@) =~= old(self).step_calls(self, sel));
            }
            return (r, calls);
        }
        let weighted = match self.config.selection {
            SelectionStrategy::WeightedRandom => true,
            _ => false,
        };
        if weighted {
            match select_match(candidates.as_slice(), rng) {
                Some(sel) => {
                    let ghost (pick, i): (int, int) = choose|pick: int, i: int|
                        picked_by(cands, pick, i) && sel.0 == cands[i].0 && sel.1.node_map@
                            == cands[i].1.node_map@;
                    let ghost one = seq![sel];
                    proof {
                        assert(valid_candidate(self.graph@, self.rules@, cands[i].0, cands[i].1.node_map@));
                    }
                    let (rule_idx, m) = sel;
                    let r = self.try_apply_rule(rule_idx, m, &mut calls);
                    proof {
                        assert(picked_by(cands, pick, i));
                        assert(one.last() == one[0]);
                        assert(old(self).step_made(self, cands, r, one));
                        assert(calls_view(calls@) =~= old(self).step_calls(self, one));
                    }
                    return (r, calls);
                },
                None => {},
            }
        }
        // The first candidate: first-match selection, or no weight to draw by.
        let rule_idx = candidates[0].0;
        let m = candidates[0].1.clone();
        let ghost one = seq![(rule_idx, m)];
        let r = self.try_apply_rule(rule_idx, m, &mut calls);
        proof {
            assert(one.last() == one[0]);
            assert(old(self).step_made(self, cands, r, one));
            assert(calls_view(calls@) =~= old(self).step_calls(self, one));
        }
        (r, calls)
    }

    /// Perform one rewrite step with observer callbacks: the step of `step`,
    /// whose observer calls `step_recorded` lists, made in that order. The
    /// completed step hands the observer the graph it produced.
    pub fn step_observed<R: RandomSource, O: RewriteObserver<N, E>>(
        &mut self,
        rng: &mut R,
        observer: &mut O,
    ) -> (r: StepResult)
        requires
            old(self).wf(),
            old(self).spec_steps() < usize::MAX,
            obeys_concrete_eq::<N::Kind>(),
            obeys_concrete_eq::<E::Kind>(),
        ensures
            final(self).wf(),
            old(self).same_setup(final(self)),
            r matches StepResult::Applied { rule_index, .. } ==> rule_index < old(self).spec_rules().len(),
            exists|cands: Seq<(usize, Match, u32)>| #[trigger] candidates_of(old(self).spec_graph()@, old(self).spec_rules(), cands) && old(self).step_outcome(final(self), cands, r),
            exists|cands: Seq<(usize, Match, u32)>, sel: Seq<(usize, Match)>|
                #[trigger] candidates_of(old(self).spec_graph()@, old(self).spec_rules(), cands)
                    && #[trigger] old(self).step_made(final(self), cands, r, sel) && drawn_by(
                    old(self).spec_config(),
                    cands,
                    sel,
                    *old(rng),
                    *final(rng),
                ),
    {
        let (r, calls) = self.step_recorded(rng);
        let mut k: usize = 0;
        while k < calls.len()
            invariant
                0 <= k <= calls@.len(),
            decreases calls@.len() - k,
        {
            match &calls[k] {
                ObserverCall::Match { rule_index, nodes } => observer.on_match(*rule_index, nodes.as_slice()),
                ObserverCall::RuleApplied { rule_index, rule_name } => observer.on_rule_applied(*rule_index, rule_name),
                ObserverCall::ConstraintViolated { rule_index } => observer.on_constraint_violated(*rule_index),
                ObserverCall::StepComplete { step } => observer.on_step_complete(*step, &self.graph),
                ObserverCall::NoMatch => observer.on_no_match(),
            }
            k = k + 1;
        }
        r
    }

    /// Run rewriting to completion (until no rules match or max_steps reached).
    ///
    /// Always succeeds. The result is the state after a run of steps from
    /// this rewriter, one for each entry of `rules_applied`, each reporting
    /// that it applied the rule recorded there; the run ends when no rule
    /// matches, or when the step count or the number of rule applications
    /// in this run (those a constraint refused included) reaches `max_steps`.
    #[verifier::spinoff_prover]
    pub fn rewrite<R: RandomSource>(self, rng: &mut R) -> (r: Result<RewriteResult<N, E>, RewriteError>)
        requires
            self.wf(),
            obeys_concrete_eq::<N::Kind>(),
            obeys_concrete_eq::<E::Kind>(),
        ensures
            r is Ok,
            r matches Ok(res) ==> {
                &&& res.graph.wf()
                &&& exists|states: Seq<Self>|
                    #[trigger] self.applied_run(states, res.rules_applied@) && res.graph == states.last().spec_graph()
                        && res.steps == states.last().spec_steps()
                &&& res.steps >= self.spec_config().max_steps || res.rules_applied@.len()
                    >= self.spec_config().max_steps || rewriting_done(res.graph@, self.spec_rules())
                &&& res.rules_applied@.len() <= self.spec_config().max_steps
                &&& res.steps >= self.spec_steps()
                &&& self.spec_steps() < self.spec_config().max_steps ==> res.steps <= self.spec_config().max_steps
                &&& forall|i: int|
                    0 <= i < res.rules_applied@.len() ==> #[trigger] res.rules_applied@[i] < self.spec_rules().len()
                &&& res.steps - self.spec_steps() <= res.rules_applied@.len()
                &&& !self.has_constraints() ==> res.steps - self.spec_steps() == res.rules_applied@.len()
            },
    {
        let ghost start = self;
        let mut this = self;
        let max_steps = this.config.max_steps;
        let mut rules_applied: Vec<usize> = Vec::new();
        let ghost mut states: Seq<Self> = seq![this];
        loop
            invariant
                this.wf(),
                start == self,
                self.same_setup(&this),
                start.applied_run(states, rules_applied@),
                states.last() == this,
                max_steps == self.spec_config().max_steps,
                this.spec_steps() >= self.spec_steps(),
                self.spec_steps() < max_steps ==> this.spec_steps() <= max_steps,
                rules_applied@.len() <= max_steps,
                forall|i: int|
                    0 <= i < rules_applied@.len() ==> #[trigger] rules_applied@[i] < self.spec_rules().len(),
                this.spec_steps() - self.spec_steps() <= rules_applied@.len(),
                !self.has_constraints() ==> this.spec_steps() - self.spec_steps() == rules_applied@.len(),
                obeys_concrete_eq::<N::Kind>(),
                obeys_concrete_eq::<E::Kind>(),
            decreases max_steps - rules_applied@.len(),
        {
            if this.steps >= max_steps || rules_applied.len() >= max_steps {
                proof {
                    assert(self.applied_run(states, rules_applied@));
                    assert(this.graph == states.last().spec_graph());
                    assert(this.steps == states.last().spec_steps());
                }
                let res = RewriteResult { graph: this.graph, steps: this.steps, rules_applied };
                proof {
                    assert(self.applied_run(states, res.rules_applied@) && res.graph == states.last().spec_graph()
                        && res.steps == states.last().spec_steps());
                    assert(res.steps >= self.spec_config().max_steps || res.rules_applied@.len()
                        >= self.spec_config().max_steps);
                    assert(res.rules_applied@.len() <= self.spec_config().max_steps);
                    assert(res.steps - self.spec_steps() <= res.rules_applied@.len());
                }
                return Ok(res);
            }
            let ghost before = this;
            match this.step(rng) {
                StepResult::Applied { rule_index, rule_name } => {
                    proof {
                        let r = StepResult::Applied { rule_index, rule_name };
                        let cands = choose|cands: Seq<(usize, Match, u32)>| #[trigger] candidates_of(before.spec_graph()@, before.spec_rules(), cands) && before.step_outcome(&this, cands, r);
                        before.lemma_outcome_counts(&this, cands, r);
                        assert(before.steps_to(&this, before.applied_result(rule_index as int)));
                        let old_states = states;
                        let old_applied = rules_applied@;
                        states = states.push(this);
                        let applied = old_applied.push(rule_index);
                        assert forall|t: int| 0 <= t < applied.len() implies #[trigger] states[t].steps_to(
                            &states[t + 1],
                            states[t].applied_result(applied[t] as int),
                        ) by {
                            if t < old_applied.len() {
                                assert(states[t] == old_states[t]);
                                assert(states[t + 1] == old_states[t + 1]);
                                assert(applied[t] == old_applied[t]);
                            }
                        }
                        assert(start.applied_run(states, applied));
                    }
                    rules_applied.push(rule_index);
                },
                StepResult::NoMatch => {
                    proof {
                        let cands = choose|cands: Seq<(usize, Match, u32)>| #[trigger] candidates_of(before.spec_graph()@, before.spec_rules(), cands) && before.step_outcome(&this, cands, StepResult::NoMatch);
                        before.lemma_outcome_counts(&this, cands, StepResult::NoMatch);
                        assert(cands.len() == 0);
                        lemma_no_candidates_iff_no_match(
                            before.spec_graph()@,
                            node_kinds(before.spec_graph()@),
                            edge_kinds(before.spec_graph()@),
                            before.spec_rules(),
                            cands,
                        );
                        assert(this.spec_graph() == before.spec_graph());
                        assert(rewriting_done(this.spec_graph()@, self.spec_rules()));
                        assert(self.applied_run(states, rules_applied@));
                        assert(states.last() == before);
                        assert(this.graph == states.last().spec_graph());
                        assert(this.steps == states.last().spec_steps());
                    }
                    let res = RewriteResult { graph: this.graph, steps: this.steps, rules_applied };
                    proof {
                        assert(self.applied_run(states, res.rules_applied@) && res.graph == states.last().spec_graph()
                            && res.steps == states.last().spec_steps());
                        assert(rewriting_done(res.graph@, self.spec_rules()));
                        assert(res.rules_applied@.len() <= self.spec_config().max_steps);
                        assert(res.steps >= self.spec_steps());
                        assert(res.steps - self.spec_steps() <= res.rules_applied@.len());
                    }
                    return Ok(res);
                },
            }
        }
    }

    /// Get a reference to the current graph state.
    pub fn graph(&self) -> (r: &Graph<N, E>)
        ensures
            *r == self.spec_graph(),
    {
        &self.graph
    }

    /// Get the number of steps performed so far.
    pub fn steps(&self) -> (r: usize)
        ensures
            r as nat == self.spec_steps(),
    {
        self.steps
    }
}

// ----- what an application leaves alone -----

proof fn lemma_place_nodes_keeps<N: NodeData, E>(
    g: GraphView<N, E>,
    nodes: Seq<ReplacementNode<N>>,
    m: Seq<NodeId>,
    nd: Seq<N>,
    i: int,
)
    requires
        0 <= i < g.nodes.len(),
        !m.contains(NodeId(i as usize)),
        nd.len() == nodes.len(),
        forall|j: int| 0 <= j < nodes.len() ==> match (#[trigger] nodes[j]).from_lhs {
            Some(l) => l.0 < m.len(),
            None => true,
        },
    ensures
        place_nodes(g, nodes, m, nd).nodes.len() >= g.nodes.len(),
        place_nodes(g, nodes, m, nd).nodes[i] == g.nodes[i],
    decreases nodes.len(),
{
    if nodes.len() > 0 {
        let prev = nodes.drop_last();
        assert forall|j: int| 0 <= j < prev.len() implies match (#[trigger] prev[j]).from_lhs {
            Some(l) => l.0 < m.len(),
            None => true,
        } by {
            assert(prev[j] == nodes[j]);
        }
        lemma_place_nodes_keeps(g, prev, m, nd.drop_last(), i);
        let rn = nodes.last();
        assert(nodes[nodes.len() - 1] == rn);
        match rn.from_lhs {
            Some(l) => {
                if m[l.0 as int].0 == i {
                    assert(m[l.0 as int] == NodeId(i as usize));
                    assert(m.contains(NodeId(i as usize)));
                }
            },
            None => {},
        }
    }
}

proof fn lemma_place_edges_nodes<N, E>(
    g: GraphView<N, E>,
    edges: Seq<(LocalId, LocalId, E)>,
    ids: Seq<Option<NodeId>>,
    ed: Seq<E>,
)
    ensures
        place_edges(g, edges, ids, ed).nodes == g.nodes,
    decreases edges.len(),
{
    if edges.len() > 0 {
        lemma_place_edges_nodes(g, edges.drop_last(), ids, ed.drop_last());
    }
}

proof fn lemma_redirect_nodes<N, E>(g: GraphView<N, E>, list: Seq<EdgeId>, new: NodeId, matched: Seq<NodeId>)
    ensures
        redirect_in(g, list, new, matched).nodes == g.nodes,
        redirect_out(g, list, new, matched).nodes == g.nodes,
    decreases list.len(),
{
    if list.len() > 0 {
        lemma_redirect_nodes(g, list.drop_last(), new, matched);
    }
}

proof fn lemma_reconnect_nodes<N, E>(
    g: GraphView<N, E>,
    recs: Seq<Reconnection>,
    ids: Seq<Option<NodeId>>,
    m: Seq<NodeId>,
)
    ensures
        reconnect(g, recs, ids, m).nodes == g.nodes,
    decreases recs.len(),
{
    if recs.len() > 0 {
        let g1 = reconnect(g, recs.drop_last(), ids, m);
        lemma_reconnect_nodes(g, recs.drop_last(), ids, m);
        let c = recs.last();
        match ids[c.to.0 as int] {
            Some(new) => {
                let old = m[c.from.0 as int];
                if old != new {
                    lemma_redirect_nodes(g1, g1.in_edges(old), new, m);
                    let g2 = redirect_in(g1, g1.in_edges(old), new, m);
                    lemma_redirect_nodes(g2, g2.out_edges(old), new, m);
                }
            },
            None => {},
        }
    }
}

proof fn lemma_remove_unkept_keeps<N, E>(g: GraphView<N, E>, list: Seq<NodeId>, kept: Seq<NodeId>, i: int)
    requires
        0 <= i < g.nodes.len(),
        !list.contains(NodeId(i as usize)),
    ensures
        remove_unkept(g, list, kept).nodes.len() == g.nodes.len(),
        remove_unkept(g, list, kept).nodes[i] == g.nodes[i],
    decreases list.len(),
{
    if list.len() > 0 {
        let prev = list.drop_last();
        assert(!prev.contains(NodeId(i as usize))) by {
            if prev.contains(NodeId(i as usize)) {
                let k = choose|k: int| 0 <= k < prev.len() && prev[k] == NodeId(i as usize);
                assert(list[k] == prev[k]);
            }
        }
        lemma_remove_unkept_keeps(g, prev, kept, i);
        let n = list.last();
        assert(list[list.len() - 1] == n);
        if n.0 == i {
            assert(n == NodeId(i as usize));
        }
    }
}

proof fn lemma_removal_list_matched<N: NodeData>(nodes: Seq<ReplacementNode<N>>, m: Seq<NodeId>, x: NodeId)
    requires
        forall|j: int| 0 <= j < nodes.len() ==> match (#[trigger] nodes[j]).from_lhs {
            Some(l) => l.0 < m.len(),
            None => true,
        },
        removal_list(nodes, m).contains(x),
    ensures
        m.contains(x),
    decreases nodes.len(),
{
    let prev = nodes.drop_last();
    let rn = nodes.last();
    assert(nodes[nodes.len() - 1] == rn);
    assert forall|j: int| 0 <= j < prev.len() implies match (#[trigger] prev[j]).from_lhs {
        Some(l) => l.0 < m.len(),
        None => true,
    } by {
        assert(prev[j] == nodes[j]);
    }
    match rn.from_lhs {
        Some(l) => {
            if rn.action is Remove {
                let r = removal_list(prev, m);
                if r.contains(x) {
                    lemma_removal_list_matched(prev, m, x);
                } else {
                    lemma_seq_push_contains(r, m[l.0 as int], x);
                    assert(m[l.0 as int] == x);
                }
            } else {
                lemma_removal_list_matched(prev, m, x);
            }
        },
        None => {
            lemma_removal_list_matched(prev, m, x);
        },
    }
}

/// Applying a rule changes no node outside the match: every node slot of
/// the old graph that the match does not name holds afterwards what it held
/// before (live with the same data, or empty).
pub proof fn lemma_unmatched_nodes_untouched<N: NodeData, E: EdgeData>(
    g: GraphView<N, E>,
    rhs: Replacement<N, E>,
    m: Seq<NodeId>,
    h: GraphView<N, E>,
    i: int,
)
    requires
        rhs.fits_lhs(m.len()),
        applies(g, rhs, m, h),
        0 <= i < g.nodes.len(),
        !m.contains(NodeId(i as usize)),
    ensures
        h.nodes[i] == g.nodes[i],
{
    let (nd, ed) = choose|nd: Seq<N>, ed: Seq<E>|
        {
            &&& nd.len() == rhs.nodes@.len()
            &&& ed.len() == rhs.edges@.len()
            &&& node_clones(g, rhs.nodes@, m, nd)
            &&& edge_clones(rhs.edges@, placed_ids(g.nodes.len(), rhs.nodes@, m), ed)
            &&& h == rewritten(g, rhs, m, nd, ed)
        };
    let nodes = rhs.nodes@;
    assert forall|j: int| 0 <= j < nodes.len() implies match (#[trigger] nodes[j]).from_lhs {
        Some(l) => l.0 < m.len(),
        None => true,
    } by {
        assert(rhs.nodes@[j] == nodes[j]);
    }
    let ids = placed_ids(g.nodes.len(), nodes, m);
    let g0 = g.without_edges_within(m);
    let g1 = place_nodes(g0, nodes, m, nd);
    assert(g0.nodes == g.nodes);
    assert(g0.nodes.len() == g.nodes.len());
    lemma_place_nodes_keeps(g0, nodes, m, nd, i);
    let g2 = place_edges(g1, rhs.edges@, ids, ed);
    lemma_place_edges_nodes(g1, rhs.edges@, ids, ed);
    let g3 = reconnect(g2, rhs.reconnections@, ids, m);
    lemma_reconnect_nodes(g2, rhs.reconnections@, ids, m);
    let kept = kept_ids(ids);
    lemma_remove_unkept_keeps(g3, m, kept, i);
    let g4 = remove_unkept(g3, m, kept);
    let rl = removal_list(nodes, m);
    assert(!rl.contains(NodeId(i as usize))) by {
        if rl.contains(NodeId(i as usize)) {
            lemma_removal_list_matched(nodes, m, NodeId(i as usize));
        }
    }
    lemma_remove_unkept_keeps(g4, rl, kept, i);
}

// ----- when a step finds nothing -----

proof fn lemma_flat_empty<N: NodeData, E: EdgeData>(
    rules: Seq<Rule<N, E>>,
    per_rule: Seq<Seq<Seq<NodeId>>>,
    k: nat,
)
    requires
        k <= per_rule.len(),
    ensures
        flat_candidates(rules, per_rule, k).len() == 0 <==> forall|r: int|
            0 <= r < k ==> (#[trigger] per_rule[r]).len() == 0,
    decreases k,
{
    if k > 0 {
        lemma_flat_empty(rules, per_rule, (k - 1) as nat);
        if flat_candidates(rules, per_rule, k).len() == 0 {
            assert forall|r: int| 0 <= r < k implies (#[trigger] per_rule[r]).len() == 0 by {
                if r < k - 1 {
                } else {
                    assert(per_rule[k - 1].map_values(
                        |mm: Seq<NodeId>| (((k - 1) as usize), mm, rules[k - 1].weight),
                    ).len() == per_rule[k - 1].len());
                }
            }
        }
    }
}

/// A step finds no candidate exactly when no rule has a match: the
/// candidates list every match of every rule.
pub proof fn lemma_no_candidates_iff_no_match<N: NodeData, E: EdgeData>(
    g: GraphView<N, E>,
    nk: Seq<Option<N::Kind>>,
    ek: Seq<Option<E::Kind>>,
    rules: Seq<Rule<N, E>>,
    cands: Seq<(usize, Match, u32)>,
)
    requires
        lists_candidates(g, nk, ek, rules, cands),
    ensures
        cands.len() == 0 <==> forall|r: int, m: Seq<NodeId>|
            0 <= r < rules.len() ==> !#[trigger] is_match(g, nk, ek, rules[r].lhs, m),
{
    let per_rule = choose|per_rule: Seq<Seq<Seq<NodeId>>>|
        {
            &&& per_rule.len() == rules.len()
            &&& forall|r: int|
                0 <= r < rules.len() ==> lists_all_matches(g, nk, ek, rules[r].lhs, #[trigger] per_rule[r])
            &&& cand_view(cands) == flat_candidates(rules, per_rule, rules.len())
        };
    lemma_flat_empty(rules, per_rule, rules.len());
    assert(cand_view(cands).len() == cands.len());
    if cands.len() == 0 {
        assert forall|r: int, m: Seq<NodeId>| 0 <= r < rules.len() implies !#[trigger] is_match(
            g,
            nk,
            ek,
            rules[r].lhs,
            m,
        ) by {
            assert(lists_all_matches(g, nk, ek, rules[r].lhs, per_rule[r]));
            assert(m.take(0) =~= Seq::<NodeId>::empty());
            if is_match(g, nk, ek, rules[r].lhs, m) {
                assert(per_rule[r].contains(m));
            }
        }
    } else {
        let r = choose|r: int| 0 <= r < rules.len() && (#[trigger] per_rule[r]).len() != 0;
        assert(lists_all_matches(g, nk, ek, rules[r].lhs, per_rule[r]));
        assert(is_match(g, nk, ek, rules[r].lhs, per_rule[r][0]));
    }
}

// ----- edges an application leaves alone -----

proof fn lemma_place_nodes_edges<N: NodeData, E>(
    g: GraphView<N, E>,
    nodes: Seq<ReplacementNode<N>>,
    m: Seq<NodeId>,
    nd: Seq<N>,
)
    ensures
        place_nodes(g, nodes, m, nd).edges == g.edges,
    decreases nodes.len(),
{
    if nodes.len() > 0 {
        lemma_place_nodes_edges(g, nodes.drop_last(), m, nd.drop_last());
    }
}

proof fn lemma_place_edges_prefix<N, E>(
    g: GraphView<N, E>,
    edges: Seq<(LocalId, LocalId, E)>,
    ids: Seq<Option<NodeId>>,
    ed: Seq<E>,
)
    ensures
        place_edges(g, edges, ids, ed).edges.len() >= g.edges.len(),
        forall|i: int| 0 <= i < g.edges.len() ==> #[trigger] place_edges(g, edges, ids, ed).edges[i] == g.edges[i],
    decreases edges.len(),
{
    if edges.len() > 0 {
        lemma_place_edges_prefix(g, edges.drop_last(), ids, ed.drop_last());
    }
}

proof fn lemma_redirect_len<N, E>(g: GraphView<N, E>, list: Seq<EdgeId>, new: NodeId, matched: Seq<NodeId>)
    ensures
        redirect_in(g, list, new, matched).edges.len() >= g.edges.len(),
        redirect_out(g, list, new, matched).edges.len() >= g.edges.len(),
    decreases list.len(),
{
    if list.len() > 0 {
        lemma_redirect_len(g, list.drop_last(), new, matched);
    }
}

proof fn lemma_reconnect_len<N, E>(
    g: GraphView<N, E>,
    recs: Seq<Reconnection>,
    ids: Seq<Option<NodeId>>,
    m: Seq<NodeId>,
)
    ensures
        reconnect(g, recs, ids, m).edges.len() >= g.edges.len(),
    decreases recs.len(),
{
    if recs.len() > 0 {
        let g1 = reconnect(g, recs.drop_last(), ids, m);
        lemma_reconnect_len(g, recs.drop_last(), ids, m);
        let c = recs.last();
        match ids[c.to.0 as int] {
            Some(new) => {
                let old = m[c.from.0 as int];
                if old != new {
                    lemma_redirect_len(g1, g1.in_edges(old), new, m);
                    let g2 = redirect_in(g1, g1.in_edges(old), new, m);
                    lemma_redirect_len(g2, g2.out_edges(old), new, m);
                }
            },
            None => {},
        }
    }
}

/// An edge not listed keeps its slot through the moves.
proof fn lemma_redirect_keeps<N, E>(g: GraphView<N, E>, list: Seq<EdgeId>, new: NodeId, matched: Seq<NodeId>, e: int)
    requires
        0 <= e < g.edges.len(),
        g.edges.len() <= usize::MAX,
        !list.contains(EdgeId(e as usize)),
    ensures
        redirect_in(g, list, new, matched).edges[e] == g.edges[e],
        redirect_out(g, list, new, matched).edges[e] == g.edges[e],
    decreases list.len(),
{
    if list.len() > 0 {
        let prev = list.drop_last();
        assert(!prev.contains(EdgeId(e as usize))) by {
            if prev.contains(EdgeId(e as usize)) {
                let k = choose|k: int| 0 <= k < prev.len() && prev[k] == EdgeId(e as usize);
                assert(list[k] == prev[k]);
            }
        }
        lemma_redirect_keeps(g, prev, new, matched, e);
        lemma_redirect_len(g, prev, new, matched);
        let last = list.last();
        assert(list[list.len() - 1] == last);
        if last.0 as int == e {
            assert(last == EdgeId(e as usize));
        }
    }
}

/// Edges whose ends are both other than `old` keep their slots through a
/// redirection away from `old`.
proof fn lemma_redirect_spares<N, E>(g: GraphView<N, E>, old: NodeId, new: NodeId, matched: Seq<NodeId>, e: int)
    requires
        g.edge_live(e),
        g.edge_at(e).source != old,
        g.edge_at(e).target != old,
        redirect(g, old, new, matched).edges.len() <= usize::MAX,
    ensures
        redirect(g, old, new, matched).edges[e] == g.edges[e],
{
    if old != new {
        let g1 = redirect_in(g, g.in_edges(old), new, matched);
        lemma_redirect_len(g, g.in_edges(old), new, matched);
        lemma_redirect_len(g1, g1.out_edges(old), new, matched);
        let id = EdgeId(e as usize);
        if g.node_live(old.0 as int) {
            g.lemma_upto_contains(old, g.edges.len(), id);
        }
        lemma_redirect_keeps(g, g.in_edges(old), new, matched, e);
        if g1.node_live(old.0 as int) {
            g1.lemma_upto_contains(old, g1.edges.len(), id);
        }
        lemma_redirect_keeps(g1, g1.out_edges(old), new, matched, e);
    }
}

proof fn lemma_reconnect_spares<N, E>(
    g: GraphView<N, E>,
    recs: Seq<Reconnection>,
    ids: Seq<Option<NodeId>>,
    m: Seq<NodeId>,
    e: int,
)
    requires
        g.edge_live(e),
        !m.contains(g.edge_at(e).source),
        !m.contains(g.edge_at(e).target),
        forall|c: int| 0 <= c < recs.len() ==> (#[trigger] recs[c]).from.0 < m.len(),
        reconnect(g, recs, ids, m).edges.len() <= usize::MAX,
    ensures
        reconnect(g, recs, ids, m).edges[e] == g.edges[e],
    decreases recs.len(),
{
    if recs.len() > 0 {
        let prev = recs.drop_last();
        let g1 = reconnect(g, prev, ids, m);
        let c = recs.last();
        assert(recs[recs.len() - 1] == c);
        assert forall|k: int| 0 <= k < prev.len() implies (#[trigger] prev[k]).from.0 < m.len() by {
            assert(prev[k] == recs[k]);
        }
        match ids[c.to.0 as int] {
            Some(new) => {
                let old = m[c.from.0 as int];
                lemma_redirect_len(g1, g1.in_edges(old), new, m);
                let g2 = redirect_in(g1, g1.in_edges(old), new, m);
                lemma_redirect_len(g2, g2.out_edges(old), new, m);
                lemma_reconnect_spares(g, prev, ids, m, e);
                lemma_reconnect_len(g, prev, ids, m);
                assert(m.contains(old));
                lemma_redirect_spares(g1, old, new, m, e);
            },
            None => {
                lemma_reconnect_spares(g, prev, ids, m, e);
            },
        }
    }
}

proof fn lemma_remove_unkept_len<N, E>(g: GraphView<N, E>, list: Seq<NodeId>, kept: Seq<NodeId>)
    ensures
        remove_unkept(g, list, kept).edges.len() == g.edges.len(),
    decreases list.len(),
{
    if list.len() > 0 {
        lemma_remove_unkept_len(g, list.drop_last(), kept);
    }
}

proof fn lemma_remove_unkept_spares<N, E>(g: GraphView<N, E>, list: Seq<NodeId>, kept: Seq<NodeId>, e: int)
    requires
        0 <= e < g.edges.len(),
        g.edges[e] is Some ==> !list.contains(g.edge_at(e).source) && !list.contains(g.edge_at(e).target),
    ensures
        remove_unkept(g, list, kept).edges.len() == g.edges.len(),
        remove_unkept(g, list, kept).edges[e] == g.edges[e],
    decreases list.len(),
{
    if list.len() > 0 {
        let prev = list.drop_last();
        let n = list.last();
        assert(list[list.len() - 1] == n);
        if g.edges[e] is Some {
            assert(!prev.contains(g.edge_at(e).source)) by {
                if prev.contains(g.edge_at(e).source) {
                    let k = choose|k: int| 0 <= k < prev.len() && prev[k] == g.edge_at(e).source;
                    assert(list[k] == prev[k]);
                }
            }
            assert(!prev.contains(g.edge_at(e).target)) by {
                if prev.contains(g.edge_at(e).target) {
                    let k = choose|k: int| 0 <= k < prev.len() && prev[k] == g.edge_at(e).target;
                    assert(list[k] == prev[k]);
                }
            }
            assert(list.contains(n));
            assert(g.edge_at(e).source.0 != n.0 && g.edge_at(e).target.0 != n.0);
        }
        lemma_remove_unkept_spares(g, prev, kept, e);
    }
}

/// Applying a rule leaves alone every edge whose ends both lie outside the
/// match: its slot holds the same edge afterwards.
pub proof fn lemma_unmatched_edges_untouched<N: NodeData, E: EdgeData>(
    g: GraphView<N, E>,
    rhs: Replacement<N, E>,
    m: Seq<NodeId>,
    h: GraphView<N, E>,
    e: int,
)
    requires
        rhs.fits_lhs(m.len()),
        applies(g, rhs, m, h),
        h.edges.len() <= usize::MAX,
        g.edge_live(e),
        !m.contains(g.edge_at(e).source),
        !m.contains(g.edge_at(e).target),
    ensures
        h.edges[e] == g.edges[e],
{
    let (nd, ed) = choose|nd: Seq<N>, ed: Seq<E>|
        {
            &&& nd.len() == rhs.nodes@.len()
            &&& ed.len() == rhs.edges@.len()
            &&& node_clones(g, rhs.nodes@, m, nd)
            &&& edge_clones(rhs.edges@, placed_ids(g.nodes.len(), rhs.nodes@, m), ed)
            &&& h == rewritten(g, rhs, m, nd, ed)
        };
    let nodes = rhs.nodes@;
    let ids = placed_ids(g.nodes.len(), nodes, m);
    let g0 = g.without_edges_within(m);
    assert(g0.nodes == g.nodes);
    assert(!g.edge_within(e, m));
    assert(g0.edges[e] == g.edges[e]);
    let g1 = place_nodes(g0, nodes, m, nd);
    lemma_place_nodes_edges(g0, nodes, m, nd);
    let g2 = place_edges(g1, rhs.edges@, ids, ed);
    lemma_place_edges_prefix(g1, rhs.edges@, ids, ed);
    assert(g2.edges[e] == g.edges[e]);
    let recs = rhs.reconnections@;
    let g3 = reconnect(g2, recs, ids, m);
    let kept = kept_ids(ids);
    let g4 = remove_unkept(g3, m, kept);
    let rl = removal_list(nodes, m);
    lemma_reconnect_len(g2, recs, ids, m);
    assert forall|c: int| 0 <= c < recs.len() implies (#[trigger] recs[c]).from.0 < m.len() by {
        assert(rhs.reconnections@[c] == recs[c]);
    }
    lemma_remove_unkept_len(g3, m, kept);
    lemma_remove_unkept_len(g4, rl, kept);
    lemma_reconnect_spares(g2, recs, ids, m, e);
    assert(g3.edges[e] == g.edges[e]);
    lemma_remove_unkept_spares(g3, m, kept, e);
    assert forall|j: int| 0 <= j < nodes.len() implies match (#[trigger] nodes[j]).from_lhs {
        Some(l) => l.0 < m.len(),
        None => true,
    } by {
        assert(rhs.nodes@[j] == nodes[j]);
    }
    assert(!rl.contains(g.edge_at(e).source)) by {
        if rl.contains(g.edge_at(e).source) {
            lemma_removal_list_matched(nodes, m, g.edge_at(e).source);
        }
    }
    assert(!rl.contains(g.edge_at(e).target)) by {
        if rl.contains(g.edge_at(e).target) {
            lemma_removal_list_matched(nodes, m, g.edge_at(e).target);
        }
    }
    lemma_remove_unkept_spares(g4, rl, kept, e);
}

} // verus!
