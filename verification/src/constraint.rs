//! Structural constraints checked during rewriting.

use vstd::prelude::*;
use vstd::laws_eq::obeys_concrete_eq;
use crate::graph::{Graph, GraphKinds, GraphView, NodeId, EdgeId, node_kinds, same_shape, lemma_seq_push_contains};
use crate::node::NodeData;
use crate::edge::EdgeData;
use crate::pattern::{contains_node, kinds_equal};

verus! {

/// A structural constraint checked after each rule application.
/// If `check` returns false, the rule application is rolled back.
///
/// An implementation decides from the graph alone: `check` answers
/// `accepts` of the graph, every time.
pub trait StructuralConstraint<N: NodeData, E: EdgeData> {
    /// Whether the constraint accepts a graph.
    spec fn accepts(&self, g: GraphView<N, E>) -> bool;

    /// Check whether the graph satisfies this constraint.
    ///
    /// Callers give a well-formed graph whose kinds compare by value.
    fn check(&self, graph: &Graph<N, E>) -> (r: bool)
        requires
            graph.wf(),
            obeys_concrete_eq::<N::Kind>(),
            obeys_concrete_eq::<E::Kind>(),
        ensures
            r == self.accepts(graph@),
    ;
}

// ----- breadth-first search over the graph taken as undirected -----

/// The nodes adjacent to `n`: the targets of its outgoing edges, then the
/// sources of its incoming edges, in edge order. Empty unless `n` is live.
pub open spec fn neighbors<N, E>(g: GraphView<N, E>, n: NodeId) -> Seq<NodeId> {
    g.out_edges(n).map_values(|e: EdgeId| g.edge_at(e.0 as int).target) + g.in_edges(n).map_values(
        |e: EdgeId| g.edge_at(e.0 as int).source,
    )
}

/// `visited` followed by the candidates not seen yet, each once, in order.
pub open spec fn discover(visited: Seq<NodeId>, cands: Seq<NodeId>) -> Seq<NodeId>
    decreases cands.len(),
{
    if cands.len() == 0 {
        visited
    } else {
        let v = discover(visited, cands.drop_last());
        if v.contains(cands.last()) {
            v
        } else {
            v.push(cands.last())
        }
    }
}

/// Breadth-first search state: `visited` in discovery order, of which the
/// first `head` have been expanded. Runs at most `fuel` expansions.
pub open spec fn bfs_from<N, E>(
    g: GraphView<N, E>,
    visited: Seq<NodeId>,
    head: nat,
    fuel: nat,
) -> Seq<NodeId>
    decreases fuel,
{
    if fuel == 0 || head >= visited.len() {
        visited
    } else {
        bfs_from(g, discover(visited, neighbors(g, visited[head as int])), head + 1, (fuel - 1) as nat)
    }
}

/// The nodes reached by breadth-first search from `start`, treating edges as
/// undirected, in the order they are reached. The search expands at most one
/// more node than the graph has slots, which is enough to reach all.
pub open spec fn bfs_order<N, E>(g: GraphView<N, E>, start: NodeId) -> Seq<NodeId> {
    bfs_from(g, seq![start], 0, (g.nodes.len() + 1) as nat)
}

/// A sequence of node ids without repetitions, all below `bound`, is at most
/// `bound` long.
pub proof fn lemma_distinct_bounded(s: Seq<NodeId>, bound: nat)
    requires
        s.no_duplicates(),
        forall|i: int| 0 <= i < s.len() ==> (#[trigger] s[i]).0 < bound,
    ensures
        s.len() <= bound,
    decreases bound,
{
    if bound == 0 {
        if s.len() > 0 {
            assert(s[0].0 < 0);
        }
    } else {
        let top = NodeId((bound - 1) as usize);
        if s.contains(top) {
            let k = choose|k: int| 0 <= k < s.len() && s[k] == top;
            let r = s.remove(k);
            assert forall|i: int| 0 <= i < r.len() implies (#[trigger] r[i]).0 < bound - 1 by {
                if i < k {
                    assert(r[i] == s[i]);
                    assert(s[i] != s[k]);
                } else {
                    assert(r[i] == s[i + 1]);
                    assert(s[i + 1] != s[k]);
                }
            }
            assert(r.no_duplicates()) by {
                assert forall|a: int, b: int| 0 <= a < r.len() && 0 <= b < r.len() && a != b implies r[a] != r[b] by {
                    let sa = if a < k { a } else { a + 1 };
                    let sb = if b < k { b } else { b + 1 };
                    assert(r[a] == s[sa]);
                    assert(r[b] == s[sb]);
                }
            }
            lemma_distinct_bounded(r, (bound - 1) as nat);
        } else {
            assert forall|i: int| 0 <= i < s.len() implies (#[trigger] s[i]).0 < bound - 1 by {
                if s[i].0 == bound - 1 {
                    assert(s[i] == top);
                }
            }
            lemma_distinct_bounded(s, (bound - 1) as nat);
        }
    }
}

proof fn lemma_discover_step(visited: Seq<NodeId>, cands: Seq<NodeId>, k: int)
    requires
        0 <= k < cands.len(),
    ensures
        discover(visited, cands.take(k + 1)) == ({
            let v = discover(visited, cands.take(k));
            if v.contains(cands[k]) {
                v
            } else {
                v.push(cands[k])
            }
        }),
{
    assert(cands.take(k + 1).drop_last() =~= cands.take(k));
}

/// The list of nodes adjacent to `node`, as `neighbors` describes it.
fn neighbor_list<N: NodeData, E: EdgeData>(graph: &Graph<N, E>, node: NodeId) -> (r: Vec<NodeId>)
    requires
        graph.wf(),
    ensures
        r@ == neighbors(graph@, node),
        forall|i: int| 0 <= i < r@.len() ==> (#[trigger] r@[i]).0 < graph@.nodes.len(),
{
    let ghost g = graph@;
    proof {
        graph.lemma_wf_len();
    }
    let mut r: Vec<NodeId> = Vec::new();
    let out = graph.outgoing(node);
    let ghost outs = out@.map_values(|e: EdgeId| g.edge_at(e.0 as int).target);
    let mut i: usize = 0;
    while i < out.len()
        invariant
            graph.wf(),
            g == graph@,
            g.edges.len() <= usize::MAX,
            out@ == g.out_edges(node),
            outs == out@.map_values(|e: EdgeId| g.edge_at(e.0 as int).target),
            0 <= i <= out@.len(),
            r@ == outs.take(i as int),
            forall|j: int| 0 <= j < r@.len() ==> (#[trigger] r@[j]).0 < g.nodes.len(),
        decreases out@.len() - i,
    {
        let eid = out[i];
        proof {
            g.lemma_upto_contains(node, g.edges.len(), eid);
            assert(out@.contains(eid));
            assert(outs.take(i + 1) =~= outs.take(i as int).push(outs[i as int]));
        }
        match graph.edge_endpoints(eid) {
            Some((_, target)) => {
                r.push(target);
            },
            None => {},
        }
        i = i + 1;
    }
    let inc = graph.incoming(node);
    let ghost ins = inc@.map_values(|e: EdgeId| g.edge_at(e.0 as int).source);
    proof {
        assert(outs.take(outs.len() as int) =~= outs);
    }
    let mut i: usize = 0;
    while i < inc.len()
        invariant
            graph.wf(),
            g == graph@,
            g.edges.len() <= usize::MAX,
            inc@ == g.in_edges(node),
            ins == inc@.map_values(|e: EdgeId| g.edge_at(e.0 as int).source),
            0 <= i <= inc@.len(),
            r@ == outs + ins.take(i as int),
            forall|j: int| 0 <= j < r@.len() ==> (#[trigger] r@[j]).0 < g.nodes.len(),
        decreases inc@.len() - i,
    {
        let eid = inc[i];
        proof {
            g.lemma_upto_contains(node, g.edges.len(), eid);
            assert(inc@.contains(eid));
            assert(ins.take(i + 1) =~= ins.take(i as int).push(ins[i as int]));
        }
        match graph.edge_endpoints(eid) {
            Some((source, _)) => {
                r.push(source);
            },
            None => {},
        }
        i = i + 1;
    }
    proof {
        assert(ins.take(ins.len() as int) =~= ins);
    }
    r
}

/// The nodes reached by breadth-first search from `start`, treating edges as
/// undirected, in the order they are reached.
#[verifier::spinoff_prover]
pub fn bfs_visit<N: NodeData, E: EdgeData>(graph: &Graph<N, E>, start: NodeId) -> (r: Vec<NodeId>)
    requires
        graph.wf(),
    ensures
        r@ == bfs_order(graph@, start),
        r@.no_duplicates(),
        r@.len() > 0,
        r@[0] == start,
        forall|i: int| 1 <= i < r@.len() ==> (#[trigger] r@[i]).0 < graph@.nodes.len(),
{
    let ghost g = graph@;
    let ghost bound = (g.nodes.len() + 1) as nat;
    proof {
        graph.lemma_wf_len();
    }
    let mut visited: Vec<NodeId> = Vec::new();
    visited.push(start);
    proof {
        assert(visited@ =~= seq![start]);
    }
    let mut head: usize = 0;
    while head < visited.len()
        invariant
            graph.wf(),
            g == graph@,
            bound == g.nodes.len() + 1,
            g.nodes.len() <= usize::MAX,
            0 <= head <= visited@.len(),
            visited@.len() > 0,
            visited@[0] == start,
            visited@.no_duplicates(),
            forall|i: int| 1 <= i < visited@.len() ==> (#[trigger] visited@[i]).0 < g.nodes.len(),
            bfs_order(g, start) == bfs_from(g, visited@, head as nat, (bound - head) as nat),
            visited@.len() <= bound,
        decreases bound - head,
    {
        let node = visited[head];
        let nbrs = neighbor_list(graph, node);
        let ghost v0 = visited@;
        let mut k: usize = 0;
        while k < nbrs.len()
            invariant
                graph.wf(),
                g == graph@,
                g.nodes.len() <= usize::MAX,
                0 <= k <= nbrs@.len(),
                nbrs@ == neighbors(g, v0[head as int]),
                forall|j: int| 0 <= j < nbrs@.len() ==> (#[trigger] nbrs@[j]).0 < g.nodes.len(),
                visited@ == discover(v0, nbrs@.take(k as int)),
                v0.len() > 0,
                visited@.len() >= v0.len(),
                visited@.take(v0.len() as int) == v0,
                visited@.no_duplicates(),
                forall|i: int| 1 <= i < visited@.len() ==> (#[trigger] visited@[i]).0 < g.nodes.len(),
            decreases nbrs@.len() - k,
        {
            let target = nbrs[k];
            proof {
                lemma_discover_step(v0, nbrs@, k as int);
            }
            if !contains_node(&visited, target) {
                let ghost before = visited@;
                visited.push(target);
                proof {
                    assert(visited@.take(v0.len() as int) =~= before.take(v0.len() as int));
                    assert(visited@.no_duplicates()) by {
                        assert forall|a: int, b: int| 0 <= a < visited@.len() && 0 <= b < visited@.len() && a != b implies visited@[a] != visited@[b] by {
                            if a < before.len() && b < before.len() {
                                assert(before[a] != before[b]);
                            } else if a < before.len() {
                                assert(before.contains(before[a]));
                            } else {
                                assert(before.contains(before[b]));
                            }
                        }
                    }
                }
            }
            k = k + 1;
        }
        proof {
            assert(nbrs@.take(nbrs@.len() as int) =~= nbrs@);
            assert(visited@[0] == v0[0]) by {
                assert(visited@.take(v0.len() as int)[0] == v0[0]);
            }
            lemma_distinct_bounded(visited@.drop_first(), g.nodes.len());
        }
        head = head + 1;
    }
    visited
}


// ----- what breadth-first search reaches -----

/// `a` is live and a live edge joins it to `b`, in either direction.
pub open spec fn linked<N, E>(g: GraphView<N, E>, a: NodeId, b: NodeId) -> bool {
    &&& g.node_live(a.0 as int)
    &&& exists|e: int|
        #[trigger] g.edge_live(e) && ((g.edge_at(e).source == a && g.edge_at(e).target == b) || (
        g.edge_at(e).target == a && g.edge_at(e).source == b))
}

/// Each node of `path` after the first is linked from the one before it.
pub open spec fn is_walk<N, E>(g: GraphView<N, E>, path: Seq<NodeId>) -> bool {
    &&& path.len() > 0
    &&& forall|i: int| 0 <= i < path.len() - 1 ==> linked(g, #[trigger] path[i], path[i + 1])
}

/// `b` can be reached from `a` along live edges taken in either direction.
pub open spec fn reachable<N, E>(g: GraphView<N, E>, a: NodeId, b: NodeId) -> bool {
    exists|path: Seq<NodeId>| #[trigger] is_walk(g, path) && path[0] == a && path.last() == b
}

proof fn lemma_neighbors_linked<N, E>(g: GraphView<N, E>, n: NodeId, x: NodeId)
    requires
        g.edges.len() <= usize::MAX,
    ensures
        neighbors(g, n).contains(x) <==> linked(g, n, x),
{
    let outs = g.out_edges(n);
    let ins = g.in_edges(n);
    let mo = outs.map_values(|e: EdgeId| g.edge_at(e.0 as int).target);
    let mi = ins.map_values(|e: EdgeId| g.edge_at(e.0 as int).source);
    assert(neighbors(g, n) == mo + mi);
    if neighbors(g, n).contains(x) {
        let j = choose|j: int| 0 <= j < (mo + mi).len() && (mo + mi)[j] == x;
        if j < mo.len() {
            let e = outs[j];
            assert(outs.contains(e));
            assert(g.node_live(n.0 as int));
            g.lemma_upto_contains(n, g.edges.len(), e);
            assert(g.edge_live(e.0 as int));
        } else {
            let e = ins[j - mo.len()];
            assert(ins.contains(e));
            assert(g.node_live(n.0 as int));
            g.lemma_upto_contains(n, g.edges.len(), e);
            assert(g.edge_live(e.0 as int));
        }
    }
    if linked(g, n, x) {
        let e = choose|e: int|
            #[trigger] g.edge_live(e) && ((g.edge_at(e).source == n && g.edge_at(e).target == x) || (
            g.edge_at(e).target == n && g.edge_at(e).source == x));
        let id = EdgeId(e as usize);
        g.lemma_upto_contains(n, g.edges.len(), id);
        if g.edge_at(e).source == n && g.edge_at(e).target == x {
            let j = choose|j: int| 0 <= j < outs.len() && outs[j] == id;
            assert((mo + mi)[j] == x);
        } else {
            let j = choose|j: int| 0 <= j < ins.len() && ins[j] == id;
            assert((mo + mi)[mo.len() + j] == x);
        }
    }
}

proof fn lemma_discover<N, E>(visited: Seq<NodeId>, cands: Seq<NodeId>)
    ensures
        discover(visited, cands).len() >= visited.len(),
        discover(visited, cands).take(visited.len() as int) == visited,
        forall|x: NodeId|
            #[trigger] discover(visited, cands).contains(x) <==> (visited.contains(x) || cands.contains(x)),
        visited.no_duplicates() ==> discover(visited, cands).no_duplicates(),
    decreases cands.len(),
{
    if cands.len() > 0 {
        let prev = cands.drop_last();
        let v = discover(visited, prev);
        lemma_discover::<N, E>(visited, prev);
        let last = cands.last();
        assert forall|x: NodeId| #[trigger] cands.contains(x) <==> (prev.contains(x) || last == x) by {
            assert(cands == prev.push(last));
            lemma_seq_push_contains(prev, last, x);
        }
        if !v.contains(last) {
            let w = v.push(last);
            assert(w.take(visited.len() as int) =~= v.take(visited.len() as int));
            assert forall|x: NodeId| #[trigger] w.contains(x) <==> (visited.contains(x) || cands.contains(x)) by {
                lemma_seq_push_contains(v, last, x);
            }
            if visited.no_duplicates() {
                assert(w.no_duplicates()) by {
                    assert forall|a: int, b: int| 0 <= a < w.len() && 0 <= b < w.len() && a != b implies w[a] != w[b] by {
                        if a < v.len() && b < v.len() {
                        } else if a < v.len() {
                            assert(v.contains(v[a]));
                        } else {
                            assert(v.contains(v[b]));
                        }
                    }
                }
            }
        }
    } else {
        assert(visited.take(visited.len() as int) =~= visited);
    }
}

proof fn lemma_linked_extends<N, E>(g: GraphView<N, E>, s: NodeId, a: NodeId, b: NodeId)
    requires
        reachable(g, s, a),
        linked(g, a, b),
    ensures
        reachable(g, s, b),
{
    let path = choose|path: Seq<NodeId>| #[trigger] is_walk(g, path) && path[0] == s && path.last() == a;
    let p2 = path.push(b);
    assert forall|i: int| 0 <= i < p2.len() - 1 implies linked(g, #[trigger] p2[i], p2[i + 1]) by {
        if i < path.len() - 1 {
            assert(p2[i] == path[i] && p2[i + 1] == path[i + 1]);
        } else {
            assert(p2[i] == a);
        }
    }
    assert(is_walk(g, p2));
}

#[verifier::spinoff_prover]
proof fn lemma_bfs_from<N, E>(g: GraphView<N, E>, start: NodeId, visited: Seq<NodeId>, head: nat, fuel: nat)
    requires
        g.endpoints_in_range(),
        g.edges.len() <= usize::MAX,
        visited.len() >= 1,
        visited[0] == start,
        visited.no_duplicates(),
        forall|i: int| 1 <= i < visited.len() ==> (#[trigger] visited[i]).0 < g.nodes.len(),
        head <= visited.len(),
        head + fuel == g.nodes.len() + 1,
        forall|i: int, y: NodeId| 0 <= i < head && #[trigger] linked(g, visited[i], y) ==> visited.contains(y),
        forall|x: NodeId| #[trigger] visited.contains(x) ==> reachable(g, start, x),
    ensures
        bfs_from(g, visited, head, fuel).contains(start),
        forall|x: NodeId| #[trigger] bfs_from(g, visited, head, fuel).contains(x) ==> reachable(g, start, x),
        forall|i: int, y: NodeId|
            0 <= i < bfs_from(g, visited, head, fuel).len() && #[trigger] linked(
                g,
                bfs_from(g, visited, head, fuel)[i],
                y,
            ) ==> bfs_from(g, visited, head, fuel).contains(y),
    decreases fuel,
{
    assert(visited.contains(visited[0]));
    if fuel == 0 || head >= visited.len() {
        if head < visited.len() {
            let rest = visited.drop_first();
            assert forall|i: int| 0 <= i < rest.len() implies (#[trigger] rest[i]).0 < g.nodes.len() by {
                assert(rest[i] == visited[i + 1]);
            }
            assert(rest.no_duplicates()) by {
                assert forall|a: int, b: int| 0 <= a < rest.len() && 0 <= b < rest.len() && a != b implies rest[a] != rest[b] by {
                    assert(rest[a] == visited[a + 1] && rest[b] == visited[b + 1]);
                }
            }
            lemma_distinct_bounded(rest, g.nodes.len());
        }
    } else {
        let n = visited[head as int];
        let nbrs = neighbors(g, n);
        let v2 = discover(visited, nbrs);
        lemma_discover::<N, E>(visited, nbrs);
        assert forall|y: NodeId| #[trigger] nbrs.contains(y) implies y.0 < g.nodes.len() && linked(g, n, y) by {
            lemma_neighbors_linked(g, n, y);
            let e = choose|e: int|
                #[trigger] g.edge_live(e) && ((g.edge_at(e).source == n && g.edge_at(e).target == y) || (
                g.edge_at(e).target == n && g.edge_at(e).source == y));
        }
        assert(v2[0] == start) by {
            assert(v2.take(visited.len() as int)[0] == v2[0]);
        }
        assert forall|i: int| 1 <= i < v2.len() implies (#[trigger] v2[i]).0 < g.nodes.len() by {
            if i < visited.len() {
                assert(v2.take(visited.len() as int)[i] == v2[i]);
            } else {
                assert(v2.contains(v2[i]));
                if visited.contains(v2[i]) {
                    let j = choose|j: int| 0 <= j < visited.len() && visited[j] == v2[i];
                    assert(v2.take(visited.len() as int)[j] == v2[j]);
                    assert(v2[j] == v2[i]);
                }
            }
        }
        assert forall|i: int, y: NodeId| 0 <= i < head + 1 && #[trigger] linked(g, v2[i], y) implies v2.contains(y) by {
            assert(v2.take(visited.len() as int)[i] == v2[i]);
            assert(v2[i] == visited[i]);
            if i == head {
                lemma_neighbors_linked(g, n, y);
            } else {
                assert(visited.contains(y));
            }
        }
        assert forall|x: NodeId| #[trigger] v2.contains(x) implies reachable(g, start, x) by {
            if !visited.contains(x) {
                assert(nbrs.contains(x));
                assert(visited.contains(n));
                lemma_linked_extends(g, start, n, x);
            }
        }
        lemma_bfs_from(g, start, v2, head + 1, (fuel - 1) as nat);
    }
}

/// Breadth-first search from `start` reaches exactly the nodes that can be
/// reached from `start` along live edges taken in either direction.
pub proof fn lemma_bfs_reaches_exactly<N: NodeData, E: EdgeData>(graph: &Graph<N, E>, start: NodeId)
    requires
        graph.wf(),
    ensures
        forall|x: NodeId| #[trigger] bfs_order(graph@, start).contains(x) <==> reachable(graph@, start, x),
{
    let g = graph@;
    graph.lemma_wf_len();
    let v0 = seq![start];
    assert(is_walk(g, v0));
    assert forall|x: NodeId| #[trigger] v0.contains(x) implies reachable(g, start, x) by {
        assert(v0[0] == x);
    }
    lemma_bfs_from(g, start, v0, 0, (g.nodes.len() + 1) as nat);
    let r = bfs_order(g, start);
    assert forall|x: NodeId| #[trigger] reachable(g, start, x) implies r.contains(x) by {
        let path = choose|path: Seq<NodeId>| #[trigger] is_walk(g, path) && path[0] == start && path.last() == x;
        assert forall|k: int| 0 <= k < path.len() implies r.contains(#[trigger] path[k]) by {
            lemma_walk_stays(g, r, path, k);
        }
        assert(r.contains(path[path.len() - 1]));
    }
}

proof fn lemma_walk_stays<N, E>(g: GraphView<N, E>, r: Seq<NodeId>, path: Seq<NodeId>, k: int)
    requires
        is_walk(g, path),
        r.contains(path[0]),
        forall|i: int, y: NodeId| 0 <= i < r.len() && #[trigger] linked(g, r[i], y) ==> r.contains(y),
        0 <= k < path.len(),
    ensures
        r.contains(path[k]),
    decreases k,
{
    if k > 0 {
        lemma_walk_stays(g, r, path, k - 1);
        assert(linked(g, path[k - 1], path[k]));
        let i = choose|i: int| 0 <= i < r.len() && r[i] == path[k - 1];
        assert(linked(g, r[i], path[k]));
    }
}

// ----- reachability -----

/// Live node `i` has one of the `required` kinds.
pub open spec fn required_node<N, E, NK>(g: GraphView<N, E>, nk: Seq<Option<NK>>, required: Seq<NK>, i: int) -> bool {
    g.node_live(i) && required.contains(nk[i]->0)
}

/// Every live node of a required kind is among the nodes the search from
/// `start` visits.
pub open spec fn reachability_holds<N, E, NK>(
    g: GraphView<N, E>,
    nk: Seq<Option<NK>>,
    start: NodeId,
    required: Seq<NK>,
) -> bool {
    forall|i: int|
        #[trigger] required_node(g, nk, required, i) ==> bfs_order(g, start).contains(NodeId(i as usize))
}

/// Every live node of a required kind can be reached from `start` along live
/// edges taken in either direction. A kind with no live node asks nothing.
pub open spec fn kinds_reachable<N, E, NK>(
    g: GraphView<N, E>,
    nk: Seq<Option<NK>>,
    start: NodeId,
    required: Seq<NK>,
) -> bool {
    forall|i: int| #[trigger] required_node(g, nk, required, i) ==> reachable(g, start, NodeId(i as usize))
}

/// All nodes of specified kinds are reachable from a start node.
pub struct ReachabilityConstraint<NK: Copy + Eq> {
    pub start: NodeId,
    pub required_kinds: Vec<NK>,
}

impl<NK: Copy + Eq> ReachabilityConstraint<NK> {
    pub fn new(start: NodeId, required_kinds: Vec<NK>) -> (r: Self)
        ensures
            r.start == start,
            r.required_kinds@ == required_kinds@,
    {
        Self { start, required_kinds }
    }

    /// Whether `k` is one of the required kinds.
    fn is_required(&self, k: NK) -> (r: bool)
        requires
            obeys_concrete_eq::<NK>(),
        ensures
            r == self.required_kinds@.contains(k),
    {
        let mut j: usize = 0;
        while j < self.required_kinds.len()
            invariant
                obeys_concrete_eq::<NK>(),
                0 <= j <= self.required_kinds@.len(),
                forall|t: int| 0 <= t < j ==> self.required_kinds@[t] != k,
            decreases self.required_kinds@.len() - j,
        {
            if kinds_equal(self.required_kinds[j], k) {
                return true;
            }
            j = j + 1;
        }
        false
    }

    /// The check, given the kinds of the graph's nodes.
    pub fn check_with<N: NodeData<Kind = NK>, E: EdgeData>(
        &self,
        graph: &Graph<N, E>,
        kinds: &GraphKinds<NK, E::Kind>,
    ) -> (r: bool)
        requires
            graph.wf(),
            kinds.fits(graph@),
            obeys_concrete_eq::<NK>(),
        ensures
            r == reachability_holds(graph@, kinds.nodes@, self.start, self.required_kinds@),
            r == kinds_reachable(graph@, kinds.nodes@, self.start, self.required_kinds@),
    {
        proof {
            lemma_bfs_reaches_exactly(graph, self.start);
        }
        // Search from start, treating the graph as undirected.
        let visited = bfs_visit(graph, self.start);
        let ids = graph.node_ids();
        proof {
            graph.lemma_wf_len();
        }
        let ghost g = graph@;
        let ghost nk = kinds.nodes@;
        let ghost req = self.required_kinds@;
        let mut j: usize = 0;
        while j < ids.len()
            invariant
                graph.wf(),
                g == graph@,
                nk == kinds.nodes@,
                req == self.required_kinds@,
                kinds.fits(graph@),
                obeys_concrete_eq::<NK>(),
                graph@.nodes.len() <= usize::MAX,
                ids@ == graph@.node_ids(),
                visited@ == bfs_order(graph@, self.start),
                forall|x: NodeId| #[trigger] bfs_order(g, self.start).contains(x) <==> reachable(g, self.start, x),
                0 <= j <= ids@.len(),
                forall|t: int|
                    0 <= t < j ==> (required_node(g, nk, req, (#[trigger] ids@[t]).0 as int)
                        ==> visited@.contains(ids@[t])),
            decreases ids@.len() - j,
        {
            let nid = ids[j];
            proof {
                graph@.lemma_node_ids_contains(graph@.nodes.len(), nid);
                assert(ids@.contains(nid));
            }
            match &kinds.nodes[nid.0] {
                Some(k) => {
                    if self.is_required(*k) {
                        if !contains_node(&visited, nid) {
                            proof {
                                assert(required_node(g, nk, req, nid.0 as int));
                                assert(NodeId(nid.0 as int as usize) == nid);
                                assert(!bfs_order(g, self.start).contains(nid));
                                assert(!reachable(g, self.start, nid));
                                assert(!kinds_reachable(g, nk, self.start, req));
                            }
                            return false;
                        }
                    }
                },
                None => {},
            }
            j = j + 1;
        }
        proof {
            assert forall|i: int| #[trigger] required_node(g, nk, req, i) implies bfs_order(g, self.start).contains(
                NodeId(i as usize),
            ) by {
                graph@.lemma_node_ids_contains(graph@.nodes.len(), NodeId(i as usize));
                let t = choose|t: int| 0 <= t < ids@.len() && ids@[t] == NodeId(i as usize);
                assert(ids@[t].0 == i);
            }
            assert forall|i: int| #[trigger] required_node(g, nk, req, i) implies reachable(g, self.start, NodeId(i as usize)) by {
                assert(bfs_order(g, self.start).contains(NodeId(i as usize)));
            }
        }
        true
    }
}

impl<N: NodeData, E: EdgeData> StructuralConstraint<N, E> for ReachabilityConstraint<N::Kind> {
    /// Every live node of a required kind can be reached from the start.
    open spec fn accepts(&self, g: GraphView<N, E>) -> bool {
        kinds_reachable(g, node_kinds(g), self.start, self.required_kinds@)
    }

    /// Reads the node kinds, then `check_with`.
    fn check(&self, graph: &Graph<N, E>) -> (r: bool)
        ensures
            r == reachability_holds(graph@, node_kinds(graph@), self.start, self.required_kinds@),
            r == kinds_reachable(graph@, node_kinds(graph@), self.start, self.required_kinds@),
    {
        let kinds = graph.kinds();
        let r = self.check_with(graph, &kinds);
        r
    }
}

// ----- lock and key -----

/// `k` is the lock kind of some pair.
pub open spec fn is_lock_kind_in<NK>(pairs: Seq<(NK, NK)>, k: NK) -> bool {
    exists|i: int| 0 <= i < pairs.len() && (#[trigger] pairs[i]).1 == k
}

/// Position of the first pair whose lock kind is `lock`, or the number of
/// pairs if there is none.
pub open spec fn first_lock_pair<NK>(pairs: Seq<(NK, NK)>, lock: NK) -> int
    decreases pairs.len(),
{
    if pairs.len() == 0 {
        0
    } else if pairs[0].1 == lock {
        0
    } else {
        1 + first_lock_pair(pairs.drop_first(), lock)
    }
}

/// The key kind that opens locks of kind `lock`: that of the first pair
/// naming `lock`.
pub open spec fn required_key<NK>(pairs: Seq<(NK, NK)>, lock: NK) -> NK {
    pairs[first_lock_pair(pairs, lock)].0
}

/// Node `i` is live and has kind `k`.
pub open spec fn has_kind<N, E, NK>(g: GraphView<N, E>, nk: Seq<Option<NK>>, i: int, k: NK) -> bool {
    g.node_live(i) && nk[i] == Some(k)
}

/// `g` without its nodes of kind `k` and the edges that touch one of them.
pub open spec fn without_kind<N, E, NK>(g: GraphView<N, E>, nk: Seq<Option<NK>>, k: NK) -> GraphView<N, E> {
    without_below(g, nk, k, g.nodes.len() as int)
}

/// `g` without its nodes of kind `k` among the first `n` slots, and the
/// edges that touch one of them.
pub open spec fn without_below<N, E, NK>(g: GraphView<N, E>, nk: Seq<Option<NK>>, k: NK, n: int) -> GraphView<
    N,
    E,
> {
    GraphView {
        nodes: Seq::new(
            g.nodes.len(),
            |i: int|
                if i < n && has_kind(g, nk, i, k) {
                    None
                } else {
                    g.nodes[i]
                },
        ),
        edges: Seq::new(
            g.edges.len(),
            |e: int|
                if g.edge_live(e) && ((g.edge_at(e).source.0 < n && has_kind(
                    g,
                    nk,
                    g.edge_at(e).source.0 as int,
                    k,
                )) || (g.edge_at(e).target.0 < n && has_kind(g, nk, g.edge_at(e).target.0 as int, k))) {
                    None
                } else {
                    g.edges[e]
                },
        ),
    }
}

/// Taking out the nodes of kind `k` takes out exactly those nodes, and
/// exactly the edges that touch one of them; every other node and edge stays
/// as it was.
pub proof fn lemma_without_kind<N, E, NK>(g: GraphView<N, E>, nk: Seq<Option<NK>>, k: NK)
    ensures
        without_kind(g, nk, k).nodes.len() == g.nodes.len(),
        without_kind(g, nk, k).edges.len() == g.edges.len(),
        forall|i: int|
            0 <= i < g.nodes.len() ==> (#[trigger] without_kind(g, nk, k).nodes[i] == if has_kind(g, nk, i, k) {
                None
            } else {
                g.nodes[i]
            }),
        forall|e: int|
            0 <= e < g.edges.len() ==> (#[trigger] without_kind(g, nk, k).edges[e] == if g.edge_live(e) && (
            has_kind(g, nk, g.edge_at(e).source.0 as int, k) || has_kind(g, nk, g.edge_at(e).target.0 as int, k)) {
                None
            } else {
                g.edges[e]
            }),
{
}

/// Live node `i` has a lock kind.
pub open spec fn lock_node<N, E, NK>(g: GraphView<N, E>, nk: Seq<Option<NK>>, pairs: Seq<(NK, NK)>, i: int) -> bool {
    g.node_live(i) && is_lock_kind_in(pairs, nk[i]->0)
}

/// Every lock is reached from `start` only through its key: no walk from
/// `start` to a live node of a lock kind avoids every node of the key kind
/// that opens it.
pub open spec fn lock_key_holds<N, E, NK>(
    g: GraphView<N, E>,
    nk: Seq<Option<NK>>,
    start: NodeId,
    pairs: Seq<(NK, NK)>,
) -> bool {
    forall|i: int|
        #[trigger] lock_node(g, nk, pairs, i) ==> !reachable(
            without_kind(g, nk, required_key(pairs, nk[i]->0)),
            start,
            NodeId(i as usize),
        )
}

/// Graphs of the same shape have the same walks.
proof fn lemma_same_shape_reachable<A, B, C, D>(a: GraphView<A, B>, b: GraphView<C, D>, s: NodeId, x: NodeId)
    requires
        same_shape(a, b),
    ensures
        reachable(a, s, x) == reachable(b, s, x),
{
    assert forall|u: NodeId, v: NodeId| linked(a, u, v) == linked(b, u, v) by {
        if linked(a, u, v) {
            let e = choose|e: int|
                #[trigger] a.edge_live(e) && ((a.edge_at(e).source == u && a.edge_at(e).target == v) || (
                a.edge_at(e).target == u && a.edge_at(e).source == v));
            assert(b.edge_live(e));
        }
        if linked(b, u, v) {
            let e = choose|e: int|
                #[trigger] b.edge_live(e) && ((b.edge_at(e).source == u && b.edge_at(e).target == v) || (
                b.edge_at(e).target == u && b.edge_at(e).source == v));
            assert(a.edge_live(e));
        }
    }
    if reachable(a, s, x) {
        let path = choose|path: Seq<NodeId>| #[trigger] is_walk(a, path) && path[0] == s && path.last() == x;
        assert forall|i: int| 0 <= i < path.len() - 1 implies linked(b, #[trigger] path[i], path[i + 1]) by {
            assert(linked(a, path[i], path[i + 1]));
        }
        assert(is_walk(b, path));
    }
    if reachable(b, s, x) {
        let path = choose|path: Seq<NodeId>| #[trigger] is_walk(b, path) && path[0] == s && path.last() == x;
        assert forall|i: int| 0 <= i < path.len() - 1 implies linked(a, #[trigger] path[i], path[i + 1]) by {
            assert(linked(b, path[i], path[i + 1]));
        }
        assert(is_walk(a, path));
    }
}

proof fn lemma_first_lock_pair<NK>(pairs: Seq<(NK, NK)>, lock: NK)
    ensures
        0 <= first_lock_pair(pairs, lock) <= pairs.len(),
        first_lock_pair(pairs, lock) < pairs.len() ==> pairs[first_lock_pair(pairs, lock)].1 == lock,
        forall|i: int| 0 <= i < first_lock_pair(pairs, lock) ==> (#[trigger] pairs[i]).1 != lock,
        is_lock_kind_in(pairs, lock) ==> first_lock_pair(pairs, lock) < pairs.len(),
    decreases pairs.len(),
{
    if pairs.len() > 0 && pairs[0].1 != lock {
        lemma_first_lock_pair(pairs.drop_first(), lock);
        assert forall|i: int| 0 <= i < first_lock_pair(pairs, lock) implies (#[trigger] pairs[i]).1 != lock by {
            if i > 0 {
                assert(pairs[i] == pairs.drop_first()[i - 1]);
            }
        }
        if is_lock_kind_in(pairs, lock) {
            let i = choose|i: int| 0 <= i < pairs.len() && (#[trigger] pairs[i]).1 == lock;
            assert(pairs.drop_first()[i - 1] == pairs[i]);
        }
    }
}

/// Every "lock" node is reachable only via paths that pass through
/// the corresponding "key" node first (from a designated start node).
///
/// Uses kind-based pairs: each `(key_kind, lock_kind)` defines a lock-key relationship;
/// a lock kind is opened by the key kind of the first pair that names it.
pub struct LockKeyConstraint<NK: Copy + Eq> {
    pub start: NodeId,
    pub pairs: Vec<(NK, NK)>,
}

impl<NK: Copy + Eq> LockKeyConstraint<NK> {
    pub fn new(start: NodeId, pairs: Vec<(NK, NK)>) -> (r: Self)
        ensures
            r.start == start,
            r.pairs@ == pairs@,
    {
        Self { start, pairs }
    }

    fn is_lock_kind(&self, kind: NK) -> (r: bool)
        requires
            obeys_concrete_eq::<NK>(),
        ensures
            r == is_lock_kind_in(self.pairs@, kind),
    {
        let mut i: usize = 0;
        while i < self.pairs.len()
            invariant
                obeys_concrete_eq::<NK>(),
                0 <= i <= self.pairs@.len(),
                forall|j: int| 0 <= j < i ==> (#[trigger] self.pairs@[j]).1 != kind,
            decreases self.pairs@.len() - i,
        {
            if kinds_equal(self.pairs[i].1, kind) {
                return true;
            }
            i = i + 1;
        }
        false
    }

    fn required_key_for_lock(&self, lock_kind: NK) -> (r: Option<NK>)
        requires
            obeys_concrete_eq::<NK>(),
        ensures
            r is Some == is_lock_kind_in(self.pairs@, lock_kind),
            r matches Some(k) ==> k == required_key(self.pairs@, lock_kind),
    {
        proof {
            lemma_first_lock_pair(self.pairs@, lock_kind);
        }
        let mut i: usize = 0;
        while i < self.pairs.len()
            invariant
                obeys_concrete_eq::<NK>(),
                0 <= i <= self.pairs@.len(),
                forall|j: int| 0 <= j < i ==> (#[trigger] self.pairs@[j]).1 != lock_kind,
                0 <= first_lock_pair(self.pairs@, lock_kind) <= self.pairs@.len(),
                first_lock_pair(self.pairs@, lock_kind) < self.pairs@.len() ==> self.pairs@[first_lock_pair(self.pairs@, lock_kind)].1 == lock_kind,
                forall|j: int| 0 <= j < first_lock_pair(self.pairs@, lock_kind) ==> (#[trigger] self.pairs@[j]).1 != lock_kind,
            decreases self.pairs@.len() - i,
        {
            if kinds_equal(self.pairs[i].1, lock_kind) {
                proof {
                    let f = first_lock_pair(self.pairs@, lock_kind);
                    if f < i {
                        assert(self.pairs@[f].1 != lock_kind);
                    }
                    if f > i {
                        assert(self.pairs@[i as int].1 != lock_kind);
                    }
                }
                return Some(self.pairs[i].0);
            }
            i = i + 1;
        }
        None
    }

    /// The check, given the kinds of the graph's nodes: for each live lock,
    /// search from the start in the graph without the nodes of its key kind.
    #[verifier::spinoff_prover]
    pub fn check_with<N: NodeData<Kind = NK>, E: EdgeData>(
        &self,
        graph: &Graph<N, E>,
        kinds: &GraphKinds<NK, E::Kind>,
    ) -> (r: bool)
        requires
            graph.wf(),
            kinds.fits(graph@),
            obeys_concrete_eq::<NK>(),
        ensures
            r == lock_key_holds(graph@, kinds.nodes@, self.start, self.pairs@),
    {
        let ghost g = graph@;
        let ghost nk = kinds.nodes@;
        let ghost pairs = self.pairs@;
        let n = kinds.nodes.len();
        let mut i: usize = 0;
        while i < n
            invariant
                graph.wf(),
                kinds.fits(graph@),
                obeys_concrete_eq::<NK>(),
                g == graph@,
                nk == kinds.nodes@,
                pairs == self.pairs@,
                n == nk.len(),
                0 <= i <= n,
                forall|t: int|
                    0 <= t < i ==> (#[trigger] lock_node(g, nk, pairs, t) ==> !reachable(
                        without_kind(g, nk, required_key(pairs, nk[t]->0)),
                        self.start,
                        NodeId(t as usize),
                    )),
            decreases n - i,
        {
            match kinds.nodes[i] {
                Some(kind) => {
                    if self.is_lock_kind(kind) {
                        match self.required_key_for_lock(kind) {
                            Some(key) => {
                                let h = graph_without_kind(graph, kinds, key);
                                let visited = bfs_visit(&h, self.start);
                                proof {
                                    lemma_bfs_reaches_exactly(&h, self.start);
                                    lemma_same_shape_reachable(
                                        h@,
                                        without_kind(g, nk, key),
                                        self.start,
                                        NodeId(i),
                                    );
                                    assert(NodeId(i as int as usize) == NodeId(i));
                                }
                                if contains_node(&visited, NodeId(i)) {
                                    proof {
                                        assert(lock_node(g, nk, pairs, i as int));
                                    }
                                    return false;
                                }
                            },
                            None => {},
                        }
                    }
                },
                None => {},
            }
            i = i + 1;
        }
        proof {
            assert forall|t: int| #[trigger] lock_node(g, nk, pairs, t) implies !reachable(
                without_kind(g, nk, required_key(pairs, nk[t]->0)),
                self.start,
                NodeId(t as usize),
            ) by {
                assert(0 <= t < n);
            }
        }
        true
    }
}

/// A copy of the graph without its nodes of kind `k` and the edges that
/// touch one of them.
fn graph_without_kind<N: NodeData, E: EdgeData>(
    graph: &Graph<N, E>,
    kinds: &GraphKinds<N::Kind, E::Kind>,
    k: N::Kind,
) -> (h: Graph<N, E>)
    requires
        graph.wf(),
        kinds.fits(graph@),
        obeys_concrete_eq::<N::Kind>(),
    ensures
        h.wf(),
        same_shape(h@, without_kind(graph@, kinds.nodes@, k)),
{
    let ghost g = graph@;
    let ghost nk = kinds.nodes@;
    let mut h = graph.clone();
    let n = kinds.nodes.len();
    proof {
        assert(same_shape(h@, without_below(g, nk, k, 0))) by {
            assert(without_below(g, nk, k, 0).nodes =~= g.nodes);
            assert(without_below(g, nk, k, 0).edges =~= g.edges);
        }
    }
    let mut i: usize = 0;
    while i < n
        invariant
            h.wf(),
            graph.wf(),
            g == graph@,
            nk == kinds.nodes@,
            kinds.fits(g),
            obeys_concrete_eq::<N::Kind>(),
            n == g.nodes.len(),
            0 <= i <= n,
            same_shape(h@, without_below(g, nk, k, i as int)),
        decreases n - i,
    {
        let ghost h0 = h@;
        let ghost w0 = without_below(g, nk, k, i as int);
        let ghost w1 = without_below(g, nk, k, i + 1);
        let remove = match kinds.nodes[i] {
            Some(kk) => kinds_equal(kk, k),
            None => false,
        };
        if remove {
            h.remove_node(NodeId(i));
            proof {
                assert(has_kind(g, nk, i as int, k));
                assert(h0.node_live(i as int));
                assert forall|e: int| 0 <= e < h@.edges.len() implies (#[trigger] h@.edges[e] is Some) == (
                w1.edges[e] is Some) && (h@.edges[e] is Some ==> h@.edges[e]->0.source == w1.edges[e]->0.source
                    && h@.edges[e]->0.target == w1.edges[e]->0.target) by {
                    assert(h0.edges[e] is Some == w0.edges[e] is Some);
                }
                assert forall|j: int| 0 <= j < h@.nodes.len() implies (#[trigger] h@.nodes[j] is Some) == (
                w1.nodes[j] is Some) by {
                    assert(h0.nodes[j] is Some == w0.nodes[j] is Some);
                }
            }
        } else {
            proof {
                assert(!has_kind(g, nk, i as int, k));
                assert forall|e: int| 0 <= e < h@.edges.len() implies (#[trigger] h@.edges[e] is Some) == (
                w1.edges[e] is Some) && (h@.edges[e] is Some ==> h@.edges[e]->0.source == w1.edges[e]->0.source
                    && h@.edges[e]->0.target == w1.edges[e]->0.target) by {
                    assert(h0.edges[e] is Some == w0.edges[e] is Some);
                }
                assert forall|j: int| 0 <= j < h@.nodes.len() implies (#[trigger] h@.nodes[j] is Some) == (
                w1.nodes[j] is Some) by {
                    assert(h0.nodes[j] is Some == w0.nodes[j] is Some);
                }
            }
        }
        i = i + 1;
    }
    h
}

impl<N: NodeData, E: EdgeData> StructuralConstraint<N, E> for LockKeyConstraint<N::Kind> {
    /// Every lock met by the search from the start comes after its key.
    open spec fn accepts(&self, g: GraphView<N, E>) -> bool {
        lock_key_holds(g, node_kinds(g), self.start, self.pairs@)
    }

    /// Reads the node kinds, then `check_with`.
    fn check(&self, graph: &Graph<N, E>) -> (r: bool)
        ensures
            r == lock_key_holds(graph@, node_kinds(graph@), self.start, self.pairs@),
    {
        let kinds = graph.kinds();
        let r = self.check_with(graph, &kinds);
        r
    }
}

// ----- independent cycles -----

/// Components counted by walking `ids` in order: an id not yet in `reached`
/// starts a new component, and everything breadth-first search reaches from it
/// joins `reached`.
pub open spec fn component_starts<N, E>(
    g: GraphView<N, E>,
    ids: Seq<NodeId>,
    reached: Set<NodeId>,
) -> nat
    decreases ids.len(),
{
    if ids.len() == 0 {
        0
    } else if reached.contains(ids[0]) {
        component_starts(g, ids.drop_first(), reached)
    } else {
        1 + component_starts(g, ids.drop_first(), reached + bfs_order(g, ids[0]).to_set())
    }
}

/// The number of connected components of the graph taken as undirected,
/// found by searching from each live node, in id order, that no earlier
/// search reached.
pub open spec fn component_count<N, E>(g: GraphView<N, E>) -> nat {
    component_starts(g, g.node_ids(), Set::empty())
}

/// Position `t` of `ids` is the first of its class: no earlier id in `ids`
/// reaches it.
pub open spec fn first_of_class<N, E>(g: GraphView<N, E>, ids: Seq<NodeId>, t: int) -> bool {
    forall|u: int| 0 <= u < t ==> !#[trigger] reachable(g, ids[u], ids[t])
}

/// The number of positions of `ids` from `p` on that are first of their
/// class.
pub open spec fn class_firsts<N, E>(g: GraphView<N, E>, ids: Seq<NodeId>, p: int) -> nat
    decreases ids.len() - p,
{
    if p < 0 || p >= ids.len() {
        0
    } else {
        (if first_of_class(g, ids, p) {
            1nat
        } else {
            0nat
        }) + class_firsts(g, ids, p + 1)
    }
}

/// The nodes reached from the ids before position `p`.
pub open spec fn reached_before<N, E>(g: GraphView<N, E>, ids: Seq<NodeId>, p: int) -> Set<NodeId> {
    Set::new(|x: NodeId| exists|u: int| 0 <= u < p && #[trigger] reachable(g, ids[u], x))
}

/// Reachability is transitive: walks join end to start.
pub proof fn lemma_reachable_trans<N, E>(g: GraphView<N, E>, a: NodeId, b: NodeId, c: NodeId)
    requires
        reachable(g, a, b),
        reachable(g, b, c),
    ensures
        reachable(g, a, c),
{
    let p1 = choose|path: Seq<NodeId>| #[trigger] is_walk(g, path) && path[0] == a && path.last() == b;
    let p2 = choose|path: Seq<NodeId>| #[trigger] is_walk(g, path) && path[0] == b && path.last() == c;
    let path = p1 + p2.drop_first();
    assert forall|i: int| 0 <= i < path.len() - 1 implies linked(g, #[trigger] path[i], path[i + 1]) by {
        if i < p1.len() - 1 {
            assert(path[i] == p1[i] && path[i + 1] == p1[i + 1]);
            assert(linked(g, p1[i], p1[i + 1]));
        } else {
            let j = i - (p1.len() - 1);
            assert(path[i] == p2[j]);
            assert(path[i + 1] == p2[j + 1]);
            assert(linked(g, p2[j], p2[j + 1]));
        }
    }
    if p2.len() == 1 {
        assert(path.last() == p1.last());
    } else {
        assert(path.last() == p2.last());
    }
    assert(is_walk(g, path));
}

/// Counting from position `p` on, starting a component at each id not yet
/// reached counts the ids that are first of their class.
proof fn lemma_starts_from<N: NodeData, E: EdgeData>(graph: &Graph<N, E>, ids: Seq<NodeId>, p: int)
    requires
        graph.wf(),
        0 <= p <= ids.len(),
    ensures
        component_starts(graph@, ids.subrange(p, ids.len() as int), reached_before(graph@, ids, p))
            == class_firsts(graph@, ids, p),
    decreases ids.len() - p,
{
    let g = graph@;
    if p < ids.len() {
        let rest = ids.subrange(p, ids.len() as int);
        assert(rest[0] == ids[p]);
        assert(rest.drop_first() =~= ids.subrange(p + 1, ids.len() as int));
        lemma_starts_from(graph, ids, p + 1);
        let r0 = reached_before(g, ids, p);
        let r1 = reached_before(g, ids, p + 1);
        assert(r0.contains(ids[p]) == !first_of_class(g, ids, p)) by {
            if !first_of_class(g, ids, p) {
                let u = choose|u: int| 0 <= u < p && #[trigger] reachable(g, ids[u], ids[p]);
                assert(r0.contains(ids[p]));
            }
        }
        if r0.contains(ids[p]) {
            let u0 = choose|u: int| 0 <= u < p && #[trigger] reachable(g, ids[u], ids[p]);
            assert forall|x: NodeId| r1.contains(x) == r0.contains(x) by {
                if r1.contains(x) {
                    let u = choose|u: int| 0 <= u < p + 1 && #[trigger] reachable(g, ids[u], x);
                    if u == p {
                        lemma_reachable_trans(g, ids[u0], ids[p], x);
                    }
                }
                if r0.contains(x) {
                    let u = choose|u: int| 0 <= u < p && #[trigger] reachable(g, ids[u], x);
                    assert(0 <= u < p + 1);
                }
            }
            assert(r1 =~= r0);
        } else {
            lemma_bfs_reaches_exactly(graph, ids[p]);
            let r2 = r0 + bfs_order(g, ids[p]).to_set();
            assert forall|x: NodeId| r1.contains(x) == r2.contains(x) by {
                assert(bfs_order(g, ids[p]).to_set().contains(x) == bfs_order(g, ids[p]).contains(x));
                if r1.contains(x) {
                    let u = choose|u: int| 0 <= u < p + 1 && #[trigger] reachable(g, ids[u], x);
                    if u < p {
                        assert(r0.contains(x));
                    }
                }
                if r0.contains(x) {
                    let u = choose|u: int| 0 <= u < p && #[trigger] reachable(g, ids[u], x);
                    assert(0 <= u < p + 1);
                }
                if bfs_order(g, ids[p]).contains(x) {
                    assert(reachable(g, ids[p], x));
                }
            }
            assert(r1 =~= r2);
        }
    }
}

/// The components counted are the classes of live nodes under
/// reachability: their number is the number of live nodes that no earlier
/// live node reaches.
pub proof fn lemma_components_are_classes<N: NodeData, E: EdgeData>(graph: &Graph<N, E>)
    requires
        graph.wf(),
    ensures
        component_count(graph@) == class_firsts(graph@, graph@.node_ids(), 0),
{
    let ids = graph@.node_ids();
    lemma_starts_from(graph, ids, 0);
    assert(ids.subrange(0, ids.len() as int) =~= ids);
    assert(reached_before(graph@, ids, 0) =~= Set::<NodeId>::empty());
}

/// The cycle rank `edges - nodes + components`, floored at zero.
pub open spec fn independent_cycles<N, E>(g: GraphView<N, E>) -> nat {
    let s = g.edge_count() + component_count(g);
    if s >= g.node_count() {
        (s - g.node_count()) as nat
    } else {
        0
    }
}

/// The graph contains exactly N independent cycles.
/// Uses formula: cycles = edges - nodes + connected_components
pub struct CycleConstraint {
    pub expected_cycles: usize,
}

impl CycleConstraint {
    pub fn new(expected_cycles: usize) -> (r: Self)
        ensures
            r.expected_cycles == expected_cycles,
    {
        Self { expected_cycles }
    }

    /// The number of connected components of the graph taken as undirected.
    #[verifier::spinoff_prover]
    pub fn count_components<N: NodeData, E: EdgeData>(graph: &Graph<N, E>) -> (r: usize)
        requires
            graph.wf(),
        ensures
            r == component_count(graph@),
            r == class_firsts(graph@, graph@.node_ids(), 0),
    {
        proof {
            lemma_components_are_classes(graph);
        }
        let ghost g = graph@;
        let ids = graph.node_ids();
        proof {
            graph.lemma_wf_len();
            g.lemma_node_ids_sorted(g.nodes.len());
            assert(ids@.subrange(0, ids@.len() as int) =~= ids@);
        }
        let mut visited: Vec<NodeId> = Vec::new();
        let ghost mut reached: Set<NodeId> = Set::empty();
        let mut components: usize = 0;
        let mut i: usize = 0;
        while i < ids.len()
            invariant
                graph.wf(),
                g == graph@,
                ids@ == g.node_ids(),
                0 <= i <= ids@.len(),
                components <= i,
                forall|x: NodeId| #[trigger] visited@.contains(x) == reached.contains(x),
                components + component_starts(g, ids@.subrange(i as int, ids@.len() as int), reached)
                    == component_count(g),
            decreases ids@.len() - i,
        {
            let nid = ids[i];
            let ghost rest = ids@.subrange(i as int, ids@.len() as int);
            proof {
                assert(rest[0] == nid);
                assert(rest.drop_first() =~= ids@.subrange(i + 1, ids@.len() as int));
            }
            if !contains_node(&visited, nid) {
                components = components + 1;
                let reach = bfs_visit(graph, nid);
                let ghost v0 = visited@;
                let mut k: usize = 0;
                while k < reach.len()
                    invariant
                        0 <= k <= reach@.len(),
                        forall|x: NodeId| #[trigger] visited@.contains(x) == (v0.contains(x) || reach@.take(k as int).contains(x)),
                    decreases reach@.len() - k,
                {
                    let ghost before = visited@;
                    visited.push(reach[k]);
                    proof {
                        assert(reach@.take(k + 1) =~= reach@.take(k as int).push(reach@[k as int]));
                        assert forall|x: NodeId| #[trigger] visited@.contains(x) == (v0.contains(x) || reach@.take(k + 1).contains(x)) by {
                            lemma_seq_push_contains(before, reach@[k as int], x);
                            lemma_seq_push_contains(reach@.take(k as int), reach@[k as int], x);
                        }
                    }
                    k = k + 1;
                }
                proof {
                    assert(reach@.take(reach@.len() as int) =~= reach@);
                    let r2 = reached + bfs_order(g, nid).to_set();
                    assert forall|x: NodeId| #[trigger] visited@.contains(x) == r2.contains(x) by {
                        assert(bfs_order(g, nid).to_set().contains(x) == bfs_order(g, nid).contains(x));
                    }
                    reached = r2;
                }
            }
            i = i + 1;
        }
        proof {
            assert(ids@.subrange(ids@.len() as int, ids@.len() as int).len() == 0);
        }
        components
    }

    /// Whether the graph's cycle rank is the expected number.
    pub fn holds<N: NodeData, E: EdgeData>(&self, graph: &Graph<N, E>) -> (r: bool)
        requires
            graph.wf(),
        ensures
            r == (independent_cycles(graph@) == self.expected_cycles),
    {
        let node_count = graph.node_count();
        let edge_count = graph.edge_count();
        let components = Self::count_components(graph);
        let total: u128 = edge_count as u128 + components as u128;
        let nodes: u128 = node_count as u128;
        let cycles: u128 = if total >= nodes { total - nodes } else { 0 };
        cycles == self.expected_cycles as u128
    }
}

impl<N: NodeData, E: EdgeData> StructuralConstraint<N, E> for CycleConstraint {
    /// The graph has the expected number of independent cycles.
    open spec fn accepts(&self, g: GraphView<N, E>) -> bool {
        independent_cycles(g) == self.expected_cycles
    }

    fn check(&self, graph: &Graph<N, E>) -> (r: bool)
        ensures
            r == (independent_cycles(graph@) == self.expected_cycles),
    {
        self.holds(graph)
    }
}

// ----- acyclicity -----

/// There is a live edge from live node `a` to `b`.
pub open spec fn successor<N, E>(g: GraphView<N, E>, a: NodeId, b: NodeId) -> bool {
    exists|e: int|
        #![trigger g.edges[e]]
        g.node_live(a.0 as int) && g.edge_live(e) && g.edge_at(e).source == a && g.edge_at(e).target
            == b
}

/// Node `i + 1` of `path` is a successor of node `i`.
pub open spec fn path_step<N, E>(g: GraphView<N, E>, path: Seq<NodeId>, i: int) -> bool {
    successor(g, path[i], path[i + 1])
}

/// Each node of `path` is followed by a successor.
pub open spec fn is_path<N, E>(g: GraphView<N, E>, path: Seq<NodeId>) -> bool {
    forall|i: int| 0 <= i < path.len() - 1 ==> #[trigger] path_step(g, path, i)
}

/// `path` is a directed cycle: it returns to its first node, each node
/// followed by a successor.
pub open spec fn is_cycle<N, E>(g: GraphView<N, E>, path: Seq<NodeId>) -> bool {
    &&& path.len() >= 2
    &&& path[0] == path.last()
    &&& is_path(g, path)
}

/// The graph has a directed cycle.
pub open spec fn has_cycle<N, E>(g: GraphView<N, E>) -> bool {
    exists|path: Seq<NodeId>| #[trigger] is_cycle(g, path)
}

/// Depth-first search state: `visited` is the stack plus the finished
/// nodes; the stack is a path; every finished node's successors finished
/// before it.
pub open spec fn dfs_state<N, E>(
    g: GraphView<N, E>,
    visited: Seq<NodeId>,
    stack: Seq<NodeId>,
    finished: Seq<NodeId>,
) -> bool {
    &&& visited.no_duplicates()
    &&& finished.no_duplicates()
    &&& forall|x: NodeId| #[trigger] visited.contains(x) <==> (stack.contains(x) || finished.contains(x))
    &&& forall|x: NodeId| !(#[trigger] stack.contains(x) && finished.contains(x))
    &&& forall|i: int| 0 <= i < visited.len() ==> (#[trigger] visited[i]).0 < g.nodes.len()
    &&& is_path(g, stack)
    &&& forall|a: int, y: NodeId|
        0 <= a < finished.len() && #[trigger] successor(g, finished[a], y) ==> exists|b: int|
            0 <= b < a && #[trigger] finished[b] == y
}

/// A stack path closed by an edge back into it is a cycle.
proof fn lemma_stack_cycle<N, E>(g: GraphView<N, E>, stack: Seq<NodeId>, p: int)
    requires
        0 <= p < stack.len(),
        is_path(g, stack),
        successor(g, stack.last(), stack[p]),
    ensures
        has_cycle(g),
{
    let path = stack.subrange(p, stack.len() as int).push(stack[p]);
    assert forall|i: int| 0 <= i < path.len() - 1 implies #[trigger] path_step(g, path, i) by {
        if i < path.len() - 2 {
            assert(path[i] == stack[p + i]);
            assert(path[i + 1] == stack[p + i + 1]);
            assert(path_step(g, stack, p + i));
        } else {
            assert(path[i] == stack.last());
        }
    }
    assert(is_cycle(g, path));
}

/// Following the cycle from position `k` on keeps finding its nodes earlier
/// in `finished` than position `a0`.
proof fn lemma_cycle_descends<N, E>(
    g: GraphView<N, E>,
    finished: Seq<NodeId>,
    path: Seq<NodeId>,
    k: int,
    b: int,
    a0: int,
) -> (b_last: int)
    requires
        forall|a: int, y: NodeId|
            0 <= a < finished.len() && #[trigger] successor(g, finished[a], y) ==> exists|b: int|
                0 <= b < a && #[trigger] finished[b] == y,
        is_cycle(g, path),
        1 <= k <= path.len() - 1,
        0 <= b < a0 <= finished.len(),
        finished[b] == path[k],
    ensures
        0 <= b_last < a0,
        finished[b_last] == path.last(),
    decreases path.len() - k,
{
    if k == path.len() - 1 {
        b
    } else {
        assert(path_step(g, path, k));
        let b2 = choose|b2: int| 0 <= b2 < b && #[trigger] finished[b2] == path[k + 1];
        lemma_cycle_descends(g, finished, path, k + 1, b2, a0)
    }
}

/// When every live node has finished, there is no cycle.
proof fn lemma_finished_acyclic<N, E>(g: GraphView<N, E>, finished: Seq<NodeId>)
    requires
        finished.no_duplicates(),
        forall|a: int, y: NodeId|
            0 <= a < finished.len() && #[trigger] successor(g, finished[a], y) ==> exists|b: int|
                0 <= b < a && #[trigger] finished[b] == y,
        forall|i: int| #[trigger] g.node_live(i) ==> finished.contains(NodeId(i as usize)),
        g.nodes.len() <= usize::MAX,
    ensures
        !has_cycle(g),
{
    if has_cycle(g) {
        let path = choose|path: Seq<NodeId>| #[trigger] is_cycle(g, path);
        assert(path_step(g, path, 0));
        assert(g.node_live(path[0].0 as int));
        assert(NodeId(path[0].0 as usize) == path[0]);
        assert(finished.contains(path[0]));
        let a0 = choose|a: int| 0 <= a < finished.len() && finished[a] == path[0];
        let b1 = choose|b: int| 0 <= b < a0 && #[trigger] finished[b] == path[1];
        let b = lemma_cycle_descends(g, finished, path, 1, b1, a0);
        assert(finished[b] == finished[a0]);
    }
}

#[verifier::spinoff_prover]
fn has_cycle_dfs<N: NodeData, E: EdgeData>(
    graph: &Graph<N, E>,
    node: NodeId,
    visited: &mut Vec<NodeId>,
    in_stack: &mut Vec<NodeId>,
    finished: Ghost<Seq<NodeId>>,
) -> (r: (bool, Ghost<Seq<NodeId>>))
    requires
        graph.wf(),
        dfs_state(graph@, old(visited)@, old(in_stack)@, finished@),
        !old(visited)@.contains(node),
        node.0 < graph@.nodes.len(),
        old(in_stack)@.len() > 0 ==> successor(graph@, old(in_stack)@.last(), node),
    ensures
        r.0 ==> has_cycle(graph@),
        !r.0 ==> {
            &&& dfs_state(graph@, final(visited)@, final(in_stack)@, r.1@)
            &&& final(in_stack)@ == old(in_stack)@
            &&& final(visited)@.len() > old(visited)@.len()
            &&& final(visited)@.take(old(visited)@.len() as int) == old(visited)@
            &&& r.1@.len() >= finished@.len()
            &&& r.1@.take(finished@.len() as int) == finished@
            &&& r.1@.contains(node)
        },
    decreases graph@.nodes.len() - old(visited)@.len(),
{
    let ghost g = graph@;
    let ghost v0 = visited@;
    let ghost s0 = in_stack@;
    proof {
        graph.lemma_wf_len();
        lemma_distinct_bounded(v0, g.nodes.len());
    }
    visited.push(node);
    in_stack.push(node);
    let ghost mut fin = finished@;
    proof {
        assert(visited@.take(v0.len() as int) =~= v0);
        assert forall|x: NodeId| #[trigger] visited@.contains(x) <==> (in_stack@.contains(x) || fin.contains(x)) by {
            crate::graph::lemma_seq_push_contains(v0, node, x);
            crate::graph::lemma_seq_push_contains(s0, node, x);
        }
        assert forall|x: NodeId| !(#[trigger] in_stack@.contains(x) && fin.contains(x)) by {
            crate::graph::lemma_seq_push_contains(s0, node, x);
        }
        assert(visited@.no_duplicates()) by {
            assert forall|a: int, b: int| 0 <= a < visited@.len() && 0 <= b < visited@.len() && a != b implies visited@[a] != visited@[b] by {
                if a < v0.len() && b < v0.len() {
                    assert(v0[a] != v0[b]);
                } else if a < v0.len() {
                    assert(v0.contains(v0[a]));
                } else {
                    assert(v0.contains(v0[b]));
                }
            }
        }
        assert forall|i: int| 0 <= i < in_stack@.len() - 1 implies #[trigger] path_step(g, in_stack@, i) by {
            if i < s0.len() - 1 {
                assert(in_stack@[i] == s0[i] && in_stack@[i + 1] == s0[i + 1]);
                assert(path_step(g, s0, i));
            } else {
                assert(in_stack@[i] == s0.last());
            }
        }
    }
    let ghost stack = in_stack@;
    proof {
        assert(fin.take(finished@.len() as int) =~= finished@);
    }
    let out = graph.outgoing(node);
    let mut k: usize = 0;
    while k < out.len()
        invariant
            graph.wf(),
            g == graph@,
            g.edges.len() <= usize::MAX,
            out@ == g.out_edges(node),
            0 <= k <= out@.len(),
            dfs_state(g, visited@, in_stack@, fin),
            in_stack@ == stack,
            stack == s0.push(node),
            v0 == old(visited)@,
            visited@.len() > v0.len(),
            visited@.take(v0.len() as int) == v0,
            fin.len() >= finished@.len(),
            fin.take(finished@.len() as int) == finished@,
            forall|t: int| 0 <= t < k ==> fin.contains(g.edge_at((#[trigger] out@[t]).0 as int).target),
        decreases out@.len() - k,
    {
        let eid = out[k];
        proof {
            g.lemma_upto_contains(node, g.edges.len(), eid);
            assert(out@.contains(eid));
        }
        let target = match graph.edge_endpoints(eid) {
            Some((_, t)) => t,
            None => {
                proof {
                    assert(false);
                }
                return (false, Ghost(fin));
            },
        };
        proof {
            assert(successor(g, node, target)) by {
                assert(g.edges[eid.0 as int] == g.edges[eid.0 as int]);
            }
        }
        if !contains_node(visited, target) {
            let ghost vb = visited@;
            let ghost fb = fin;
            proof {
                lemma_distinct_bounded(visited@, g.nodes.len());
            }
            let (found, f2) = has_cycle_dfs(graph, target, visited, in_stack, Ghost(fin));
            if found {
                return (true, f2);
            }
            proof {
                fin = f2@;
                assert(visited@.take(v0.len() as int) =~= vb.take(v0.len() as int)) by {
                    assert forall|i: int| 0 <= i < v0.len() implies visited@[i] == vb[i] by {
                        assert(visited@.take(vb.len() as int)[i] == vb[i]);
                    }
                }
                assert(fin.take(finished@.len() as int) =~= finished@) by {
                    assert forall|i: int| 0 <= i < finished@.len() implies fin[i] == finished@[i] by {
                        assert(fin.take(fb.len() as int)[i] == fb[i]);
                        assert(fb.take(finished@.len() as int)[i] == finished@[i]);
                    }
                }
                assert forall|t: int| 0 <= t < k + 1 implies fin.contains(g.edge_at((#[trigger] out@[t]).0 as int).target) by {
                    if t < k {
                        let x = g.edge_at(out@[t].0 as int).target;
                        assert(fb.contains(x));
                        let i = choose|i: int| 0 <= i < fb.len() && fb[i] == x;
                        assert(fin.take(fb.len() as int)[i] == fb[i]);
                    }
                }
            }
        } else if contains_node(in_stack, target) {
            proof {
                let p = choose|p: int| 0 <= p < stack.len() && stack[p] == target;
                lemma_stack_cycle(g, stack, p);
            }
            return (true, Ghost(fin));
        } else {
            proof {
                assert(fin.contains(target));
            }
        }
        k = k + 1;
    }
    in_stack.pop();
    let ghost fb = fin;
    proof {
        fin = fin.push(node);
        assert(in_stack@ =~= s0);
        assert(fin.take(finished@.len() as int) =~= finished@) by {
            assert forall|i: int| 0 <= i < finished@.len() implies fin[i] == finished@[i] by {
                assert(fb.take(finished@.len() as int)[i] == finished@[i]);
            }
        }
        assert(fin[fb.len() as int] == node);
        assert(!fb.contains(node)) by {
            assert(stack.contains(node)) by {
                assert(stack[s0.len() as int] == node);
            }
        }
        assert(fin.no_duplicates()) by {
            assert forall|a: int, b: int| 0 <= a < fin.len() && 0 <= b < fin.len() && a != b implies fin[a] != fin[b] by {
                if a < fb.len() && b < fb.len() {
                    assert(fb[a] != fb[b]);
                } else if a < fb.len() {
                    assert(fb.contains(fb[a]));
                } else {
                    assert(fb.contains(fb[b]));
                }
            }
        }
        assert forall|x: NodeId| #[trigger] visited@.contains(x) <==> (in_stack@.contains(x) || fin.contains(x)) by {
            crate::graph::lemma_seq_push_contains(fb, node, x);
            crate::graph::lemma_seq_push_contains(s0, node, x);
        }
        assert forall|x: NodeId| !(#[trigger] in_stack@.contains(x) && fin.contains(x)) by {
            crate::graph::lemma_seq_push_contains(fb, node, x);
            crate::graph::lemma_seq_push_contains(s0, node, x);
            if s0.contains(node) {
                let i = choose|i: int| 0 <= i < s0.len() && s0[i] == node;
                assert(stack[i] == node && stack[s0.len() as int] == node);
            }
        }
        assert forall|a: int, y: NodeId|
            0 <= a < fin.len() && #[trigger] successor(g, fin[a], y) implies exists|b: int|
                0 <= b < a && #[trigger] fin[b] == y by {
            if a < fb.len() {
                assert(fin[a] == fb[a]);
                let b = choose|b: int| 0 <= b < a && #[trigger] fb[b] == y;
                assert(fin[b] == y);
            } else {
                let e = choose|e: int|
                    #![trigger g.edges[e]]
                    g.node_live(node.0 as int) && g.edge_live(e) && g.edge_at(e).source == node
                        && g.edge_at(e).target == y;
                g.lemma_upto_contains(node, g.edges.len(), EdgeId(e as usize));
                let t = choose|t: int| 0 <= t < out@.len() && out@[t] == EdgeId(e as usize);
                assert(fb.contains(g.edge_at(out@[t].0 as int).target));
                let b = choose|b: int| 0 <= b < fb.len() && fb[b] == y;
                assert(fin[b] == y);
            }
        }
        assert(fin.contains(node));
    }
    (false, Ghost(fin))
}

/// The graph must be acyclic (a DAG or tree).
/// Uses DFS with visited + in-stack arrays for directed cycle detection.
pub struct AcyclicConstraint;

impl AcyclicConstraint {
    /// Whether the graph has no directed cycle.
    pub fn is_acyclic<N: NodeData, E: EdgeData>(graph: &Graph<N, E>) -> (r: bool)
        requires
            graph.wf(),
        ensures
            r == !has_cycle(graph@),
    {
        let ghost g = graph@;
        let node_ids = graph.node_ids();
        proof {
            graph.lemma_wf_len();
        }
        let mut visited: Vec<NodeId> = Vec::new();
        let mut in_stack: Vec<NodeId> = Vec::new();
        let ghost mut fin: Seq<NodeId> = Seq::empty();
        proof {
            assert(dfs_state(g, visited@, in_stack@, fin));
        }
        let mut j: usize = 0;
        while j < node_ids.len()
            invariant
                graph.wf(),
                g == graph@,
                g.nodes.len() <= usize::MAX,
                node_ids@ == g.node_ids(),
                0 <= j <= node_ids@.len(),
                dfs_state(g, visited@, in_stack@, fin),
                in_stack@.len() == 0,
                forall|t: int| 0 <= t < j ==> visited@.contains(#[trigger] node_ids@[t]),
            decreases node_ids@.len() - j,
        {
            let nid = node_ids[j];
            proof {
                g.lemma_node_ids_contains(g.nodes.len(), nid);
                assert(node_ids@.contains(nid));
            }
            if !contains_node(&visited, nid) {
                let ghost vb = visited@;
                let (found, f2) = has_cycle_dfs(graph, nid, &mut visited, &mut in_stack, Ghost(fin));
                if found {
                    return false;
                }
                proof {
                    fin = f2@;
                    assert forall|t: int| 0 <= t < j + 1 implies visited@.contains(#[trigger] node_ids@[t]) by {
                        if t < j {
                            let i = choose|i: int| 0 <= i < vb.len() && vb[i] == node_ids@[t];
                            assert(visited@.take(vb.len() as int)[i] == vb[i]);
                        } else {
                            assert(fin.contains(nid));
                        }
                    }
                }
            }
            j = j + 1;
        }
        proof {
            assert forall|i: int| #[trigger] g.node_live(i) implies fin.contains(NodeId(i as usize)) by {
                g.lemma_node_ids_contains(g.nodes.len(), NodeId(i as usize));
                let t = choose|t: int| 0 <= t < node_ids@.len() && node_ids@[t] == NodeId(i as usize);
                assert(visited@.contains(node_ids@[t]));
            }
            lemma_finished_acyclic(g, fin);
        }
        true
    }
}

impl<N: NodeData, E: EdgeData> StructuralConstraint<N, E> for AcyclicConstraint {
    /// The graph has no directed cycle.
    open spec fn accepts(&self, g: GraphView<N, E>) -> bool {
        !has_cycle(g)
    }

    fn check(&self, graph: &Graph<N, E>) -> (r: bool)
        ensures
            r == !has_cycle(graph@),
    {
        AcyclicConstraint::is_acyclic(graph)
    }
}

} // verus!
