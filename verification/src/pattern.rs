//! Pattern matching for subgraph isomorphism.

use vstd::prelude::*;
use vstd::laws_eq::obeys_concrete_eq;
use crate::graph::{Graph, GraphKinds, GraphView, NodeId, EdgeId, node_kinds, edge_kinds};
use crate::node::NodeData;
use crate::edge::EdgeData;

verus! {

/// A local ID within a pattern (not a global graph NodeId).
#[derive(Debug, Clone, Copy, PartialEq, Eq, Hash, Structural)]
pub struct LocalId(pub usize);

/// A node in a pattern.
#[derive(Debug, Clone)]
pub struct PatternNode<NK> {
    pub id: LocalId,
    pub kind: NK,
}

/// An edge in a pattern.
#[derive(Debug, Clone)]
pub struct PatternEdge<EK> {
    pub source: LocalId,
    pub target: LocalId,
    pub kind: EK,
}

/// A subgraph pattern to match against the host graph (left-hand side of a rule).
#[derive(Debug, Clone)]
pub struct Pattern<NK, EK> {
    pub nodes: Vec<PatternNode<NK>>,
    pub edges: Vec<PatternEdge<EK>>,
}

impl<NK, EK> Pattern<NK, EK> {
    /// Every pattern edge joins pattern nodes that exist.
    pub open spec fn wf(&self) -> bool {
        forall|k: int|
            0 <= k < self.edges@.len() ==> (#[trigger] self.edges@[k]).source.0 < self.nodes@.len()
                && self.edges@[k].target.0 < self.nodes@.len()
    }
}

impl<NK: Copy + Eq, EK: Copy + Eq> Pattern<NK, EK> {
    /// Create a new empty pattern.
    pub fn new() -> (p: Self)
        ensures
            p.nodes@.len() == 0,
            p.edges@.len() == 0,
    {
        Self { nodes: Vec::new(), edges: Vec::new() }
    }

    /// Add a node to the pattern; its local id is its position.
    pub fn add_node(&mut self, kind: NK) -> (id: LocalId)
        requires
            old(self).nodes@.len() < usize::MAX,
        ensures
            id.0 == old(self).nodes@.len(),
            final(self).nodes@ == old(self).nodes@.push(PatternNode { id, kind }),
            final(self).edges@ == old(self).edges@,
    {
        let id = LocalId(self.nodes.len());
        self.nodes.push(PatternNode { id, kind });
        id
    }

    /// Add an edge to the pattern.
    pub fn add_edge(&mut self, source: LocalId, target: LocalId, kind: EK)
        ensures
            final(self).nodes@ == old(self).nodes@,
            final(self).edges@ == old(self).edges@.push(PatternEdge { source, target, kind }),
    {
        self.edges.push(PatternEdge { source, target, kind });
    }
}

/// A match: mapping from pattern LocalIds to graph NodeIds.
#[derive(Debug)]
pub struct Match {
    /// node_map[local_id.0] = graph NodeId
    pub node_map: Vec<NodeId>,
}

impl Clone for Match {
    fn clone(&self) -> (r: Self)
        ensures
            r.node_map@ == self.node_map@,
    {
        Match { node_map: copy_node_ids(&self.node_map) }
    }
}

/// A copy of a list of node ids.
pub fn copy_node_ids(v: &Vec<NodeId>) -> (r: Vec<NodeId>)
    ensures
        r@ == v@,
{
    let mut r: Vec<NodeId> = Vec::new();
    let mut i: usize = 0;
    while i < v.len()
        invariant
            0 <= i <= v@.len(),
            r@ == v@.take(i as int),
        decreases v@.len() - i,
    {
        proof {
            assert(v@.take(i + 1) =~= v@.take(i as int).push(v@[i as int]));
        }
        r.push(v[i]);
        i = i + 1;
    }
    proof {
        assert(v@.take(v@.len() as int) =~= v@);
    }
    r
}

// ----- what a match is -----

/// The graph has a live edge from live node `s` to `t` whose kind is `k`.
pub open spec fn has_edge_of_kind<N, E, EK>(
    g: GraphView<N, E>,
    ek: Seq<Option<EK>>,
    s: NodeId,
    t: NodeId,
    k: EK,
) -> bool {
    exists|e: int|
        #![trigger ek[e]]
        g.node_live(s.0 as int) && g.edge_live(e) && g.edge_at(e).source == s && g.edge_at(e).target
            == t && ek[e]->0 == k
}

/// The check made when graph node `gn` is tried for the pattern node with id
/// `pid` after `mapping` is fixed: every pattern edge between an already
/// mapped pattern node and `pid`, in either direction, is present in the graph.
pub open spec fn consistent_with<N, E, NK, EK>(
    g: GraphView<N, E>,
    ek: Seq<Option<EK>>,
    p: Pattern<NK, EK>,
    mapping: Seq<NodeId>,
    pid: LocalId,
    gn: NodeId,
) -> bool {
    forall|j: int, k: int|
        #![trigger mapping[j], p.edges@[k]]
        0 <= j < mapping.len() && 0 <= k < p.edges@.len() ==> {
            &&& (p.edges@[k].source == LocalId(j as usize) && p.edges@[k].target == pid)
                ==> has_edge_of_kind(g, ek, mapping[j], gn, p.edges@[k].kind)
            &&& (p.edges@[k].source == pid && p.edges@[k].target == LocalId(j as usize))
                ==> has_edge_of_kind(g, ek, gn, mapping[j], p.edges@[k].kind)
        }
}

/// Position `i` of `m` is acceptable given the positions before it: a live
/// node of the pattern node's kind, not used earlier, consistent with the
/// earlier positions.
pub open spec fn position_ok<N, E, NK, EK>(
    g: GraphView<N, E>,
    nk: Seq<Option<NK>>,
    ek: Seq<Option<EK>>,
    p: Pattern<NK, EK>,
    m: Seq<NodeId>,
    i: int,
) -> bool {
    &&& g.node_live(m[i].0 as int)
    &&& nk[m[i].0 as int]->0 == p.nodes@[i].kind
    &&& forall|j: int| 0 <= j < i ==> m[j] != m[i]
    &&& consistent_with(g, ek, p, m.take(i), p.nodes@[i].id, m[i])
}

/// `m` is an acceptable assignment of the first `m.len()` pattern nodes.
pub open spec fn is_partial_match<N, E, NK, EK>(
    g: GraphView<N, E>,
    nk: Seq<Option<NK>>,
    ek: Seq<Option<EK>>,
    p: Pattern<NK, EK>,
    m: Seq<NodeId>,
) -> bool {
    &&& m.len() <= p.nodes@.len()
    &&& forall|i: int| 0 <= i < m.len() ==> #[trigger] position_ok(g, nk, ek, p, m, i)
}

/// Every pattern edge is present between the images of its endpoints.
pub open spec fn all_edges_present<N, E, NK, EK>(
    g: GraphView<N, E>,
    ek: Seq<Option<EK>>,
    p: Pattern<NK, EK>,
    m: Seq<NodeId>,
) -> bool {
    forall|k: int|
        0 <= k < p.edges@.len() ==> has_edge_of_kind(
            g,
            ek,
            m[(#[trigger] p.edges@[k]).source.0 as int],
            m[p.edges@[k].target.0 as int],
            p.edges@[k].kind,
        )
}

/// `m` maps every pattern node, injectively and kind-preservingly, onto live
/// nodes so that every pattern edge is present.
pub open spec fn is_match<N, E, NK, EK>(
    g: GraphView<N, E>,
    nk: Seq<Option<NK>>,
    ek: Seq<Option<EK>>,
    p: Pattern<NK, EK>,
    m: Seq<NodeId>,
) -> bool {
    &&& m.len() == p.nodes@.len()
    &&& is_partial_match(g, nk, ek, p, m)
    &&& all_edges_present(g, ek, p, m)
}

/// `a` comes before `b` in lexicographic order of node ids.
pub open spec fn lex_before(a: Seq<NodeId>, b: Seq<NodeId>) -> bool {
    exists|k: int|
        0 <= k < a.len() && k < b.len() && a.take(k) == b.take(k) && (#[trigger] a[k]).0 < b[k].0
}

/// The node maps of a list of matches.
pub open spec fn maps_of(ms: Seq<Match>) -> Seq<Seq<NodeId>> {
    ms.map_values(|m: Match| m.node_map@)
}

/// Whether `x` may take the position after the prefix: any node when
/// `among` is `None`, else only the nodes listed in it.
pub open spec fn next_allowed(among: Option<Seq<NodeId>>, x: NodeId) -> bool {
    match among {
        Some(s) => s.contains(x),
        None => true,
    }
}

/// `found` lists, in lexicographic order, exactly the matches that extend
/// `prefix` and whose next position is allowed by `among`.
pub open spec fn lists_extensions<N, E, NK, EK>(
    g: GraphView<N, E>,
    nk: Seq<Option<NK>>,
    ek: Seq<Option<EK>>,
    p: Pattern<NK, EK>,
    prefix: Seq<NodeId>,
    among: Option<Seq<NodeId>>,
    found: Seq<Seq<NodeId>>,
) -> bool {
    &&& forall|i: int|
        0 <= i < found.len() ==> #[trigger] is_match(g, nk, ek, p, found[i]) && found[i].take(
            prefix.len() as int,
        ) == prefix && (prefix.len() < found[i].len() ==> next_allowed(among, found[i][prefix.len() as int]))
    &&& forall|m: Seq<NodeId>|
        #[trigger] is_match(g, nk, ek, p, m) && m.take(prefix.len() as int) == prefix && (prefix.len()
            < m.len() ==> next_allowed(among, m[prefix.len() as int])) ==> found.contains(m)
    &&& forall|i: int, j: int| 0 <= i < j < found.len() ==> lex_before(found[i], found[j])
}

/// `found` lists, in lexicographic order, exactly the matches of `p` in `g`.
pub open spec fn lists_all_matches<N, E, NK, EK>(
    g: GraphView<N, E>,
    nk: Seq<Option<NK>>,
    ek: Seq<Option<EK>>,
    p: Pattern<NK, EK>,
    found: Seq<Seq<NodeId>>,
) -> bool {
    lists_extensions(g, nk, ek, p, Seq::empty(), None, found)
}

// ----- the search -----

/// Kind equality as `==` computes it.
pub fn kinds_equal<K: Copy + Eq>(a: K, b: K) -> (r: bool)
    requires
        obeys_concrete_eq::<K>(),
    ensures
        r == (a == b),
{
    proof {
        reveal(obeys_concrete_eq);
    }
    a == b
}

/// Whether `x` occurs in `v`.
pub fn contains_node(v: &Vec<NodeId>, x: NodeId) -> (r: bool)
    ensures
        r == v@.contains(x),
{
    let mut i: usize = 0;
    while i < v.len()
        invariant
            0 <= i <= v@.len(),
            forall|j: int| 0 <= j < i ==> v@[j] != x,
        decreases v@.len() - i,
    {
        if v[i] == x {
            return true;
        }
        i = i + 1;
    }
    false
}

fn has_edge_with_kind<N: NodeData, E: EdgeData>(
    graph: &Graph<N, E>,
    kinds: &GraphKinds<N::Kind, E::Kind>,
    source: NodeId,
    target: NodeId,
    kind: E::Kind,
) -> (r: bool)
    requires
        graph.wf(),
        kinds.fits(graph@),
        obeys_concrete_eq::<E::Kind>(),
    ensures
        r == has_edge_of_kind(graph@, kinds.edges@, source, target, kind),
{
    let out = graph.outgoing(source);
    let ghost g = graph@;
    proof {
        graph.lemma_wf_len();
    }
    let mut i: usize = 0;
    while i < out.len()
        invariant
            graph.wf(),
            kinds.fits(graph@),
            g == graph@,
            g.edges.len() <= usize::MAX,
            out@ == g.out_edges(source),
            0 <= i <= out@.len(),
            obeys_concrete_eq::<E::Kind>(),
            forall|j: int|
                0 <= j < i ==> !(g.edge_at((#[trigger] out@[j]).0 as int).target == target
                    && kinds.edges@[out@[j].0 as int]->0 == kind),
        decreases out@.len() - i,
    {
        let eid = out[i];
        proof {
            g.lemma_upto_contains(source, g.edges.len(), eid);
            assert(out@.contains(eid));
        }
        match graph.edge_endpoints(eid) {
            Some((_, t)) => {
                if t == target {
                    match &kinds.edges[eid.0] {
                        Some(k) => {
                            if kinds_equal(*k, kind) {
                                return true;
                            }
                        },
                        None => {},
                    }
                }
            },
            None => {},
        }
        i = i + 1;
    }
    proof {
        if has_edge_of_kind(g, kinds.edges@, source, target, kind) {
            let e = choose|e: int|
                #![trigger kinds.edges@[e]]
                g.node_live(source.0 as int) && g.edge_live(e) && g.edge_at(e).source == source
                    && g.edge_at(e).target == target && kinds.edges@[e]->0 == kind;
            g.lemma_upto_contains(source, g.edges.len(), EdgeId(e as usize));
            let j = choose|j: int| 0 <= j < out@.len() && out@[j] == EdgeId(e as usize);
            assert(out@[j] == EdgeId(e as usize));
        }
    }
    false
}

fn consistent<N: NodeData, E: EdgeData>(
    graph: &Graph<N, E>,
    kinds: &GraphKinds<N::Kind, E::Kind>,
    pattern: &Pattern<N::Kind, E::Kind>,
    mapping: &Vec<NodeId>,
    p_node: &PatternNode<N::Kind>,
    g_node: NodeId,
) -> (r: bool)
    requires
        graph.wf(),
        kinds.fits(graph@),
        obeys_concrete_eq::<E::Kind>(),
    ensures
        r == consistent_with(graph@, kinds.edges@, *pattern, mapping@, p_node.id, g_node),
{
    let mut p_idx: usize = 0;
    while p_idx < mapping.len()
        invariant
            graph.wf(),
            kinds.fits(graph@),
            obeys_concrete_eq::<E::Kind>(),
            0 <= p_idx <= mapping@.len(),
            forall|j: int, k: int|
                #![trigger mapping@[j], pattern.edges@[k]]
                0 <= j < p_idx && 0 <= k < pattern.edges@.len() ==> {
                    &&& (pattern.edges@[k].source == LocalId(j as usize) && pattern.edges@[k].target
                        == p_node.id) ==> has_edge_of_kind(
                        graph@,
                        kinds.edges@,
                        mapping@[j],
                        g_node,
                        pattern.edges@[k].kind,
                    )
                    &&& (pattern.edges@[k].source == p_node.id && pattern.edges@[k].target
                        == LocalId(j as usize)) ==> has_edge_of_kind(
                        graph@,
                        kinds.edges@,
                        g_node,
                        mapping@[j],
                        pattern.edges@[k].kind,
                    )
                },
        decreases mapping@.len() - p_idx,
    {
        let g_mapped = mapping[p_idx];
        let p_mapped_id = LocalId(p_idx);
        let mut k: usize = 0;
        while k < pattern.edges.len()
            invariant
                graph.wf(),
                kinds.fits(graph@),
                obeys_concrete_eq::<E::Kind>(),
                0 <= p_idx < mapping@.len(),
                g_mapped == mapping@[p_idx as int],
                p_mapped_id == LocalId(p_idx),
                0 <= k <= pattern.edges@.len(),
                forall|k2: int|
                    #![trigger pattern.edges@[k2]]
                    0 <= k2 < k ==> {
                        &&& (pattern.edges@[k2].source == p_mapped_id && pattern.edges@[k2].target
                            == p_node.id) ==> has_edge_of_kind(
                            graph@,
                            kinds.edges@,
                            g_mapped,
                            g_node,
                            pattern.edges@[k2].kind,
                        )
                        &&& (pattern.edges@[k2].source == p_node.id && pattern.edges@[k2].target
                            == p_mapped_id) ==> has_edge_of_kind(
                            graph@,
                            kinds.edges@,
                            g_node,
                            g_mapped,
                            pattern.edges@[k2].kind,
                        )
                    },
            decreases pattern.edges@.len() - k,
        {
            let edge = &pattern.edges[k];
            if edge.source == p_mapped_id && edge.target == p_node.id {
                if !has_edge_with_kind(graph, kinds, g_mapped, g_node, edge.kind) {
                    return false;
                }
            }
            if edge.source == p_node.id && edge.target == p_mapped_id {
                if !has_edge_with_kind(graph, kinds, g_node, g_mapped, edge.kind) {
                    return false;
                }
            }
            k = k + 1;
        }
        p_idx = p_idx + 1;
    }
    true
}

fn all_edges_match<N: NodeData, E: EdgeData>(
    graph: &Graph<N, E>,
    kinds: &GraphKinds<N::Kind, E::Kind>,
    pattern: &Pattern<N::Kind, E::Kind>,
    mapping: &Vec<NodeId>,
) -> (r: bool)
    requires
        graph.wf(),
        kinds.fits(graph@),
        obeys_concrete_eq::<E::Kind>(),
        pattern.wf(),
        mapping@.len() == pattern.nodes@.len(),
    ensures
        r == all_edges_present(graph@, kinds.edges@, *pattern, mapping@),
{
    let mut k: usize = 0;
    while k < pattern.edges.len()
        invariant
            graph.wf(),
            kinds.fits(graph@),
            obeys_concrete_eq::<E::Kind>(),
            pattern.wf(),
            mapping@.len() == pattern.nodes@.len(),
            0 <= k <= pattern.edges@.len(),
            forall|k2: int|
                0 <= k2 < k ==> has_edge_of_kind(
                    graph@,
                    kinds.edges@,
                    mapping@[(#[trigger] pattern.edges@[k2]).source.0 as int],
                    mapping@[pattern.edges@[k2].target.0 as int],
                    pattern.edges@[k2].kind,
                ),
        decreases pattern.edges@.len() - k,
    {
        let edge = &pattern.edges[k];
        let g_source = mapping[edge.source.0];
        let g_target = mapping[edge.target.0];
        if !has_edge_with_kind(graph, kinds, g_source, g_target, edge.kind) {
            return false;
        }
        k = k + 1;
    }
    true
}

/// Extending an acceptable assignment by an acceptable position keeps it acceptable.
proof fn lemma_partial_push<N, E, NK, EK>(
    g: GraphView<N, E>,
    nk: Seq<Option<NK>>,
    ek: Seq<Option<EK>>,
    p: Pattern<NK, EK>,
    prefix: Seq<NodeId>,
    x: NodeId,
)
    requires
        is_partial_match(g, nk, ek, p, prefix),
        prefix.len() < p.nodes@.len(),
        position_ok(g, nk, ek, p, prefix.push(x), prefix.len() as int),
    ensures
        is_partial_match(g, nk, ek, p, prefix.push(x)),
{
    let m = prefix.push(x);
    assert forall|i: int| 0 <= i < m.len() implies #[trigger] position_ok(g, nk, ek, p, m, i) by {
        if i < prefix.len() {
            assert(m.take(i) =~= prefix.take(i));
            assert(position_ok(g, nk, ek, p, prefix, i));
            assert forall|j: int| 0 <= j < i implies m[j] != m[i] by {
                assert(prefix[j] != prefix[i]);
            }
        }
    }
}

/// A match extending `prefix` has the position after `prefix` acceptable for it.
proof fn lemma_match_position<N, E, NK, EK>(
    g: GraphView<N, E>,
    nk: Seq<Option<NK>>,
    ek: Seq<Option<EK>>,
    p: Pattern<NK, EK>,
    prefix: Seq<NodeId>,
    m: Seq<NodeId>,
)
    requires
        is_match(g, nk, ek, p, m),
        m.take(prefix.len() as int) == prefix,
        prefix.len() < m.len(),
    ensures
        position_ok(g, nk, ek, p, prefix.push(m[prefix.len() as int]), prefix.len() as int),
        m.take(prefix.len() as int + 1) == prefix.push(m[prefix.len() as int]),
{
    let k = prefix.len() as int;
    assert(position_ok(g, nk, ek, p, m, k));
    assert(m.take(k + 1) =~= prefix.push(m[k]));
    let q = prefix.push(m[k]);
    assert(q.take(k) =~= prefix);
    assert(m.take(k) =~= prefix);
    assert forall|j: int| 0 <= j < k implies q[j] != q[k] by {
        assert(q[j] == m[j]);
    }
}

/// Trying graph node `ids[j]` at the position after `prefix`, when it is
/// acceptable there: the matches found so far followed by those extending
/// `prefix` with it list the matches whose next node is among `ids[..=j]`.
#[verifier::spinoff_prover]
proof fn lemma_extend_accepted<N, E, NK, EK>(
    g: GraphView<N, E>,
    nk: Seq<Option<NK>>,
    ek: Seq<Option<EK>>,
    p: Pattern<NK, EK>,
    prefix: Seq<NodeId>,
    ids: Seq<NodeId>,
    j: int,
    found_old: Seq<Seq<NodeId>>,
    found_g: Seq<Seq<NodeId>>,
)
    requires
        0 <= j < ids.len(),
        forall|a: int, b: int| 0 <= a < b < ids.len() ==> (#[trigger] ids[a]).0 < (#[trigger] ids[b]).0,
        prefix.len() < p.nodes@.len(),
        lists_extensions(g, nk, ek, p, prefix, Some(ids.take(j)), found_old),
        lists_extensions(g, nk, ek, p, prefix.push(ids[j]), None, found_g),
    ensures
        lists_extensions(g, nk, ek, p, prefix, Some(ids.take(j + 1)), found_old + found_g),
{
    let plen = prefix.len() as int;
    let g_node = ids[j];
    let q = prefix.push(g_node);
    let found_new = found_old + found_g;
    let allowed_old = Some(ids.take(j));
    let allowed_new = Some(ids.take(j + 1));
    assert(ids.take(j + 1) =~= ids.take(j).push(g_node));
    assert forall|n: NodeId| #[trigger] ids.take(j + 1).contains(n) == (ids.take(j).contains(n) || n == g_node) by {
        crate::graph::lemma_seq_push_contains(ids.take(j), g_node, n);
    }
    assert(q.take(plen) =~= prefix);
    // soundness of the new part
    assert forall|i: int| 0 <= i < found_g.len() implies found_g[i].take(plen) == prefix && found_g[i][plen] == g_node by {
        assert(is_match(g, nk, ek, p, found_g[i]));
        assert(found_g[i].take(plen + 1) == q);
        assert(found_g[i].take(plen) =~= found_g[i].take(plen + 1).take(plen));
        assert(found_g[i][plen] == found_g[i].take(plen + 1)[plen]);
    }
    assert forall|i: int| 0 <= i < found_new.len() implies #[trigger] is_match(g, nk, ek, p, found_new[i])
        && found_new[i].take(plen) == prefix && (plen < found_new[i].len() ==> next_allowed(
        allowed_new,
        found_new[i][plen],
    )) by {
        if i >= found_old.len() {
            assert(found_new[i] == found_g[i - found_old.len()]);
            assert(is_match(g, nk, ek, p, found_g[i - found_old.len()]));
        } else {
            assert(found_new[i] == found_old[i]);
            assert(is_match(g, nk, ek, p, found_old[i]));
        }
    }
    // completeness
    assert forall|m: Seq<NodeId>|
        #[trigger] is_match(g, nk, ek, p, m) && m.take(plen) == prefix && (plen < m.len() ==> next_allowed(
            allowed_new,
            m[plen],
        )) implies found_new.contains(m) by {
        if m[plen] == g_node {
            lemma_match_position(g, nk, ek, p, prefix, m);
            assert(m.take(q.len() as int) == q);
            assert(found_g.contains(m));
            let i = choose|i: int| 0 <= i < found_g.len() && found_g[i] == m;
            assert(found_new[found_old.len() + i] == m);
        } else {
            assert(next_allowed(allowed_old, m[plen]));
            assert(found_old.contains(m));
            let i = choose|i: int| 0 <= i < found_old.len() && found_old[i] == m;
            assert(found_new[i] == m);
        }
    }
    // order
    assert forall|a: int, b: int| 0 <= a < b < found_new.len() implies lex_before(found_new[a], found_new[b]) by {
        if b < found_old.len() {
            assert(found_new[a] == found_old[a] && found_new[b] == found_old[b]);
        } else if a >= found_old.len() {
            assert(found_new[a] == found_g[a - found_old.len()]);
            assert(found_new[b] == found_g[b - found_old.len()]);
        } else {
            let x = found_old[a];
            let y = found_g[b - found_old.len()];
            assert(found_new[a] == x && found_new[b] == y);
            assert(is_match(g, nk, ek, p, x));
            assert(next_allowed(allowed_old, x[plen]));
            let t = choose|t: int| 0 <= t < ids.take(j).len() && ids.take(j)[t] == x[plen];
            assert(ids[t] == x[plen]);
            assert(x[plen].0 < y[plen].0);
            assert(x.take(plen) == y.take(plen));
            assert(is_match(g, nk, ek, p, y));
            assert(plen < x.len() && plen < y.len());
            assert(lex_before(x, y));
        }
    }
}

/// Trying graph node `ids[j]` at the position after `prefix`, when it is
/// not acceptable there: the matches found so far already list those whose
/// next node is among `ids[..=j]`.
proof fn lemma_extend_rejected<N, E, NK, EK>(
    g: GraphView<N, E>,
    nk: Seq<Option<NK>>,
    ek: Seq<Option<EK>>,
    p: Pattern<NK, EK>,
    prefix: Seq<NodeId>,
    ids: Seq<NodeId>,
    j: int,
    found: Seq<Seq<NodeId>>,
)
    requires
        0 <= j < ids.len(),
        prefix.len() < p.nodes@.len(),
        !position_ok(g, nk, ek, p, prefix.push(ids[j]), prefix.len() as int),
        lists_extensions(g, nk, ek, p, prefix, Some(ids.take(j)), found),
    ensures
        lists_extensions(g, nk, ek, p, prefix, Some(ids.take(j + 1)), found),
{
    let plen = prefix.len() as int;
    let g_node = ids[j];
    let allowed_old = Some(ids.take(j));
    let allowed_new = Some(ids.take(j + 1));
    assert(ids.take(j + 1) =~= ids.take(j).push(g_node));
    assert forall|n: NodeId| #[trigger] ids.take(j + 1).contains(n) == (ids.take(j).contains(n) || n == g_node) by {
        crate::graph::lemma_seq_push_contains(ids.take(j), g_node, n);
    }
    assert forall|i: int| 0 <= i < found.len() implies #[trigger] is_match(g, nk, ek, p, found[i])
        && found[i].take(plen) == prefix && (plen < found[i].len() ==> next_allowed(allowed_new, found[i][plen])) by {
        let x = found[i];
        assert(is_match(g, nk, ek, p, x));
        assert(x.len() == p.nodes@.len());
        assert(next_allowed(allowed_old, x[plen]));
    }
    assert forall|m: Seq<NodeId>|
        #[trigger] is_match(g, nk, ek, p, m) && m.take(plen) == prefix && (plen < m.len() ==> next_allowed(
            allowed_new,
            m[plen],
        )) implies found.contains(m) by {
        if m[plen] == g_node {
            lemma_match_position(g, nk, ek, p, prefix, m);
        } else {
            assert(next_allowed(allowed_old, m[plen]));
        }
    }
}

/// Once every live node was tried at the position after `prefix`, the
/// matches found list all matches extending `prefix`.
proof fn lemma_extensions_complete<N, E, NK, EK>(
    g: GraphView<N, E>,
    nk: Seq<Option<NK>>,
    ek: Seq<Option<EK>>,
    p: Pattern<NK, EK>,
    prefix: Seq<NodeId>,
    ids: Seq<NodeId>,
    found: Seq<Seq<NodeId>>,
)
    requires
        g.nodes.len() <= usize::MAX,
        ids == g.node_ids(),
        prefix.len() < p.nodes@.len(),
        lists_extensions(g, nk, ek, p, prefix, Some(ids.take(ids.len() as int)), found),
    ensures
        lists_extensions(g, nk, ek, p, prefix, None, found),
{
    let plen = prefix.len() as int;
    assert(ids.take(ids.len() as int) =~= ids);
    assert forall|i: int| 0 <= i < found.len() implies #[trigger] is_match(g, nk, ek, p, found[i])
        && found[i].take(plen) == prefix && (plen < found[i].len() ==> next_allowed(None, found[i][plen])) by {
        assert(is_match(g, nk, ek, p, found[i]));
    }
    assert forall|m: Seq<NodeId>|
        #[trigger] is_match(g, nk, ek, p, m) && m.take(plen) == prefix && (plen < m.len() ==> next_allowed(
            None,
            m[plen],
        )) implies found.contains(m) by {
        assert(position_ok(g, nk, ek, p, m, plen));
        g.lemma_node_ids_contains(g.nodes.len(), m[plen]);
        assert(next_allowed(Some(ids), m[plen]));
    }
}

/// Append, in lexicographic order, every match that extends `mapping`.
#[verifier::spinoff_prover]
fn vf2_search<N: NodeData, E: EdgeData>(
    graph: &Graph<N, E>,
    kinds: &GraphKinds<N::Kind, E::Kind>,
    pattern: &Pattern<N::Kind, E::Kind>,
    mapping: &mut Vec<NodeId>,
    matches: &mut Vec<Match>,
)
    requires
        graph.wf(),
        kinds.fits(graph@),
        pattern.wf(),
        obeys_concrete_eq::<N::Kind>(),
        obeys_concrete_eq::<E::Kind>(),
        is_partial_match(graph@, kinds.nodes@, kinds.edges@, *pattern, old(mapping)@),
    ensures
        final(mapping)@ == old(mapping)@,
        old(matches)@.len() <= final(matches)@.len(),
        final(matches)@.take(old(matches)@.len() as int) == old(matches)@,
        lists_extensions(
            graph@,
            kinds.nodes@,
            kinds.edges@,
            *pattern,
            old(mapping)@,
            None,
            maps_of(final(matches)@.skip(old(matches)@.len() as int)),
        ),
    decreases pattern.nodes@.len() - old(mapping)@.len(),
{
    let ghost g = graph@;
    let ghost nk = kinds.nodes@;
    let ghost ek = kinds.edges@;
    let ghost p = *pattern;
    let ghost prefix = mapping@;
    let ghost start = matches@.len();
    let ghost m0 = matches@;
    assert(prefix == old(mapping)@);
    if mapping.len() == pattern.nodes.len() {
        if all_edges_match(graph, kinds, pattern, mapping) {
            matches.push(Match { node_map: copy_node_ids(mapping) });
        }
        proof {
            let found = maps_of(matches@.skip(start as int));
            assert(matches@.take(start as int) =~= m0);
            if all_edges_present(g, ek, p, prefix) {
                assert(found =~= seq![prefix]);
                assert(prefix.take(prefix.len() as int) =~= prefix);
            } else {
                assert(found =~= Seq::<Seq<NodeId>>::empty());
            }
            assert forall|m: Seq<NodeId>|
                #[trigger] is_match(g, nk, ek, p, m) && m.take(prefix.len() as int) == prefix && (
                prefix.len() < m.len() ==> next_allowed(None, m[prefix.len() as int])) implies found.contains(
                m,
            ) by {
                assert(m =~= prefix);
                assert(found[0] == prefix);
            }
        }
        return;
    }
    let ids = graph.node_ids();
    proof {
        graph.lemma_wf_len();
        g.lemma_node_ids_sorted(g.nodes.len());
    }
    let p_node = &pattern.nodes[mapping.len()];
    let ghost plen = prefix.len() as int;
    let mut j: usize = 0;
    while j < ids.len()
        invariant
            graph.wf(),
            kinds.fits(graph@),
            pattern.wf(),
            obeys_concrete_eq::<N::Kind>(),
            obeys_concrete_eq::<E::Kind>(),
            g == graph@,
            nk == kinds.nodes@,
            ek == kinds.edges@,
            p == *pattern,
            g.nodes.len() <= usize::MAX,
            ids@ == g.node_ids(),
            forall|a: int, b: int| 0 <= a < b < ids@.len() ==> (#[trigger] ids@[a]).0 < (#[trigger] ids@[b]).0,
            mapping@ == prefix,
            old(mapping)@ == prefix,
            old(matches)@ == m0,
            start == m0.len(),
            plen == prefix.len(),
            plen < p.nodes@.len(),
            *p_node == p.nodes@[plen],
            is_partial_match(g, nk, ek, p, prefix),
            0 <= j <= ids@.len(),
            start <= matches@.len(),
            matches@.take(start as int) == m0,
            lists_extensions(
                g,
                nk,
                ek,
                p,
                prefix,
                Some(ids@.take(j as int)),
                maps_of(matches@.skip(start as int)),
            ),
        decreases ids@.len() - j,
    {
        let g_node = ids[j];
        let ghost before = matches@;
        proof {
            g.lemma_node_ids_contains(g.nodes.len(), g_node);
            assert(ids@.contains(g_node));
        }
        let mut accepted = !contains_node(mapping, g_node);
        if accepted {
            match &kinds.nodes[g_node.0] {
                Some(k) => {
                    if !kinds_equal(*k, p_node.kind) {
                        accepted = false;
                    }
                },
                None => {
                    accepted = false;
                },
            }
        }
        if accepted {
            if !consistent(graph, kinds, pattern, mapping, p_node, g_node) {
                accepted = false;
            }
        }
        let ghost q = prefix.push(g_node);
        proof {
            assert(q.take(plen) =~= prefix);
            assert(accepted ==> position_ok(g, nk, ek, p, q, plen)) by {
                if accepted {
                    assert forall|i: int| 0 <= i < plen implies q[i] != q[plen] by {
                        assert(q[i] == prefix[i]);
                        assert(prefix.contains(prefix[i]));
                    }
                }
            }
            assert(!accepted ==> !position_ok(g, nk, ek, p, q, plen)) by {
                if position_ok(g, nk, ek, p, q, plen) {
                    assert(!prefix.contains(g_node)) by {
                        if prefix.contains(g_node) {
                            let i = choose|i: int| 0 <= i < prefix.len() && prefix[i] == g_node;
                            assert(q[i] == q[plen]);
                        }
                    }
                }
            }
        }
        if accepted {
            proof {
                lemma_partial_push(g, nk, ek, p, prefix, g_node);
            }
            mapping.push(g_node);
            assert(mapping@.len() == prefix.len() + 1);
            vf2_search(graph, kinds, pattern, mapping, matches);
            mapping.pop();
            proof {
                assert(mapping@ =~= prefix);
                let found_old = maps_of(before.skip(start as int));
                let found_g = maps_of(matches@.skip(before.len() as int));
                let found_new = maps_of(matches@.skip(start as int));
                assert(matches@.take(before.len() as int) == before);
                assert(matches@.take(start as int) =~= m0) by {
                    assert(before.take(start as int) == m0);
                    assert forall|i: int| 0 <= i < start implies matches@[i] == m0[i] by {
                        assert(matches@.take(before.len() as int)[i] == before[i]);
                    }
                }
                assert(found_new =~= found_old + found_g) by {
                    assert forall|i: int| 0 <= i < found_old.len() implies found_new[i] == found_old[i] by {
                        assert(matches@.take(before.len() as int)[start + i] == before[start + i]);
                    }
                }
                lemma_extend_accepted(g, nk, ek, p, prefix, ids@, j as int, found_old, found_g);
            }
        } else {
            proof {
                lemma_extend_rejected(g, nk, ek, p, prefix, ids@, j as int, maps_of(matches@.skip(start as int)));
            }
        }
        j = j + 1;
    }
    proof {
        lemma_extensions_complete(g, nk, ek, p, prefix, ids@, maps_of(matches@.skip(start as int)));
        assert(prefix == old(mapping)@);
        assert(start == old(matches)@.len());
    }
}

/// Find all matches of a pattern in a graph, given the kinds of the graph's
/// nodes and edges. The matches come in lexicographic order of their node
/// maps: the order of a depth-first search that tries graph nodes by
/// ascending id for each pattern node in turn.
pub fn find_matches_in<N: NodeData, E: EdgeData>(
    graph: &Graph<N, E>,
    kinds: &GraphKinds<N::Kind, E::Kind>,
    pattern: &Pattern<N::Kind, E::Kind>,
) -> (r: Vec<Match>)
    requires
        graph.wf(),
        kinds.fits(graph@),
        pattern.wf(),
        obeys_concrete_eq::<N::Kind>(),
        obeys_concrete_eq::<E::Kind>(),
    ensures
        lists_all_matches(graph@, kinds.nodes@, kinds.edges@, *pattern, maps_of(r@)),
{
    let mut matches: Vec<Match> = Vec::new();
    let mut mapping: Vec<NodeId> = Vec::new();
    proof {
        assert(is_partial_match(graph@, kinds.nodes@, kinds.edges@, *pattern, mapping@));
    }
    vf2_search(graph, kinds, pattern, &mut mapping, &mut matches);
    proof {
        assert(matches@.skip(0) =~= matches@);
    }
    matches
}

/// Find all matches of a pattern in a graph using VF2-lite subgraph
/// isomorphism: exactly the matches for the kinds of the graph's nodes and
/// edges, in lexicographic order of their node maps.
pub fn find_matches<N: NodeData, E: EdgeData>(
    graph: &Graph<N, E>,
    pattern: &Pattern<N::Kind, E::Kind>,
) -> (r: Vec<Match>)
    requires
        graph.wf(),
        pattern.wf(),
        obeys_concrete_eq::<N::Kind>(),
        obeys_concrete_eq::<E::Kind>(),
    ensures
        lists_all_matches(graph@, node_kinds(graph@), edge_kinds(graph@), *pattern, maps_of(r@)),
{
    let kinds = graph.kinds();
    find_matches_in(graph, &kinds, pattern)
}

} // verus!
