//! Arena-based directed graph with stable node/edge identifiers.

use vstd::prelude::*;
use crate::node::NodeData;
use crate::edge::EdgeData;
use crate::pattern::contains_node;

verus! {

/// Stable identifier for a node in the graph.
#[derive(Debug, Clone, Copy, PartialEq, Eq, Hash, Structural)]
pub struct NodeId(pub usize);

/// Stable identifier for an edge in the graph.
#[derive(Debug, Clone, Copy, PartialEq, Eq, Hash, Structural)]
pub struct EdgeId(pub usize);

/// The abstract content of one live edge slot.
pub struct EdgeView<E> {
    pub source: NodeId,
    pub target: NodeId,
    pub data: E,
}

/// The abstract content of a graph: one entry per node slot and per edge slot
/// ever allocated, `None` for a slot whose node or edge was removed.
pub struct GraphView<N, E> {
    pub nodes: Seq<Option<N>>,
    pub edges: Seq<Option<EdgeView<E>>>,
}

/// Number of occupied slots in a slot sequence.
pub open spec fn count_live<T>(s: Seq<Option<T>>) -> nat
    decreases s.len(),
{
    if s.len() == 0 {
        0
    } else {
        count_live(s.drop_last()) + if s.last() is Some {
            1nat
        } else {
            0nat
        }
    }
}

/// `s` with every occurrence of `x` left out, order kept.
pub open spec fn without(s: Seq<EdgeId>, x: EdgeId) -> Seq<EdgeId>
    decreases s.len(),
{
    if s.len() == 0 {
        s
    } else {
        let r = without(s.drop_last(), x);
        if s.last() == x {
            r
        } else {
            r.push(s.last())
        }
    }
}

/// Ids of the live edges among the first `k` slots of `edges` whose source is `n`, ascending.
pub open spec fn edges_out_upto<E>(edges: Seq<Option<EdgeView<E>>>, n: NodeId, k: nat) -> Seq<EdgeId>
    decreases k,
{
    if k == 0 {
        Seq::empty()
    } else {
        let prev = edges_out_upto(edges, n, (k - 1) as nat);
        if k - 1 < edges.len() && edges[k - 1] is Some && edges[k - 1]->0.source == n {
            prev.push(EdgeId((k - 1) as usize))
        } else {
            prev
        }
    }
}

/// Ids of the live edges among the first `k` slots of `edges` whose target is `n`, ascending.
pub open spec fn edges_in_upto<E>(edges: Seq<Option<EdgeView<E>>>, n: NodeId, k: nat) -> Seq<EdgeId>
    decreases k,
{
    if k == 0 {
        Seq::empty()
    } else {
        let prev = edges_in_upto(edges, n, (k - 1) as nat);
        if k - 1 < edges.len() && edges[k - 1] is Some && edges[k - 1]->0.target == n {
            prev.push(EdgeId((k - 1) as usize))
        } else {
            prev
        }
    }
}

impl<N, E> GraphView<N, E> {
    /// The graph with no slots.
    pub open spec fn empty() -> Self {
        GraphView { nodes: Seq::empty(), edges: Seq::empty() }
    }

    pub open spec fn node_live(self, i: int) -> bool {
        0 <= i < self.nodes.len() && self.nodes[i] is Some
    }

    pub open spec fn edge_live(self, i: int) -> bool {
        0 <= i < self.edges.len() && self.edges[i] is Some
    }

    pub open spec fn node_data(self, i: int) -> N {
        self.nodes[i]->0
    }

    pub open spec fn edge_at(self, i: int) -> EdgeView<E> {
        self.edges[i]->0
    }

    /// Ids of the live edges among the first `k` slots whose source is `n`, ascending.
    pub open spec fn out_upto(self, n: NodeId, k: nat) -> Seq<EdgeId> {
        edges_out_upto(self.edges, n, k)
    }

    /// Ids of the live edges among the first `k` slots whose target is `n`, ascending.
    pub open spec fn in_upto(self, n: NodeId, k: nat) -> Seq<EdgeId> {
        edges_in_upto(self.edges, n, k)
    }

    /// The outgoing edges of a node: empty unless the node is live.
    pub open spec fn out_edges(self, n: NodeId) -> Seq<EdgeId> {
        if self.node_live(n.0 as int) {
            self.out_upto(n, self.edges.len())
        } else {
            Seq::empty()
        }
    }

    /// The incoming edges of a node: empty unless the node is live.
    pub open spec fn in_edges(self, n: NodeId) -> Seq<EdgeId> {
        if self.node_live(n.0 as int) {
            self.in_upto(n, self.edges.len())
        } else {
            Seq::empty()
        }
    }

    /// Ids of the live nodes among the first `k` slots, ascending.
    pub open spec fn node_ids_upto(self, k: nat) -> Seq<NodeId>
        decreases k,
    {
        if k == 0 {
            Seq::empty()
        } else {
            let prev = self.node_ids_upto((k - 1) as nat);
            if self.node_live(k - 1) {
                prev.push(NodeId((k - 1) as usize))
            } else {
                prev
            }
        }
    }

    /// Ids of the live edges among the first `k` slots, ascending.
    pub open spec fn edge_ids_upto(self, k: nat) -> Seq<EdgeId>
        decreases k,
    {
        if k == 0 {
            Seq::empty()
        } else {
            let prev = self.edge_ids_upto((k - 1) as nat);
            if self.edge_live(k - 1) {
                prev.push(EdgeId((k - 1) as usize))
            } else {
                prev
            }
        }
    }

    pub open spec fn node_ids(self) -> Seq<NodeId> {
        self.node_ids_upto(self.nodes.len())
    }

    pub open spec fn edge_ids(self) -> Seq<EdgeId> {
        self.edge_ids_upto(self.edges.len())
    }

    pub open spec fn node_count(self) -> nat {
        count_live(self.nodes)
    }

    pub open spec fn edge_count(self) -> nat {
        count_live(self.edges)
    }

    /// Every live edge names node slots that exist.
    pub open spec fn endpoints_in_range(self) -> bool {
        forall|e: int|
            #![trigger self.edges[e]]
            self.edge_live(e) ==> self.edge_at(e).source.0 < self.nodes.len()
                && self.edge_at(e).target.0 < self.nodes.len()
    }

    /// A new node slot holding `d`.
    pub open spec fn add_node(self, d: N) -> Self {
        GraphView { nodes: self.nodes.push(Some(d)), edges: self.edges }
    }

    /// A new edge slot from `s` to `t` holding `d`.
    pub open spec fn add_edge(self, s: NodeId, t: NodeId, d: E) -> Self {
        GraphView {
            nodes: self.nodes,
            edges: self.edges.push(Some(EdgeView { source: s, target: t, data: d })),
        }
    }

    /// The edge in slot `e` removed, if it is live.
    /// Live edge `i` runs between two nodes of `ns`.
    pub open spec fn edge_within(self, i: int, ns: Seq<NodeId>) -> bool {
        self.edge_live(i) && ns.contains(self.edge_at(i).source) && ns.contains(self.edge_at(i).target)
    }

    /// The graph without the edges that run between two nodes of `ns`.
    pub open spec fn without_edges_within(self, ns: Seq<NodeId>) -> Self {
        GraphView {
            nodes: self.nodes,
            edges: Seq::new(
                self.edges.len(),
                |i: int|
                    if self.edge_within(i, ns) {
                        None
                    } else {
                        self.edges[i]
                    },
            ),
        }
    }

    pub open spec fn remove_edge(self, e: int) -> Self {
        if self.edge_live(e) {
            GraphView { nodes: self.nodes, edges: self.edges.update(e, None) }
        } else {
            self
        }
    }

    /// Whether live edge `e` has node `n` as source or target.
    pub open spec fn incident(self, e: int, n: int) -> bool {
        self.edge_live(e) && (self.edge_at(e).source.0 == n || self.edge_at(e).target.0 == n)
    }

    /// The node in slot `n` removed together with every live edge touching it,
    /// if the node is live.
    pub open spec fn remove_node(self, n: int) -> Self {
        if self.node_live(n) {
            GraphView {
                nodes: self.nodes.update(n, None),
                edges: Seq::new(
                    self.edges.len(),
                    |i: int|
                        if self.incident(i, n) {
                            None
                        } else {
                            self.edges[i]
                        },
                ),
            }
        } else {
            self
        }
    }

    /// The data of live node `n` replaced by `d`; unchanged if the node is not live.
    pub open spec fn set_node_data(self, n: int, d: N) -> Self {
        if self.node_live(n) {
            GraphView { nodes: self.nodes.update(n, Some(d)), edges: self.edges }
        } else {
            self
        }
    }
}

/// `a` has the same slots as `b`, live in the same places, with the same edge
/// endpoints; the data may differ.
pub open spec fn same_shape<A, B, C, D>(a: GraphView<A, B>, b: GraphView<C, D>) -> bool {
    &&& a.nodes.len() == b.nodes.len()
    &&& a.edges.len() == b.edges.len()
    &&& forall|i: int| 0 <= i < a.nodes.len() ==> (#[trigger] a.nodes[i] is Some) == (b.nodes[i] is Some)
    &&& forall|i: int|
        0 <= i < a.edges.len() ==> (#[trigger] a.edges[i] is Some) == (b.edges[i] is Some)
            && (a.edges[i] is Some ==> a.edges[i]->0.source == b.edges[i]->0.source
                && a.edges[i]->0.target == b.edges[i]->0.target)
}

/// `copy` has the shape of `orig` and each live slot's data is a clone of the
/// data in the same slot of `orig`.
pub open spec fn is_clone_of<N: Clone, E: Clone>(copy: GraphView<N, E>, orig: GraphView<N, E>) -> bool {
    &&& same_shape(copy, orig)
    &&& forall|i: int|
        0 <= i < copy.nodes.len() && copy.nodes[i] is Some ==> cloned(
            orig.nodes[i]->0,
            #[trigger] copy.nodes[i]->0,
        )
    &&& forall|i: int|
        0 <= i < copy.edges.len() && copy.edges[i] is Some ==> cloned(
            orig.edges[i]->0.data,
            #[trigger] copy.edges[i]->0.data,
        )
}

// ----- lemmas on slot counting and adjacency -----

pub proof fn lemma_count_live_le<T>(s: Seq<Option<T>>)
    ensures
        count_live(s) <= s.len(),
    decreases s.len(),
{
    if s.len() > 0 {
        lemma_count_live_le(s.drop_last());
    }
}

pub proof fn lemma_count_live_push<T>(s: Seq<Option<T>>, x: Option<T>)
    ensures
        count_live(s.push(x)) == count_live(s) + if x is Some {
            1nat
        } else {
            0nat
        },
{
    assert(s.push(x).drop_last() =~= s);
}

pub proof fn lemma_count_live_same<A, B>(a: Seq<Option<A>>, b: Seq<Option<B>>)
    requires
        a.len() == b.len(),
        forall|i: int| 0 <= i < a.len() ==> (#[trigger] a[i] is Some) == (b[i] is Some),
    ensures
        count_live(a) == count_live(b),
    decreases a.len(),
{
    if a.len() > 0 {
        lemma_count_live_same(a.drop_last(), b.drop_last());
        assert(a.last() is Some == b.last() is Some);
    }
}

pub proof fn lemma_count_live_update<T>(s: Seq<Option<T>>, i: int, x: Option<T>)
    requires
        0 <= i < s.len(),
    ensures
        count_live(s.update(i, x)) + (if s[i] is Some {
            1nat
        } else {
            0nat
        }) == count_live(s) + if x is Some {
            1nat
        } else {
            0nat
        },
    decreases s.len(),
{
    if i == s.len() - 1 {
        assert(s.update(i, x).drop_last() =~= s.drop_last());
    } else {
        assert(s.update(i, x).drop_last() =~= s.drop_last().update(i, x));
        lemma_count_live_update(s.drop_last(), i, x);
    }
}

pub proof fn lemma_seq_push_contains<T>(s: Seq<T>, y: T, x: T)
    ensures
        s.push(y).contains(x) == (s.contains(x) || y == x),
{
    if s.push(y).contains(x) && y != x {
        let k = choose|k: int| 0 <= k < s.push(y).len() && s.push(y)[k] == x;
        assert(s[k] == x);
    }
    if s.contains(x) {
        let k = choose|k: int| 0 <= k < s.len() && s[k] == x;
        assert(s.push(y)[k] == x);
    }
    if y == x {
        assert(s.push(y)[s.len() as int] == x);
    }
}

proof fn lemma_without_push(s: Seq<EdgeId>, y: EdgeId, x: EdgeId)
    ensures
        without(s.push(y), x) == if y == x {
            without(s, x)
        } else {
            without(s, x).push(y)
        },
{
    assert(s.push(y).drop_last() =~= s);
}

proof fn lemma_without_absent(s: Seq<EdgeId>, x: EdgeId)
    requires
        !s.contains(x),
    ensures
        without(s, x) == s,
    decreases s.len(),
{
    if s.len() > 0 {
        assert(!s.drop_last().contains(x)) by {
            if s.drop_last().contains(x) {
                let j = choose|j: int| 0 <= j < s.drop_last().len() && s.drop_last()[j] == x;
                assert(s[j] == x);
            }
        }
        lemma_without_absent(s.drop_last(), x);
        assert(s.last() != x);
        assert(s.drop_last().push(s.last()) =~= s);
    }
}

/// Appending one edge slot extends the adjacency of its endpoints by its id.
pub proof fn lemma_edges_push<E>(edges: Seq<Option<EdgeView<E>>>, ev: EdgeView<E>, n: NodeId)
    ensures
        edges_out_upto(edges.push(Some(ev)), n, edges.len() + 1) == if ev.source == n {
            edges_out_upto(edges, n, edges.len()).push(EdgeId(edges.len() as usize))
        } else {
            edges_out_upto(edges, n, edges.len())
        },
        edges_in_upto(edges.push(Some(ev)), n, edges.len() + 1) == if ev.target == n {
            edges_in_upto(edges, n, edges.len()).push(EdgeId(edges.len() as usize))
        } else {
            edges_in_upto(edges, n, edges.len())
        },
{
    let g1 = GraphView::<(), E> { nodes: Seq::empty(), edges: edges.push(Some(ev)) };
    let g0 = GraphView::<(), E> { nodes: Seq::empty(), edges: edges };
    g1.lemma_upto_agree(g0, n, edges.len());
}

impl<N, E> GraphView<N, E> {
    /// The adjacency of the first `k` edge slots depends on those slots only.
    pub proof fn lemma_upto_agree<C, D>(self, other: GraphView<C, D>, n: NodeId, k: nat)
        requires
            k <= self.edges.len(),
            k <= other.edges.len(),
            forall|i: int|
                0 <= i < k ==> (#[trigger] self.edges[i] is Some) == (other.edges[i] is Some) && (
                self.edges[i] is Some ==> self.edges[i]->0.source == other.edges[i]->0.source
                    && self.edges[i]->0.target == other.edges[i]->0.target),
        ensures
            self.out_upto(n, k) == other.out_upto(n, k),
            self.in_upto(n, k) == other.in_upto(n, k),
        decreases k,
    {
        if k > 0 {
            self.lemma_upto_agree(other, n, (k - 1) as nat);
            assert(self.edges[k - 1] is Some == other.edges[k - 1] is Some);
        }
    }

    /// Membership in `out_upto` and `in_upto`.
    pub proof fn lemma_upto_contains(self, n: NodeId, k: nat, e: EdgeId)
        requires
            k <= self.edges.len(),
            self.edges.len() <= usize::MAX,
        ensures
            self.out_upto(n, k).contains(e) <==> (e.0 < k && self.edge_live(e.0 as int)
                && self.edge_at(e.0 as int).source == n),
            self.in_upto(n, k).contains(e) <==> (e.0 < k && self.edge_live(e.0 as int)
                && self.edge_at(e.0 as int).target == n),
        decreases k,
    {
        if k > 0 {
            self.lemma_upto_contains(n, (k - 1) as nat, e);
            let po = self.out_upto(n, (k - 1) as nat);
            let pi = self.in_upto(n, (k - 1) as nat);
            let last = EdgeId((k - 1) as usize);
            if self.edge_live(k - 1) && self.edge_at(k - 1).source == n {
                assert(po.push(last)[po.len() as int] == last);
                if po.push(last).contains(e) && e != last {
                    let j = choose|j: int| 0 <= j < po.push(last).len() && po.push(last)[j] == e;
                    assert(po[j] == e);
                }
                if po.contains(e) {
                    let j = choose|j: int| 0 <= j < po.len() && po[j] == e;
                    assert(po.push(last)[j] == e);
                }
            }
            if self.edge_live(k - 1) && self.edge_at(k - 1).target == n {
                assert(pi.push(last)[pi.len() as int] == last);
                if pi.push(last).contains(e) && e != last {
                    let j = choose|j: int| 0 <= j < pi.push(last).len() && pi.push(last)[j] == e;
                    assert(pi[j] == e);
                }
                if pi.contains(e) {
                    let j = choose|j: int| 0 <= j < pi.len() && pi[j] == e;
                    assert(pi.push(last)[j] == e);
                }
            }
        }
    }

    /// No live edge among the first `k` slots leaves or enters `n`.
    pub proof fn lemma_upto_empty(self, n: NodeId, k: nat)
        requires
            k <= self.edges.len(),
            forall|i: int|
                0 <= i < k && #[trigger] self.edge_live(i) ==> self.edge_at(i).source != n
                    && self.edge_at(i).target != n,
        ensures
            self.out_upto(n, k) == Seq::<EdgeId>::empty(),
            self.in_upto(n, k) == Seq::<EdgeId>::empty(),
        decreases k,
    {
        if k > 0 {
            self.lemma_upto_empty(n, (k - 1) as nat);
            if self.edge_live(k - 1) {
                assert(self.edge_at(k - 1).source != n);
            }
        }
    }

    /// Removing edge slot `e` removes `e` from every adjacency sequence.
    pub proof fn lemma_upto_remove_edge(self, n: NodeId, k: nat, e: int)
        requires
            k <= self.edges.len(),
            self.edges.len() <= usize::MAX,
            0 <= e < self.edges.len(),
        ensures
            ({
                let v = GraphView::<N, E> { nodes: self.nodes, edges: self.edges.update(e, None) };
                &&& v.out_upto(n, k) == without(self.out_upto(n, k), EdgeId(e as usize))
                &&& v.in_upto(n, k) == without(self.in_upto(n, k), EdgeId(e as usize))
            }),
        decreases k,
    {
        let v = GraphView::<N, E> { nodes: self.nodes, edges: self.edges.update(e, None) };
        if k > 0 {
            self.lemma_upto_remove_edge(n, (k - 1) as nat, e);
            let last = EdgeId((k - 1) as usize);
            lemma_without_push(self.out_upto(n, (k - 1) as nat), last, EdgeId(e as usize));
            lemma_without_push(self.in_upto(n, (k - 1) as nat), last, EdgeId(e as usize));
        }
    }

    pub proof fn lemma_node_ids_contains(self, k: nat, n: NodeId)
        requires
            k <= self.nodes.len(),
            self.nodes.len() <= usize::MAX,
        ensures
            self.node_ids_upto(k).contains(n) <==> (n.0 < k && self.node_live(n.0 as int)),
        decreases k,
    {
        if k > 0 {
            self.lemma_node_ids_contains((k - 1) as nat, n);
            let p = self.node_ids_upto((k - 1) as nat);
            let last = NodeId((k - 1) as usize);
            if self.node_live(k - 1) {
                assert(p.push(last)[p.len() as int] == last);
                if p.push(last).contains(n) && n != last {
                    let j = choose|j: int| 0 <= j < p.push(last).len() && p.push(last)[j] == n;
                    assert(p[j] == n);
                }
                if p.contains(n) {
                    let j = choose|j: int| 0 <= j < p.len() && p[j] == n;
                    assert(p.push(last)[j] == n);
                }
            }
        }
    }
    pub proof fn lemma_edge_ids_contains(self, k: nat, e: EdgeId)
        requires
            k <= self.edges.len(),
            self.edges.len() <= usize::MAX,
        ensures
            self.edge_ids_upto(k).contains(e) <==> (e.0 < k && self.edge_live(e.0 as int)),
        decreases k,
    {
        if k > 0 {
            self.lemma_edge_ids_contains((k - 1) as nat, e);
            let p = self.edge_ids_upto((k - 1) as nat);
            let last = EdgeId((k - 1) as usize);
            if self.edge_live(k - 1) {
                assert(p.push(last)[p.len() as int] == last);
                if p.push(last).contains(e) && e != last {
                    let j = choose|j: int| 0 <= j < p.push(last).len() && p.push(last)[j] == e;
                    assert(p[j] == e);
                }
                if p.contains(e) {
                    let j = choose|j: int| 0 <= j < p.len() && p[j] == e;
                    assert(p.push(last)[j] == e);
                }
            }
        }
    }

    /// The live node ids among the first `k` slots are as many as the live
    /// node slots among them; likewise for edges.
    proof fn lemma_ids_upto_count(self, k: nat)
        requires
            k <= self.nodes.len(),
        ensures
            self.node_ids_upto(k).len() == count_live(self.nodes.take(k as int)),
        decreases k,
    {
        if k > 0 {
            self.lemma_ids_upto_count((k - 1) as nat);
            assert(self.nodes.take(k as int).drop_last() =~= self.nodes.take(k - 1));
        }
    }

    proof fn lemma_edge_ids_upto_count(self, k: nat)
        requires
            k <= self.edges.len(),
        ensures
            self.edge_ids_upto(k).len() == count_live(self.edges.take(k as int)),
        decreases k,
    {
        if k > 0 {
            self.lemma_edge_ids_upto_count((k - 1) as nat);
            assert(self.edges.take(k as int).drop_last() =~= self.edges.take(k - 1));
        }
    }

    /// The node count is the number of live node ids, and the edge count
    /// the number of live edge ids.
    pub proof fn lemma_counts_are_id_counts(self)
        ensures
            self.node_count() == self.node_ids().len(),
            self.edge_count() == self.edge_ids().len(),
    {
        self.lemma_ids_upto_count(self.nodes.len());
        assert(self.nodes.take(self.nodes.len() as int) =~= self.nodes);
        self.lemma_edge_ids_upto_count(self.edges.len());
        assert(self.edges.take(self.edges.len() as int) =~= self.edges);
    }

    /// `node_ids_upto` is strictly increasing.
    pub proof fn lemma_node_ids_sorted(self, k: nat)
        requires
            k <= self.nodes.len(),
            self.nodes.len() <= usize::MAX,
        ensures
            forall|a: int, b: int|
                0 <= a < b < self.node_ids_upto(k).len() ==> (#[trigger] self.node_ids_upto(k)[a]).0
                    < (#[trigger] self.node_ids_upto(k)[b]).0,
            forall|a: int|
                0 <= a < self.node_ids_upto(k).len() ==> (#[trigger] self.node_ids_upto(k)[a]).0 < k,
        decreases k,
    {
        if k > 0 {
            self.lemma_node_ids_sorted((k - 1) as nat);
            let p = self.node_ids_upto((k - 1) as nat);
            let q = self.node_ids_upto(k);
            assert forall|a: int| 0 <= a < p.len() implies #[trigger] q[a] == p[a] by {
                if self.node_live(k - 1) {
                    assert(q == p.push(NodeId((k - 1) as usize)));
                }
            }
            if self.node_live(k - 1) {
                assert(q[p.len() as int] == NodeId((k - 1) as usize));
            }
        }
    }
}

/// Ids are never reused: a new node takes a slot no node ever had, holding
/// the data given, and leaves every other slot as it was.
pub proof fn lemma_add_node_fresh<N, E>(g: GraphView<N, E>, d: N)
    ensures
        !g.node_live(g.nodes.len() as int),
        g.add_node(d).node_live(g.nodes.len() as int),
        g.add_node(d).node_data(g.nodes.len() as int) == d,
        forall|i: int| 0 <= i < g.nodes.len() ==> #[trigger] g.add_node(d).nodes[i] == g.nodes[i],
        g.add_node(d).edges == g.edges,
{
}

/// Removing a live node leaves no live edge touching it and changes nothing
/// else: the other nodes keep their slots and every edge not touching it
/// stays as it was.
pub proof fn lemma_remove_node_detaches<N, E>(g: GraphView<N, E>, n: int)
    requires
        g.node_live(n),
    ensures
        !g.remove_node(n).node_live(n),
        forall|e: int| !(#[trigger] g.remove_node(n).incident(e, n)),
        forall|i: int| 0 <= i < g.nodes.len() && i != n ==> #[trigger] g.remove_node(n).nodes[i] == g.nodes[i],
        forall|e: int|
            0 <= e < g.edges.len() && !g.incident(e, n) ==> #[trigger] g.remove_node(n).edges[e] == g.edges[e],
        g.remove_node(n).nodes.len() == g.nodes.len(),
        g.remove_node(n).edges.len() == g.edges.len(),
{
}

/// The kinds of a graph's nodes and edges, one entry per slot, `None` for
/// removed slots. This is what pattern matching and constraints read.
pub struct GraphKinds<NK, EK> {
    pub nodes: Vec<Option<NK>>,
    pub edges: Vec<Option<EK>>,
}

/// `nk` and `ek` have one entry per slot of `g`, present exactly for the live slots.
pub open spec fn kinds_fit<NK, EK, N, E>(
    nk: Seq<Option<NK>>,
    ek: Seq<Option<EK>>,
    g: GraphView<N, E>,
) -> bool {
    &&& nk.len() == g.nodes.len()
    &&& ek.len() == g.edges.len()
    &&& forall|i: int| 0 <= i < nk.len() ==> (#[trigger] nk[i] is Some) == (g.nodes[i] is Some)
    &&& forall|i: int| 0 <= i < ek.len() ==> (#[trigger] ek[i] is Some) == (g.edges[i] is Some)
}

/// The kind of every node slot: that of its node where one is live.
pub open spec fn node_kinds<N: NodeData, E>(g: GraphView<N, E>) -> Seq<Option<N::Kind>> {
    Seq::new(g.nodes.len(), |i: int| match g.nodes[i] {
        Some(d) => Some(d.spec_kind()),
        None => None,
    })
}

/// The kind of every edge slot: that of its edge's data where one is live.
pub open spec fn edge_kinds<N, E: EdgeData>(g: GraphView<N, E>) -> Seq<Option<E::Kind>> {
    Seq::new(g.edges.len(), |i: int| match g.edges[i] {
        Some(ev) => Some(ev.data.spec_kind()),
        None => None,
    })
}

impl<NK, EK> GraphKinds<NK, EK> {
    pub open spec fn fits<N, E>(&self, g: GraphView<N, E>) -> bool {
        kinds_fit(self.nodes@, self.edges@, g)
    }
}

// ----- the executable graph -----

struct NodeSlot<N> {
    data: N,
    outgoing: Vec<EdgeId>,
    incoming: Vec<EdgeId>,
}

struct EdgeSlot<E> {
    data: E,
    source: NodeId,
    target: NodeId,
}

/// A directed graph with stable node and edge identifiers.
/// Uses arena allocation: a removed node or edge leaves an empty slot, so ids
/// are never reused.
pub struct Graph<N: NodeData, E: EdgeData> {
    nodes: Vec<Option<NodeSlot<N>>>,
    edges: Vec<Option<EdgeSlot<E>>>,
    node_count: usize,
    edge_count: usize,
}

spec fn slot_data<N>(s: Option<NodeSlot<N>>) -> Option<N> {
    match s {
        Some(slot) => Some(slot.data),
        None => None,
    }
}

spec fn slot_edge<E>(s: Option<EdgeSlot<E>>) -> Option<EdgeView<E>> {
    match s {
        Some(e) => Some(EdgeView { source: e.source, target: e.target, data: e.data }),
        None => None,
    }
}

impl<N: NodeData, E: EdgeData> View for Graph<N, E> {
    type V = GraphView<N, E>;

    closed spec fn view(&self) -> GraphView<N, E> {
        GraphView {
            nodes: self.nodes@.map_values(|s: Option<NodeSlot<N>>| slot_data(s)),
            edges: self.edges@.map_values(|s: Option<EdgeSlot<E>>| slot_edge(s)),
        }
    }
}

impl<N: NodeData, E: EdgeData> Graph<N, E> {
    /// The adjacency lists and counters agree with the slots.
    pub closed spec fn inv(&self) -> bool {
        &&& self.nodes@.len() <= usize::MAX
        &&& self.edges@.len() <= usize::MAX
        &&& self.node_count as nat == count_live(self@.nodes)
        &&& self.edge_count as nat == count_live(self@.edges)
        &&& forall|i: int|
            0 <= i < self.nodes@.len() && (#[trigger] self.nodes@[i]) is Some ==> {
                &&& self.nodes@[i]->0.outgoing@ == self@.out_upto(
                    NodeId(i as usize),
                    self@.edges.len(),
                )
                &&& self.nodes@[i]->0.incoming@ == self@.in_upto(
                    NodeId(i as usize),
                    self@.edges.len(),
                )
            }
    }

    /// Well-formedness: the internal invariant, and every live edge names
    /// existing node slots.
    pub open spec fn wf(&self) -> bool {
        &&& self.inv()
        &&& self@.endpoints_in_range()
    }

    /// Slot counts of a well-formed graph fit in `usize`.
    pub proof fn lemma_wf_len(&self)
        requires
            self.wf(),
        ensures
            self@.nodes.len() <= usize::MAX,
            self@.edges.len() <= usize::MAX,
    {
        self.lemma_view_len();
    }

    proof fn lemma_view_len(&self)
        ensures
            self@.nodes.len() == self.nodes@.len(),
            self@.edges.len() == self.edges@.len(),
            forall|i: int|
                0 <= i < self.nodes@.len() ==> #[trigger] self@.nodes[i] == slot_data(
                    self.nodes@[i],
                ),
            forall|i: int|
                0 <= i < self.edges@.len() ==> #[trigger] self@.edges[i] == slot_edge(
                    self.edges@[i],
                ),
    {
    }

    /// Create an empty graph.
    pub fn new() -> (g: Self)
        ensures
            g.wf(),
            g@ == GraphView::<N, E>::empty(),
    {
        let g = Graph { nodes: Vec::new(), edges: Vec::new(), node_count: 0, edge_count: 0 };
        assert(g@.nodes =~= Seq::<Option<N>>::empty());
        assert(g@.edges =~= Seq::<Option<EdgeView<E>>>::empty());
        g
    }

    /// Add a node to the graph. Returns its stable ID.
    pub fn add_node(&mut self, data: N) -> (id: NodeId)
        requires
            old(self).wf(),
        ensures
            final(self).wf(),
            final(self)@ == old(self)@.add_node(data),
            id.0 == old(self)@.nodes.len(),
    {
        let ghost g0 = self@;
        proof {
            self.lemma_view_len();
            lemma_count_live_le(g0.nodes);
            lemma_count_live_push(g0.nodes, Some(data));
        }
        let id = NodeId(self.nodes.len());
        self.nodes.push(Some(NodeSlot { data, outgoing: Vec::new(), incoming: Vec::new() }));
        let _ = self.nodes.len();
        self.node_count = self.node_count + 1;
        proof {
            self.lemma_view_len();
            assert(self@.nodes =~= g0.nodes.push(Some(data)));
            assert(self@.edges =~= g0.edges);
            assert forall|i: int|
                0 <= i < self.nodes@.len() && (#[trigger] self.nodes@[i]) is Some implies {
                &&& self.nodes@[i]->0.outgoing@ == self@.out_upto(
                    NodeId(i as usize),
                    self@.edges.len(),
                )
                &&& self.nodes@[i]->0.incoming@ == self@.in_upto(
                    NodeId(i as usize),
                    self@.edges.len(),
                )
            } by {
                if i == id.0 {
                    g0.lemma_upto_empty(NodeId(i as usize), g0.edges.len());
                    assert(self.nodes@[i]->0.outgoing@ =~= Seq::<EdgeId>::empty());
                    assert(self.nodes@[i]->0.incoming@ =~= Seq::<EdgeId>::empty());
                }
            }
        }
        id
    }

    /// Add a directed edge from source to target. Returns its stable ID.
    #[verifier::spinoff_prover]
    pub fn add_edge(&mut self, source: NodeId, target: NodeId, data: E) -> (id: EdgeId)
        requires
            old(self).wf(),
            source.0 < old(self)@.nodes.len(),
            target.0 < old(self)@.nodes.len(),
        ensures
            final(self).wf(),
            final(self)@ == old(self)@.add_edge(source, target, data),
            id.0 == old(self)@.edges.len(),
    {
        let ghost g0 = self@;
        let ghost ev = EdgeView { source, target, data };
        proof {
            self.lemma_view_len();
            lemma_count_live_le(g0.edges);
            lemma_count_live_push(g0.edges, Some(ev));
        }
        let id = EdgeId(self.edges.len());
        self.edges.push(Some(EdgeSlot { data, source, target }));
        let _ = self.edges.len();
        self.edge_count = self.edge_count + 1;
        let ghost nodes_mid = self.nodes@;
        let s = self.nodes[source.0].take();
        match s {
            Some(mut slot) => {
                slot.outgoing.push(id);
                self.nodes.set(source.0, Some(slot));
            },
            None => {},
        }
        let ghost nodes_mid2 = self.nodes@;
        proof {
            assert(nodes_mid == old(self).nodes@);
            assert(forall|i: int| 0 <= i < nodes_mid.len() && i != source.0 ==> nodes_mid2[i] == nodes_mid[i]);
            assert(nodes_mid[source.0 as int] is Some ==> nodes_mid2[source.0 as int] is Some
                && nodes_mid2[source.0 as int]->0.data == nodes_mid[source.0 as int]->0.data
                && nodes_mid2[source.0 as int]->0.incoming == nodes_mid[source.0 as int]->0.incoming
                && nodes_mid2[source.0 as int]->0.outgoing@ == nodes_mid[source.0 as int]->0.outgoing@.push(id));
            assert(nodes_mid[source.0 as int] is None ==> nodes_mid2[source.0 as int] is None);
        }
        let t = self.nodes[target.0].take();
        match t {
            Some(mut slot) => {
                slot.incoming.push(id);
                self.nodes.set(target.0, Some(slot));
            },
            None => {},
        }
        proof {
            assert(forall|i: int| 0 <= i < nodes_mid.len() && i != target.0 ==> self.nodes@[i] == nodes_mid2[i]);
            assert(nodes_mid2[target.0 as int] is Some ==> self.nodes@[target.0 as int] is Some
                && self.nodes@[target.0 as int]->0.data == nodes_mid2[target.0 as int]->0.data
                && self.nodes@[target.0 as int]->0.outgoing == nodes_mid2[target.0 as int]->0.outgoing
                && self.nodes@[target.0 as int]->0.incoming@ == nodes_mid2[target.0 as int]->0.incoming@.push(id));
            assert(nodes_mid2[target.0 as int] is None ==> self.nodes@[target.0 as int] is None);
        }
        proof {
            self.lemma_view_len();
            assert(self@.nodes =~= g0.nodes);
            assert(self@.edges =~= g0.edges.push(Some(ev)));
            assert forall|i: int|
                0 <= i < self.nodes@.len() && (#[trigger] self.nodes@[i]) is Some implies {
                &&& self.nodes@[i]->0.outgoing@ == self@.out_upto(
                    NodeId(i as usize),
                    self@.edges.len(),
                )
                &&& self.nodes@[i]->0.incoming@ == self@.in_upto(
                    NodeId(i as usize),
                    self@.edges.len(),
                )
            } by {
                lemma_edges_push(g0.edges, ev, NodeId(i as usize));
                assert(nodes_mid[i] is Some);
                assert(old(self).nodes@[i]->0.outgoing@ == g0.out_upto(NodeId(i as usize), g0.edges.len()));
                assert(old(self).nodes@[i]->0.incoming@ == g0.in_upto(NodeId(i as usize), g0.edges.len()));
            }
            assert forall|e: int| #![trigger self@.edges[e]] self@.edge_live(e) implies
                self@.edge_at(e).source.0 < self@.nodes.len()
                && self@.edge_at(e).target.0 < self@.nodes.len() by {
                if e < g0.edges.len() {
                    assert(g0.edges[e] == self@.edges[e]);
                }
            }
        }
        id
    }

    /// Get node data by ID.
    pub fn node(&self, id: NodeId) -> (r: Option<&N>)
        requires
            self.wf(),
        ensures
            r is Some == self@.node_live(id.0 as int),
            r matches Some(d) ==> *d == self@.node_data(id.0 as int),
    {
        proof {
            self.lemma_view_len();
        }
        if id.0 < self.nodes.len() {
            match &self.nodes[id.0] {
                Some(slot) => Some(&slot.data),
                None => None,
            }
        } else {
            None
        }
    }

    fn slot_data_mut(&mut self, i: usize) -> (r: Option<&mut N>)
        requires
            i < old(self).nodes@.len(),
        ensures
            r is Some == old(self).nodes@[i as int] is Some,
            r matches Some(d) ==> *d == old(self).nodes@[i as int]->0.data,
            r matches Some(d) ==> final(self).nodes@ == old(self).nodes@.update(
                i as int,
                Some(
                    NodeSlot {
                        data: *final(d),
                        outgoing: old(self).nodes@[i as int]->0.outgoing,
                        incoming: old(self).nodes@[i as int]->0.incoming,
                    },
                ),
            ),
            r is None ==> final(self).nodes@ == old(self).nodes@,
            final(self).edges == old(self).edges,
            final(self).node_count == old(self).node_count,
            final(self).edge_count == old(self).edge_count,
    {
        match &mut self.nodes[i] {
            Some(slot) => Some(&mut slot.data),
            None => None,
        }
    }

    /// `self` is `orig` with the data of node slot `i` replaced by `d` when
    /// `d` is `Some`, and `orig` unchanged when it is `None`.
    pub closed spec fn is_data_update_of(&self, orig: &Self, i: int, d: Option<N>) -> bool {
        &&& self.edges == orig.edges
        &&& self.node_count == orig.node_count
        &&& self.edge_count == orig.edge_count
        &&& match d {
            Some(d) => {
                &&& 0 <= i < orig.nodes@.len()
                &&& orig.nodes@[i] is Some
                &&& self.nodes@ == orig.nodes@.update(
                    i,
                    Some(
                        NodeSlot {
                            data: d,
                            outgoing: orig.nodes@[i]->0.outgoing,
                            incoming: orig.nodes@[i]->0.incoming,
                        },
                    ),
                )
            },
            None => self.nodes@ == orig.nodes@,
        }
    }

    /// What `node_mut` leaves behind: a well-formed graph whose view differs
    /// from the old one in the data of that node only.
    pub proof fn lemma_data_update(&self, orig: &Self, i: int, d: Option<N>)
        requires
            orig.wf(),
            self.is_data_update_of(orig, i, d),
        ensures
            self.wf(),
            self@ == match d {
                Some(d) => orig@.set_node_data(i, d),
                None => orig@,
            },
    {
        orig.lemma_view_len();
        self.lemma_view_len();
        match d {
            Some(d) => {
                assert(self@.nodes =~= orig@.nodes.update(i, Some(d)));
                lemma_count_live_update(orig@.nodes, i, Some(d));
            },
            None => {
                assert(self@.nodes =~= orig@.nodes);
            },
        }
        assert(self@.edges =~= orig@.edges);
        assert forall|j: int|
            0 <= j < self.nodes@.len() && (#[trigger] self.nodes@[j]) is Some implies {
            &&& self.nodes@[j]->0.outgoing@ == self@.out_upto(NodeId(j as usize), self@.edges.len())
            &&& self.nodes@[j]->0.incoming@ == self@.in_upto(NodeId(j as usize), self@.edges.len())
        } by {
            assert(orig.nodes@[j] is Some);
        }
    }

    /// Get mutable node data by ID. After the borrow ends the graph is
    /// `is_data_update_of` the old one with the final value of the data
    /// (see `lemma_data_update`).
    pub fn node_mut(&mut self, id: NodeId) -> (r: Option<&mut N>)
        requires
            old(self).wf(),
        ensures
            r is Some == old(self)@.node_live(id.0 as int),
            r matches Some(d) ==> *d == old(self)@.node_data(id.0 as int)
                && final(self).is_data_update_of(old(self), id.0 as int, Some(*final(d))),
            r is None ==> final(self).is_data_update_of(old(self), id.0 as int, None),
    {
        proof {
            self.lemma_view_len();
        }
        if id.0 < self.nodes.len() {
            self.slot_data_mut(id.0)
        } else {
            None
        }
    }

    /// Replace the data of a live node; nothing happens to a removed node.
    pub fn set_node_data(&mut self, id: NodeId, data: N)
        requires
            old(self).wf(),
        ensures
            final(self).wf(),
            final(self)@ == old(self)@.set_node_data(id.0 as int, data),
    {
        let ghost g0 = *self;
        match self.node_mut(id) {
            Some(d) => {
                *d = data;
                proof {
                    self.lemma_data_update(&g0, id.0 as int, Some(data));
                }
            },
            None => {
                proof {
                    self.lemma_data_update(&g0, id.0 as int, None);
                }
            },
        }
    }

    /// Get edge data by ID.
    pub fn edge(&self, id: EdgeId) -> (r: Option<&E>)
        requires
            self.wf(),
        ensures
            r is Some == self@.edge_live(id.0 as int),
            r matches Some(d) ==> *d == self@.edge_at(id.0 as int).data,
    {
        proof {
            self.lemma_view_len();
        }
        if id.0 < self.edges.len() {
            match &self.edges[id.0] {
                Some(slot) => Some(&slot.data),
                None => None,
            }
        } else {
            None
        }
    }

    /// Get the source and target of an edge.
    pub fn edge_endpoints(&self, id: EdgeId) -> (r: Option<(NodeId, NodeId)>)
        requires
            self.wf(),
        ensures
            r is Some == self@.edge_live(id.0 as int),
            r matches Some(p) ==> p.0 == self@.edge_at(id.0 as int).source && p.1 == self@.edge_at(
                id.0 as int,
            ).target,
    {
        proof {
            self.lemma_view_len();
        }
        if id.0 < self.edges.len() {
            match &self.edges[id.0] {
                Some(slot) => Some((slot.source, slot.target)),
                None => None,
            }
        } else {
            None
        }
    }

    /// Get outgoing edge IDs for a node, in the order the edges were added.
    pub fn outgoing(&self, id: NodeId) -> (r: &[EdgeId])
        requires
            self.wf(),
        ensures
            r@ == self@.out_edges(id),
    {
        proof {
            self.lemma_view_len();
        }
        if id.0 < self.nodes.len() {
            match &self.nodes[id.0] {
                Some(slot) => slot.outgoing.as_slice(),
                None => &[],
            }
        } else {
            &[]
        }
    }

    /// Get incoming edge IDs for a node, in the order the edges were added.
    pub fn incoming(&self, id: NodeId) -> (r: &[EdgeId])
        requires
            self.wf(),
        ensures
            r@ == self@.in_edges(id),
    {
        proof {
            self.lemma_view_len();
        }
        if id.0 < self.nodes.len() {
            match &self.nodes[id.0] {
                Some(slot) => slot.incoming.as_slice(),
                None => &[],
            }
        } else {
            &[]
        }
    }

    /// All live node IDs, ascending.
    pub fn node_ids(&self) -> (r: Vec<NodeId>)
        requires
            self.wf(),
        ensures
            r@ == self@.node_ids(),
    {
        proof {
            self.lemma_view_len();
        }
        let mut r: Vec<NodeId> = Vec::new();
        let mut i: usize = 0;
        while i < self.nodes.len()
            invariant
                self.wf(),
                0 <= i <= self.nodes@.len(),
                r@ == self@.node_ids_upto(i as nat),
            decreases self.nodes@.len() - i,
        {
            proof {
                self.lemma_view_len();
            }
            if self.nodes[i].is_some() {
                r.push(NodeId(i));
            }
            i = i + 1;
        }
        r
    }

    /// All live edge IDs, ascending.
    pub fn edge_ids(&self) -> (r: Vec<EdgeId>)
        requires
            self.wf(),
        ensures
            r@ == self@.edge_ids(),
    {
        proof {
            self.lemma_view_len();
        }
        let mut r: Vec<EdgeId> = Vec::new();
        let mut i: usize = 0;
        while i < self.edges.len()
            invariant
                self.wf(),
                0 <= i <= self.edges@.len(),
                r@ == self@.edge_ids_upto(i as nat),
            decreases self.edges@.len() - i,
        {
            proof {
                self.lemma_view_len();
            }
            if self.edges[i].is_some() {
                r.push(EdgeId(i));
            }
            i = i + 1;
        }
        r
    }

    /// The kind of every live node and edge, read once from the data.
    /// Which kinds come back is up to the `NodeData` and `EdgeData`
    /// implementations; only their placement is stated.
    pub fn kinds(&self) -> (r: GraphKinds<N::Kind, E::Kind>)
        requires
            self.wf(),
        ensures
            r.fits(self@),
            r.nodes@ == node_kinds(self@),
            r.edges@ == edge_kinds(self@),
    {
        proof {
            self.lemma_view_len();
        }
        let mut nodes: Vec<Option<N::Kind>> = Vec::new();
        let mut i: usize = 0;
        while i < self.nodes.len()
            invariant
                0 <= i <= self.nodes@.len(),
                nodes@.len() == i,
                forall|j: int| 0 <= j < i ==> (#[trigger] nodes@[j] is Some) == (self.nodes@[j] is Some),
                forall|j: int| 0 <= j < i ==> #[trigger] nodes@[j] == node_kinds(self@)[j],
            decreases self.nodes@.len() - i,
        {
            match &self.nodes[i] {
                Some(slot) => {
                    nodes.push(Some(slot.data.kind()));
                },
                None => {
                    nodes.push(None);
                },
            }
            i = i + 1;
        }
        let mut edges: Vec<Option<E::Kind>> = Vec::new();
        let mut i: usize = 0;
        while i < self.edges.len()
            invariant
                0 <= i <= self.edges@.len(),
                edges@.len() == i,
                forall|j: int| 0 <= j < i ==> (#[trigger] edges@[j] is Some) == (self.edges@[j] is Some),
                forall|j: int| 0 <= j < i ==> #[trigger] edges@[j] == edge_kinds(self@)[j],
            decreases self.edges@.len() - i,
        {
            match &self.edges[i] {
                Some(slot) => {
                    edges.push(Some(slot.data.kind()));
                },
                None => {
                    edges.push(None);
                },
            }
            i = i + 1;
        }
        proof {
            assert(nodes@ =~= node_kinds(self@));
            assert(edges@ =~= edge_kinds(self@));
        }
        GraphKinds { nodes, edges }
    }

    /// Number of live nodes.
    pub fn node_count(&self) -> (r: usize)
        requires
            self.wf(),
        ensures
            r as nat == self@.node_count(),
    {
        self.node_count
    }

    /// Number of live edges.
    pub fn edge_count(&self) -> (r: usize)
        requires
            self.wf(),
        ensures
            r as nat == self@.edge_count(),
    {
        self.edge_count
    }

    /// Remove an edge.
    pub fn remove_edge(&mut self, id: EdgeId)
        requires
            old(self).wf(),
            id.0 < old(self)@.edges.len(),
        ensures
            final(self).wf(),
            final(self)@ == old(self)@.remove_edge(id.0 as int),
    {
        let _ = self.take_edge(id);
    }

    /// Remove every edge whose source and target both lie among `ns`.
    pub fn remove_edges_within(&mut self, ns: &Vec<NodeId>)
        requires
            old(self).wf(),
        ensures
            final(self).wf(),
            final(self)@ == old(self)@.without_edges_within(ns@),
    {
        proof {
            self.lemma_view_len();
        }
        let ghost g = self@;
        let n = self.edges.len();
        let mut i: usize = 0;
        while i < n
            invariant
                self.wf(),
                n == g.edges.len(),
                self@.nodes == g.nodes,
                self@.edges.len() == g.edges.len(),
                0 <= i <= n,
                forall|j: int|
                    0 <= j < g.edges.len() ==> #[trigger] self@.edges[j] == (if j < i && g.edge_within(j, ns@) {
                        None
                    } else {
                        g.edges[j]
                    }),
            decreases n - i,
        {
            match self.edge_endpoints(EdgeId(i)) {
                Some((s, t)) => {
                    if contains_node(ns, s) && contains_node(ns, t) {
                        self.remove_edge(EdgeId(i));
                    }
                },
                None => {},
            }
            i = i + 1;
        }
        proof {
            assert(self@.edges =~= g.without_edges_within(ns@).edges);
        }
    }

    /// Remove an edge and hand back its data.
    #[verifier::spinoff_prover]
    pub(crate) fn take_edge(&mut self, id: EdgeId) -> (r: Option<E>)
        requires
            old(self).wf(),
            id.0 < old(self)@.edges.len(),
        ensures
            final(self).wf(),
            final(self)@ == old(self)@.remove_edge(id.0 as int),
            r is Some == old(self)@.edge_live(id.0 as int),
            r matches Some(d) ==> d == old(self)@.edge_at(id.0 as int).data,
    {
        let ghost g0 = self@;
        let _ = self.edges.len();
        proof {
            self.lemma_view_len();
        }
        let taken = self.edges[id.0].take();
        match taken {
            Some(edge) => {
                proof {
                    lemma_count_live_update(g0.edges, id.0 as int, None);
                    assert(g0.edges[id.0 as int] == slot_edge(Some(edge)));
                    assert(g0.edge_at(id.0 as int).source == edge.source);
                    assert(g0.edge_at(id.0 as int).target == edge.target);
                }
                self.edge_count = self.edge_count - 1;
                let ghost nodes_mid = self.nodes@;
                let s = self.nodes[edge.source.0].take();
                match s {
                    Some(mut slot) => {
                        let l = remove_id(&slot.outgoing, id);
                        slot.outgoing = l;
                        self.nodes.set(edge.source.0, Some(slot));
                    },
                    None => {},
                }
                let t = self.nodes[edge.target.0].take();
                match t {
                    Some(mut slot) => {
                        let l = remove_id(&slot.incoming, id);
                        slot.incoming = l;
                        self.nodes.set(edge.target.0, Some(slot));
                    },
                    None => {},
                }
                proof {
                    self.lemma_view_len();
                    let g1 = GraphView::<N, E> {
                        nodes: g0.nodes,
                        edges: g0.edges.update(id.0 as int, None),
                    };
                    assert(self@.nodes =~= g0.nodes);
                    assert(self@.edges =~= g0.edges.update(id.0 as int, None));
                    assert forall|i: int|
                        0 <= i < self.nodes@.len() && (#[trigger] self.nodes@[i]) is Some implies {
                        &&& self.nodes@[i]->0.outgoing@ == self@.out_upto(
                            NodeId(i as usize),
                            self@.edges.len(),
                        )
                        &&& self.nodes@[i]->0.incoming@ == self@.in_upto(
                            NodeId(i as usize),
                            self@.edges.len(),
                        )
                    } by {
                        let n = NodeId(i as usize);
                        assert(nodes_mid[i] is Some);
                        g0.lemma_upto_remove_edge(n, g0.edges.len(), id.0 as int);
                        g0.lemma_upto_contains(n, g0.edges.len(), id);
                        if i != edge.source.0 {
                            lemma_without_absent(g0.out_upto(n, g0.edges.len()), id);
                        }
                        if i != edge.target.0 {
                            lemma_without_absent(g0.in_upto(n, g0.edges.len()), id);
                        }
                    }
                    assert forall|e: int| #![trigger self@.edges[e]] self@.edge_live(e) implies
                        self@.edge_at(e).source.0 < self@.nodes.len()
                        && self@.edge_at(e).target.0 < self@.nodes.len() by {
                        assert(g0.edges[e] == self@.edges[e]);
                    }
                }
                Some(edge.data)
            },
            None => {
                proof {
                    self.lemma_view_len();
                    assert(self@.nodes =~= g0.nodes);
                    assert(self@.edges =~= g0.edges);
                }
                None
            },
        }
    }

    /// Remove a node and all its connected edges.
    #[verifier::spinoff_prover]
    pub fn remove_node(&mut self, id: NodeId)
        requires
            old(self).wf(),
            id.0 < old(self)@.nodes.len(),
        ensures
            final(self).wf(),
            final(self)@ == old(self)@.remove_node(id.0 as int),
    {
        let ghost g0 = self@;
        let ghost n = id.0 as int;
        let _ = self.edges.len();
        proof {
            self.lemma_view_len();
        }
        let taken = self.nodes[id.0].take();
        match taken {
            Some(node) => {
                proof {
                    lemma_count_live_update(g0.nodes, n, None);
                }
                self.node_count = self.node_count - 1;
                proof {
                    self.lemma_view_len();
                    assert(self@.nodes =~= g0.nodes.update(n, None));
                    assert(self@.edges =~= g0.edges);
                    assert(node.outgoing@ == g0.out_upto(id, g0.edges.len()));
                    assert(node.incoming@ == g0.in_upto(id, g0.edges.len()));
                }
                let ghost outs = node.outgoing@;
                let ghost ins = node.incoming@;
                let mut i: usize = 0;
                while i < node.outgoing.len()
                    invariant
                        self.wf(),
                        0 <= i <= outs.len(),
                        node.outgoing@ == outs,
                        g0.edges.len() <= usize::MAX,
                        outs == g0.out_upto(id, g0.edges.len()),
                        self@.nodes == g0.nodes.update(n, None),
                        self@.edges == Seq::new(
                            g0.edges.len(),
                            |j: int|
                                if outs.take(i as int).contains(EdgeId(j as usize)) {
                                    None
                                } else {
                                    g0.edges[j]
                                },
                        ),
                    decreases outs.len() - i,
                {
                    let eid = node.outgoing[i];
                    proof {
                        g0.lemma_upto_contains(id, g0.edges.len(), eid);
                        assert(outs.contains(eid));
                    }
                    self.remove_edge(eid);
                    proof {
                        assert(outs.take(i + 1) =~= outs.take(i as int).push(eid));
                        assert forall|e: EdgeId|
                            #[trigger] outs.take(i + 1).contains(e)
                            == (outs.take(i as int).contains(e) || eid == e) by {
                            lemma_seq_push_contains(outs.take(i as int), eid, e);
                        }
                        assert(self@.edges =~= Seq::new(
                            g0.edges.len(),
                            |j: int|
                                if outs.take(i + 1).contains(EdgeId(j as usize)) {
                                    None
                                } else {
                                    g0.edges[j]
                                },
                        ));
                    }
                    i = i + 1;
                }
                proof {
                    assert(outs.take(outs.len() as int) =~= outs);
                }
                let mut i: usize = 0;
                while i < node.incoming.len()
                    invariant
                        self.wf(),
                        0 <= i <= ins.len(),
                        node.incoming@ == ins,
                        g0.edges.len() <= usize::MAX,
                        ins == g0.in_upto(id, g0.edges.len()),
                        self@.nodes == g0.nodes.update(n, None),
                        self@.edges == Seq::new(
                            g0.edges.len(),
                            |j: int|
                                if outs.contains(EdgeId(j as usize)) || ins.take(i as int).contains(
                                    EdgeId(j as usize),
                                ) {
                                    None
                                } else {
                                    g0.edges[j]
                                },
                        ),
                    decreases ins.len() - i,
                {
                    let eid = node.incoming[i];
                    proof {
                        g0.lemma_upto_contains(id, g0.edges.len(), eid);
                        assert(ins.contains(eid));
                    }
                    self.remove_edge(eid);
                    proof {
                        assert(ins.take(i + 1) =~= ins.take(i as int).push(eid));
                        assert forall|e: EdgeId|
                            #[trigger] ins.take(i + 1).contains(e)
                            == (ins.take(i as int).contains(e) || eid == e) by {
                            lemma_seq_push_contains(ins.take(i as int), eid, e);
                        }
                        assert(self@.edges =~= Seq::new(
                            g0.edges.len(),
                            |j: int|
                                if outs.contains(EdgeId(j as usize)) || ins.take(i + 1).contains(
                                    EdgeId(j as usize),
                                ) {
                                    None
                                } else {
                                    g0.edges[j]
                                },
                        ));
                    }
                    i = i + 1;
                }
                proof {
                    assert(ins.take(ins.len() as int) =~= ins);
                    assert(g0.node_live(n));
                    let target_edges = g0.remove_node(n).edges;
                    assert forall|j: int| 0 <= j < g0.edges.len() implies #[trigger] self@.edges[j] == target_edges[j] by {
                        g0.lemma_upto_contains(id, g0.edges.len(), EdgeId(j as usize));
                        assert(EdgeId(j as usize).0 == j);
                        assert(ins.take(ins.len() as int).contains(EdgeId(j as usize)) == ins.contains(EdgeId(j as usize)));
                        assert((outs.contains(EdgeId(j as usize)) || ins.contains(EdgeId(j as usize)))
                            == g0.incident(j, n));
                    }
                    assert(self@.edges =~= target_edges);
                }
            },
            None => {
                proof {
                    self.lemma_view_len();
                    assert(self@.nodes =~= g0.nodes);
                    assert(self@.edges =~= g0.edges);
                }
            },
        }
    }
}

impl<N: NodeData, E: EdgeData> Default for Graph<N, E> {
    fn default() -> (g: Self)
        ensures
            g.wf(),
            g@ == GraphView::<N, E>::empty(),
    {
        Self::new()
    }
}

impl<N: NodeData, E: EdgeData> Clone for Graph<N, E> {
    /// A copy with every node and edge datum cloned; slots and ids are kept.
    fn clone(&self) -> (r: Self)
        ensures
            self.wf() ==> r.wf() && is_clone_of(r@, self@),
    {
        let mut nodes: Vec<Option<NodeSlot<N>>> = Vec::new();
        let mut i: usize = 0;
        while i < self.nodes.len()
            invariant
                0 <= i <= self.nodes@.len(),
                nodes@.len() == i,
                forall|j: int|
                    0 <= j < i ==> (#[trigger] nodes@[j] is Some) == (self.nodes@[j] is Some) && (
                    nodes@[j] is Some ==> cloned(self.nodes@[j]->0.data, nodes@[j]->0.data)
                        && nodes@[j]->0.outgoing@ == self.nodes@[j]->0.outgoing@
                        && nodes@[j]->0.incoming@ == self.nodes@[j]->0.incoming@),
            decreases self.nodes@.len() - i,
        {
            match &self.nodes[i] {
                Some(slot) => {
                    let d = slot.data.clone();
                    nodes.push(
                        Some(
                            NodeSlot {
                                data: d,
                                outgoing: copy_ids(&slot.outgoing),
                                incoming: copy_ids(&slot.incoming),
                            },
                        ),
                    );
                },
                None => {
                    nodes.push(None);
                },
            }
            i = i + 1;
        }
        let mut edges: Vec<Option<EdgeSlot<E>>> = Vec::new();
        let mut i: usize = 0;
        while i < self.edges.len()
            invariant
                0 <= i <= self.edges@.len(),
                edges@.len() == i,
                forall|j: int|
                    0 <= j < i ==> (#[trigger] edges@[j] is Some) == (self.edges@[j] is Some) && (
                    edges@[j] is Some ==> cloned(self.edges@[j]->0.data, edges@[j]->0.data)
                        && edges@[j]->0.source == self.edges@[j]->0.source
                        && edges@[j]->0.target == self.edges@[j]->0.target),
            decreases self.edges@.len() - i,
        {
            match &self.edges[i] {
                Some(slot) => {
                    let d = slot.data.clone();
                    edges.push(Some(EdgeSlot { data: d, source: slot.source, target: slot.target }));
                },
                None => {
                    edges.push(None);
                },
            }
            i = i + 1;
        }
        let r = Graph { nodes, edges, node_count: self.node_count, edge_count: self.edge_count };
        proof {
            if self.wf() {
                self.lemma_view_len();
                r.lemma_view_len();
                lemma_count_live_same(r@.nodes, self@.nodes);
                lemma_count_live_same(r@.edges, self@.edges);
                assert forall|j: int|
                    0 <= j < r.nodes@.len() && (#[trigger] r.nodes@[j]) is Some implies {
                    &&& r.nodes@[j]->0.outgoing@ == r@.out_upto(NodeId(j as usize), r@.edges.len())
                    &&& r.nodes@[j]->0.incoming@ == r@.in_upto(NodeId(j as usize), r@.edges.len())
                } by {
                    r@.lemma_upto_agree(self@, NodeId(j as usize), r@.edges.len());
                }
                assert forall|e: int| #![trigger r@.edges[e]] r@.edge_live(e) implies
                    r@.edge_at(e).source.0 < r@.nodes.len()
                    && r@.edge_at(e).target.0 < r@.nodes.len() by {
                    assert(self@.edge_live(e));
                }
            }
        }
        r
    }
}

/// A copy of a list of edge ids.
fn copy_ids(v: &Vec<EdgeId>) -> (r: Vec<EdgeId>)
    ensures
        r@ == v@,
{
    let mut r: Vec<EdgeId> = Vec::new();
    let mut i: usize = 0;
    while i < v.len()
        invariant
            0 <= i <= v@.len(),
            r@ == v@.take(i as int),
        decreases v@.len() - i,
    {
        proof {
            assert(v@.take(i + 1) =~= v@.take(i as int).push(v@[i as int]));
        }
        r.push(v[i]);
        i = i + 1;
    }
    proof {
        assert(v@.take(v@.len() as int) =~= v@);
    }
    r
}

/// The list `v` with every occurrence of `id` left out.
fn remove_id(v: &Vec<EdgeId>, id: EdgeId) -> (r: Vec<EdgeId>)
    ensures
        r@ == without(v@, id),
{
    let mut r: Vec<EdgeId> = Vec::new();
    let mut i: usize = 0;
    while i < v.len()
        invariant
            0 <= i <= v@.len(),
            r@ == without(v@.take(i as int), id),
        decreases v@.len() - i,
    {
        proof {
            assert(v@.take(i + 1) =~= v@.take(i as int).push(v@[i as int]));
            lemma_without_push(v@.take(i as int), v@[i as int], id);
        }
        if v[i] != id {
            r.push(v[i]);
        }
        i = i + 1;
    }
    proof {
        assert(v@.take(v@.len() as int) =~= v@);
    }
    r
}

} // verus!
