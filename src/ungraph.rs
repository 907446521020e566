//! Undirected weighted graphs over `u32` node ids, with minimum spanning
//! tree searches driven by the outside indexed priority queue.
use crate::graph::NodeNotInGraph;
use crate::min_queue::{pq_new, pq_pop, pq_push, queued, MinQueue};
use crate::union_find::UF;
use std::collections::{HashMap, HashSet};
use vstd::prelude::*;

verus! {

broadcast use vstd::std_specs::hash::group_hash_axioms;

/// A pair of node ids.
pub type Edge = (u32, u32);

/// An undirected edge with its weight.
#[derive(Clone, Copy, PartialEq, Eq, Debug)]
pub struct WeiEdge {
    pub edge: Edge,
    pub weight: i32,
}

impl WeiEdge {
    /// An edge between the two ids of `edge`.
    pub fn new(weight: i32, edge: Edge) -> (r: Self)
        ensures
            r.edge == edge,
            r.weight == weight,
    {
        WeiEdge { edge, weight }
    }

    /// The end of the edge that is not `id`.
    pub fn other(&self, id: u32) -> (r: u32)
        requires
            id == self.edge.0 || id == self.edge.1,
        ensures
            id == self.edge.0 ==> r == self.edge.1,
            id != self.edge.0 ==> r == self.edge.0,
    {
        if id == self.edge.0 {
            self.edge.1
        } else {
            self.edge.0
        }
    }
}

/// A node, its payload and the indices of the edges that touch it.
pub struct UNode<V> {
    pub id: u32,
    pub element: V,
    pub adj: Vec<usize>,
}

/// Every item of the queue names an edge of `edges`, queued at its weight
/// negated, so that the lightest edge comes out first.
pub open spec fn edges_queued(q: Map<u64, i64>, edges: Seq<WeiEdge>) -> bool {
    &&& q.dom().finite()
    &&& forall|k: u64| #[trigger] q.contains_key(k) ==> k < edges.len() && q[k] == -edges[k as int].weight
}

/// Every edge of `t` is an edge of `edges`.
pub open spec fn drawn_from(t: Seq<WeiEdge>, edges: Seq<WeiEdge>) -> bool {
    forall|i: int| 0 <= i < t.len() ==> edges.contains(#[trigger] t[i])
}

/// `x` and `y` are linked by a path along the edges of `es`.
pub open spec fn joined(es: Seq<WeiEdge>, x: u32, y: u32) -> bool
    decreases es.len(),
{
    if es.len() == 0 {
        x == y
    } else {
        let (rest, e) = (es.drop_last(), es.last());
        ||| joined(rest, x, y)
        ||| (joined(rest, x, e.edge.0) && joined(rest, y, e.edge.1))
        ||| (joined(rest, x, e.edge.1) && joined(rest, y, e.edge.0))
    }
}

/// Every node is linked to itself.
pub proof fn lemma_joined_refl(es: Seq<WeiEdge>, x: u32)
    ensures
        joined(es, x, x),
    decreases es.len(),
{
    if es.len() > 0 {
        lemma_joined_refl(es.drop_last(), x);
    }
}

/// No edge of `t` links two nodes already linked by the edges before it.
pub open spec fn acyclic(t: Seq<WeiEdge>) -> bool {
    forall|i: int| 0 <= i < t.len() ==> !joined(t.subrange(0, i), #[trigger] t[i].edge.0, t[i].edge.1)
}

/// An undirected weighted graph.
pub struct UnGraph<V> {
    nodes: Vec<UNode<V>>,
    edges: Vec<WeiEdge>,
}

impl<V> UnGraph<V> {
    /// The node ids.
    pub closed spec fn node_ids(&self) -> Set<u32> {
        Set::new(|k: u32| exists|i: int| 0 <= i < self.nodes@.len() && self.nodes@[i].id == k)
    }

    /// The edges, in the order they were added.
    pub closed spec fn edge_seq(&self) -> Seq<WeiEdge> {
        self.edges@
    }

    /// Ids are distinct, every edge ends at nodes, and each node lists only
    /// edges that touch it.
    pub closed spec fn wf(&self) -> bool {
        &&& forall|i: int, j: int|
            0 <= i < j < self.nodes@.len() ==> self.nodes@[i].id != self.nodes@[j].id
        &&& forall|e: int|
            0 <= e < self.edges@.len() ==> self.node_ids().contains(#[trigger] self.edges@[e].edge.0)
                && self.node_ids().contains(self.edges@[e].edge.1)
        &&& forall|i: int, k: int|
            0 <= i < self.nodes@.len() && 0 <= k < self.nodes@[i].adj@.len() ==> {
                let e = #[trigger] self.nodes@[i].adj@[k];
                &&& e < self.edges@.len()
                &&& (self.edges@[e as int].edge.0 == self.nodes@[i].id || self.edges@[e as int].edge.1
                    == self.nodes@[i].id)
            }
        &&& self.edges@.len() < u64::MAX
    }

    /// A graph without nodes.
    pub fn new() -> (r: Self)
        ensures
            r.wf(),
            r.node_ids() == Set::<u32>::empty(),
            r.edge_seq() == Seq::<WeiEdge>::empty(),
    {
        let r = UnGraph { nodes: Vec::new(), edges: Vec::new() };
        proof {
            assert(r.node_ids() =~= Set::<u32>::empty());
        }
        r
    }

    /// Index of the node named `id`, or the number of nodes.
    fn position(&self, id: u32) -> (r: usize)
        ensures
            r <= self.nodes@.len(),
            forall|j: int| 0 <= j < r ==> self.nodes@[j].id != id,
            r < self.nodes@.len() ==> self.nodes@[r as int].id == id,
    {
        let mut i: usize = 0;
        while i < self.nodes.len()
            invariant
                i <= self.nodes@.len(),
                forall|j: int| 0 <= j < i ==> self.nodes@[j].id != id,
            decreases self.nodes@.len() - i,
        {
            if self.nodes[i].id == id {
                return i;
            }
            i = i + 1;
        }
        i
    }

    /// Whether `id` is a node.
    pub fn contains_id(&self, id: u32) -> (r: bool)
        ensures
            r == self.node_ids().contains(id),
    {
        let i = self.position(id);
        proof {
            if !(i < self.nodes@.len()) {
                assert(!self.node_ids().contains(id));
            }
        }
        i < self.nodes.len()
    }

    /// Adds a node without edges unless `id` is already one.
    fn add_node(&mut self, id: u32, element: V)
        requires
            old(self).wf(),
        ensures
            final(self).wf(),
            final(self).node_ids() == old(self).node_ids().insert(id),
            final(self).edges == old(self).edges,
    {
        let i = self.position(id);
        if i == self.nodes.len() {
            self.nodes.push(UNode { id, element, adj: Vec::new() });
            proof {
                let (s0, s1) = (old(self).nodes@, self.nodes@);
                assert forall|k: u32| #[trigger] self.node_ids().contains(k) == old(self).node_ids().insert(id).contains(k) by {
                    if old(self).node_ids().contains(k) {
                        let j = choose|j: int| 0 <= j < s0.len() && s0[j].id == k;
                        assert(s1[j] == s0[j]);
                    }
                    if self.node_ids().contains(k) && k != id {
                        let j = choose|j: int| 0 <= j < s1.len() && s1[j].id == k;
                        assert(j < s0.len());
                        assert(s0[j] == s1[j]);
                    }
                    if k == id {
                        assert(s1[s0.len() as int].id == id);
                    }
                }
                assert(self.node_ids() =~= old(self).node_ids().insert(id));
                assert forall|x: int, k: int|
                    0 <= x < s1.len() && 0 <= k < s1[x].adj@.len() implies {
                    let e = #[trigger] s1[x].adj@[k];
                    &&& e < self.edges@.len()
                    &&& (self.edges@[e as int].edge.0 == s1[x].id || self.edges@[e as int].edge.1
                        == s1[x].id)
                } by {
                    assert(x < s0.len());
                    assert(s1[x] == s0[x]);
                }
            }
        } else {
            proof {
                assert(self.node_ids() =~= old(self).node_ids().insert(id));
            }
        }
    }

    /// Records that edge number `e` touches the node at index `i`.
    fn attach(&mut self, i: usize, e: usize)
        requires
            old(self).wf(),
            i < old(self).nodes@.len(),
            e < old(self).edges@.len(),
            old(self).edges@[e as int].edge.0 == old(self).nodes@[i as int].id
                || old(self).edges@[e as int].edge.1 == old(self).nodes@[i as int].id,
        ensures
            final(self).wf(),
            final(self).node_ids() == old(self).node_ids(),
            final(self).edges == old(self).edges,
    {
        let mut node = self.nodes.remove(i);
        node.adj.push(e);
        self.nodes.insert(i, node);
        proof {
            let (s0, s1) = (old(self).nodes@, self.nodes@);
            assert forall|x: int| 0 <= x < s1.len() implies #[trigger] s1[x].id == s0[x].id by {
                if x != i {
                    assert(s1[x] == s0[x]);
                }
            }
            assert(s1.len() == s0.len());
            assert forall|k: u32| #[trigger] self.node_ids().contains(k) == old(self).node_ids().contains(k) by {
                if old(self).node_ids().contains(k) {
                    let j = choose|j: int| 0 <= j < s0.len() && s0[j].id == k;
                    assert(s1[j].id == k);
                }
                if self.node_ids().contains(k) {
                    let j = choose|j: int| 0 <= j < s1.len() && s1[j].id == k;
                    assert(s0[j].id == k);
                }
            }
            assert(self.node_ids() =~= old(self).node_ids());
            assert forall|x: int, k: int|
                0 <= x < s1.len() && 0 <= k < s1[x].adj@.len() implies {
                let f = #[trigger] s1[x].adj@[k];
                &&& f < self.edges@.len()
                &&& (self.edges@[f as int].edge.0 == s1[x].id || self.edges@[f as int].edge.1
                    == s1[x].id)
            } by {
                if x != i {
                    assert(s1[x] == s0[x]);
                } else if k < s0[x].adj@.len() {
                    assert(s1[x].adj@[k] == s0[x].adj@[k]);
                }
            }
        }
    }

    /// Adds the undirected edge `(edge.0, edge.1)` of weight `edge.2`,
    /// adding either end that is not a node yet with the given payload.
    pub fn add_edge(&mut self, edge: (u32, u32, i32), start: V, end: V)
        requires
            old(self).wf(),
            old(self).edge_seq().len() + 1 < u64::MAX,
        ensures
            final(self).wf(),
            final(self).node_ids() == old(self).node_ids().insert(edge.0).insert(edge.1),
            final(self).edge_seq() == old(self).edge_seq().push(
                WeiEdge { edge: (edge.0, edge.1), weight: edge.2 },
            ),
    {
        self.add_node(edge.0, start);
        self.add_node(edge.1, end);
        let e = self.edges.len();
        self.edges.push(WeiEdge::new(edge.2, (edge.0, edge.1)));
        proof {
            assert forall|f: int| 0 <= f < self.edges@.len() implies self.node_ids().contains(
                #[trigger] self.edges@[f].edge.0,
            ) && self.node_ids().contains(self.edges@[f].edge.1) by {
                if f < e {
                    assert(self.edges@[f] == old(self).edges@[f]);
                    assert(old(self).node_ids().contains(old(self).edges@[f].edge.0));
                    assert(old(self).node_ids().contains(old(self).edges@[f].edge.1));
                } else {
                    assert(self.edges@[f].edge == (edge.0, edge.1));
                }
            }
        }
        let i = self.position(edge.0);
        proof {
            assert(self.node_ids().contains(edge.0));
            if i == self.nodes@.len() {
                let j = choose|j: int| 0 <= j < self.nodes@.len() && self.nodes@[j].id == edge.0;
            }
        }
        self.attach(i, e);
        let j = self.position(edge.1);
        proof {
            assert(self.node_ids().contains(edge.1));
            if j == self.nodes@.len() {
                let x = choose|x: int| 0 <= x < self.nodes@.len() && self.nodes@[x].id == edge.1;
            }
        }
        self.attach(j, e);
    }

    /// Every edge, in the order added.
    pub fn edges(&self) -> (r: Vec<WeiEdge>)
        ensures
            r@ == self.edge_seq(),
    {
        let mut out: Vec<WeiEdge> = Vec::new();
        let mut i: usize = 0;
        while i < self.edges.len()
            invariant
                i <= self.edges@.len(),
                out@ == self.edges@.subrange(0, i as int),
            decreases self.edges@.len() - i,
        {
            out.push(self.edges[i]);
            i = i + 1;
            proof {
                assert(out@ =~= self.edges@.subrange(0, i as int));
            }
        }
        proof {
            assert(self.edges@.subrange(0, i as int) =~= self.edges@);
        }
        out
    }

    /// The node ids, each once.
    fn ids_vec(&self) -> (r: Vec<u32>)
        requires
            self.wf(),
        ensures
            r@.no_duplicates(),
            r@.to_set() == self.node_ids(),
            r@.len() == self.nodes@.len(),
    {
        let mut out: Vec<u32> = Vec::new();
        let mut i: usize = 0;
        while i < self.nodes.len()
            invariant
                self.wf(),
                i <= self.nodes@.len(),
                out@.len() == i,
                forall|k: int| 0 <= k < i ==> out@[k] == #[trigger] self.nodes@[k].id,
            decreases self.nodes@.len() - i,
        {
            out.push(self.nodes[i].id);
            i = i + 1;
        }
        proof {
            assert forall|x: int, y: int| 0 <= x < out@.len() && 0 <= y < out@.len() && x != y implies out@[x] != out@[y] by {
                assert(out@[x] == self.nodes@[x].id && out@[y] == self.nodes@[y].id);
                if x < y {
                    assert(self.nodes@[x].id != self.nodes@[y].id);
                } else {
                    assert(self.nodes@[y].id != self.nodes@[x].id);
                }
            }
            assert forall|k: u32| #[trigger] out@.to_set().contains(k) == self.node_ids().contains(k) by {
                if self.node_ids().contains(k) {
                    let j = choose|j: int| 0 <= j < self.nodes@.len() && self.nodes@[j].id == k;
                    assert(out@[j] == k);
                }
                if out@.to_set().contains(k) {
                    let j = choose|j: int| 0 <= j < out@.len() && out@[j] == k;
                    assert(self.nodes@[j].id == k);
                }
            }
            assert(out@.to_set() =~= self.node_ids());
        }
        out
    }

    /// The node ids, each once.
    pub fn ids(&self) -> (r: Vec<u32>)
        requires
            self.wf(),
        ensures
            r@.no_duplicates(),
            r@.to_set() == self.node_ids(),
    {
        self.ids_vec()
    }

    /// The node ids, each once.
    pub fn vids(&self) -> (r: Vec<u32>)
        requires
            self.wf(),
        ensures
            r@.no_duplicates(),
            r@.to_set() == self.node_ids(),
    {
        self.ids_vec()
    }

    /// Number of nodes.
    pub fn node_count(&self) -> (r: usize)
        requires
            self.wf(),
        ensures
            self.node_ids().finite(),
            r == self.node_ids().len(),
    {
        let v = self.ids_vec();
        proof {
            v@.unique_seq_to_set();
        }
        self.nodes.len()
    }

    /// Number of nodes.
    pub fn vs(&self) -> (r: usize)
        requires
            self.wf(),
        ensures
            self.node_ids().finite(),
            r == self.node_ids().len(),
    {
        self.node_count()
    }

    /// Number of nodes.
    pub fn len(&self) -> (r: usize)
        requires
            self.wf(),
        ensures
            self.node_ids().finite(),
            r == self.node_ids().len(),
    {
        self.node_count()
    }

    /// Whether the graph has no nodes.
    pub fn is_empty(&self) -> (r: bool)
        requires
            self.wf(),
        ensures
            self.node_ids().finite(),
            r == (self.node_ids().len() == 0),
    {
        self.node_count() == 0
    }
    /// Kruskal's search: takes the edges lightest first and keeps each one
    /// that joins two parts not joined yet, until it holds one edge fewer
    /// than there are nodes. `None` for a graph without nodes. The edges
    /// kept are edges of the graph, in order of weight, and form a forest;
    /// when fewer were kept, they link the ends of every edge of the graph.
    pub fn kruskal_mst(&self) -> (r: Option<Vec<WeiEdge>>)
        requires
            self.wf(),
        ensures
            self.node_ids().finite(),
            r is None <==> self.node_ids().len() == 0,
            r is Some ==> {
                let t = r->0@;
                &&& t.len() < self.node_ids().len()
                &&& drawn_from(t, self.edge_seq())
                &&& forall|i: int, j: int| 0 <= i < j < t.len() ==> t[i].weight <= t[j].weight
                &&& acyclic(t)
                &&& t.len() + 1 < self.node_ids().len() ==> forall|k: int|
                    0 <= k < self.edge_seq().len() ==> joined(t, #[trigger] self.edge_seq()[k].edge.0, self.edge_seq()[k].edge.1)
            },
    {
        let n = self.node_count();
        if n == 0 {
            return None;
        }
        let ids = self.ids_vec();
        let mut uf = UF::from_ids(ids.as_slice());
        let mut pq = pq_new();
        proof {
            assert(queued(pq).dom() =~= Set::<u64>::empty());
        }
        let mut i: usize = 0;
        while i < self.edges.len()
            invariant
                self.wf(),
                i <= self.edges@.len(),
                edges_queued(queued(pq), self.edges@),
                forall|k: u64| k < i ==> #[trigger] queued(pq).contains_key(k),
            decreases self.edges@.len() - i,
        {
            pq_push(&mut pq, i as u64, -(self.edges[i].weight as i64));
            i = i + 1;
        }
        let branches = n - 1;
        let n_edges = self.edges.len();
        let mut mst: Vec<WeiEdge> = Vec::new();
        let ghost mut last: int = i64::MAX as int;
        proof {
            assert forall|x: u32, y: u32| #[trigger] uf.same(x, y) == joined(mst@, x, y) by {}
            assert forall|k: int|
                0 <= k < self.edges@.len() && !queued(pq).contains_key(k as u64) implies joined(mst@, #[trigger] self.edges@[k].edge.0, self.edges@[k].edge.1) by {
                assert(queued(pq).contains_key(k as u64));
            }
        }
        while mst.len() < branches
            invariant
                self.wf(),
                n_edges == self.edges@.len(),
                uf.wf(),
                mst@.len() <= branches,
                edges_queued(queued(pq), self.edges@),
                forall|k: u64| #[trigger] queued(pq).contains_key(k) ==> queued(pq)[k] <= last,
                drawn_from(mst@, self.edges@),
                forall|j: int| 0 <= j < mst@.len() ==> -(#[trigger] mst@[j]).weight >= last,
                forall|a: int, b: int| 0 <= a < b < mst@.len() ==> mst@[a].weight <= mst@[b].weight,
                forall|x: u32, y: u32| #[trigger] uf.same(x, y) == joined(mst@, x, y),
                acyclic(mst@),
                forall|k: int|
                    0 <= k < self.edges@.len() && !queued(pq).contains_key(k as u64) ==> joined(mst@, #[trigger] self.edges@[k].edge.0, self.edges@[k].edge.1),
            ensures
                mst@.len() <= branches,
                drawn_from(mst@, self.edges@),
                forall|a: int, b: int| 0 <= a < b < mst@.len() ==> mst@[a].weight <= mst@[b].weight,
                acyclic(mst@),
                mst@.len() < branches ==> forall|k: int|
                    0 <= k < self.edges@.len() ==> joined(mst@, #[trigger] self.edges@[k].edge.0, self.edges@[k].edge.1),
            decreases queued(pq).dom().len(),
        {
            let ghost q0 = queued(pq);
            match pq_pop(&mut pq) {
                None => {
                    proof {
                        assert forall|kk: int| 0 <= kk < self.edges@.len() implies !queued(pq).contains_key(#[trigger] (kk as u64)) by {
                            assert(!q0.dom().contains(kk as u64));
                        }
                        assert forall|kk: int| 0 <= kk < self.edges@.len() implies joined(mst@, #[trigger] self.edges@[kk].edge.0, self.edges@[kk].edge.1) by {
                            assert(!queued(pq).contains_key(kk as u64));
                        }
                    }
                    break;
                },
                Some((k, p)) => {
                    proof {
                        assert(q0.contains_key(k));
                        assert(k < self.edges@.len() && p == -self.edges@[k as int].weight);
                        assert(k < n_edges);
                    }
                    let e = self.edges[k as usize];
                    let ghost m0 = mst@;
                    if !uf.connected(e.edge.0, e.edge.1) {
                        uf.union(e.edge.0, e.edge.1);
                        mst.push(e);
                        proof {
                            assert(self.edges@.contains(e)) by {
                                assert(self.edges@[k as int] == e);
                            }
                            assert(mst@.drop_last() =~= m0);
                            assert forall|x: u32, y: u32| #[trigger] uf.same(x, y) == joined(mst@, x, y) by {}
                            assert forall|j: int| 0 <= j < mst@.len() implies !joined(mst@.subrange(0, j), #[trigger] mst@[j].edge.0, mst@[j].edge.1) by {
                                if j < m0.len() {
                                    assert(mst@.subrange(0, j) =~= m0.subrange(0, j));
                                } else {
                                    assert(mst@.subrange(0, j) =~= m0);
                                }
                            }
                            lemma_joined_refl(m0, e.edge.0);
                            lemma_joined_refl(m0, e.edge.1);
                        }
                    }
                    proof {
                        assert forall|kk: int|
                            0 <= kk < self.edges@.len() && !queued(pq).contains_key(kk as u64) implies joined(mst@, #[trigger] self.edges@[kk].edge.0, self.edges@[kk].edge.1) by {
                            if kk != k as int {
                                assert(!q0.contains_key(kk as u64));
                                assert(joined(m0, self.edges@[kk].edge.0, self.edges@[kk].edge.1));
                            } else {
                                assert(self.edges@[kk] == e);
                            }
                        }
                    }
                    proof {
                        last = p as int;
                    }
                },
            }
        }
        Some(mst)
    }

    /// Queues every edge at `v` whose other end is not marked yet.
    fn visit_lazy(&self, v: u32, marked: &HashSet<u32>, pq: &mut MinQueue)
        requires
            self.wf(),
            self.node_ids().contains(v),
            marked@.contains(v),
            edges_queued(queued(*old(pq)), self.edges@),
            forall|k: u64| #[trigger] queued(*old(pq)).contains_key(k) ==> marked@.contains(self.edges@[k as int].edge.0) || marked@.contains(self.edges@[k as int].edge.1),
        ensures
            edges_queued(queued(*final(pq)), self.edges@),
            forall|k: u64| #[trigger] queued(*final(pq)).contains_key(k) ==> marked@.contains(self.edges@[k as int].edge.0) || marked@.contains(self.edges@[k as int].edge.1),
    {
        let i = self.position(v);
        proof {
            let j = choose|j: int| 0 <= j < self.nodes@.len() && self.nodes@[j].id == v;
        }
        let adj = &self.nodes[i].adj;
        let mut j: usize = 0;
        while j < adj.len()
            invariant
                self.wf(),
                i < self.nodes@.len(),
                self.nodes@[i as int].id == v,
                adj == &self.nodes@[i as int].adj,
                j <= adj@.len(),
                marked@.contains(v),
                edges_queued(queued(*pq), self.edges@),
                forall|k: u64| #[trigger] queued(*pq).contains_key(k) ==> marked@.contains(self.edges@[k as int].edge.0) || marked@.contains(self.edges@[k as int].edge.1),
            decreases adj@.len() - j,
        {
            let k = adj[j];
            proof {
                assert(k == self.nodes@[i as int].adj@[j as int]);
            }
            let e = self.edges[k];
            let end = e.other(v);
            proof {
                assert((k as u64) as int == k as int);
            }
            if !marked.contains(&end) {
                pq_push(pq, k as u64, -(e.weight as i64));
            }
            j = j + 1;
        }
    }

    /// Lazy Prim's search from `root`: grows one tree, each time along the
    /// lightest queued edge that reaches a new node. `Err` when `root` is not
    /// a node. Each edge kept is an edge of the graph and brings in one new
    /// node, so the edges form a tree with one edge fewer than the nodes
    /// reached.
    pub fn lazy_prim_mst(&self, root: u32) -> (r: Result<Vec<WeiEdge>, NodeNotInGraph>)
        requires
            self.wf(),
        ensures
            self.node_ids().finite(),
            !self.node_ids().contains(root) ==> r == Err::<Vec<WeiEdge>, _>(NodeNotInGraph(root)),
            self.node_ids().contains(root) ==> r is Ok && r->Ok_0@.len() < self.node_ids().len()
                && drawn_from(r->Ok_0@, self.edge_seq()) && acyclic(r->Ok_0@),
    {
        let n = self.node_count();
        if !self.contains_id(root) {
            return Err(NodeNotInGraph(root));
        }
        let n_edges = self.edges.len();
        let mut marked: HashSet<u32> = HashSet::new();
        let mut pq = pq_new();
        let mut mst: Vec<WeiEdge> = Vec::new();
        marked.insert(root);
        proof {
            assert(queued(pq).dom() =~= Set::<u64>::empty());
            assert(marked@ =~= set![root]);
        }
        self.visit_lazy(root, &marked, &mut pq);
        proof {
            assert forall|x: u32, y: u32| #[trigger] joined(mst@, x, y) implies x == y || (marked@.contains(x) && marked@.contains(y)) by {}
        }
        loop
            invariant
                self.wf(),
                n_edges == self.edges@.len(),
                self.node_ids().finite(),
                marked@.finite(),
                marked@.subset_of(self.node_ids()),
                mst@.len() + 1 == marked@.len(),
                edges_queued(queued(pq), self.edges@),
                forall|k: u64| #[trigger] queued(pq).contains_key(k) ==> marked@.contains(self.edges@[k as int].edge.0) || marked@.contains(self.edges@[k as int].edge.1),
                drawn_from(mst@, self.edges@),
                acyclic(mst@),
                forall|x: u32, y: u32| #[trigger] joined(mst@, x, y) ==> x == y || (marked@.contains(x) && marked@.contains(y)),
            decreases self.node_ids().len() - marked@.len(), queued(pq).dom().len(),
        {
            proof {
                vstd::set_lib::lemma_len_subset(marked@, self.node_ids());
            }
            let ghost q0 = queued(pq);
            match pq_pop(&mut pq) {
                None => break,
                Some((k, _)) => {
                    proof {
                        assert(q0.contains_key(k));
                        assert(k < self.edges@.len());
                        assert(k < n_edges);
                    }
                    let e = self.edges[k as usize];
                    proof {
                        assert(self.edges@[k as int] == e);
                    }
                    let ghost mk0 = marked@;
                    let ghost m0 = mst@;
                    if marked.insert(e.edge.0) {
                        self.visit_lazy(e.edge.0, &marked, &mut pq);
                    } else if marked.insert(e.edge.1) {
                        self.visit_lazy(e.edge.1, &marked, &mut pq);
                    } else {
                        continue;
                    }
                    mst.push(e);
                    proof {
                        vstd::set_lib::lemma_len_subset(marked@, self.node_ids());
                        assert(mk0.contains(e.edge.0) || mk0.contains(e.edge.1));
                        assert(mst@.drop_last() =~= m0);
                        assert(!joined(m0, e.edge.0, e.edge.1)) by {
                            if joined(m0, e.edge.0, e.edge.1) {
                                assert(e.edge.0 == e.edge.1 || (mk0.contains(e.edge.0) && mk0.contains(e.edge.1)));
                            }
                        }
                        assert forall|j: int| 0 <= j < mst@.len() implies !joined(mst@.subrange(0, j), #[trigger] mst@[j].edge.0, mst@[j].edge.1) by {
                            if j < m0.len() {
                                assert(mst@.subrange(0, j) =~= m0.subrange(0, j));
                            } else {
                                assert(mst@.subrange(0, j) =~= m0);
                            }
                        }
                        assert(marked@.contains(e.edge.0) && marked@.contains(e.edge.1));
                        assert(mk0.subset_of(marked@));
                        assert(mst@.last() == e);
                        assert forall|x: u32, y: u32| #[trigger] joined(mst@, x, y) implies x == y || (marked@.contains(x) && marked@.contains(y)) by {
                            if joined(m0, x, y) {
                                assert(x == y || (mk0.contains(x) && mk0.contains(y)));
                            }
                            if joined(m0, x, e.edge.0) {
                                assert(x == e.edge.0 || mk0.contains(x));
                            }
                            if joined(m0, x, e.edge.1) {
                                assert(x == e.edge.1 || mk0.contains(x));
                            }
                            if joined(m0, y, e.edge.0) {
                                assert(y == e.edge.0 || mk0.contains(y));
                            }
                            if joined(m0, y, e.edge.1) {
                                assert(y == e.edge.1 || mk0.contains(y));
                            }
                        }
                    }
                },
            }
        }
        proof {
            vstd::set_lib::lemma_len_subset(marked@, self.node_ids());
        }
        Ok(mst)
    }
    /// Relaxes the edges at `v`: each neighbour outside the tree that `v`
    /// reaches more cheaply than before records the edge and is queued at
    /// that weight, negated.
    fn visit_eager(
        &self,
        v: u32,
        tree: &HashSet<u32>,
        edge_to: &mut HashMap<u32, usize>,
        dst_to: &mut HashMap<u32, i32>,
        pq: &mut MinQueue,
    )
        requires
            self.wf(),
            self.node_ids().contains(v),
            tree@.contains(v),
            queued(*old(pq)).dom().finite(),
            forall|k: u64| #[trigger] queued(*old(pq)).contains_key(k) ==> k <= u32::MAX && self.node_ids().contains(k as u32) && !tree@.contains(k as u32),
        ensures
            queued(*final(pq)).dom().finite(),
            forall|k: u64| #[trigger] queued(*final(pq)).contains_key(k) ==> k <= u32::MAX && self.node_ids().contains(k as u32) && !tree@.contains(k as u32),
            forall|x: u32| #[trigger] final(edge_to)@.contains_key(x) ==> (old(edge_to)@.contains_key(x) && final(edge_to)@[x] == old(edge_to)@[x]) || (final(edge_to)@[x] < self.edges@.len() && self.node_ids().contains(x) && !tree@.contains(x)),
    {
        let i = self.position(v);
        proof {
            let j = choose|j: int| 0 <= j < self.nodes@.len() && self.nodes@[j].id == v;
        }
        let adj = &self.nodes[i].adj;
        let mut j: usize = 0;
        while j < adj.len()
            invariant
                self.wf(),
                i < self.nodes@.len(),
                self.nodes@[i as int].id == v,
                adj == &self.nodes@[i as int].adj,
                j <= adj@.len(),
                queued(*pq).dom().finite(),
                forall|k: u64| #[trigger] queued(*pq).contains_key(k) ==> k <= u32::MAX && self.node_ids().contains(k as u32) && !tree@.contains(k as u32),
                forall|x: u32| #[trigger] edge_to@.contains_key(x) ==> (old(edge_to)@.contains_key(x) && edge_to@[x] == old(edge_to)@[x]) || (edge_to@[x] < self.edges@.len() && self.node_ids().contains(x) && !tree@.contains(x)),
            decreases adj@.len() - j,
        {
            let k = adj[j];
            proof {
                assert(k == self.nodes@[i as int].adj@[j as int]);
            }
            let e = self.edges[k];
            let end = e.other(v);
            proof {
                assert(self.node_ids().contains(self.edges@[k as int].edge.0));
            }
            if !tree.contains(&end) {
                let best: i32 = match dst_to.get(&end) {
                    Some(w) => *w,
                    None => i32::MAX,
                };
                if e.weight < best {
                    edge_to.insert(end, k);
                    dst_to.insert(end, e.weight);
                    pq_push(pq, end as u64, -(e.weight as i64));
                    proof {
                        assert((end as u64) as u32 == end);
                    }
                }
            }
            j = j + 1;
        }
    }

    /// Prim's search from `root`: repeatedly adds the node outside the tree
    /// that the lightest edge reaches, keeping for each node the lightest
    /// edge seen to it. `Err` when `root` is not a node. The edges kept are
    /// edges of the graph, one for each node reached other than `root`.
    pub fn prim_mst(&self, root: u32) -> (r: Result<Vec<WeiEdge>, NodeNotInGraph>)
        requires
            self.wf(),
        ensures
            self.node_ids().finite(),
            !self.node_ids().contains(root) ==> r == Err::<Vec<WeiEdge>, _>(NodeNotInGraph(root)),
            self.node_ids().contains(root) ==> r is Ok && r->Ok_0@.len() < self.node_ids().len()
                && drawn_from(r->Ok_0@, self.edge_seq()),
    {
        let n = self.node_count();
        if !self.contains_id(root) {
            return Err(NodeNotInGraph(root));
        }
        let mut tree: HashSet<u32> = HashSet::new();
        let mut edge_to: HashMap<u32, usize> = HashMap::new();
        let mut dst_to: HashMap<u32, i32> = HashMap::new();
        let mut pq = pq_new();
        pq_push(&mut pq, root as u64, 0);
        proof {
            assert(queued(pq).dom() =~= set![root as u64]);
            assert(tree@ =~= Set::<u32>::empty());
            assert(edge_to@ =~= Map::<u32, usize>::empty());
        }
        loop
            invariant
                self.wf(),
                self.node_ids().finite(),
                tree@.finite(),
                tree@.subset_of(self.node_ids()),
                queued(pq).dom().finite(),
                forall|k: u64| #[trigger] queued(pq).contains_key(k) ==> k <= u32::MAX && self.node_ids().contains(k as u32) && !tree@.contains(k as u32),
                forall|x: u32| #[trigger] edge_to@.contains_key(x) ==> edge_to@[x] < self.edges@.len() && self.node_ids().contains(x) && x != root,
                tree@.len() == 0 ==> queued(pq).dom() == set![root as u64] && edge_to@.len() == 0,
                tree@.len() > 0 ==> tree@.contains(root),
            decreases self.node_ids().len() - tree@.len(),
        {
            proof {
                vstd::set_lib::lemma_len_subset(tree@, self.node_ids());
            }
            let ghost q0 = queued(pq);
            match pq_pop(&mut pq) {
                None => break,
                Some((v64, _)) => {
                    proof {
                        assert(q0.contains_key(v64));
                    }
                    let v = v64 as u32;
                    let ghost t0 = tree@;
                    tree.insert(v);
                    proof {
                        assert(!t0.contains(v));
                        assert(tree@ == t0.insert(v));
                        assert(tree@.len() == t0.len() + 1);
                        assert forall|k: u64| #[trigger] queued(pq).contains_key(k) implies k <= u32::MAX && self.node_ids().contains(k as u32) && !tree@.contains(k as u32) by {
                            assert(q0.contains_key(k) && k != v64);
                        }
                        if t0.len() == 0 {
                            assert(q0.dom().contains(v64));
                            assert(v64 == root as u64);
                            assert(edge_to@.dom() =~= Set::<u32>::empty());
                        }
                    }
                    self.visit_eager(v, &tree, &mut edge_to, &mut dst_to, &mut pq);
                    proof {
                        vstd::set_lib::lemma_len_subset(tree@, self.node_ids());
                    }
                },
            }
        }
        let ids = self.ids_vec();
        let mut mst: Vec<WeiEdge> = Vec::new();
        let mut i: usize = 0;
        while i < ids.len()
            invariant
                self.wf(),
                ids@.no_duplicates(),
                ids@.to_set() == self.node_ids(),
                i <= ids@.len(),
                mst@.len() + (if ids@.subrange(0, i as int).contains(root) { 1int } else { 0 }) <= i,
                drawn_from(mst@, self.edges@),
                forall|x: u32| #[trigger] edge_to@.contains_key(x) ==> edge_to@[x] < self.edges@.len() && x != root,
            decreases ids@.len() - i,
        {
            let id = ids[i];
            match edge_to.get(&id) {
                Some(k) => {
                    mst.push(self.edges[*k]);
                    proof {
                        assert(self.edges@.contains(self.edges@[*k as int]));
                    }
                },
                None => {},
            }
            proof {
                assert(ids@.subrange(0, i + 1) == ids@.subrange(0, i as int).push(id));
            }
            i = i + 1;
        }
        proof {
            assert(ids@.subrange(0, i as int) =~= ids@);
            assert(ids@.contains(root));
            ids@.unique_seq_to_set();
        }
        Ok(mst)
    }
}

} // verus!
