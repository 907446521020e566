//! Graphs over `u32` node ids: a directed graph with breadth-first
//! shortest paths.
use std::collections::{HashMap, HashSet, VecDeque};
use vstd::prelude::*;

verus! {

broadcast use vstd::std_specs::hash::group_hash_axioms;

/// The id named in a query is not a node of the graph.
#[derive(PartialEq, Eq, Debug, Clone, Copy)]
pub struct NodeNotInGraph(pub u32);

/// A node, its payload and the ids its outgoing edges lead to.
pub struct Node<V> {
    pub id: u32,
    pub element: V,
    pub neighbours: Vec<u32>,
}

/// The outgoing list of `k` among `nodes`, searching from the end.
pub open spec fn adjacency<V>(nodes: Seq<Node<V>>, k: u32) -> Option<Seq<u32>>
    decreases nodes.len(),
{
    if nodes.len() == 0 {
        None
    } else if nodes.last().id == k {
        Some(nodes.last().neighbours@)
    } else {
        adjacency(nodes.drop_last(), k)
    }
}

/// Number of edges held by `nodes`.
pub open spec fn edge_total<V>(nodes: Seq<Node<V>>) -> nat
    decreases nodes.len(),
{
    if nodes.len() == 0 {
        0
    } else {
        edge_total(nodes.drop_last()) + nodes.last().neighbours@.len()
    }
}

/// No id names two nodes.
pub open spec fn ids_unique<V>(nodes: Seq<Node<V>>) -> bool {
    forall|i: int, j: int| 0 <= i < j < nodes.len() ==> nodes[i].id != nodes[j].id
}

/// With distinct ids, the outgoing list of `k` is that of the node named `k`.
pub proof fn lemma_adjacency<V>(nodes: Seq<Node<V>>, k: u32)
    requires
        ids_unique(nodes),
    ensures
        adjacency(nodes, k) is None <==> forall|i: int| 0 <= i < nodes.len() ==> nodes[i].id != k,
        forall|i: int|
            0 <= i < nodes.len() && nodes[i].id == k ==> adjacency(nodes, k) == Some(
                nodes[i].neighbours@,
            ),
    decreases nodes.len(),
{
    if nodes.len() > 0 {
        lemma_adjacency(nodes.drop_last(), k);
        assert forall|i: int| 0 <= i < nodes.len() && nodes[i].id == k implies adjacency(nodes, k)
            == Some(nodes[i].neighbours@) by {
            if i < nodes.len() - 1 {
                assert(nodes.drop_last()[i] == nodes[i]);
            }
        }
        if adjacency(nodes, k) is None {
            assert forall|i: int| 0 <= i < nodes.len() implies nodes[i].id != k by {
                if i < nodes.len() - 1 {
                    assert(nodes.drop_last()[i] == nodes[i]);
                }
            }
        }
    }
}

/// Taking a node out removes its edges from the count.
pub proof fn lemma_edge_total_remove<V>(nodes: Seq<Node<V>>, i: int)
    requires
        0 <= i < nodes.len(),
    ensures
        edge_total(nodes.remove(i)) + nodes[i].neighbours@.len() == edge_total(nodes),
    decreases nodes.len(),
{
    if i < nodes.len() - 1 {
        lemma_edge_total_remove(nodes.drop_last(), i);
        assert(nodes.remove(i).drop_last() =~= nodes.drop_last().remove(i));
        assert(nodes.remove(i).last() == nodes.last());
    } else {
        assert(nodes.remove(i) =~= nodes.drop_last());
    }
}

/// `m` after adding edge `e`: both ends become nodes, then `e.1` joins the
/// outgoing list of `e.0`.
pub open spec fn with_edge(m: Map<u32, Seq<u32>>, e: (u32, u32)) -> Map<u32, Seq<u32>> {
    let m1 = if m.contains_key(e.0) {
        m
    } else {
        m.insert(e.0, Seq::empty())
    };
    let m2 = if m1.contains_key(e.1) {
        m1
    } else {
        m1.insert(e.1, Seq::empty())
    };
    m2.insert(e.0, m2[e.0].push(e.1))
}

/// Every edge held by `nodes`, node by node, each in its list's order.
pub open spec fn edge_list<V>(nodes: Seq<Node<V>>) -> Seq<(u32, u32)>
    decreases nodes.len(),
{
    if nodes.len() == 0 {
        Seq::empty()
    } else {
        edge_list(nodes.drop_last()) + out_edges(nodes.last())
    }
}

/// The edges leaving one node.
pub open spec fn out_edges<V>(n: Node<V>) -> Seq<(u32, u32)> {
    n.neighbours@.map_values(|t: u32| (n.id, t))
}

/// An edge is listed exactly when some node with its source id lists its
/// target; there are as many entries as edges.
pub proof fn lemma_edge_list<V>(nodes: Seq<Node<V>>)
    ensures
        edge_list(nodes).len() == edge_total(nodes),
        forall|e: (u32, u32)|
            #[trigger] edge_list(nodes).contains(e) <==> exists|i: int|
                0 <= i < nodes.len() && nodes[i].id == e.0 && nodes[i].neighbours@.contains(e.1),
    decreases nodes.len(),
{
    if nodes.len() > 0 {
        let (front, n) = (nodes.drop_last(), nodes.last());
        lemma_edge_list(front);
        let l = edge_list(nodes);
        assert(l == edge_list(front) + out_edges(n));
        assert forall|e: (u32, u32)| #[trigger] l.contains(e) <==> exists|i: int|
            0 <= i < nodes.len() && nodes[i].id == e.0 && nodes[i].neighbours@.contains(e.1) by {
            if l.contains(e) {
                let k = choose|k: int| 0 <= k < l.len() && l[k] == e;
                if k < edge_list(front).len() {
                    assert(edge_list(front).contains(e));
                    let i = choose|i: int|
                        0 <= i < front.len() && front[i].id == e.0 && front[i].neighbours@.contains(
                            e.1,
                        );
                    assert(nodes[i] == front[i]);
                } else {
                    let j = k - edge_list(front).len();
                    assert(out_edges(n)[j] == e);
                    assert(n.neighbours@[j] == e.1);
                    assert(nodes[nodes.len() - 1] == n);
                    assert(n.neighbours@.contains(e.1));
                }
            }
            if exists|i: int|
                0 <= i < nodes.len() && nodes[i].id == e.0 && nodes[i].neighbours@.contains(e.1) {
                let i = choose|i: int|
                    0 <= i < nodes.len() && nodes[i].id == e.0 && nodes[i].neighbours@.contains(e.1);
                if i < nodes.len() - 1 {
                    assert(front[i] == nodes[i]);
                    assert(edge_list(front).contains(e));
                    let k = choose|k: int| 0 <= k < edge_list(front).len() && edge_list(front)[k] == e;
                    assert(l[k] == e);
                } else {
                    let j = choose|j: int| 0 <= j < n.neighbours@.len() && n.neighbours@[j] == e.1;
                    assert(out_edges(n)[j] == e);
                    assert(l[edge_list(front).len() + j] == e);
                }
            }
        }
    }
}

/// `p` walks along edges of `g`, starting at `s` and ending at `d`.
pub open spec fn is_path(g: Map<u32, Seq<u32>>, p: Seq<u32>, s: u32, d: u32) -> bool {
    &&& p.len() >= 1
    &&& p[0] == s
    &&& p.last() == d
    &&& forall|i: int| 0 <= i < p.len() ==> g.contains_key(#[trigger] p[i])
    &&& forall|i: int| 1 <= i < p.len() ==> g[p[i - 1]].contains(#[trigger] p[i])
}

/// What a breadth-first search from `src` leaves behind: the marked set is
/// closed under edges, each marked node other than `src` records the node it
/// was reached from, and `dist` never exceeds one more than a predecessor's.
pub open spec fn search_done(
    g: Map<u32, Seq<u32>>,
    src: u32,
    marked: Set<u32>,
    edge_to: Map<u32, u32>,
    dist: Map<u32, nat>,
) -> bool {
    &&& marked.contains(src)
    &&& dist.dom() == marked
    &&& dist[src] == 0
    &&& forall|v: u32| #[trigger] marked.contains(v) ==> g.contains_key(v)
    &&& forall|v: u32|
        #[trigger] marked.contains(v) && v != src ==> {
            &&& edge_to.contains_key(v)
            &&& marked.contains(edge_to[v])
            &&& g[edge_to[v]].contains(v)
            &&& dist[v] == dist[edge_to[v]] + 1
        }
    &&& forall|u: u32, k: int|
        marked.contains(u) && 0 <= k < g[u].len() ==> marked.contains(#[trigger] g[u][k])
            && dist[g[u][k]] <= dist[u] + 1
}

/// `oq` is `u` followed by `q0`.
pub open spec fn old_queue_is(oq: Seq<u32>, u: u32, q0: Seq<u32>) -> bool {
    oq.len() == q0.len() + 1 && oq[0] == u && forall|i: int| 0 <= i < q0.len() ==> oq[i + 1] == q0[i]
}

/// After a finished search, every node on a path from `src` is marked at a
/// distance no larger than its position on the path.
pub proof fn lemma_search_bound(
    g: Map<u32, Seq<u32>>,
    src: u32,
    marked: Set<u32>,
    edge_to: Map<u32, u32>,
    dist: Map<u32, nat>,
    p: Seq<u32>,
    d: u32,
    k: int,
)
    requires
        search_done(g, src, marked, edge_to, dist),
        is_path(g, p, src, d),
        0 <= k < p.len(),
    ensures
        marked.contains(p[k]),
        dist[p[k]] <= k,
    decreases k,
{
    if k > 0 {
        lemma_search_bound(g, src, marked, edge_to, dist, p, d, k - 1);
        let u = p[k - 1];
        assert(g[u].contains(p[k]));
        let j = choose|j: int| 0 <= j < g[u].len() && g[u][j] == p[k];
        assert(marked.contains(g[u][j]));
    }
}

/// A directed graph: nodes carry a payload and an ordered list of
/// outgoing edges.
pub struct DiGraph<V> {
    nodes: Vec<Node<V>>,
    n_edges: usize,
}

impl<T> View for DiGraph<T> {
    type V = Map<u32, Seq<u32>>;

    closed spec fn view(&self) -> Map<u32, Seq<u32>> {
        Map::new(
            |k: u32| adjacency(self.nodes@, k) is Some,
            |k: u32| adjacency(self.nodes@, k)->0,
        )
    }
}

impl<V> DiGraph<V> {
    /// Ids are distinct, every edge ends at a node, and the edge count is
    /// kept.
    pub closed spec fn wf(&self) -> bool {
        &&& ids_unique(self.nodes@)
        &&& self.n_edges == edge_total(self.nodes@)
        &&& forall|i: int, j: int|
            0 <= i < self.nodes@.len() && 0 <= j < self.nodes@[i].neighbours@.len() ==> (adjacency(
                self.nodes@,
                #[trigger] self.nodes@[i].neighbours@[j],
            ) is Some)
    }

    /// Number of edges.
    pub closed spec fn edge_total(&self) -> nat {
        edge_total(self.nodes@)
    }

    /// A graph without nodes.
    pub fn new() -> (r: Self)
        ensures
            r.wf(),
            r@ == Map::<u32, Seq<u32>>::empty(),
            r.edge_total() == 0,
    {
        let r = DiGraph { nodes: Vec::new(), n_edges: 0 };
        proof {
            assert(r@ =~= Map::<u32, Seq<u32>>::empty());
        }
        r
    }

    /// Index of the node named `id`, or the number of nodes.
    fn position(&self, id: u32) -> (r: usize)
        ensures
            r <= self.nodes@.len(),
            forall|j: int| 0 <= j < r ==> self.nodes@[j].id != id,
            r < self.nodes@.len() ==> self.nodes@[r as int].id == id,
    {
        let mut i: usize = 0;
        while i < self.nodes.len()
            invariant
                i <= self.nodes@.len(),
                forall|j: int| 0 <= j < i ==> self.nodes@[j].id != id,
            decreases self.nodes@.len() - i,
        {
            if self.nodes[i].id == id {
                return i;
            }
            i = i + 1;
        }
        i
    }

    /// Adds a node without edges unless `id` is already one.
    fn add_node(&mut self, id: u32, element: V)
        requires
            old(self).wf(),
        ensures
            final(self).wf(),
            final(self)@ == if old(self)@.contains_key(id) {
                old(self)@
            } else {
                old(self)@.insert(id, Seq::empty())
            },
            final(self).edge_total() == old(self).edge_total(),
    {
        let i = self.position(id);
        proof {
            lemma_adjacency(self.nodes@, id);
        }
        if i == self.nodes.len() {
            let ghost s0 = self.nodes@;
            self.nodes.push(Node { id, element, neighbours: Vec::new() });
            proof {
                let s1 = self.nodes@;
                assert(s1.drop_last() =~= s0);
                assert forall|k: u32| k != id implies adjacency(s1, k) == adjacency(s0, k) by {}
                assert(adjacency(s1, id) == Some(Seq::<u32>::empty()));
                assert forall|x: int, j: int|
                    0 <= x < s1.len() && 0 <= j < s1[x].neighbours@.len() implies (adjacency(
                    s1,
                    #[trigger] s1[x].neighbours@[j],
                ) is Some) by {
                    assert(s1[x] == s0[x]);
                    let t = s0[x].neighbours@[j];
                    if t != id {
                        assert(adjacency(s1, t) == adjacency(s0, t));
                    }
                }
                assert(self@ =~= old(self)@.insert(id, Seq::empty()));
            }
        } else {
            proof {
                assert(self@ =~= old(self)@);
            }
        }
    }

    /// Adds the edge `edge.0 -> edge.1`, adding either end that is not a
    /// node yet with the given payload.
    pub fn add_edge(&mut self, edge: (u32, u32), start: V, end: V)
        requires
            old(self).wf(),
            old(self).edge_total() < usize::MAX,
        ensures
            final(self).wf(),
            final(self)@ == with_edge(old(self)@, edge),
            final(self).edge_total() == old(self).edge_total() + 1,
    {
        self.add_node(edge.0, start);
        self.add_node(edge.1, end);
        let ghost s0 = self.nodes@;
        let ghost m2 = self@;
        let i = self.position(edge.0);
        proof {
            lemma_adjacency(s0, edge.0);
            lemma_adjacency(s0, edge.1);
            assert(m2.dom().contains(edge.0));
            assert(m2.dom().contains(edge.1));
            assert(adjacency(s0, edge.0) is Some);
            assert(adjacency(s0, edge.1) is Some);
            if i == s0.len() {
                assert(forall|j: int| 0 <= j < s0.len() ==> s0[j].id != edge.0);
            }
        }
        let mut node = self.nodes.remove(i);
        node.neighbours.push(edge.1);
        self.nodes.push(node);
        self.n_edges = self.n_edges + 1;
        proof {
            let s1 = self.nodes@;
            let removed = s0.remove(i as int);
            assert(s1.drop_last() =~= removed);
            lemma_edge_total_remove(s0, i as int);
            assert forall|x: int, y: int| 0 <= x < y < s1.len() implies s1[x].id != s1[y].id by {
                if y < s1.len() - 1 {
                    assert(s1[x] == s0[if x < i { x } else { x + 1 }]);
                    assert(s1[y] == s0[if y < i { y } else { y + 1 }]);
                } else {
                    assert(s1[x] == s0[if x < i { x } else { x + 1 }]);
                }
            }
            assert forall|k: u32| k != edge.0 implies adjacency(s1, k) == adjacency(s0, k) by {
                lemma_adjacency(s0, k);
                lemma_adjacency(s1, k);
                if adjacency(s0, k) is Some {
                    let j = choose|j: int| 0 <= j < s0.len() && s0[j].id == k;
                    assert(j != i);
                    assert(s1[if j < i { j } else { j - 1 }] == s0[j]);
                } else if adjacency(s1, k) is Some {
                    let j = choose|j: int| 0 <= j < s1.len() && s1[j].id == k;
                    assert(j < s1.len() - 1);
                    assert(s1[j] == s0[if j < i { j } else { j + 1 }]);
                }
            }
            lemma_adjacency(s1, edge.0);
            assert(s1[s1.len() - 1].id == edge.0);
            assert(adjacency(s1, edge.0) == Some(s0[i as int].neighbours@.push(edge.1)));
            assert forall|x: int, j: int|
                0 <= x < s1.len() && 0 <= j < s1[x].neighbours@.len() implies (adjacency(
                s1,
                #[trigger] s1[x].neighbours@[j],
            ) is Some) by {
                let t = s1[x].neighbours@[j];
                if x < s1.len() - 1 {
                    let ox = if x < i { x } else { x + 1 };
                    assert(s1[x] == s0[ox]);
                    assert(adjacency(s0, t) is Some);
                } else if j < s0[i as int].neighbours@.len() {
                    assert(s0[i as int].neighbours@[j] == t);
                    assert(adjacency(s0, t) is Some);
                } else {
                    assert(t == edge.1);
                    assert(adjacency(s0, t) is Some);
                }
                if t != edge.0 {
                    assert(adjacency(s1, t) == adjacency(s0, t));
                }
            }
            assert(self@ =~= m2.insert(edge.0, m2[edge.0].push(edge.1)));
        }
    }

    /// Whether `id` is a node.
    pub fn contains_id(&self, id: u32) -> (r: bool)
        requires
            self.wf(),
        ensures
            r == self@.contains_key(id),
    {
        let i = self.position(id);
        proof {
            lemma_adjacency(self.nodes@, id);
        }
        i < self.nodes.len()
    }

    /// Whether `vid` is a node.
    pub fn contains_vert(&self, vid: u32) -> (r: bool)
        requires
            self.wf(),
        ensures
            r == self@.contains_key(vid),
    {
        self.contains_id(vid)
    }

    /// Number of edges.
    pub fn edge_count(&self) -> (r: usize)
        requires
            self.wf(),
        ensures
            r == self.edge_total(),
    {
        self.n_edges
    }
    /// Number of nodes.
    pub fn node_count(&self) -> (r: usize)
        requires
            self.wf(),
        ensures
            self@.dom().finite(),
            r == self@.len(),
    {
        proof {
            let ids = self.nodes@.map_values(|n: Node<V>| n.id);
            assert(ids.no_duplicates()) by {
                assert forall|i: int, j: int| 0 <= i < ids.len() && 0 <= j < ids.len() && i != j implies ids[i] != ids[j] by {
                    if i < j {
                        assert(self.nodes@[i].id != self.nodes@[j].id);
                    } else {
                        assert(self.nodes@[j].id != self.nodes@[i].id);
                    }
                }
            }
            ids.unique_seq_to_set();
            assert forall|k: u32| #[trigger] self@.dom().contains(k) <==> ids.to_set().contains(k) by {
                lemma_adjacency(self.nodes@, k);
                if ids.to_set().contains(k) {
                    let i = choose|i: int| 0 <= i < ids.len() && ids[i] == k;
                    assert(self.nodes@[i].id == k);
                }
                if self@.dom().contains(k) {
                    let i = choose|i: int| 0 <= i < self.nodes@.len() && self.nodes@[i].id == k;
                    assert(ids[i] == k);
                }
            }
            assert(self@.dom() =~= ids.to_set());
        }
        self.nodes.len()
    }

    /// Number of nodes.
    pub fn vs(&self) -> (r: usize)
        requires
            self.wf(),
        ensures
            self@.dom().finite(),
            r == self@.len(),
    {
        self.node_count()
    }

    /// Every edge as a `(source, target)` pair, once per time it was added.
    pub fn edges(&self) -> (r: Vec<(u32, u32)>)
        requires
            self.wf(),
        ensures
            r@.len() == self.edge_total(),
            forall|e: (u32, u32)|
                #[trigger] r@.contains(e) <==> self@.contains_key(e.0) && self@[e.0].contains(e.1),
    {
        let mut out: Vec<(u32, u32)> = Vec::new();
        let mut i: usize = 0;
        while i < self.nodes.len()
            invariant
                i <= self.nodes@.len(),
                out@ == edge_list(self.nodes@.subrange(0, i as int)),
            decreases self.nodes@.len() - i,
        {
            let node = &self.nodes[i];
            let mut j: usize = 0;
            let ghost base = out@;
            while j < node.neighbours.len()
                invariant
                    j <= node.neighbours@.len(),
                    out@ == base + out_edges(*node).subrange(0, j as int),
                decreases node.neighbours@.len() - j,
            {
                out.push((node.id, node.neighbours[j]));
                j = j + 1;
                proof {
                    assert(out@ =~= base + out_edges(*node).subrange(0, j as int));
                }
            }
            proof {
                let t = self.nodes@.subrange(0, i + 1);
                assert(t.drop_last() =~= self.nodes@.subrange(0, i as int));
                assert(out_edges(*node).subrange(0, j as int) =~= out_edges(*node));
            }
            i = i + 1;
        }
        proof {
            assert(self.nodes@.subrange(0, i as int) =~= self.nodes@);
            lemma_edge_list(self.nodes@);
            assert forall|e: (u32, u32)| #[trigger] out@.contains(e) <==> self@.contains_key(e.0)
                && self@[e.0].contains(e.1) by {
                lemma_adjacency(self.nodes@, e.0);
            }
        }
        out
    }
    /// The node ids form a finite set.
    proof fn lemma_finite(&self)
        requires
            self.wf(),
        ensures
            self@.dom().finite(),
    {
        let ids = self.nodes@.map_values(|n: Node<V>| n.id);
        assert forall|k: u32| #[trigger] self@.dom().contains(k) implies ids.to_set().contains(k) by {
            lemma_adjacency(self.nodes@, k);
            let i = choose|i: int| 0 <= i < self.nodes@.len() && self.nodes@[i].id == k;
            assert(ids[i] == k);
        }
        vstd::set_lib::lemma_len_subset(self@.dom(), ids.to_set());
    }

    /// Every edge of a well-formed graph ends at a node.
    proof fn lemma_closed(&self)
        requires
            self.wf(),
        ensures
            forall|u: u32, k: int|
                self@.contains_key(u) && 0 <= k < self@[u].len() ==> self@.contains_key(
                    #[trigger] self@[u][k],
                ),
    {
        assert forall|u: u32, k: int|
            self@.contains_key(u) && 0 <= k < self@[u].len() implies self@.contains_key(
            #[trigger] self@[u][k],
        ) by {
            lemma_adjacency(self.nodes@, u);
            let i = choose|i: int| 0 <= i < self.nodes@.len() && self.nodes@[i].id == u;
            assert(self.nodes@[i].neighbours@[k] == self@[u][k]);
        }
    }

    /// The outgoing list of the node `id`.
    fn neighbours(&self, id: u32) -> (r: &Vec<u32>)
        requires
            self.wf(),
            self@.contains_key(id),
        ensures
            r@ == self@[id],
    {
        let i = self.position(id);
        proof {
            lemma_adjacency(self.nodes@, id);
        }
        &self.nodes[i].neighbours
    }

    /// Breadth-first search from `src`: marks every node reachable from it
    /// and records, for each, the node it was first reached from.
    #[verifier::rlimit(60)]
    fn bfs(&self, src: u32) -> (r: (HashSet<u32>, HashMap<u32, u32>, Ghost<Map<u32, nat>>))
        requires
            self.wf(),
            self@.contains_key(src),
        ensures
            search_done(self@, src, r.0@, r.1@, r.2@),
    {
        let ghost g = self@;
        proof {
            self.lemma_finite();
            self.lemma_closed();
        }
        let mut marked: HashSet<u32> = HashSet::new();
        let mut edge_to: HashMap<u32, u32> = HashMap::new();
        let mut queue: VecDeque<u32> = VecDeque::new();
        let ghost mut dist: Map<u32, nat> = Map::empty().insert(src, 0nat);
        marked.insert(src);
        queue.push_back(src);
        proof {
            assert(marked@ =~= set![src]);
            assert(dist.dom() =~= set![src]);
            assert(queue@[0] == src);
        }
        loop
            invariant
                g == self@,
                self.wf(),
                g.dom().finite(),
                forall|v: u32, k: int|
                    g.contains_key(v) && 0 <= k < g[v].len() ==> g.contains_key(#[trigger] g[v][k]),
                marked@.finite(),
                marked@.contains(src),
                dist.dom() == marked@,
                dist[src] == 0,
                marked@.subset_of(g.dom()),
                !edge_to@.contains_key(src),
                forall|v: u32|
                    #[trigger] marked@.contains(v) && v != src ==> {
                        &&& edge_to@.contains_key(v)
                        &&& marked@.contains(edge_to@[v])
                        &&& g[edge_to@[v]].contains(v)
                        &&& dist[v] == dist[edge_to@[v]] + 1
                    },
                forall|i: int| 0 <= i < queue@.len() ==> marked@.contains(#[trigger] queue@[i]),
                forall|i: int, j: int|
                    0 <= i < j < queue@.len() ==> dist[queue@[i]] <= dist[queue@[j]],
                queue@.len() > 0 ==> dist[queue@.last()] <= dist[queue@[0]] + 1,
                forall|u: u32|
                    #[trigger] marked@.contains(u) && !queue@.contains(u) ==> {
                        &&& forall|k: int|
                            0 <= k < g[u].len() ==> marked@.contains(#[trigger] g[u][k]) && dist[g[u][k]]
                                <= dist[u] + 1
                        &&& forall|i: int| 0 <= i < queue@.len() ==> dist[u] <= dist[#[trigger] queue@[i]]
                    },
            decreases g.dom().len() - marked@.len(), queue@.len(),
        {
            proof {
                vstd::set_lib::lemma_len_subset(marked@, g.dom());
            }
            let ghost oq = queue@;
            let u = match queue.pop_front() {
                Some(u) => u,
                None => {
                    proof {
                        assert forall|u: u32, k: int|
                            marked@.contains(u) && 0 <= k < g[u].len() implies marked@.contains(
                            #[trigger] g[u][k],
                        ) && dist[g[u][k]] <= dist[u] + 1 by {
                            assert(!queue@.contains(u));
                        }
                    }
                    return (marked, edge_to, Ghost(dist));
                },
            };
            let ghost q0 = queue@;
            let ghost m0 = marked@;
            let ghost d0 = dist;
            proof {
                assert(old_queue_is(oq, u, q0));
                assert forall|w: u32|
                    #[trigger] marked@.contains(w) && !queue@.contains(w) && w != u implies {
                    &&& forall|k: int|
                        0 <= k < g[w].len() ==> marked@.contains(#[trigger] g[w][k]) && dist[g[w][k]]
                            <= dist[w] + 1
                    &&& dist[w] <= dist[u]
                } by {
                    assert(!oq.contains(w)) by {
                        if oq.contains(w) {
                            let i = choose|i: int| 0 <= i < oq.len() && oq[i] == w;
                            assert(q0[i - 1] == w);
                        }
                    }
                    assert(oq[0] == u);
                }
                assert forall|i: int| 0 <= i < q0.len() implies dist[u] <= dist[#[trigger] q0[i]]
                    <= dist[u] + 1 by {
                    assert(oq[i + 1] == q0[i]);
                    assert(oq[0] == u);
                    assert(dist[oq[0]] <= dist[oq[i + 1]]);
                    assert(dist[oq[oq.len() - 1]] <= dist[oq[0]] + 1);
                    if i + 1 < oq.len() - 1 {
                        assert(dist[oq[i + 1]] <= dist[oq[oq.len() - 1]]);
                    }
                }
                assert(queue@.subrange(0, q0.len() as int) =~= q0);
            }
            let nbrs = self.neighbours(u);
            let mut j: usize = 0;
            while j < nbrs.len()
                invariant
                    g == self@,
                    nbrs@ == g[u],
                    forall|v: u32, k: int|
                        g.contains_key(v) && 0 <= k < g[v].len() ==> g.contains_key(#[trigger] g[v][k]),
                    j <= nbrs@.len(),
                    g.dom().finite(),
                    m0.subset_of(marked@),
                    marked@.contains(u),
                    marked@.contains(src),
                    dist.dom() == marked@,
                    dist[src] == 0,
                    marked@.subset_of(g.dom()),
                    !edge_to@.contains_key(src),
                    forall|v: u32|
                        #[trigger] marked@.contains(v) && v != src ==> {
                            &&& edge_to@.contains_key(v)
                            &&& marked@.contains(edge_to@[v])
                            &&& g[edge_to@[v]].contains(v)
                            &&& dist[v] == dist[edge_to@[v]] + 1
                        },
                    queue@.len() >= q0.len(),
                    queue@.subrange(0, q0.len() as int) == q0,
                    forall|i: int| 0 <= i < queue@.len() ==> marked@.contains(#[trigger] queue@[i]),
                    forall|i: int| q0.len() <= i < queue@.len() ==> dist[#[trigger] queue@[i]] == dist[u] + 1,
                    forall|i: int| 0 <= i < q0.len() ==> dist[u] <= dist[#[trigger] q0[i]] <= dist[u] + 1,
                    forall|i: int, j: int| 0 <= i < j < q0.len() ==> dist[q0[i]] <= dist[q0[j]],
                    forall|v: u32| #[trigger] marked@.contains(v) && !m0.contains(v) ==> queue@.contains(v),
                    forall|k: int|
                        0 <= k < j ==> marked@.contains(#[trigger] g[u][k]) && dist[g[u][k]] <= dist[u] + 1,
                    forall|w: u32|
                        #[trigger] marked@.contains(w) && !queue@.contains(w) && w != u ==> {
                            &&& forall|k: int|
                                0 <= k < g[w].len() ==> marked@.contains(#[trigger] g[w][k]) && dist[g[w][k]]
                                    <= dist[w] + 1
                            &&& dist[w] <= dist[u]
                        },
                    forall|v: u32| #[trigger] m0.contains(v) ==> dist[v] == d0[v],
                    marked@.finite(),
                    marked@.len() == m0.len() + (queue@.len() - q0.len()),
                decreases nbrs@.len() - j,
            {
                let w = nbrs[j];
                let ghost mk = marked@;
                let ghost qk = queue@;
                let ghost dk = dist;
                if marked.insert(w) {
                    edge_to.insert(w, u);
                    queue.push_back(w);
                    proof {
                        dist = dist.insert(w, (dk[u] + 1) as nat);
                        assert(w != src && w != u);
                        assert(marked@ == mk.insert(w));
                        assert(queue@ == qk.push(w));
                        assert(queue@.subrange(0, q0.len() as int) =~= qk.subrange(0, q0.len() as int));
                        assert(queue@.contains(w)) by {
                            assert(queue@[queue@.len() - 1] == w);
                        }
                        assert forall|v: u32| #[trigger] marked@.contains(v) && !m0.contains(v) implies queue@.contains(v) by {
                            if v != w {
                                assert(qk.contains(v));
                                let i = choose|i: int| 0 <= i < qk.len() && qk[i] == v;
                                assert(queue@[i] == v);
                            }
                        }
                        assert forall|x: u32|
                            #[trigger] marked@.contains(x) && !queue@.contains(x) && x != u implies {
                            &&& forall|k: int|
                                0 <= k < g[x].len() ==> marked@.contains(#[trigger] g[x][k]) && dist[g[x][k]]
                                    <= dist[x] + 1
                            &&& dist[x] <= dist[u]
                        } by {
                            assert(x != w);
                            assert(!qk.contains(x)) by {
                                if qk.contains(x) {
                                    let i = choose|i: int| 0 <= i < qk.len() && qk[i] == x;
                                    assert(queue@[i] == x);
                                }
                            }
                            assert(mk.contains(x));
                        }
                        assert forall|k: int| 0 <= k < j + 1 implies marked@.contains(#[trigger] g[u][k])
                            && dist[g[u][k]] <= dist[u] + 1 by {
                            if k < j {
                                assert(mk.contains(g[u][k]));
                            }
                        }
                    }
                } else {
                    proof {
                        assert(mk.contains(w));
                        assert(dist[w] <= dist[u] + 1) by {
                            if queue@.contains(w) {
                                let i = choose|i: int| 0 <= i < queue@.len() && queue@[i] == w;
                                if i < q0.len() {
                                    assert(queue@.subrange(0, q0.len() as int)[i] == w);
                                    assert(q0[i] == w);
                                }
                            } else if w != u {
                            }
                        }
                    }
                }
                j = j + 1;
            }
            proof {
                vstd::set_lib::lemma_len_subset(marked@, g.dom());
                let d = dist[u];
                assert forall|i: int| 0 <= i < queue@.len() implies d <= dist[#[trigger] queue@[i]]
                    && dist[queue@[i]] <= d + 1 by {
                    if i < q0.len() {
                        assert(queue@.subrange(0, q0.len() as int)[i] == queue@[i]);
                    }
                }
                assert forall|i: int, k: int| 0 <= i < k < queue@.len() implies dist[queue@[i]]
                    <= dist[queue@[k]] by {
                    if k < q0.len() {
                        assert(queue@.subrange(0, q0.len() as int)[i] == queue@[i]);
                        assert(queue@.subrange(0, q0.len() as int)[k] == queue@[k]);
                    }
                }
                if queue@.len() > 0 {
                    if q0.len() > 0 {
                        assert(queue@.subrange(0, q0.len() as int)[0] == queue@[0]);
                    }
                }
                assert forall|x: u32| #[trigger] marked@.contains(x) && !queue@.contains(x) implies {
                    &&& forall|k: int|
                        0 <= k < g[x].len() ==> marked@.contains(#[trigger] g[x][k]) && dist[g[x][k]]
                            <= dist[x] + 1
                    &&& forall|i: int| 0 <= i < queue@.len() ==> dist[x] <= dist[#[trigger] queue@[i]]
                } by {}
            }
        }
    }
    /// A path from `src` to `dest` with as few nodes as any, found by a
    /// breadth-first search. `Err` names an end that is not a node (`src`
    /// first); `Ok(None)` means `dest` cannot be reached.
    pub fn shortest_path(&self, src: u32, dest: u32) -> (r: Result<Option<VecDeque<u32>>, NodeNotInGraph>)
        requires
            self.wf(),
        ensures
            !self@.contains_key(src) ==> r == Err::<Option<VecDeque<u32>>, _>(NodeNotInGraph(src)),
            self@.contains_key(src) && !self@.contains_key(dest) ==> r == Err::<
                Option<VecDeque<u32>>,
                _,
            >(NodeNotInGraph(dest)),
            r matches Ok(Some(p)) ==> is_path(self@, p@, src, dest) && forall|q: Seq<u32>|
                is_path(self@, q, src, dest) ==> p@.len() <= q.len(),
            r matches Ok(None) ==> self@.contains_key(src) && self@.contains_key(dest) && forall|
                q: Seq<u32>,
            | !is_path(self@, q, src, dest),
    {
        if !self.contains_id(src) {
            return Err(NodeNotInGraph(src));
        }
        if !self.contains_id(dest) {
            return Err(NodeNotInGraph(dest));
        }
        let ghost g = self@;
        let (marked, edge_to, dist) = self.bfs(src);
        if !marked.contains(&dest) {
            proof {
                assert forall|q: Seq<u32>| !is_path(g, q, src, dest) by {
                    if is_path(g, q, src, dest) {
                        lemma_search_bound(g, src, marked@, edge_to@, dist@, q, dest, q.len() - 1);
                    }
                }
            }
            return Ok(None);
        }
        let mut path: VecDeque<u32> = VecDeque::new();
        let mut cur = dest;
        while cur != src
            invariant
                search_done(g, src, marked@, edge_to@, dist@),
                marked@.contains(cur),
                marked@.contains(dest),
                path@.len() + dist@[cur] == dist@[dest],
                path@.len() == 0 ==> cur == dest,
                path@.len() > 0 ==> {
                    &&& path@.last() == dest
                    &&& g[cur].contains(path@[0])
                    &&& forall|i: int| 0 <= i < path@.len() ==> g.contains_key(#[trigger] path@[i])
                    &&& forall|i: int| 1 <= i < path@.len() ==> g[path@[i - 1]].contains(#[trigger] path@[i])
                },
            decreases dist@[cur],
        {
            let ghost p0 = path@;
            let ghost c0 = cur;
            path.push_front(cur);
            proof {
                assert(marked@.contains(c0) && c0 != src);
                assert(edge_to@.contains_key(c0));
            }
            cur = *edge_to.get(&cur).unwrap();
            proof {
                assert(path@ == seq![c0] + p0);
                assert(path@[0] == c0);
                assert forall|i: int| 1 <= i < path@.len() implies g[path@[i - 1]].contains(
                    #[trigger] path@[i],
                ) by {
                    if i > 1 {
                        assert(path@[i - 1] == p0[i - 2] && path@[i] == p0[i - 1]);
                    } else {
                        assert(path@[1] == p0[0]);
                    }
                }
                assert forall|i: int| 0 <= i < path@.len() implies g.contains_key(#[trigger] path@[i]) by {
                    if i > 0 {
                        assert(path@[i] == p0[i - 1]);
                    }
                }
                if p0.len() > 0 {
                    assert(path@.last() == p0.last());
                }
            }
        }
        let ghost p1 = path@;
        path.push_front(src);
        proof {
            assert(path@ == seq![src] + p1);
            assert forall|i: int| 1 <= i < path@.len() implies g[path@[i - 1]].contains(
                #[trigger] path@[i],
            ) by {
                if i > 1 {
                    assert(path@[i - 1] == p1[i - 2] && path@[i] == p1[i - 1]);
                } else {
                    assert(path@[1] == p1[0]);
                }
            }
            assert forall|i: int| 0 <= i < path@.len() implies g.contains_key(#[trigger] path@[i]) by {
                if i > 0 {
                    assert(path@[i] == p1[i - 1]);
                }
            }
            if p1.len() > 0 {
                assert(path@.last() == p1.last());
            }
            assert(is_path(g, path@, src, dest));
            assert forall|q: Seq<u32>| is_path(g, q, src, dest) implies path@.len() <= q.len() by {
                lemma_search_bound(g, src, marked@, edge_to@, dist@, q, dest, q.len() - 1);
            }
        }
        Ok(Some(path))
    }
}

} // verus!
