//! An unbalanced binary search tree map from `u32` keys.
use vstd::prelude::*;

verus! {

/// A tree node: one entry and two optional subtrees.
pub struct Vertex<V> {
    pub key: u32,
    pub value: V,
    pub left: Option<Box<Vertex<V>>>,
    pub right: Option<Box<Vertex<V>>>,
}

/// The entries held by a subtree.
pub open spec fn vmap<V>(t: Option<Box<Vertex<V>>>) -> Map<u32, V>
    decreases t,
{
    match t {
        None => Map::empty(),
        Some(n) => vmap(n.left).union_prefer_right(vmap(n.right)).insert(n.key, n.value),
    }
}

/// Search order at every node: left keys below, right keys above.
pub open spec fn search_ordered<V>(t: Option<Box<Vertex<V>>>) -> bool
    decreases t,
{
    match t {
        None => true,
        Some(n) => {
            &&& search_ordered(n.left)
            &&& search_ordered(n.right)
            &&& forall|k: u32| vmap(n.left).dom().contains(k) ==> k < n.key
            &&& forall|k: u32| vmap(n.right).dom().contains(k) ==> n.key < k
        },
    }
}

/// Entries node first, then left subtree, then right subtree.
pub open spec fn vpreorder<V>(t: Option<Box<Vertex<V>>>) -> Seq<(u32, V)>
    decreases t,
{
    match t {
        None => Seq::empty(),
        Some(n) => seq![(n.key, n.value)] + vpreorder(n.left) + vpreorder(n.right),
    }
}

/// Values in key order.
pub open spec fn vinorder<V>(t: Option<Box<Vertex<V>>>) -> Seq<V>
    decreases t,
{
    match t {
        None => Seq::empty(),
        Some(n) => vinorder(n.left).push(n.value) + vinorder(n.right),
    }
}

/// The subtree `t` after inserting `key`: overwrite on a match, otherwise
/// descend, a missing child becoming a new leaf.
pub open spec fn vinserted<V>(t: Option<Box<Vertex<V>>>, key: u32, value: V) -> Box<Vertex<V>>
    decreases t,
{
    match t {
        None => Box::new(Vertex { key, value, left: None, right: None }),
        Some(n) => if key == n.key {
            Box::new(Vertex { key: n.key, value, left: n.left, right: n.right })
        } else if key < n.key {
            Box::new(
                Vertex {
                    key: n.key,
                    value: n.value,
                    left: Some(vinserted(n.left, key, value)),
                    right: n.right,
                },
            )
        } else {
            Box::new(
                Vertex {
                    key: n.key,
                    value: n.value,
                    left: n.left,
                    right: Some(vinserted(n.right, key, value)),
                },
            )
        },
    }
}

/// `t` after inserting each entry of `s` in turn.
pub open spec fn vinserted_all<V>(t: Option<Box<Vertex<V>>>, s: Seq<(u32, V)>) -> Option<Box<Vertex<V>>>
    decreases s.len(),
{
    if s.len() == 0 {
        t
    } else {
        Some(vinserted(vinserted_all(t, s.drop_last()), s.last().0, s.last().1))
    }
}

/// Keys in key order: left subtree, node, right subtree.
pub open spec fn vinorder_keys<V>(t: Option<Box<Vertex<V>>>) -> Seq<u32>
    decreases t,
{
    match t {
        None => Seq::empty(),
        Some(n) => vinorder_keys(n.left).push(n.key) + vinorder_keys(n.right),
    }
}

/// The in-order keys of an ordered subtree rise strictly, cover its keys,
/// and sit beside their values.
pub proof fn lemma_vinorder_sorted<V>(t: Option<Box<Vertex<V>>>)
    requires
        search_ordered(t),
    ensures
        vinorder_keys(t).len() == vinorder(t).len(),
        forall|i: int, j: int| 0 <= i < j < vinorder_keys(t).len() ==> vinorder_keys(t)[i] < vinorder_keys(t)[j],
        forall|i: int|
            0 <= i < vinorder_keys(t).len() ==> vmap(t).dom().contains(#[trigger] vinorder_keys(t)[i])
                && vmap(t)[vinorder_keys(t)[i]] == vinorder(t)[i],
        forall|k: u32| #[trigger] vmap(t).dom().contains(k) ==> vinorder_keys(t).contains(k),
    decreases t,
{
    if let Some(n) = t {
        lemma_vinorder_sorted(n.left);
        lemma_vinorder_sorted(n.right);
        let (a, b) = (vinorder_keys(n.left), vinorder_keys(n.right));
        let (va, vb) = (vinorder(n.left), vinorder(n.right));
        let ks = vinorder_keys(t);
        let vs = vinorder(t);
        assert(ks == a.push(n.key) + b);
        assert(vs == va.push(n.value) + vb);
        assert forall|i: int| 0 <= i < ks.len() implies vmap(t).dom().contains(#[trigger] ks[i])
            && vmap(t)[ks[i]] == vs[i] by {
            if i < a.len() {
                assert(ks[i] == a[i] && vs[i] == va[i]);
                assert(vmap(n.left).dom().contains(a[i]));
                assert(!vmap(n.right).dom().contains(a[i]));
            } else if i > a.len() {
                assert(ks[i] == b[i - a.len() - 1] && vs[i] == vb[i - a.len() - 1]);
                assert(vmap(n.right).dom().contains(b[i - a.len() - 1]));
            }
        }
        assert forall|k: u32| #[trigger] vmap(t).dom().contains(k) implies ks.contains(k) by {
            if k == n.key {
                assert(ks[a.len() as int] == k);
            } else if vmap(n.left).dom().contains(k) {
                let i = choose|i: int| 0 <= i < a.len() && a[i] == k;
                assert(ks[i] == a[i]);
            } else {
                assert(vmap(n.right).dom().contains(k));
                let i = choose|i: int| 0 <= i < b.len() && b[i] == k;
                assert(ks[i + a.len() + 1] == b[i]);
            }
        }
        assert forall|i: int, j: int| 0 <= i < j < ks.len() implies ks[i] < ks[j] by {
            if j < a.len() {
                assert(ks[i] == a[i] && ks[j] == a[j]);
            } else if i > a.len() {
                assert(ks[i] == b[i - a.len() - 1] && ks[j] == b[j - a.len() - 1]);
            } else {
                if i < a.len() {
                    assert(ks[i] == a[i]);
                    assert(vmap(n.left).dom().contains(a[i]));
                }
                if j > a.len() {
                    assert(ks[j] == b[j - a.len() - 1]);
                    assert(vmap(n.right).dom().contains(b[j - a.len() - 1]));
                }
            }
        }
    }
}

/// Forgets the borrow on each value of a list of entries.
pub open spec fn owned_pairs<V>(s: Seq<(u32, &V)>) -> Seq<(u32, V)> {
    s.map_values(|p: (u32, &V)| (p.0, *p.1))
}

/// Forgets the borrow on each value of a list.
pub open spec fn owned_values<V>(s: Seq<&V>) -> Seq<V> {
    s.map_values(|p: &V| *p)
}

impl<V> Vertex<V> {
    /// A node without children.
    pub fn new(key: u32, value: V) -> (r: Self)
        ensures
            r.key == key,
            r.value == value,
            r.left is None,
            r.right is None,
    {
        Vertex { key, value, left: None, right: None }
    }

    /// Adds or overwrites an entry below this node.
    pub fn insert(&mut self, key: u32, value: V)
        requires
            search_ordered(Some(Box::new(*old(self)))),
        ensures
            search_ordered(Some(Box::new(*final(self)))),
            vmap(Some(Box::new(*final(self)))) == vmap(Some(Box::new(*old(self)))).insert(key, value),
            Box::new(*final(self)) == vinserted(Some(Box::new(*old(self))), key, value),
        decreases *old(self),
    {
        let ghost s0 = *self;
        if key == self.key {
            self.value = value;
        } else if key < self.key {
            match self.left.take() {
                Some(mut l) => {
                    l.insert(key, value);
                    self.left = Some(l);
                },
                None => {
                    self.left = Some(Box::new(Vertex::new(key, value)));
                },
            }
        } else {
            match self.right.take() {
                Some(mut rt) => {
                    rt.insert(key, value);
                    self.right = Some(rt);
                },
                None => {
                    self.right = Some(Box::new(Vertex::new(key, value)));
                },
            }
        }
        proof {
            let (l0, r0) = (vmap(s0.left), vmap(s0.right));
            assert(vmap(self.left) == if key < s0.key { l0.insert(key, value) } else { l0 });
            assert(vmap(self.right) == if key > s0.key { r0.insert(key, value) } else { r0 });
            assert(search_ordered(self.left));
            assert(search_ordered(self.right));
            assert(!l0.dom().contains(s0.key));
            assert(!r0.dom().contains(s0.key));
            if key < s0.key {
                assert(!r0.dom().contains(key));
            }
            if key > s0.key {
                assert(!l0.dom().contains(key));
            }
            assert(vmap(Some(Box::new(*self))) =~= vmap(Some(Box::new(s0))).insert(key, value));
            if key < s0.key {
                assert(self.left == Some(vinserted(s0.left, key, value)));
            } else if key > s0.key {
                assert(self.right == Some(vinserted(s0.right, key, value)));
            }
            assert(Box::new(*self) == vinserted(Some(Box::new(s0)), key, value));
        }
    }

    /// Whether `key` is stored below this node.
    pub fn contains_key(&self, key: u32) -> (r: bool)
        requires
            search_ordered(Some(Box::new(*self))),
        ensures
            r == vmap(Some(Box::new(*self))).dom().contains(key),
        decreases self,
    {
        match self.get(key) {
            Some(_) => true,
            None => false,
        }
    }

    /// The value stored for `key` below this node.
    pub fn get(&self, key: u32) -> (r: Option<&V>)
        requires
            search_ordered(Some(Box::new(*self))),
        ensures
            r == (if vmap(Some(Box::new(*self))).dom().contains(key) {
                Some(&vmap(Some(Box::new(*self)))[key])
            } else {
                None
            }),
        decreases self,
    {
        proof {
            assert(search_ordered(self.left) && search_ordered(self.right));
        }
        if key == self.key {
            Some(&self.value)
        } else if key < self.key {
            proof {
                assert(!vmap(self.right).dom().contains(key));
            }
            match &self.left {
                Some(l) => l.get(key),
                None => None,
            }
        } else {
            proof {
                assert(!vmap(self.left).dom().contains(key));
            }
            match &self.right {
                Some(rt) => rt.get(key),
                None => None,
            }
        }
    }

    /// Appends the entries below this node in preorder.
    pub fn preorder<'a>(&'a self, out: &mut Vec<(u32, &'a V)>)
        ensures
            owned_pairs(final(out)@) == owned_pairs(old(out)@) + vpreorder(Some(Box::new(*self))),
        decreases self,
    {
        let ghost o0 = out@;
        out.push((self.key, &self.value));
        proof {
            assert(owned_pairs(out@) =~= owned_pairs(o0) + seq![(self.key, self.value)]);
        }
        let ghost o1 = out@;
        if let Some(l) = &self.left {
            l.preorder(out);
        }
        let ghost o2 = out@;
        proof {
            assert(owned_pairs(o2) =~= owned_pairs(o1) + vpreorder(self.left));
        }
        if let Some(rt) = &self.right {
            rt.preorder(out);
        }
        proof {
            assert(owned_pairs(out@) =~= owned_pairs(o2) + vpreorder(self.right));
            assert(owned_pairs(out@) =~= owned_pairs(o0) + vpreorder(Some(Box::new(*self))));
        }
    }

    /// Appends the values below this node in key order.
    pub fn inorder<'a>(&'a self, out: &mut Vec<&'a V>)
        ensures
            owned_values(final(out)@) == owned_values(old(out)@) + vinorder(Some(Box::new(*self))),
        decreases self,
    {
        let ghost o0 = out@;
        if let Some(l) = &self.left {
            l.inorder(out);
        }
        let ghost o1 = out@;
        proof {
            assert(owned_values(o1) =~= owned_values(o0) + vinorder(self.left));
        }
        out.push(&self.value);
        let ghost o2 = out@;
        proof {
            assert(owned_values(o2) =~= owned_values(o1).push(self.value));
        }
        if let Some(rt) = &self.right {
            rt.inorder(out);
        }
        proof {
            assert(owned_values(out@) =~= owned_values(o2) + vinorder(self.right));
            assert(owned_values(out@) =~= owned_values(o0) + vinorder(Some(Box::new(*self))));
        }
    }
}

/// Entries of a tree taken by one preorder walk.
pub struct PreorderIter<'a, V> {
    entries: Vec<(u32, &'a V)>,
}

/// Values of a tree taken by one in-order walk.
pub struct InorderIter<'a, V> {
    values: Vec<&'a V>,
}

impl<'a, V> PreorderIter<'a, V> {
    /// The walked entries.
    pub closed spec fn entries(&self) -> Seq<(u32, V)> {
        owned_pairs(self.entries@)
    }

    /// The walked entries, in order.
    pub fn collect_vec(self) -> (r: Vec<(u32, &'a V)>)
        ensures
            owned_pairs(r@) == self.entries(),
    {
        self.entries
    }
}

impl<'a, V> InorderIter<'a, V> {
    /// The walked values.
    pub closed spec fn values(&self) -> Seq<V> {
        owned_values(self.values@)
    }

    /// The walked values, in order.
    pub fn collect_vec(self) -> (r: Vec<&'a V>)
        ensures
            owned_values(r@) == self.values(),
    {
        self.values
    }
}

/// A map from `u32` keys kept as an unbalanced binary search tree.
pub struct BSTMap<V> {
    root: Option<Box<Vertex<V>>>,
}

impl<T> View for BSTMap<T> {
    type V = Map<u32, T>;

    closed spec fn view(&self) -> Map<u32, T> {
        vmap(self.root)
    }
}

impl<V> BSTMap<V> {
    /// Search order holds at every node.
    pub closed spec fn wf(&self) -> bool {
        search_ordered(self.root)
    }

    /// The entries, each node before its left and then its right subtree.
    pub open spec fn preorder_entries(&self) -> Seq<(u32, V)> {
        vpreorder(self.tree())
    }

    /// The tree itself.
    pub closed spec fn tree(&self) -> Option<Box<Vertex<V>>> {
        self.root
    }

    /// The values in key order.
    pub open spec fn inorder_values(&self) -> Seq<V> {
        vinorder(self.tree())
    }

    /// An empty map.
    pub fn new() -> (r: Self)
        ensures
            r.wf(),
            r@ == Map::<u32, V>::empty(),
            r.tree() is None,
    {
        BSTMap { root: None }
    }

    /// Inserts the entries one after another, in the order given.
    pub fn from_preorder(verts: Vec<(u32, V)>) -> (r: Self)
        ensures
            r.wf(),
            r@ == inserted_all(Map::empty(), verts@),
            r.tree() == vinserted_all(None, verts@),
    {
        let mut bst_map = BSTMap::new();
        let mut rest = verts;
        let ghost all = rest@;
        proof {
            assert(all.subrange(0, 0) =~= Seq::<(u32, V)>::empty());
            assert(rest@ =~= all.subrange(0, all.len() as int));
        }
        while rest.len() > 0
            invariant
                bst_map.wf(),
                rest@.len() <= all.len(),
                bst_map@ == inserted_all(Map::empty(), all.subrange(0, all.len() - rest@.len())),
                bst_map.tree() == vinserted_all(None, all.subrange(0, all.len() - rest@.len())),
                rest@ == all.subrange(all.len() - rest@.len(), all.len() as int),
            decreases rest@.len(),
        {
            let ghost done = all.len() - rest@.len();
            let (key, val) = rest.remove(0);
            bst_map.insert(key, val);
            proof {
                assert(all[done] == (key, val));
                assert(all.subrange(0, done + 1).drop_last() =~= all.subrange(0, done));
                assert(rest@ =~= all.subrange(all.len() - rest@.len(), all.len() as int));
            }
        }
        bst_map
    }

    /// Adds or overwrites the entry for `key`.
    pub fn insert(&mut self, key: u32, value: V)
        requires
            old(self).wf(),
        ensures
            final(self).wf(),
            final(self)@ == old(self)@.insert(key, value),
            final(self).tree() == Some(vinserted(old(self).tree(), key, value)),
    {
        match self.root.take() {
            Some(mut vertex) => {
                vertex.insert(key, value);
                self.root = Some(vertex);
            },
            None => {
                self.root = Some(Box::new(Vertex::new(key, value)));
                proof {
                    let n = self.root->0;
                    assert(vmap(n.left) == Map::<u32, V>::empty());
                    assert(vmap(n.right) == Map::<u32, V>::empty());
                    assert(vmap(self.root) =~= Map::<u32, V>::empty().insert(key, value));
                }
            },
        }
    }

    /// Whether an entry for `key` is stored.
    pub fn contains_key(&self, key: u32) -> (r: bool)
        requires
            self.wf(),
        ensures
            r == self@.contains_key(key),
    {
        match &self.root {
            Some(vertex) => vertex.contains_key(key),
            None => false,
        }
    }

    /// The value stored for `key`, if any.
    pub fn get(&self, key: u32) -> (r: Option<&V>)
        requires
            self.wf(),
        ensures
            r == (if self@.contains_key(key) {
                Some(&self@[key])
            } else {
                None
            }),
    {
        match &self.root {
            Some(vertex) => vertex.get(key),
            None => None,
        }
    }

    /// The entries in preorder; `None` for an empty map.
    pub fn preorder(&self) -> (r: Option<PreorderIter<'_, V>>)
        requires
            self.wf(),
        ensures
            r is None <==> self@ == Map::<u32, V>::empty(),
            r is Some ==> r->0.entries() == self.preorder_entries(),
    {
        match &self.root {
            Some(vertex) => {
                proof {
                    assert(vmap(self.root).dom().contains(vertex.key));
                }
                let mut entries: Vec<(u32, &V)> = Vec::new();
                vertex.preorder(&mut entries);
                proof {
                    assert(owned_pairs(Seq::<(u32, &V)>::empty()) =~= Seq::empty());
                }
                Some(PreorderIter { entries })
            },
            None => None,
        }
    }

    /// The values in key order; `None` for an empty map.
    pub fn inorder(&self) -> (r: Option<InorderIter<'_, V>>)
        requires
            self.wf(),
        ensures
            r is None <==> self@ == Map::<u32, V>::empty(),
            r is Some ==> r->0.values() == self.inorder_values(),
            r is Some ==> exists|ks: Seq<u32>|
                {
                    &&& ks.len() == r->0.values().len()
                    &&& forall|i: int, j: int| 0 <= i < j < ks.len() ==> ks[i] < ks[j]
                    &&& forall|i: int|
                        0 <= i < ks.len() ==> self@.contains_key(#[trigger] ks[i]) && self@[ks[i]]
                            == r->0.values()[i]
                    &&& forall|k: u32| #[trigger] self@.contains_key(k) ==> ks.contains(k)
                },
    {
        proof {
            lemma_vinorder_sorted(self.root);
        }
        match &self.root {
            Some(vertex) => {
                proof {
                    assert(vmap(self.root).dom().contains(vertex.key));
                }
                let mut values: Vec<&V> = Vec::new();
                vertex.inorder(&mut values);
                proof {
                    assert(owned_values(Seq::<&V>::empty()) =~= Seq::empty());
                }
                Some(InorderIter { values })
            },
            None => None,
        }
    }
}

/// `m` after inserting each entry of `s` in turn.
pub open spec fn inserted_all<V>(m: Map<u32, V>, s: Seq<(u32, V)>) -> Map<u32, V>
    decreases s.len(),
{
    if s.len() == 0 {
        m
    } else {
        inserted_all(m, s.drop_last()).insert(s.last().0, s.last().1)
    }
}

} // verus!
