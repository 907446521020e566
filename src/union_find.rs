//! Weighted union-find over `u32` ids: each id points towards a root, and
//! two ids are connected exactly when they reach the same root.
use std::collections::HashMap;
use vstd::prelude::*;

verus! {

broadcast use vstd::std_specs::hash::group_hash_axioms;

/// A forest of ids; the root of each tree names its class.
pub struct UF {
    parent_of: HashMap<u32, u32>,
    weight_of: HashMap<u32, usize>,
    /// Strictly grows from a child to its parent, so climbing ends.
    level: Ghost<Map<u32, nat>>,
    /// Bounds every level.
    top: Ghost<nat>,
}

/// The level of `x`, zero where none is recorded.
pub open spec fn level_in(level: Map<u32, nat>, x: u32) -> nat {
    if level.contains_key(x) {
        level[x]
    } else {
        0
    }
}

/// Levels grow along parent links and stay at most `top`.
pub open spec fn forest(parent: Map<u32, u32>, level: Map<u32, nat>, top: nat) -> bool {
    &&& forall|x: u32| #[trigger]
        parent.contains_key(x) ==> level_in(level, x) < level_in(level, parent[x])
    &&& forall|x: u32| #[trigger] level_in(level, x) <= top
}

/// The id reached from `x` by following parent links to the end.
pub open spec fn climb(parent: Map<u32, u32>, level: Map<u32, nat>, top: nat, x: u32) -> u32
    decreases top - level_in(level, x),
    when forest(parent, level, top)
{
    if parent.contains_key(x) {
        climb(parent, level, top, parent[x])
    } else {
        x
    }
}

/// Hanging the root `child` under the root `parent` sends everything that
/// reached `child` on to `parent`, and moves nothing else.
pub proof fn lemma_link(
    p0: Map<u32, u32>,
    l0: Map<u32, nat>,
    t0: nat,
    p1: Map<u32, u32>,
    l1: Map<u32, nat>,
    t1: nat,
    child: u32,
    parent: u32,
    x: u32,
)
    requires
        forest(p0, l0, t0),
        forest(p1, l1, t1),
        p1 == p0.insert(child, parent),
        !p0.contains_key(child),
        !p0.contains_key(parent),
        child != parent,
    ensures
        climb(p1, l1, t1, x) == if climb(p0, l0, t0, x) == child {
            parent
        } else {
            climb(p0, l0, t0, x)
        },
    decreases t0 - level_in(l0, x),
{
    if p0.contains_key(x) {
        assert(level_in(l0, x) < level_in(l0, p0[x]));
        lemma_link(p0, l0, t0, p1, l1, t1, child, parent, p0[x]);
    } else if x == child {
        assert(climb(p1, l1, t1, parent) == parent);
    }
}

impl UF {
    /// Parent links never lead in a circle.
    pub closed spec fn wf(&self) -> bool {
        forest(self.parent_of@, self.level@, self.top@)
    }

    /// The root of the class of `x`.
    pub closed spec fn root(&self, x: u32) -> u32 {
        climb(self.parent_of@, self.level@, self.top@, x)
    }

    /// `x` has no parent.
    pub closed spec fn is_root(&self, x: u32) -> bool {
        !self.parent_of@.contains_key(x)
    }

    /// `x` and `y` are in the same class.
    pub open spec fn same(&self, x: u32, y: u32) -> bool {
        self.root(x) == self.root(y)
    }

    /// Every id in its own class, with weight one.
    pub fn from_ids(ids: &[u32]) -> (r: Self)
        ensures
            r.wf(),
            forall|x: u32| r.root(x) == x,
    {
        let mut weight_of: HashMap<u32, usize> = HashMap::new();
        let mut i: usize = 0;
        while i < ids.len()
            invariant
                i <= ids@.len(),
            decreases ids@.len() - i,
        {
            weight_of.insert(ids[i], 1);
            i = i + 1;
        }
        let r = UF {
            parent_of: HashMap::new(),
            weight_of,
            level: Ghost(Map::empty()),
            top: Ghost(0),
        };
        proof {
            assert forall|x: u32| r.root(x) == x by {}
        }
        r
    }

    /// The root of the class of `id`.
    pub fn find(&self, id: u32) -> (r: u32)
        requires
            self.wf(),
        ensures
            r == self.root(id),
            self.is_root(r),
    {
        let mut cur = id;
        loop
            invariant
                self.wf(),
                self.root(cur) == self.root(id),
            decreases self.top@ - level_in(self.level@, cur),
        {
            match self.parent_of.get(&cur) {
                Some(p) => {
                    proof {
                        assert(self.parent_of@.contains_key(cur));
                    }
                    cur = *p;
                },
                None => {
                    return cur;
                },
            }
        }
    }

    /// Whether `id1` and `id2` are in the same class.
    pub fn connected(&self, id1: u32, id2: u32) -> (r: bool)
        requires
            self.wf(),
        ensures
            r == self.same(id1, id2),
    {
        self.find(id1) == self.find(id2)
    }
    /// Hangs the root `child` under the root `parent`, which then carries
    /// `weight`.
    fn link(&mut self, child: u32, parent: u32, weight: usize)
        requires
            old(self).wf(),
            old(self).is_root(child),
            old(self).is_root(parent),
            child != parent,
        ensures
            final(self).wf(),
            forall|x: u32|
                #[trigger] final(self).root(x) == if old(self).root(x) == child {
                    parent
                } else {
                    old(self).root(x)
                },
    {
        let ghost lv = level_in(self.level@, child) + 1;
        let ghost l1 = if level_in(self.level@, parent) < lv {
            self.level@.insert(parent, lv)
        } else {
            self.level@
        };
        let ghost t1 = if self.top@ < lv {
            lv
        } else {
            self.top@
        };
        self.parent_of.insert(child, parent);
        self.weight_of.insert(parent, weight);
        self.level = Ghost(l1);
        self.top = Ghost(t1);
        proof {
            let (p0, l0, t0) = (old(self).parent_of@, old(self).level@, old(self).top@);
            assert forall|x: u32| #[trigger] self.parent_of@.contains_key(x) implies level_in(l1, x)
                < level_in(l1, self.parent_of@[x]) by {
                if x != child {
                    assert(p0.contains_key(x));
                    assert(level_in(l0, x) < level_in(l0, p0[x]));
                }
            }
            assert forall|x: u32| #[trigger] level_in(l1, x) <= t1 by {
                assert(level_in(l0, x) <= t0);
            }
            assert forall|x: u32|
                #[trigger] self.root(x) == if old(self).root(x) == child {
                    parent
                } else {
                    old(self).root(x)
                } by {
                lemma_link(p0, l0, t0, self.parent_of@, l1, t1, child, parent, x);
            }
        }
    }

    /// Merges the classes of `id1` and `id2`; the root of the heavier class
    /// becomes the root of both.
    pub fn union(&mut self, id1: u32, id2: u32)
        requires
            old(self).wf(),
        ensures
            final(self).wf(),
            forall|x: u32, y: u32|
                #[trigger] final(self).same(x, y) <==> (old(self).same(x, y) || (old(self).same(x, id1)
                    && old(self).same(y, id2)) || (old(self).same(x, id2) && old(self).same(y, id1))),
    {
        let root1 = self.find(id1);
        let root2 = self.find(id2);
        if root1 == root2 {
            return;
        }
        let w1: usize = match self.weight_of.get(&root1) {
            Some(w) => *w,
            None => 1,
        };
        let w2: usize = match self.weight_of.get(&root2) {
            Some(w) => *w,
            None => 1,
        };
        if w1 >= w2 {
            self.link(root2, root1, w1.saturating_add(w2));
        } else {
            self.link(root1, root2, w1.saturating_add(w2));
        }
    }
}

} // verus!
