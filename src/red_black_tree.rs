//! An ordered map backed by a left-leaning red-black tree (LLRB).
//!
//! Each node carries the colour of the link that points at it. Absent links
//! count as black. Insertion descends and repairs on the way back up;
//! deletion restructures before it descends so that the node it finally
//! detaches is always reached through a red link.
use vstd::arithmetic::power2::pow2;
use vstd::prelude::*;

verus! {

/// Colour of the link that points at a node.
#[derive(Clone, Copy, PartialEq, Eq, Structural)]
pub enum Color {
    Red,
    Black,
}

impl Color {
    /// Whether the colour is red.
    pub fn is_red(&self) -> (r: bool)
        ensures
            r == (*self == Color::Red),
    {
        match self {
            Color::Red => true,
            Color::Black => false,
        }
    }

    /// Turns red into black and black into red.
    pub fn rev(&mut self)
        ensures
            *final(self) == other(*old(self)),
    {
        match self {
            Color::Red => *self = Color::Black,
            Color::Black => *self = Color::Red,
        }
    }

    /// Stores `src` and hands back the colour that was there before.
    pub fn replace(&mut self, src: Color) -> (r: Color)
        ensures
            r == *old(self),
            *final(self) == src,
    {
        let prev = *self;
        *self = src;
        prev
    }
}

/// A tree node: one entry, the colour of its incoming link, and two
/// optional children.
pub struct Node<V> {
    pub color: Color,
    pub key: u32,
    pub value: V,
    pub left: Option<Box<Node<V>>>,
    pub right: Option<Box<Node<V>>>,
}

/// The entries held by a subtree.
pub open spec fn tmap<V>(t: Option<Box<Node<V>>>) -> Map<u32, V>
    decreases t,
{
    match t {
        None => Map::empty(),
        Some(n) => tmap(n.left).union_prefer_right(tmap(n.right)).insert(n.key, n.value),
    }
}

/// Binary-search-tree order: left keys below, right keys above, at every node.
pub open spec fn ordered<V>(t: Option<Box<Node<V>>>) -> bool
    decreases t,
{
    match t {
        None => true,
        Some(n) => {
            &&& ordered(n.left)
            &&& ordered(n.right)
            &&& forall|k: u32| tmap(n.left).dom().contains(k) ==> k < n.key
            &&& forall|k: u32| tmap(n.right).dom().contains(k) ==> n.key < k
        },
    }
}

/// Number of nodes.
pub open spec fn size<V>(t: Option<Box<Node<V>>>) -> nat
    decreases t,
{
    match t {
        None => 0,
        Some(n) => size(n.left) + size(n.right) + 1,
    }
}

/// Number of nodes on the longest path from the root down.
pub open spec fn height<V>(t: Option<Box<Node<V>>>) -> nat
    decreases t,
{
    match t {
        None => 0,
        Some(n) => 1 + if height(n.left) >= height(n.right) {
            height(n.left)
        } else {
            height(n.right)
        },
    }
}

/// Entries in key order: left subtree, node, right subtree.
pub open spec fn inorder_seq<V>(t: Option<Box<Node<V>>>) -> Seq<(u32, V)>
    decreases t,
{
    match t {
        None => Seq::empty(),
        Some(n) => inorder_seq(n.left).push((n.key, n.value)) + inorder_seq(n.right),
    }
}

/// Entries node first, then left subtree, then right subtree.
pub open spec fn preorder_seq<V>(t: Option<Box<Node<V>>>) -> Seq<(u32, V)>
    decreases t,
{
    match t {
        None => Seq::empty(),
        Some(n) => seq![(n.key, n.value)] + preorder_seq(n.left) + preorder_seq(n.right),
    }
}

/// An absent link counts as black.
pub open spec fn red<V>(t: Option<Box<Node<V>>>) -> bool {
    t is Some && t->0.color == Color::Red
}

/// Number of black links from this link down to an absent link along the
/// left spine; in a balanced tree every path gives the same number.
pub open spec fn black_height<V>(t: Option<Box<Node<V>>>) -> nat
    decreases t,
{
    match t {
        None => 0,
        Some(n) => black_height(n.left) + if n.color == Color::Black {
            1nat
        } else {
            0nat
        },
    }
}

/// Every path from this link to an absent link crosses the same number of
/// black links.
pub open spec fn black_balanced<V>(t: Option<Box<Node<V>>>) -> bool
    decreases t,
{
    match t {
        None => true,
        Some(n) => {
            &&& black_balanced(n.left)
            &&& black_balanced(n.right)
            &&& black_height(n.left) == black_height(n.right)
        },
    }
}

/// The other colour.
pub open spec fn other(c: Color) -> Color {
    if c == Color::Red {
        Color::Black
    } else {
        Color::Red
    }
}

/// Left-leaning red-black shape: at every node the two subtrees carry the
/// same number of black links, no right link is red, and no red link has a
/// red link directly below it on the left.
pub open spec fn llrb<V>(t: Option<Box<Node<V>>>) -> bool
    decreases t,
{
    match t {
        None => true,
        Some(n) => {
            &&& llrb(n.left)
            &&& llrb(n.right)
            &&& black_height(n.left) == black_height(n.right)
            &&& !red(n.right)
            &&& !(n.color == Color::Red && red(n.left))
        },
    }
}

/// Left-leaning red-black shape below the root; the root itself may be a
/// red link with a red left link under it.
pub open spec fn near_llrb<V>(t: Option<Box<Node<V>>>) -> bool {
    match t {
        None => true,
        Some(n) => {
            &&& llrb(n.left)
            &&& llrb(n.right)
            &&& black_height(n.left) == black_height(n.right)
            &&& !red(n.right)
        },
    }
}

/// What insertion leaves at a node before the fix-up runs: one subtree
/// came back from an insertion, the other is untouched.
pub open spec fn ready_for_fixup<V>(h: Node<V>) -> bool {
    &&& llrb(h.right)
    &&& near_llrb(h.left)
    &&& black_height(h.left) == black_height(h.right)
    &&& h.color == Color::Red ==> llrb(h.left) && !(red(h.left) && red(h.right))
    &&& red(h.right) ==> llrb(h.left)
}

/// What deletion leaves at a node before the fix-up runs: both subtrees
/// have the left-leaning red-black shape and carry the same number of
/// black links; either may hang on a red link.
pub open spec fn ready_after_delete<V>(h: Node<V>) -> bool {
    &&& llrb(h.left)
    &&& llrb(h.right)
    &&& black_height(h.left) == black_height(h.right)
}

/// What the deletions ask of a subtree they descend into: the
/// left-leaning red-black shape, with the root link or its left link red.
pub open spec fn delete_ready<V>(t: Option<Box<Node<V>>>) -> bool {
    &&& llrb(t)
    &&& t is Some
    &&& (red(t) || red(t->0.left))
}

/// Where `pop_min` and `remove` borrow for the left descent: the subtrees
/// have the left-leaning red-black shape and equal black links, and the
/// left child and its left child are both black.
pub open spec fn borrow_left_ready<V>(h: Node<V>) -> bool {
    &&& llrb(h.left)
    &&& llrb(h.right)
    &&& black_height(h.left) == black_height(h.right)
    &&& !red(h.right)
    &&& h.left is Some
    &&& !red(h.left)
    &&& !red(h.left->0.left)
}

/// A black node leaning right: its right link is red, its left link is
/// not, and both subtrees have the left-leaning red-black shape with equal
/// black links. Removal passes through such nodes on its way right.
pub open spec fn right_lean<V>(t: Option<Box<Node<V>>>) -> bool {
    &&& t is Some
    &&& t->0.color == Color::Black
    &&& !red(t->0.left)
    &&& red(t->0.right)
    &&& llrb(t->0.left)
    &&& llrb(t->0.right)
    &&& black_height(t->0.left) == black_height(t->0.right)
}

/// What `remove` asks of a subtree it descends into to take out `key`.
pub open spec fn remove_ready<V>(t: Option<Box<Node<V>>>, key: u32) -> bool {
    delete_ready(t) || (right_lean(t) && t->0.key <= key)
}

/// Where `remove` borrows for the right descent: the subtrees have the
/// left-leaning red-black shape and equal black links, both children are
/// black, and so is the right child's left child.
pub open spec fn borrow_right_ready<V>(h: Node<V>) -> bool {
    &&& llrb(h.left)
    &&& llrb(h.right)
    &&& black_height(h.left) == black_height(h.right)
    &&& !red(h.left)
    &&& !red(h.right)
    &&& h.right is Some
    &&& !red(h.right->0.left)
}

/// What a deletion promises of the subtree `r` it returns for `h`: the
/// left-leaning red-black shape, the same number of black links, and a
/// black root link stays black.
pub open spec fn delete_shape<V>(h: Option<Box<Node<V>>>, r: Option<Box<Node<V>>>) -> bool {
    &&& llrb(r)
    &&& black_height(r) == black_height(h)
    &&& !red(h) ==> !red(r)
}

/// What insertion promises of the subtree `r` it returns for `h`: the same
/// number of black links, the shape holds below the root, and a black `h`
/// comes back as a full left-leaning red-black tree while a red one stays
/// red.
pub open spec fn insert_shape<V>(h: Option<Box<Node<V>>>, r: Option<Box<Node<V>>>) -> bool {
    &&& black_height(r) == black_height(h)
    &&& near_llrb(r)
    &&& !red(h) ==> llrb(r)
    &&& red(h) ==> red(r)
}

/// The right child lifted above `h` (§ rotate-left); `h` itself when it has
/// no right child.
pub open spec fn rotated_left<V>(h: Node<V>) -> Node<V> {
    match h.right {
        Some(x) => Node {
            color: h.color,
            key: x.key,
            value: x.value,
            left: Some(
                Box::new(
                    Node { color: Color::Red, key: h.key, value: h.value, left: h.left, right: x.left },
                ),
            ),
            right: x.right,
        },
        None => h,
    }
}

/// The left child lifted above `h`; `h` itself when it has no left child.
pub open spec fn rotated_right<V>(h: Node<V>) -> Node<V> {
    match h.left {
        Some(x) => Node {
            color: h.color,
            key: x.key,
            value: x.value,
            left: x.left,
            right: Some(
                Box::new(
                    Node { color: Color::Red, key: h.key, value: h.value, left: x.right, right: h.right },
                ),
            ),
        },
        None => h,
    }
}

/// A link with its colour inverted.
pub open spec fn recolored<V>(t: Option<Box<Node<V>>>) -> Option<Box<Node<V>>> {
    match t {
        Some(n) => Some(
            Box::new(
                Node { color: other(n.color), key: n.key, value: n.value, left: n.left, right: n.right },
            ),
        ),
        None => None,
    }
}

/// `h` and both its children with their colours inverted.
pub open spec fn flipped<V>(h: Node<V>) -> Node<V> {
    Node {
        color: other(h.color),
        key: h.key,
        value: h.value,
        left: recolored(h.left),
        right: recolored(h.right),
    }
}

/// The three fix-up steps in their fixed order: lean a lone red right
/// link left, lift a left-left red pair, split a 4-node.
pub open spec fn fixed_up<V>(h: Node<V>) -> Node<V> {
    let h1 = if red(h.right) && !red(h.left) {
        rotated_left(h)
    } else {
        h
    };
    let h2 = if red(h1.left) && red(h1.left->0.left) {
        rotated_right(h1)
    } else {
        h1
    };
    if red(h2.left) && red(h2.right) {
        flipped(h2)
    } else {
        h2
    }
}

/// A new red leaf.
pub open spec fn red_leaf<V>(key: u32, value: V) -> Node<V> {
    Node { color: Color::Red, key, value, left: None, right: None }
}

/// The subtree `h` after inserting `key`: overwrite on a match, otherwise
/// descend (a missing child becomes a red leaf), then fix up on the way
/// back.
pub open spec fn inserted<V>(h: Node<V>, key: u32, value: V) -> Node<V>
    decreases h,
{
    let h1 = if key == h.key {
        Node { color: h.color, key: h.key, value, left: h.left, right: h.right }
    } else if key < h.key {
        Node {
            color: h.color,
            key: h.key,
            value: h.value,
            left: Some(
                Box::new(
                    match h.left {
                        Some(l) => inserted(*l, key, value),
                        None => red_leaf(key, value),
                    },
                ),
            ),
            right: h.right,
        }
    } else {
        Node {
            color: h.color,
            key: h.key,
            value: h.value,
            left: h.left,
            right: Some(
                Box::new(
                    match h.right {
                        Some(rt) => inserted(*rt, key, value),
                        None => red_leaf(key, value),
                    },
                ),
            ),
        }
    };
    fixed_up(h1)
}

/// The whole tree after inserting `key`: a black root for an empty tree,
/// otherwise the insertion below the root with the root link made black.
pub open spec fn tree_after_insert<V>(t: Option<Box<Node<V>>>, key: u32, value: V) -> Option<
    Box<Node<V>>,
> {
    match t {
        None => Some(Box::new(Node { color: Color::Black, key, value, left: None, right: None })),
        Some(n) => {
            let m = inserted(*n, key, value);
            Some(Box::new(Node { color: Color::Black, key: m.key, value: m.value, left: m.left, right: m.right }))
        },
    }
}

/// `h` after borrowing for a left descent: flip, and when that leaves two
/// red links in a row on the right, rotate them over to the left and flip
/// back.
pub open spec fn borrowed_left<V>(h: Node<V>) -> Node<V> {
    let f = flipped(h);
    if f.right is Some && red(f.right->0.left) {
        flipped(
            rotated_left(
                Node {
                    color: f.color,
                    key: f.key,
                    value: f.value,
                    left: f.left,
                    right: Some(Box::new(rotated_right(*f.right->0))),
                },
            ),
        )
    } else {
        f
    }
}

/// `h` after borrowing for a right descent: flip, and when that leaves two
/// red links in a row on the left, rotate right and flip back.
pub open spec fn borrowed_right<V>(h: Node<V>) -> Node<V> {
    let f = flipped(h);
    if f.left is Some && red(f.left->0.left) {
        flipped(rotated_right(f))
    } else {
        f
    }
}

/// `h` with another left subtree.
pub open spec fn with_left<V>(h: Node<V>, l: Option<Box<Node<V>>>) -> Node<V> {
    Node { color: h.color, key: h.key, value: h.value, left: l, right: h.right }
}

/// `h` with another right subtree.
pub open spec fn with_right<V>(h: Node<V>, r: Option<Box<Node<V>>>) -> Node<V> {
    Node { color: h.color, key: h.key, value: h.value, left: h.left, right: r }
}

/// Rotations, flips and borrows keep the number of nodes.
pub proof fn lemma_reshape_size<V>(h: Node<V>)
    ensures
        size(Some(Box::new(flipped(h)))) == size(Some(Box::new(h))),
        size(Some(Box::new(rotated_left(h)))) == size(Some(Box::new(h))),
        size(Some(Box::new(rotated_right(h)))) == size(Some(Box::new(h))),
        size(Some(Box::new(borrowed_left(h)))) == size(Some(Box::new(h))),
        size(Some(Box::new(borrowed_right(h)))) == size(Some(Box::new(h))),
        h.left is Some ==> borrowed_left(h).left is Some,
        h.right is Some ==> borrowed_right(h).right is Some,
{
    lemma_reshape_size_basic(h);
    let f = flipped(h);
    lemma_reshape_size_basic(f);
    if f.right is Some && red(f.right->0.left) {
        let x = *f.right->0;
        lemma_reshape_size_basic(x);
        let g = Node { color: f.color, key: f.key, value: f.value, left: f.left, right: Some(Box::new(rotated_right(x))) };
        assert(size(Some(Box::new(g))) == size(Some(Box::new(f))));
        lemma_reshape_size_basic(g);
        lemma_reshape_size_basic(rotated_left(g));
    }
    if f.left is Some && red(f.left->0.left) {
        lemma_reshape_size_basic(rotated_right(f));
    }
}

proof fn lemma_reshape_size_basic<V>(h: Node<V>)
    ensures
        size(Some(Box::new(flipped(h)))) == size(Some(Box::new(h))),
        size(Some(Box::new(rotated_left(h)))) == size(Some(Box::new(h))),
        size(Some(Box::new(rotated_right(h)))) == size(Some(Box::new(h))),
{
    assert(size(recolored(h.left)) == size(h.left));
    assert(size(recolored(h.right)) == size(h.right));
    if let Some(x) = h.right {
        let lo = Node { color: Color::Red, key: h.key, value: h.value, left: h.left, right: x.left };
        assert(size(Some(Box::new(lo))) == size(h.left) + size(x.left) + 1);
        assert(size(h.right) == size(x.left) + size(x.right) + 1);
    }
    if let Some(x) = h.left {
        let ro = Node { color: Color::Red, key: h.key, value: h.value, left: x.right, right: h.right };
        assert(size(Some(Box::new(ro))) == size(x.right) + size(h.right) + 1);
        assert(size(h.left) == size(x.left) + size(x.right) + 1);
    }
}

/// What `pop_min` does to `h`: the rest of the subtree and the detached
/// minimum node (§4.5): a node without a left child is the minimum; else
/// borrow when the left link and the one below it are both black, descend
/// left, and fix up on the way back. (The size test only shows the descent
/// ends; by `lemma_reshape_size` it always passes.)
pub open spec fn popped_min<V>(h: Node<V>) -> (Option<Box<Node<V>>>, Node<V>)
    decreases size(Some(Box::new(h))),
{
    if h.left is None {
        (h.right, with_right(h, None))
    } else {
        let h1 = if !(red(h.left) || red(h.left->0.left)) {
            borrowed_left(h)
        } else {
            h
        };
        if h1.left is Some && size(h1.left) < size(Some(Box::new(h))) {
            let (nl, m) = popped_min(*h1.left->0);
            (Some(Box::new(fixed_up(with_left(h1, nl)))), m)
        } else {
            (None, h)
        }
    }
}

/// What `remove` does to `h` for `key` (§4.5): the rest of the subtree and
/// the detached node, if any. Left of the node: borrow when needed, descend
/// left. Otherwise lean a red left link right; a match without a right
/// child is detached directly; else borrow for the right descent when
/// needed, and on a match hand the entry to the detached in-order successor,
/// or descend right. Every branch fixes up on the way back. (The size tests
/// only show the descent ends; by `lemma_reshape_size` they always pass.)
pub open spec fn removed<V>(h: Node<V>, key: u32) -> (Option<Box<Node<V>>>, Option<Box<Node<V>>>)
    decreases size(Some(Box::new(h))),
{
    if key < h.key {
        let h1 = if !(red(h.left) || (h.left is Some && red(h.left->0.left))) {
            borrowed_left(h)
        } else {
            h
        };
        match h1.left {
            None => (Some(Box::new(fixed_up(h1))), None),
            Some(l) => if size(h1.left) < size(Some(Box::new(h))) {
                let (nl, rm) = removed(*l, key);
                (Some(Box::new(fixed_up(with_left(h1, nl)))), rm)
            } else {
                (None, None)
            },
        }
    } else {
        let h1 = if red(h.left) {
            rotated_right(h)
        } else {
            h
        };
        if key == h1.key && h1.right is None {
            (h1.left, Some(Box::new(with_left(h1, None))))
        } else {
            let h2 = if !(red(h1.right) || (h1.right is Some && red(h1.right->0.left))) {
                borrowed_right(h1)
            } else {
                h1
            };
            match h2.right {
                None => if key == h2.key {
                    (None, None)
                } else {
                    (Some(Box::new(fixed_up(h2))), None)
                },
                Some(rt) => if key == h2.key {
                    let (nr, m) = popped_min(*rt);
                    (
                        Some(
                            Box::new(
                                fixed_up(
                                    Node {
                                        color: h2.color,
                                        key: m.key,
                                        value: m.value,
                                        left: h2.left,
                                        right: nr,
                                    },
                                ),
                            ),
                        ),
                        Some(
                            Box::new(
                                Node {
                                    color: m.color,
                                    key: h2.key,
                                    value: h2.value,
                                    left: m.left,
                                    right: m.right,
                                },
                            ),
                        ),
                    )
                } else if size(h2.right) < size(Some(Box::new(h))) {
                    let (nr, rm) = removed(*rt, key);
                    (Some(Box::new(fixed_up(with_right(h2, nr)))), rm)
                } else {
                    (None, None)
                },
            }
        }
    }
}

/// A link made black.
pub open spec fn blackened<V>(t: Option<Box<Node<V>>>) -> Option<Box<Node<V>>> {
    match t {
        Some(n) => Some(
            Box::new(Node { color: Color::Black, key: n.key, value: n.value, left: n.left, right: n.right }),
        ),
        None => None,
    }
}

/// The whole tree after `pop_min`.
pub open spec fn tree_after_pop_min<V>(t: Option<Box<Node<V>>>) -> Option<Box<Node<V>>> {
    match t {
        None => None,
        Some(n) => blackened(popped_min(*n).0),
    }
}

/// The whole tree after `remove(key)`: untouched when `key` is absent.
pub open spec fn tree_after_remove<V>(t: Option<Box<Node<V>>>, key: u32) -> Option<Box<Node<V>>> {
    match t {
        Some(n) => if tmap(t).dom().contains(key) {
            blackened(removed(*n, key).0)
        } else {
            t
        },
        None => None,
    }
}

/// Keys strictly increase along a sequence of entries.
pub open spec fn strictly_ascending<V>(s: Seq<(u32, V)>) -> bool {
    forall|i: int, j: int| 0 <= i < j < s.len() ==> s[i].0 < s[j].0
}

/// Regrouping three key ranges around two separating keys gives the same map.
proof fn lemma_regroup<V>(l: Map<u32, V>, ka: u32, va: V, m: Map<u32, V>, kb: u32, vb: V, r: Map<u32, V>)
    requires
        ka < kb,
        forall|k: u32| l.dom().contains(k) ==> k < ka,
        forall|k: u32| m.dom().contains(k) ==> ka < k && k < kb,
        forall|k: u32| r.dom().contains(k) ==> kb < k,
    ensures
        l.union_prefer_right(m.union_prefer_right(r).insert(kb, vb)).insert(ka, va)
            == l.union_prefer_right(m).insert(ka, va).union_prefer_right(r).insert(kb, vb),
{
    let x = l.union_prefer_right(m.union_prefer_right(r).insert(kb, vb)).insert(ka, va);
    let y = l.union_prefer_right(m).insert(ka, va).union_prefer_right(r).insert(kb, vb);
    assert forall|k: u32| #[trigger] x.dom().contains(k) == y.dom().contains(k) by {}
    assert forall|k: u32| x.dom().contains(k) implies #[trigger] x[k] == y[k] by {
        if k == ka {
        } else if k == kb {
        } else if l.dom().contains(k) {
            assert(!m.dom().contains(k) && !r.dom().contains(k));
        } else if m.dom().contains(k) {
            assert(!r.dom().contains(k));
        } else {
        }
    }
    assert(x =~= y);
}

/// An ordered subtree holds exactly `size` distinct keys.
pub proof fn lemma_size_is_key_count<V>(t: Option<Box<Node<V>>>)
    requires
        ordered(t),
    ensures
        tmap(t).dom().finite(),
        tmap(t).dom().len() == size(t),
    decreases t,
{
    if let Some(n) = t {
        lemma_size_is_key_count(n.left);
        lemma_size_is_key_count(n.right);
        let (l, r) = (tmap(n.left).dom(), tmap(n.right).dom());
        assert(l.disjoint(r)) by {
            assert forall|k: u32| l.contains(k) implies !r.contains(k) by {
                assert(k < n.key);
            }
        }
        vstd::set_lib::lemma_set_disjoint_lens(l, r);
        vstd::set_lib::lemma_set_union_finite_iff(l, r);
        assert(tmap(n.left).union_prefer_right(tmap(n.right)).dom() =~= l + r);
        assert(!(l + r).contains(n.key));
    }
}

/// A path from the root is never longer than the number of nodes.
pub proof fn lemma_height_at_most_size<V>(t: Option<Box<Node<V>>>)
    ensures
        height(t) <= size(t),
    decreases t,
{
    if let Some(n) = t {
        lemma_height_at_most_size(n.left);
        lemma_height_at_most_size(n.right);
    }
}

/// The in-order sequence of an ordered subtree lists each of its entries
/// once, in strictly ascending key order.
pub proof fn lemma_inorder_sorted<V>(t: Option<Box<Node<V>>>)
    requires
        ordered(t),
    ensures
        strictly_ascending(inorder_seq(t)),
        inorder_seq(t).len() == size(t),
        forall|i: int|
            0 <= i < inorder_seq(t).len() ==> tmap(t).dom().contains(#[trigger] inorder_seq(t)[i].0)
                && tmap(t)[inorder_seq(t)[i].0] == inorder_seq(t)[i].1,
        forall|k: u32|
            #[trigger] tmap(t).dom().contains(k) ==> exists|i: int|
                0 <= i < inorder_seq(t).len() && inorder_seq(t)[i].0 == k,
    decreases t,
{
    if let Some(n) = t {
        lemma_inorder_sorted(n.left);
        lemma_inorder_sorted(n.right);
        let (a, b) = (inorder_seq(n.left), inorder_seq(n.right));
        let s = inorder_seq(t);
        assert(s == a.push((n.key, n.value)) + b);
        assert forall|i: int| 0 <= i < s.len() implies tmap(t).dom().contains(#[trigger] s[i].0)
            && tmap(t)[s[i].0] == s[i].1 by {
            if i < a.len() {
                assert(s[i] == a[i]);
                assert(tmap(n.left).dom().contains(a[i].0));
                assert(!tmap(n.right).dom().contains(a[i].0));
            } else if i > a.len() {
                assert(s[i] == b[i - a.len() - 1]);
                assert(tmap(n.right).dom().contains(b[i - a.len() - 1].0));
            }
        }
        assert forall|k: u32| #[trigger] tmap(t).dom().contains(k) implies exists|i: int|
            0 <= i < s.len() && s[i].0 == k by {
            if k == n.key {
                assert(s[a.len() as int].0 == k);
            } else if tmap(n.left).dom().contains(k) {
                let i = choose|i: int| 0 <= i < a.len() && a[i].0 == k;
                assert(s[i] == a[i]);
            } else {
                assert(tmap(n.right).dom().contains(k));
                let i = choose|i: int| 0 <= i < b.len() && b[i].0 == k;
                assert(s[i + a.len() + 1] == b[i]);
            }
        }
        assert forall|i: int, j: int| 0 <= i < j < s.len() implies s[i].0 < s[j].0 by {
            if j < a.len() {
                assert(s[i] == a[i] && s[j] == a[j]);
            } else if i > a.len() {
                assert(s[i] == b[i - a.len() - 1] && s[j] == b[j - a.len() - 1]);
            } else {
                if i < a.len() {
                    assert(s[i] == a[i]);
                    assert(tmap(n.left).dom().contains(a[i].0));
                }
                if j > a.len() {
                    assert(s[j] == b[j - a.len() - 1]);
                    assert(tmap(n.right).dom().contains(b[j - a.len() - 1].0));
                }
            }
        }
    }
}

/// Two strictly ascending lists of entries that agree with the same map and
/// list every key of it are the same list.
pub proof fn lemma_sorted_entries_unique<V>(s1: Seq<(u32, V)>, s2: Seq<(u32, V)>, m: Map<u32, V>)
    requires
        strictly_ascending(s1),
        strictly_ascending(s2),
        forall|i: int| 0 <= i < s1.len() ==> m.dom().contains(#[trigger] s1[i].0) && m[s1[i].0] == s1[i].1,
        forall|i: int| 0 <= i < s2.len() ==> m.dom().contains(#[trigger] s2[i].0) && m[s2[i].0] == s2[i].1,
        forall|k: u32| #[trigger] m.dom().contains(k) ==> exists|i: int| 0 <= i < s1.len() && s1[i].0 == k,
        forall|k: u32| #[trigger] m.dom().contains(k) ==> exists|i: int| 0 <= i < s2.len() && s2[i].0 == k,
    ensures
        s1 == s2,
    decreases s1.len(),
{
    if s1.len() > 0 && s2.len() > 0 {
        assert(m.dom().contains(s1[0].0));
        assert(m.dom().contains(s2[0].0));
        let i = choose|i: int| 0 <= i < s2.len() && s2[i].0 == s1[0].0;
        let j = choose|j: int| 0 <= j < s1.len() && s1[j].0 == s2[0].0;
        assert(s1[0].0 == s2[0].0) by {
            if s1[0].0 < s2[0].0 {
                assert(i > 0);
            } else if s1[0].0 > s2[0].0 {
                assert(j > 0);
            }
        }
        let (t1, t2) = (s1.drop_first(), s2.drop_first());
        let m2 = m.remove(s1[0].0);
        assert forall|k: u32| #[trigger] m2.dom().contains(k) implies exists|i: int|
            0 <= i < t1.len() && t1[i].0 == k by {
            let i = choose|i: int| 0 <= i < s1.len() && s1[i].0 == k;
            assert(i > 0);
            assert(t1[i - 1].0 == k);
        }
        assert forall|k: u32| #[trigger] m2.dom().contains(k) implies exists|i: int|
            0 <= i < t2.len() && t2[i].0 == k by {
            let i = choose|i: int| 0 <= i < s2.len() && s2[i].0 == k;
            assert(i > 0);
            assert(t2[i - 1].0 == k);
        }
        assert forall|i: int| 0 <= i < t1.len() implies m2.dom().contains(#[trigger] t1[i].0)
            && m2[t1[i].0] == t1[i].1 by {
            assert(t1[i] == s1[i + 1]);
        }
        assert forall|i: int| 0 <= i < t2.len() implies m2.dom().contains(#[trigger] t2[i].0)
            && m2[t2[i].0] == t2[i].1 by {
            assert(t2[i] == s2[i + 1]);
        }
        lemma_sorted_entries_unique(t1, t2, m2);
        assert(s1 =~= seq![s1[0]] + t1);
        assert(s2 =~= seq![s2[0]] + t2);
    } else if s1.len() > 0 {
        assert(m.dom().contains(s1[0].0));
    } else if s2.len() > 0 {
        assert(m.dom().contains(s2[0].0));
    } else {
        assert(s1 =~= s2);
    }
}

/// Forgets the borrow on each value of a list of entries.
pub open spec fn owned_entries<V>(s: Seq<(u32, &V)>) -> Seq<(u32, V)> {
    s.map_values(|p: (u32, &V)| (p.0, *p.1))
}

/// The three fix-up steps turn what insertion leaves at a node into the
/// shape insertion promises.
pub proof fn lemma_fixup_shape<V>(h0: Box<Node<V>>, h1: Box<Node<V>>, h2: Box<Node<V>>, h: Box<Node<V>>)
    requires
        ready_for_fixup(*h0),
        red(h0.right) && !red(h0.left) ==> {
            &&& h1.color == h0.color
            &&& h1.right == h0.right->0.right
            &&& h1.left is Some
            &&& h1.left->0.color == Color::Red
            &&& h1.left->0.left == h0.left
            &&& h1.left->0.right == h0.right->0.left
        },
        !(red(h0.right) && !red(h0.left)) ==> h1 == h0,
        red(h1.left) && red(h1.left->0.left) ==> {
            &&& h2.color == h1.color
            &&& h2.left == h1.left->0.left
            &&& h2.right is Some
            &&& h2.right->0.color == Color::Red
            &&& h2.right->0.left == h1.left->0.right
            &&& h2.right->0.right == h1.right
        },
        !(red(h1.left) && red(h1.left->0.left)) ==> h2 == h1,
        red(h2.left) && red(h2.right) ==> {
            &&& h.color == other(h2.color)
            &&& h.left is Some && h.right is Some
            &&& h.left->0.color == other(h2.left->0.color)
            &&& h.left->0.left == h2.left->0.left
            &&& h.left->0.right == h2.left->0.right
            &&& h.right->0.color == other(h2.right->0.color)
            &&& h.right->0.left == h2.right->0.left
            &&& h.right->0.right == h2.right->0.right
        },
        !(red(h2.left) && red(h2.right)) ==> h == h2,
    ensures
        insert_shape(Some(h0), Some(h)),
{
    let (l, r) = (h0.left, h0.right);
    assert(llrb(r));
    if red(r) && !red(l) {
        let x0 = r->0;
        let lo = h1.left->0;
        assert(llrb(l));
        assert(llrb(x0.left) && llrb(x0.right) && !red(x0.left) && !red(x0.right));
        assert(black_height(r) == black_height(x0.left));
        assert(llrb(Some(lo)));
        assert(h2 == h1);
        assert(h == h2);
        assert(black_height(Some(h)) == black_height(Some(lo)) + if h0.color == Color::Black {
            1nat
        } else {
            0nat
        });
        assert(near_llrb(Some(h)));
        assert(insert_shape(Some(h0), Some(h)));
    } else if red(l) && red(l->0.left) {
        let l0 = l->0;
        let ll = l0.left->0;
        assert(!red(r));
        assert(h0.color == Color::Black);
        assert(h1 == h0);
        assert(llrb(l0.left) && llrb(l0.right) && !red(l0.right));
        let ro = h2.right->0;
        let (nl, nr) = (h.left->0, h.right->0);
        assert(llrb(ll.left) && llrb(ll.right));
        assert(llrb(Some(nl)));
        assert(black_height(l0.right) == black_height(r));
        assert(llrb(Some(nr)));
        assert(black_height(Some(nl)) == black_height(Some(nr)));
        assert(near_llrb(Some(h)));
        assert(insert_shape(Some(h0), Some(h)));
    } else if red(l) && red(r) {
        assert(h0.color == Color::Black);
        assert(h1 == h0 && h2 == h0);
        let (l0, r0) = (l->0, r->0);
        let (nl, nr) = (h.left->0, h.right->0);
        assert(llrb(l) && llrb(r));
        assert(llrb(l0.left) && llrb(l0.right) && llrb(r0.left) && llrb(r0.right));
        assert(llrb(Some(nl)));
        assert(llrb(Some(nr)));
        assert(near_llrb(Some(h)));
        assert(insert_shape(Some(h0), Some(h)));
    } else {
        assert(h1 == h0 && h2 == h0 && h == h0);
        if red(l) {
            assert(!red(l->0.left));
        }
        assert(llrb(l));
    }
}

/// The fix-up steps turn what deletion leaves at a node into the
/// left-leaning red-black shape, keeping the black links when the node is
/// black or its left link is not red, and changing nothing when the right
/// link is not red.
pub proof fn lemma_fixup_after_delete<V>(h0: Box<Node<V>>, h1: Box<Node<V>>, h2: Box<Node<V>>, h: Box<Node<V>>)
    requires
        ready_after_delete(*h0),
        red(h0.right) && !red(h0.left) ==> {
            &&& h1.color == h0.color
            &&& h1.right == h0.right->0.right
            &&& h1.left is Some
            &&& h1.left->0.color == Color::Red
            &&& h1.left->0.left == h0.left
            &&& h1.left->0.right == h0.right->0.left
        },
        !(red(h0.right) && !red(h0.left)) ==> h1 == h0,
        red(h1.left) && red(h1.left->0.left) ==> {
            &&& h2.color == h1.color
            &&& h2.left == h1.left->0.left
            &&& h2.right is Some
            &&& h2.right->0.color == Color::Red
            &&& h2.right->0.left == h1.left->0.right
            &&& h2.right->0.right == h1.right
        },
        !(red(h1.left) && red(h1.left->0.left)) ==> h2 == h1,
        red(h2.left) && red(h2.right) ==> {
            &&& h.color == other(h2.color)
            &&& h.left is Some && h.right is Some
            &&& h.left->0.color == other(h2.left->0.color)
            &&& h.left->0.left == h2.left->0.left
            &&& h.left->0.right == h2.left->0.right
            &&& h.right->0.color == other(h2.right->0.color)
            &&& h.right->0.left == h2.right->0.left
            &&& h.right->0.right == h2.right->0.right
        },
        !(red(h2.left) && red(h2.right)) ==> h == h2,
    ensures
        near_llrb(Some(h)),
        h0.color == Color::Black ==> llrb(Some(h)) && black_height(Some(h)) == black_height(Some(h0)),
        !red(h0.left) ==> black_height(Some(h)) == black_height(Some(h0)),
        !red(h0.right) ==> h == h0,
        h0.color == Color::Black && !red(h0.left) ==> h.color == Color::Black,
{
    let (l, r) = (h0.left, h0.right);
    if red(l) {
        assert(!red(l->0.left));
    }
    if red(r) {
        assert(!red(r->0.left) && !red(r->0.right));
    }
    if red(r) && !red(l) {
        let x0 = r->0;
        let lo = h1.left->0;
        assert(llrb(x0.left) && llrb(x0.right));
        assert(llrb(Some(lo)));
        assert(black_height(Some(lo)) == black_height(l));
        assert(h2 == h1);
        assert(h == h2);
        assert(black_height(Some(h)) == black_height(Some(lo)) + if h0.color == Color::Black {
            1nat
        } else {
            0nat
        });
        assert(black_height(Some(lo)) == black_height(x0.right));
        if h0.color == Color::Black {
            assert(llrb(Some(h)));
        }
    } else if red(l) && red(r) {
        assert(h1 == h0 && h2 == h0);
        let (l0, r0) = (l->0, r->0);
        let (nl, nr) = (h.left->0, h.right->0);
        assert(llrb(l0.left) && llrb(l0.right) && llrb(r0.left) && llrb(r0.right));
        assert(llrb(Some(nl)));
        assert(llrb(Some(nr)));
        assert(llrb(Some(h)));
    } else {
        assert(h1 == h0 && h2 == h0 && h == h0);
        if h0.color == Color::Black {
            assert(!red(r));
            assert(llrb(Some(h)));
        }
    }
}

/// After `remove` has taken `key` out on the right, what is left at the
/// node is ready for the fix-up, and the fix-up gives back the shape a
/// deletion promises.
proof fn lemma_remove_fixup<V>(h0: Box<Node<V>>, h1: Box<Node<V>>, h2: Box<Node<V>>, h3: Node<V>, key: u32)
    requires
        ready_after_delete(h3),
        h3.color == h2.color,
        h3.left == h2.left,
        black_height(h3.right) == black_height(h2.right),
        !red(h2.right) ==> !red(h3.right),
        right_lean(Some(h1)) || llrb(Some(h1)),
        remove_ready(Some(h0), key) ==> right_lean(Some(h1)) || h1.color == Color::Red,
        right_lean(Some(h1)) ==> h2 == h1,
        black_height(Some(h1)) == black_height(Some(h0)),
        h1.color == Color::Red ==> black_height(Some(h2)) == black_height(Some(h1)),
        h1.color == Color::Red && h2.color == Color::Red ==> !red(h2.left) && !red(h2.right),
        !right_lean(Some(h1)) && h2 == h1 ==> !red(h1.right),
        !right_lean(Some(h1)) ==> h1 == h0,
        !red(h1.left),
    ensures
        forall|r: Box<Node<V>>|
            ({
                &&& near_llrb(Some(r))
                &&& h3.color == Color::Black ==> llrb(Some(r)) && black_height(Some(r))
                    == black_height(Some(Box::new(h3)))
                &&& !red(h3.left) ==> black_height(Some(r)) == black_height(Some(Box::new(h3)))
                &&& !red(h3.right) ==> r == Box::new(h3)
                &&& h3.color == Color::Black && !red(h3.left) ==> r.color == Color::Black
            }) ==> near_llrb(Some(r)) && (remove_ready(Some(h0), key) ==> delete_shape(Some(h0), Some(r))),
{
    let b3 = Box::new(h3);
    assert(black_height(Some(b3)) == black_height(Some(h2)));
    assert forall|r: Box<Node<V>>|
        ({
            &&& near_llrb(Some(r))
            &&& h3.color == Color::Black ==> llrb(Some(r)) && black_height(Some(r))
                == black_height(Some(Box::new(h3)))
            &&& !red(h3.left) ==> black_height(Some(r)) == black_height(Some(Box::new(h3)))
            &&& !red(h3.right) ==> r == Box::new(h3)
            &&& h3.color == Color::Black && !red(h3.left) ==> r.color == Color::Black
        }) implies near_llrb(Some(r)) && (remove_ready(Some(h0), key) ==> delete_shape(Some(h0), Some(r))) by {
        if remove_ready(Some(h0), key) {
            if right_lean(Some(h1)) {
                assert(h3.color == Color::Black && !red(h3.left));
            } else {
                assert(h1.color == Color::Red);
                assert(h1 == h0);
                if h2.color == Color::Red {
                    assert(!red(h3.left) && !red(h3.right));
                    assert(r == b3);
                    assert(llrb(Some(b3)));
                }
            }
        }
    }
}

impl<V> Node<V> {
    /// A node without children.
    pub fn new(key: u32, value: V, color: Color) -> (r: Self)
        ensures
            r.key == key,
            r.value == value,
            r.color == color,
            r.left is None,
            r.right is None,
    {
        Node { color, key, value, left: None, right: None }
    }

    /// Whether a link is red; an absent link is black.
    pub fn is_red(link: &Option<Box<Node<V>>>) -> (r: bool)
        ensures
            r == red(*link),
    {
        match link {
            Some(n) => n.color.is_red(),
            None => false,
        }
    }

    /// The left link is red.
    pub fn has_red_left(&self) -> (r: bool)
        ensures
            r == red(self.left),
    {
        Self::is_red(&self.left)
    }

    /// The right link is red.
    pub fn has_red_right(&self) -> (r: bool)
        ensures
            r == red(self.right),
    {
        Self::is_red(&self.right)
    }

    /// The left link and the left link below it are both red.
    pub fn has_red_double_left(&self) -> (r: bool)
        ensures
            r == (red(self.left) && red(self.left->0.left)),
    {
        match &self.left {
            Some(l) => l.color.is_red() && l.has_red_left(),
            None => false,
        }
    }

    /// The right child's left link is red.
    pub fn has_red_right_left(&self) -> (r: bool)
        ensures
            r == (self.right is Some && red(self.right->0.left)),
    {
        match &self.right {
            Some(rt) => rt.has_red_left(),
            None => false,
        }
    }

    /// The left child's left link is red.
    pub fn has_red_left_left(&self) -> (r: bool)
        ensures
            r == (self.left is Some && red(self.left->0.left)),
    {
        match &self.left {
            Some(l) => l.has_red_left(),
            None => false,
        }
    }

    /// Turns a right-leaning link into a left-leaning one: the right child
    /// becomes the subtree root, takes over the old root's incoming colour,
    /// and the old root hangs below it on a red link.
    pub fn rot_left(h: Box<Node<V>>) -> (r: Box<Node<V>>)
        requires
            h.right is Some,
        ensures
            *r == rotated_left(*h),
            r.color == h.color,
            r.key == h.right->0.key,
            r.value == h.right->0.value,
            r.right == h.right->0.right,
            r.left is Some,
            r.left->0.color == Color::Red,
            r.left->0.key == h.key,
            r.left->0.value == h.value,
            r.left->0.left == h.left,
            r.left->0.right == h.right->0.left,
            ordered(Some(h)) ==> ordered(Some(r)),
            ordered(Some(h)) ==> tmap(Some(r)) == tmap(Some(h)),
            size(Some(r)) == size(Some(h)),
    {
        let ghost h0 = h;
        let mut h = h;
        let mut x = h.right.take().unwrap();
        h.right = x.left.take();
        x.color = h.color.replace(Color::Red);
        x.left = Some(h);
        proof {
            let x0 = h0.right->0;
            let lo = x.left->0;
            assert(tmap(Some(lo)) == tmap(h0.left).union_prefer_right(tmap(x0.left)).insert(
                h0.key,
                h0.value,
            ));
            assert(tmap(h0.right) == tmap(x0.left).union_prefer_right(tmap(x0.right)).insert(
                x0.key,
                x0.value,
            ));
            assert(size(Some(lo)) == size(h0.left) + size(x0.left) + 1);
            assert(size(h0.right) == size(x0.left) + size(x0.right) + 1);
            if ordered(Some(h0)) {
                assert(ordered(h0.right));
                assert forall|k: u32| tmap(x0.left).dom().contains(k) implies h0.key < k by {
                    assert(tmap(h0.right).dom().contains(k));
                }
                assert(ordered(Some(lo)));
                assert(tmap(h0.right).dom().contains(x0.key));
                assert(h0.key < x0.key);
                assert forall|k: u32| tmap(Some(lo)).dom().contains(k) implies k < x0.key by {
                    if tmap(h0.left).dom().contains(k) {
                        assert(k < h0.key);
                    } else if k != h0.key {
                        assert(tmap(x0.left).dom().contains(k));
                    }
                }
                assert forall|k: u32| tmap(x0.left).dom().contains(k) implies h0.key < k
                    && k < x0.key by {
                    assert(tmap(h0.right).dom().contains(k));
                }
                assert forall|k: u32| tmap(x0.right).dom().contains(k) implies x0.key < k by {}
                assert(tmap(h0.right).dom().contains(x0.key));
                lemma_regroup(
                    tmap(h0.left),
                    h0.key,
                    h0.value,
                    tmap(x0.left),
                    x0.key,
                    x0.value,
                    tmap(x0.right),
                );
            }
        }
        x
    }

    /// Mirror of [`Node::rot_left`].
    pub fn rot_right(h: Box<Node<V>>) -> (r: Box<Node<V>>)
        requires
            h.left is Some,
        ensures
            *r == rotated_right(*h),
            r.color == h.color,
            r.key == h.left->0.key,
            r.value == h.left->0.value,
            r.left == h.left->0.left,
            r.right is Some,
            r.right->0.color == Color::Red,
            r.right->0.key == h.key,
            r.right->0.value == h.value,
            r.right->0.right == h.right,
            r.right->0.left == h.left->0.right,
            ordered(Some(h)) ==> ordered(Some(r)),
            ordered(Some(h)) ==> tmap(Some(r)) == tmap(Some(h)),
            size(Some(r)) == size(Some(h)),
    {
        let ghost h0 = h;
        let mut h = h;
        let mut x = h.left.take().unwrap();
        h.left = x.right.take();
        x.color = h.color.replace(Color::Red);
        x.right = Some(h);
        proof {
            let x0 = h0.left->0;
            let ro = x.right->0;
            assert(tmap(Some(ro)) == tmap(x0.right).union_prefer_right(tmap(h0.right)).insert(
                h0.key,
                h0.value,
            ));
            assert(tmap(h0.left) == tmap(x0.left).union_prefer_right(tmap(x0.right)).insert(
                x0.key,
                x0.value,
            ));
            assert(size(Some(ro)) == size(h0.right) + size(x0.right) + 1);
            assert(size(h0.left) == size(x0.left) + size(x0.right) + 1);
            if ordered(Some(h0)) {
                assert(ordered(h0.left));
                assert forall|k: u32| tmap(x0.right).dom().contains(k) implies k < h0.key by {
                    assert(tmap(h0.left).dom().contains(k));
                }
                assert(ordered(Some(ro)));
                assert(tmap(h0.left).dom().contains(x0.key));
                assert(x0.key < h0.key);
                assert forall|k: u32| tmap(Some(ro)).dom().contains(k) implies x0.key < k by {
                    if tmap(h0.right).dom().contains(k) {
                        assert(h0.key < k);
                    } else if k != h0.key {
                        assert(tmap(x0.right).dom().contains(k));
                    }
                }
                assert forall|k: u32| tmap(x0.right).dom().contains(k) implies x0.key < k
                    && k < h0.key by {
                    assert(tmap(h0.left).dom().contains(k));
                }
                assert forall|k: u32| tmap(x0.left).dom().contains(k) implies k < x0.key by {}
                assert(tmap(h0.left).dom().contains(x0.key));
                lemma_regroup(
                    tmap(x0.left),
                    x0.key,
                    x0.value,
                    tmap(x0.right),
                    h0.key,
                    h0.value,
                    tmap(h0.right),
                );
            }
        }
        x
    }

    /// Inverts the colour of the node and of both its children: splits a
    /// 4-node upward, or merges two 2-nodes with their parent.
    pub fn flip_color(h: Box<Node<V>>) -> (r: Box<Node<V>>)
        ensures
            *r == flipped(*h),
            r.color == other(h.color),
            r.key == h.key,
            r.value == h.value,
            r.left is Some == h.left is Some,
            r.right is Some == h.right is Some,
            h.left is Some ==> {
                let (a, b) = (r.left->0, h.left->0);
                a.color == other(b.color) && a.key == b.key && a.value == b.value && a.left
                    == b.left && a.right == b.right
            },
            h.right is Some ==> {
                let (a, b) = (r.right->0, h.right->0);
                a.color == other(b.color) && a.key == b.key && a.value == b.value && a.left
                    == b.left && a.right == b.right
            },
            tmap(Some(r)) == tmap(Some(h)),
            ordered(Some(h)) ==> ordered(Some(r)),
            size(Some(r)) == size(Some(h)),
    {
        let ghost h0 = h;
        let mut h = h;
        h.color.rev();
        if let Some(mut l) = h.left.take() {
            l.color.rev();
            h.left = Some(l);
        }
        if let Some(mut rt) = h.right.take() {
            rt.color.rev();
            h.right = Some(rt);
        }
        proof {
            assert(tmap(h.left) == tmap(h0.left));
            assert(tmap(h.right) == tmap(h0.right));
            assert(size(h.left) == size(h0.left));
            assert(size(h.right) == size(h0.right));
            if ordered(Some(h0)) {
                assert(ordered(h0.left));
                assert(ordered(h0.right));
                assert(ordered(h.left));
                assert(ordered(h.right));
            }
        }
        h
    }

    /// Before descending left: pushes red down to the left child, borrowing
    /// from the right sibling when the flip leaves two red links in a row
    /// on the right.
    pub fn restruct_left(h: Box<Node<V>>) -> (r: Box<Node<V>>)
        ensures
            *r == borrowed_left(*h),
            h.left is Some ==> r.left is Some,
            size(Some(r)) == size(Some(h)),
            ordered(Some(h)) ==> h.key <= r.key,
            ordered(Some(h)) ==> ordered(Some(r)),
            ordered(Some(h)) ==> tmap(Some(r)) == tmap(Some(h)),
            borrow_left_ready(*h) ==> {
                &&& llrb(r.right)
                &&& delete_ready(r.left)
                &&& black_height(r.left) == black_height(r.right)
                &&& h.color == Color::Red ==> black_height(Some(r)) == black_height(Some(h)) && (
                r.color == Color::Red ==> !red(r.left) && !red(r.right))
            },
    {
        let ghost h0 = h;
        let mut h = Self::flip_color(h);
        let ghost hf = h;
        if h.has_red_right_left() {
            let ghost h1 = h;
            let rt = h.right.take().unwrap();
            h.right = Some(Self::rot_right(rt));
            proof {
                assert(size(h.right) == size(h1.right));
                if ordered(Some(h0)) {
                    assert(ordered(h1.right));
                    assert(tmap(h.right) == tmap(h1.right));
                    assert(ordered(Some(h)));
                    assert(tmap(h.right).dom().contains(h.right->0.key));
                }
            }
            let ghost h2 = h;
            h = Self::rot_left(h);
            let ghost h3 = h;
            h = Self::flip_color(h);
            proof {
                if borrow_left_ready(*h0) {
                    let (l0, r0) = (h0.left->0, h0.right->0);
                    assert(llrb(h0.left) && llrb(h0.right));
                    assert(llrb(l0.left) && llrb(l0.right) && !red(l0.right));
                    assert(llrb(r0.left) && llrb(r0.right) && !red(r0.right));
                    let rl = r0.left->0;
                    assert(llrb(rl.left) && llrb(rl.right) && !red(rl.left) && !red(rl.right));
                    let fl = hf.left->0;
                    assert(llrb(Some(fl)));
                    let nl = h.left->0;
                    assert(nl.left == hf.left);
                    assert(nl.right == rl.left);
                    assert(llrb(Some(nl)));
                    let nr = h.right->0;
                    assert(nr.left == rl.right);
                    assert(nr.right == r0.right);
                    assert(llrb(Some(nr)));
                    assert(delete_ready(h.left));
                    assert(black_height(h.left) == black_height(h.right));
                }
            }
        } else {
            proof {
                if borrow_left_ready(*h0) {
                    let (l0, r0) = (h0.left->0, h0.right->0);
                    assert(llrb(h0.left) && llrb(h0.right));
                    assert(llrb(l0.left) && llrb(l0.right));
                    assert(llrb(r0.left) && llrb(r0.right));
                    assert(h0.right is Some);
                    assert(llrb(h.left));
                    assert(llrb(h.right));
                    assert(delete_ready(h.left));
                    assert(black_height(h.left) == black_height(h.right));
                }
            }
        }
        h
    }

    /// Before descending right: the mirror borrow, from the left sibling.
    pub fn restruct_right(h: Box<Node<V>>) -> (r: Box<Node<V>>)
        ensures
            *r == borrowed_right(*h),
            h.right is Some ==> r.right is Some,
            size(Some(r)) == size(Some(h)),
            ordered(Some(h)) ==> r.key <= h.key,
            ordered(Some(h)) ==> ordered(Some(r)),
            ordered(Some(h)) ==> tmap(Some(r)) == tmap(Some(h)),
            borrow_right_ready(*h) ==> {
                &&& llrb(r.left)
                &&& delete_ready(r.right) || (right_lean(r.right) && r.right->0.key == h.key)
                &&& black_height(r.left) == black_height(r.right)
                &&& h.color == Color::Red ==> black_height(Some(r)) == black_height(Some(h)) && (
                r.color == Color::Red ==> !red(r.left) && right_lean(r.right) && r.right->0.key
                    == h.key)
            },
    {
        let ghost h0 = h;
        let mut h = Self::flip_color(h);
        let ghost hf = h;
        if h.has_red_left_left() {
            proof {
                if ordered(Some(h0)) {
                    assert(tmap(h.left).dom().contains(h.left->0.key));
                }
            }
            h = Self::rot_right(h);
            let ghost h2 = h;
            h = Self::flip_color(h);
            proof {
                if borrow_right_ready(*h0) {
                    let (l0, r0) = (h0.left->0, h0.right->0);
                    assert(llrb(h0.left) && llrb(h0.right));
                    assert(llrb(l0.left) && llrb(l0.right) && !red(l0.right));
                    assert(llrb(r0.left) && llrb(r0.right) && !red(r0.right));
                    let ll = l0.left->0;
                    assert(llrb(ll.left) && llrb(ll.right) && !red(ll.left) && !red(ll.right));
                    let nl = h.left->0;
                    assert(llrb(Some(nl)));
                    let nr = h.right->0;
                    assert(nr.left == l0.right);
                    assert(nr.right == hf.right);
                    let fr = hf.right->0;
                    assert(llrb(Some(fr)));
                    assert(right_lean(h.right));
                    assert(black_height(h.left) == black_height(h.right));
                }
            }
        } else {
            proof {
                if borrow_right_ready(*h0) {
                    let (l0, r0) = (h0.left->0, h0.right->0);
                    assert(h0.left is Some);
                    assert(llrb(h0.left) && llrb(h0.right));
                    assert(llrb(l0.left) && llrb(l0.right));
                    assert(llrb(r0.left) && llrb(r0.right));
                    assert(llrb(h.left));
                    assert(llrb(h.right));
                    assert(delete_ready(h.right));
                    assert(black_height(h.left) == black_height(h.right));
                }
            }
        }
        h
    }

    /// The fix-up run on the way back up: lean red links left, split a
    /// left-left red pair, then split a 4-node. The order matters.
    pub fn rebalance(h: Box<Node<V>>) -> (r: Box<Node<V>>)
        ensures
            *r == fixed_up(*h),
            !red(r.right),
            size(Some(r)) == size(Some(h)),
            ordered(Some(h)) ==> ordered(Some(r)),
            ordered(Some(h)) ==> tmap(Some(r)) == tmap(Some(h)),
            ready_for_fixup(*h) ==> insert_shape(Some(h), Some(r)),
            ready_after_delete(*h) ==> near_llrb(Some(r)),
            ready_after_delete(*h) && h.color == Color::Black ==> llrb(Some(r)) && black_height(
                Some(r),
            ) == black_height(Some(h)),
            ready_after_delete(*h) && !red(h.left) ==> black_height(Some(r)) == black_height(
                Some(h),
            ),
            ready_after_delete(*h) && !red(h.right) ==> r == h,
            ready_after_delete(*h) && h.color == Color::Black && !red(h.left) ==> r.color
                == Color::Black,
    {
        let ghost h0 = h;
        let mut h = h;
        if h.has_red_right() && !h.has_red_left() {
            h = Self::rot_left(h);
        }
        let ghost h1 = h;
        if h.has_red_double_left() {
            h = Self::rot_right(h);
        }
        let ghost h2 = h;
        if h.has_red_left() && h.has_red_right() {
            h = Self::flip_color(h);
        }
        proof {
            if ready_for_fixup(*h0) {
                lemma_fixup_shape(h0, h1, h2, h);
            }
            if ready_after_delete(*h0) {
                lemma_fixup_after_delete(h0, h1, h2, h);
            }
        }
        h
    }

    /// Adds or overwrites an entry below `h`, repairing on the way back up.
    /// Returns the new subtree root and the value the key held before.
    pub fn insert(h: Box<Node<V>>, key: u32, value: V) -> (r: (Box<Node<V>>, Option<V>))
        requires
            ordered(Some(h)),
        ensures
            *r.0 == inserted(*h, key, value),
            ordered(Some(r.0)),
            tmap(Some(r.0)) == tmap(Some(h)).insert(key, value),
            r.1 == (if tmap(Some(h)).dom().contains(key) {
                Some(tmap(Some(h))[key])
            } else {
                None
            }),
            llrb(Some(h)) ==> insert_shape(Some(h), Some(r.0)),
            !red(r.0.right),
        decreases h,
    {
        let ghost h0 = h;
        let mut h = h;
        let prev = if key == h.key {
            let mut v = value;
            std::mem::swap(&mut h.value, &mut v);
            Some(v)
        } else if key < h.key {
            match h.left.take() {
                Some(l) => {
                    let (nl, p) = Self::insert(l, key, value);
                    h.left = Some(nl);
                    p
                },
                None => {
                    h.left = Some(Box::new(Node::new(key, value, Color::Red)));
                    None
                },
            }
        } else {
            match h.right.take() {
                Some(rt) => {
                    let (nr, p) = Self::insert(rt, key, value);
                    h.right = Some(nr);
                    p
                },
                None => {
                    h.right = Some(Box::new(Node::new(key, value, Color::Red)));
                    None
                },
            }
        };
        proof {
            let (l0, r0) = (tmap(h0.left), tmap(h0.right));
            assert(tmap(h.left) == if key < h0.key { l0.insert(key, value) } else { l0 });
            assert(tmap(h.right) == if key > h0.key { r0.insert(key, value) } else { r0 });
            assert(ordered(h.left));
            assert(ordered(h.right));
            assert(!l0.dom().contains(h0.key));
            assert(!r0.dom().contains(h0.key));
            if key < h0.key {
                assert(!r0.dom().contains(key));
            }
            if key > h0.key {
                assert(!l0.dom().contains(key));
            }
            assert(ordered(Some(h)));
            assert(tmap(Some(h)) =~= tmap(Some(h0)).insert(key, value));
            if llrb(Some(h0)) {
                assert(llrb(h0.left) && llrb(h0.right));
                assert(h.color == h0.color);
                if key < h0.key {
                    assert(h.right == h0.right);
                    if h0.left is None {
                        assert(llrb(h.left));
                    } else {
                        assert(insert_shape(h0.left, h.left));
                    }
                    assert(near_llrb(h.left));
                } else if key > h0.key {
                    assert(h.left == h0.left);
                    if h0.right is None {
                        assert(llrb(h.right));
                    } else {
                        assert(insert_shape(h0.right, h.right));
                    }
                } else {
                    assert(h.left == h0.left && h.right == h0.right);
                }
                assert(ready_for_fixup(*h));
            }
        }
        (Self::rebalance(h), prev)
    }

    /// Detaches the entry with the smallest key below `h`. Returns what is
    /// left of the subtree and the detached node, which has no children.
    pub fn pop_min(h: Box<Node<V>>) -> (r: (Option<Box<Node<V>>>, Box<Node<V>>))
        requires
            ordered(Some(h)),
        ensures
            r.0 == popped_min(*h).0 && *r.1 == popped_min(*h).1,
            ordered(r.0),
            r.1.left is None,
            r.1.right is None,
            tmap(Some(h)).dom().contains(r.1.key),
            tmap(Some(h))[r.1.key] == r.1.value,
            forall|k: u32| tmap(Some(h)).dom().contains(k) ==> r.1.key <= k,
            tmap(r.0) == tmap(Some(h)).remove(r.1.key),
            size(r.0) + 1 == size(Some(h)),
            llrb(Some(h)) ==> near_llrb(r.0),
            delete_ready(Some(h)) ==> delete_shape(Some(h), r.0),
        decreases size(Some(h)),
    {
        let ghost h0 = h;
        let mut h = h;
        if h.left.is_none() {
            let rest = h.right.take();
            proof {
                assert(size(Some(h0)) == size(h0.left) + size(h0.right) + 1);
                assert(size(h0.left) == 0);
                assert(tmap(h0.left) == Map::<u32, V>::empty());
                assert(ordered(rest));
                assert(!tmap(rest).dom().contains(h0.key));
                assert(tmap(rest) =~= tmap(Some(h0)).remove(h0.key));
                if llrb(Some(h0)) {
                    assert(llrb(h0.right) && black_height(h0.right) == 0 && !red(h0.right));
                    assert(rest is None);
                }
            }
            (rest, h)
        } else {
            let need = match &h.left {
                Some(l) => !(h.has_red_left() || l.has_red_left()),
                None => false,
            };
            if need {
                h = Self::restruct_left(h);
            }
            let ghost h1 = h;
            proof {
                assert(size(Some(h1)) == size(h1.left) + size(h1.right) + 1);
            }
            let l = h.left.take().unwrap();
            proof {
                if llrb(Some(h0)) {
                    assert(llrb(h0.left) && llrb(h0.right));
                    if need {
                        assert(borrow_left_ready(*h0));
                    } else {
                        assert(h1 == h0);
                    }
                    assert(delete_ready(Some(l)));
                }
            }
            let (nl, m) = Self::pop_min(l);
            h.left = nl;
            proof {
                lemma_reshape_size(*h0);
                assert(h1.left is Some);
                assert(size(h1.left) < size(Some(h0)));
                if llrb(Some(h0)) {
                    assert(llrb(h1.right));
                    assert(black_height(h1.left) == black_height(h1.right));
                    assert(ready_after_delete(*h));
                    if delete_ready(Some(h0)) {
                        if !need {
                            assert(h1 == h0);
                            assert(black_height(Some(h)) == black_height(Some(h0)));
                            if h0.color == Color::Red {
                                assert(!red(h0.left));
                                assert(!red(nl));
                                assert(llrb(Some(h)));
                            }
                        } else {
                            assert(h0.color == Color::Red);
                            assert(black_height(Some(h)) == black_height(Some(h1)));
                            if h1.color == Color::Red {
                                assert(!red(h1.left));
                                assert(!red(nl));
                                assert(llrb(Some(h)));
                            }
                        }
                    }
                }
                assert(size(Some(h)) == size(nl) + size(h1.right) + 1);
                let (l1, r1) = (tmap(h1.left), tmap(h1.right));
                assert(tmap(Some(h1)) == l1.union_prefer_right(r1).insert(h1.key, h1.value));
                assert(ordered(h1.left) && ordered(h1.right));
                assert(!r1.dom().contains(m.key));
                assert(m.key != h1.key);
                assert forall|k: u32| tmap(Some(h1)).dom().contains(k) implies m.key <= k by {
                    if r1.dom().contains(k) {
                        assert(h1.key < k);
                    }
                }
                assert(ordered(Some(h)));
                assert(tmap(Some(h)) =~= tmap(Some(h1)).remove(m.key));
            }
            (Some(Self::rebalance(h)), m)
        }
    }

    /// Detaches the node holding `key` below `h`, if there is one. Returns
    /// what is left of the subtree and the detached node.
    pub fn remove(h: Box<Node<V>>, key: u32) -> (r: (Option<Box<Node<V>>>, Option<Box<Node<V>>>))
        requires
            ordered(Some(h)),
        ensures
            r.0 == removed(*h, key).0 && r.1 == removed(*h, key).1,
            ordered(r.0),
            tmap(r.0) == tmap(Some(h)).remove(key),
            r.1 is Some == tmap(Some(h)).dom().contains(key),
            r.1 is Some ==> r.1->0.key == key && r.1->0.value == tmap(Some(h))[key],
            llrb(Some(h)) && tmap(Some(h)).dom().contains(key) ==> near_llrb(r.0),
            remove_ready(Some(h), key) && tmap(Some(h)).dom().contains(key) ==> delete_shape(
                Some(h),
                r.0,
            ),
        decreases size(Some(h)), 1nat,
    {
        if key < h.key {
            Self::remove_left(h, key)
        } else {
            Self::remove_right(h, key)
        }
    }

    /// [`Node::remove`] for a key left of the node.
    #[verifier::rlimit(60)]
    fn remove_left(h: Box<Node<V>>, key: u32) -> (r: (Option<Box<Node<V>>>, Option<Box<Node<V>>>))
        requires
            ordered(Some(h)),
            key < h.key,
        ensures
            r.0 == removed(*h, key).0 && r.1 == removed(*h, key).1,
            ordered(r.0),
            tmap(r.0) == tmap(Some(h)).remove(key),
            r.1 is Some == tmap(Some(h)).dom().contains(key),
            r.1 is Some ==> r.1->0.key == key && r.1->0.value == tmap(Some(h))[key],
            llrb(Some(h)) && tmap(Some(h)).dom().contains(key) ==> near_llrb(r.0),
            remove_ready(Some(h), key) && tmap(Some(h)).dom().contains(key) ==> delete_shape(
                Some(h),
                r.0,
            ),
        decreases size(Some(h)), 0nat,
    {
        let ghost h0 = h;
        let ghost present = tmap(Some(h0)).dom().contains(key);
        let ghost shaped = (llrb(Some(h0)) || remove_ready(Some(h0), key)) && present;
        let mut h = h;
        proof {
            lemma_reshape_size(*h0);
            lemma_reshape_size(rotated_right(*h0));
            lemma_reshape_size(*h0);
            assert(tmap(Some(h0)) == tmap(h0.left).union_prefer_right(tmap(h0.right)).insert(
                h0.key,
                h0.value,
            ));
            assert(ordered(h0.left) && ordered(h0.right));
            if shaped {
                assert(llrb(h0.left) && llrb(h0.right));
            }
        }
        let need = !(h.has_red_left() || h.has_red_left_left());
        if need {
            h = Self::restruct_left(h);
        }
        let ghost h1 = h;
        proof {
            assert(size(Some(h1)) == size(h1.left) + size(h1.right) + 1);
            if shaped {
                assert(!right_lean(Some(h0)) || !(h0.key <= key));
                assert(llrb(Some(h0)));
                assert(tmap(h0.left).dom().contains(key));
                if need {
                    assert(borrow_left_ready(*h0));
                } else {
                    assert(h1 == h0);
                }
                assert(delete_ready(h1.left));
                let (l1, r1) = (tmap(h1.left), tmap(h1.right));
                assert(tmap(Some(h1)) == l1.union_prefer_right(r1).insert(h1.key, h1.value));
                assert(ordered(h1.right));
                assert(!r1.dom().contains(key));
                assert(l1.dom().contains(key));
            }
        }
        let removal = match h.left.take() {
            Some(l) => {
                let (nl, rm) = Self::remove(l, key);
                h.left = nl;
                rm
            },
            None => None,
        };
        proof {
            let (l1, r1) = (tmap(h1.left), tmap(h1.right));
            assert(tmap(Some(h1)) == l1.union_prefer_right(r1).insert(h1.key, h1.value));
            assert(ordered(h1.left) && ordered(h1.right));
            assert(!r1.dom().contains(key));
            assert(ordered(Some(h)));
            assert(tmap(Some(h)) =~= tmap(Some(h1)).remove(key));
            if shaped {
                assert(llrb(h1.right));
                assert(black_height(h1.left) == black_height(h1.right));
                assert(ready_after_delete(*h));
                if remove_ready(Some(h0), key) {
                    assert(delete_ready(Some(h0)));
                    if !need {
                        assert(black_height(Some(h)) == black_height(Some(h0)));
                        if h0.color == Color::Red {
                            assert(!red(h0.left));
                            assert(llrb(Some(h)));
                        }
                    } else {
                        assert(h0.color == Color::Red);
                        assert(black_height(Some(h)) == black_height(Some(h1)));
                        if h1.color == Color::Red {
                            assert(!red(h1.left));
                            assert(llrb(Some(h)));
                        }
                    }
                }
            }
        }
        (Some(Self::rebalance(h)), removal)
    }

    /// [`Node::remove`] for a key at or right of the node.
    #[verifier::rlimit(100)]
    #[verifier::spinoff_prover]
    fn remove_right(h: Box<Node<V>>, key: u32) -> (r: (Option<Box<Node<V>>>, Option<Box<Node<V>>>))
        requires
            ordered(Some(h)),
            key >= h.key,
        ensures
            r.0 == removed(*h, key).0 && r.1 == removed(*h, key).1,
            ordered(r.0),
            tmap(r.0) == tmap(Some(h)).remove(key),
            r.1 is Some == tmap(Some(h)).dom().contains(key),
            r.1 is Some ==> r.1->0.key == key && r.1->0.value == tmap(Some(h))[key],
            llrb(Some(h)) && tmap(Some(h)).dom().contains(key) ==> near_llrb(r.0),
            remove_ready(Some(h), key) && tmap(Some(h)).dom().contains(key) ==> delete_shape(
                Some(h),
                r.0,
            ),
        decreases size(Some(h)), 0nat,
    {
        let ghost h0 = h;
        let ghost present = tmap(Some(h0)).dom().contains(key);
        let ghost shaped = (llrb(Some(h0)) || remove_ready(Some(h0), key)) && present;
        let mut h = h;
        proof {
            lemma_reshape_size(*h0);
            lemma_reshape_size(rotated_right(*h0));
            lemma_reshape_size(*h0);
            assert(tmap(Some(h0)) == tmap(h0.left).union_prefer_right(tmap(h0.right)).insert(
                h0.key,
                h0.value,
            ));
            assert(ordered(h0.left) && ordered(h0.right));
            if shaped {
                assert(llrb(h0.left) && llrb(h0.right));
            }
        }
        if h.has_red_left() {
            h = Self::rot_right(h);
            proof {
                assert(tmap(h0.left).dom().contains(h0.left->0.key));
            }
        }
        let ghost h1 = h;
        proof {
            let (l1, r1) = (tmap(h1.left), tmap(h1.right));
            assert(tmap(Some(h1)) == l1.union_prefer_right(r1).insert(h1.key, h1.value));
            assert(ordered(h1.left) && ordered(h1.right));
            assert(!l1.dom().contains(key));
            if shaped {
                if red(h0.left) {
                    assert(h0.color == Color::Black);
                    let l0 = h0.left->0;
                    assert(llrb(l0.left) && llrb(l0.right) && !red(l0.left) && !red(l0.right));
                    let ro = h1.right->0;
                    assert(llrb(Some(ro)));
                    assert(right_lean(Some(h1)));
                    assert(black_height(Some(h1)) == black_height(Some(h0)));
                    assert(tmap(h0.left).dom().contains(h1.key));
                } else {
                    assert(h1 == h0);
                }
                assert(llrb(h1.left) && llrb(h1.right) && !red(h1.left));
                assert(black_height(h1.left) == black_height(h1.right));
                assert(right_lean(Some(h1)) || llrb(Some(h1)));
                assert(remove_ready(Some(h0), key) ==> right_lean(Some(h1)) || h1.color == Color::Red);
            }
        }
        if key == h.key && h.right.is_none() {
            let rest = h.left.take();
            proof {
                assert(tmap(h1.right) == Map::<u32, V>::empty());
                assert(tmap(rest) =~= tmap(Some(h1)).remove(key));
                if shaped {
                    assert(!right_lean(Some(h1)));
                    assert(black_height(h1.right) == 0);
                    assert(rest is None);
                }
            }
            return (rest, Some(h));
        }
        let need2 = !(h.has_red_right() || h.has_red_right_left());
        if need2 {
            h = Self::restruct_right(h);
        }
        let ghost h2 = h;
        proof {
            if shaped {
                if need2 {
                    assert(h1.right is Some) by {
                        if key != h1.key {
                            assert(tmap(h1.right).dom().contains(key));
                        }
                    }
                    assert(borrow_right_ready(*h1));
                } else {
                    assert(h2 == h1);
                    if !red(h1.right) {
                        assert(delete_ready(h1.right));
                    } else {
                        assert(llrb(h1.right));
                    }
                }
                assert(llrb(h2.left));
                assert(black_height(h2.left) == black_height(h2.right));
                assert(delete_ready(h2.right) || (right_lean(h2.right) && h2.right->0.key
                    == h1.key));
            }
        }
        proof {
            assert(size(Some(h2)) == size(h2.left) + size(h2.right) + 1);
            let (l2, r2) = (tmap(h2.left), tmap(h2.right));
            assert(tmap(Some(h2)) == l2.union_prefer_right(r2).insert(h2.key, h2.value));
            assert(ordered(h2.left) && ordered(h2.right));
            assert(!l2.dom().contains(key));
        }
        if key == h.key {
            proof {
                if shaped {
                    if right_lean(h2.right) && h2.right->0.key == h1.key {
                        assert(tmap(h2.right).dom().contains(h2.right->0.key));
                    }
                    assert(delete_ready(h2.right));
                }
            }
            let rt = h.right.take().unwrap();
            let (nr, mut m) = Self::pop_min(rt);
            h.right = nr;
            let ghost m0 = m;
            Self::swap_successor(&mut h, &mut m);
            proof {
                let (l2, r2) = (tmap(h2.left), tmap(h2.right));
                assert(!r2.dom().contains(key));
                assert(r2.dom().contains(m0.key));
                assert(key < m0.key);
                assert forall|k: u32| l2.dom().contains(k) implies k < m0.key by {}
                assert forall|k: u32| tmap(nr).dom().contains(k) implies m0.key < k by {
                    assert(r2.dom().contains(k));
                }
                assert(ordered(Some(h)));
                assert(tmap(Some(h)) =~= tmap(Some(h2)).remove(key));
                if shaped {
                    assert(ready_after_delete(*h));
                    lemma_remove_fixup(h0, h1, h2, *h, key);
                }
            }
            (Some(Self::rebalance(h)), Some(m))
        } else {
            proof {
                if shaped {
                    assert(h2.key < key);
                    assert(tmap(h2.right).dom().contains(key));
                    assert(remove_ready(h2.right, key));
                }
            }
            let removal = match h.right.take() {
                Some(rt) => {
                    let (nr, rm) = Self::remove(rt, key);
                    h.right = nr;
                    rm
                },
                None => None,
            };
            proof {
                let (l2, r2) = (tmap(h2.left), tmap(h2.right));
                assert(ordered(Some(h)));
                assert(tmap(Some(h)) =~= tmap(Some(h2)).remove(key));
                if shaped {
                    assert(ready_after_delete(*h));
                    lemma_remove_fixup(h0, h1, h2, *h, key);
                }
            }
            (Some(Self::rebalance(h)), removal)
        }
    }

    /// Looks a key up below this node.
    pub fn get_node(&self, key: u32) -> (r: Option<&V>)
        requires
            ordered(Some(Box::new(*self))),
        ensures
            r == (if tmap(Some(Box::new(*self))).dom().contains(key) {
                Some(&tmap(Some(Box::new(*self)))[key])
            } else {
                None
            }),
        decreases self,
    {
        proof {
            let t = Some(Box::new(*self));
            assert(tmap(t) == tmap(self.left).union_prefer_right(tmap(self.right)).insert(
                self.key,
                self.value,
            ));
            assert(ordered(self.left) && ordered(self.right));
        }
        if key == self.key {
            Some(&self.value)
        } else if key < self.key {
            proof {
                assert(!tmap(self.right).dom().contains(key));
            }
            match &self.left {
                Some(l) => l.get_node(key),
                None => None,
            }
        } else {
            proof {
                assert(!tmap(self.left).dom().contains(key));
            }
            match &self.right {
                Some(rt) => rt.get_node(key),
                None => None,
            }
        }
    }

    /// Number of links on the longest downward path from this node; zero
    /// for a leaf.
    pub fn height(&self) -> (r: usize)
        requires
            size(Some(Box::new(*self))) <= usize::MAX,
        ensures
            r + 1 == height(Some(Box::new(*self))),
        decreases self,
    {
        proof {
            lemma_height_at_most_size(self.left);
            lemma_height_at_most_size(self.right);
        }
        let hl: usize = match &self.left {
            Some(l) => l.height() + 1,
            None => 0,
        };
        let hr: usize = match &self.right {
            Some(rt) => rt.height() + 1,
            None => 0,
        };
        if hl >= hr {
            hl
        } else {
            hr
        }
    }

    /// Appends the entries of this subtree, node first, then the left and
    /// the right subtree.
    pub fn preorder<'a>(&'a self, out: &mut Vec<(u32, &'a V)>)
        ensures
            owned_entries(final(out)@) == owned_entries(old(out)@) + preorder_seq(
                Some(Box::new(*self)),
            ),
        decreases self,
    {
        let ghost o0 = out@;
        out.push((self.key, &self.value));
        proof {
            assert(owned_entries(out@) =~= owned_entries(o0) + seq![(self.key, self.value)]);
        }
        let ghost o1 = out@;
        if let Some(l) = &self.left {
            l.preorder(out);
        }
        let ghost o2 = out@;
        proof {
            assert(owned_entries(o2) =~= owned_entries(o1) + preorder_seq(self.left));
        }
        if let Some(rt) = &self.right {
            rt.preorder(out);
        }
        proof {
            assert(owned_entries(out@) =~= owned_entries(o2) + preorder_seq(self.right));
            assert(owned_entries(out@) =~= owned_entries(o0) + preorder_seq(
                Some(Box::new(*self)),
            ));
        }
    }

    /// Appends the entries of this subtree in key order.
    pub fn inorder<'a>(&'a self, out: &mut Vec<(u32, &'a V)>)
        ensures
            owned_entries(final(out)@) == owned_entries(old(out)@) + inorder_seq(
                Some(Box::new(*self)),
            ),
        decreases self,
    {
        let ghost o0 = out@;
        if let Some(l) = &self.left {
            l.inorder(out);
        }
        let ghost o1 = out@;
        proof {
            assert(owned_entries(o1) =~= owned_entries(o0) + inorder_seq(self.left));
        }
        out.push((self.key, &self.value));
        let ghost o2 = out@;
        proof {
            assert(owned_entries(o2) =~= owned_entries(o1).push((self.key, self.value)));
        }
        if let Some(rt) = &self.right {
            rt.inorder(out);
        }
        proof {
            assert(owned_entries(out@) =~= owned_entries(o2) + inorder_seq(self.right));
            assert(owned_entries(out@) =~= owned_entries(o0) + inorder_seq(
                Some(Box::new(*self)),
            ));
        }
    }

    /// Exchanges the entry of `node` with that of its in-order successor,
    /// which has just been detached; links and colours stay where they are.
    pub fn swap_successor(node: &mut Box<Node<V>>, successor: &mut Box<Node<V>>)
        ensures
            final(node).key == old(successor).key,
            final(node).value == old(successor).value,
            final(successor).key == old(node).key,
            final(successor).value == old(node).value,
            final(node).color == old(node).color,
            final(node).left == old(node).left,
            final(node).right == old(node).right,
            final(successor).color == old(successor).color,
            final(successor).left == old(successor).left,
            final(successor).right == old(successor).right,
    {
        std::mem::swap(&mut node.key, &mut successor.key);
        std::mem::swap(&mut node.value, &mut successor.value);
    }

    /// Makes the incoming link black, as the root link always is.
    pub fn blacken(&mut self)
        ensures
            final(self).color == Color::Black,
            final(self).key == old(self).key,
            final(self).value == old(self).value,
            final(self).left == old(self).left,
            final(self).right == old(self).right,
    {
        self.color = Color::Black;
    }

    /// Destroys a detached node and keeps its value.
    pub fn into_value(node: Box<Node<V>>) -> (r: V)
        ensures
            r == node.value,
    {
        node.value
    }
}

/// The key of `m` that no other key of `m` is below.
pub open spec fn is_min_key<V>(m: Map<u32, V>, k: u32) -> bool {
    &&& m.dom().contains(k)
    &&& forall|j: u32| m.dom().contains(j) ==> k <= j
}

/// Entries taken from a map by one preorder walk, handed out in that order.
pub struct PreorderIter<'a, V> {
    entries: Vec<(u32, &'a V)>,
    pos: usize,
}

/// Entries taken from a map by one in-order walk, handed out in key order.
pub struct InorderIter<'a, V> {
    entries: Vec<(u32, &'a V)>,
    pos: usize,
}

impl<'a, V> PreorderIter<'a, V> {
    /// The entries not handed out yet.
    pub closed spec fn remaining(&self) -> Seq<(u32, V)> {
        if self.pos <= self.entries.len() {
            owned_entries(self.entries@).skip(self.pos as int)
        } else {
            Seq::empty()
        }
    }

    /// Hands out the next entry, if any is left.
    pub fn next(&mut self) -> (r: Option<(u32, &'a V)>)
        ensures
            old(self).remaining().len() == 0 ==> r is None && final(self).remaining() == old(
                self,
            ).remaining(),
            old(self).remaining().len() > 0 ==> r is Some && (r.unwrap().0, *r.unwrap().1)
                == old(self).remaining()[0] && final(self).remaining() == old(
                self,
            ).remaining().drop_first(),
    {
        if self.pos < self.entries.len() {
            let e = self.entries[self.pos];
            self.pos = self.pos + 1;
            proof {
                assert(final(self).remaining() =~= old(self).remaining().drop_first());
            }
            Some(e)
        } else {
            None
        }
    }

    /// All the entries not handed out yet, in order.
    pub fn collect_vec(self) -> (r: Vec<(u32, &'a V)>)
        ensures
            owned_entries(r@) == self.remaining(),
    {
        let mut out: Vec<(u32, &'a V)> = Vec::new();
        let mut i = self.pos;
        while i < self.entries.len()
            invariant
                self.pos <= i <= self.entries.len() || (i == self.pos && self.pos
                    > self.entries.len()),
                owned_entries(out@) == owned_entries(self.entries@).subrange(
                    self.pos as int,
                    i as int,
                ) || self.pos > self.entries.len(),
                self.pos > self.entries.len() ==> out@.len() == 0,
            decreases self.entries.len() - i,
        {
            out.push(self.entries[i]);
            i = i + 1;
            proof {
                assert(owned_entries(out@) =~= owned_entries(self.entries@).subrange(
                    self.pos as int,
                    i as int,
                ));
            }
        }
        proof {
            if self.pos <= self.entries.len() {
                assert(owned_entries(out@) =~= self.remaining());
            } else {
                assert(owned_entries(out@) =~= self.remaining());
            }
        }
        out
    }
}
impl<'a, V> InorderIter<'a, V> {
    /// The entries not handed out yet.
    pub closed spec fn remaining(&self) -> Seq<(u32, V)> {
        if self.pos <= self.entries.len() {
            owned_entries(self.entries@).skip(self.pos as int)
        } else {
            Seq::empty()
        }
    }

    /// Hands out the next entry, if any is left.
    pub fn next(&mut self) -> (r: Option<(u32, &'a V)>)
        ensures
            old(self).remaining().len() == 0 ==> r is None && final(self).remaining() == old(
                self,
            ).remaining(),
            old(self).remaining().len() > 0 ==> r is Some && (r.unwrap().0, *r.unwrap().1)
                == old(self).remaining()[0] && final(self).remaining() == old(
                self,
            ).remaining().drop_first(),
    {
        if self.pos < self.entries.len() {
            let e = self.entries[self.pos];
            self.pos = self.pos + 1;
            proof {
                assert(final(self).remaining() =~= old(self).remaining().drop_first());
            }
            Some(e)
        } else {
            None
        }
    }

    /// All the entries not handed out yet, in order.
    pub fn collect_vec(self) -> (r: Vec<(u32, &'a V)>)
        ensures
            owned_entries(r@) == self.remaining(),
    {
        let mut out: Vec<(u32, &'a V)> = Vec::new();
        let mut i = self.pos;
        while i < self.entries.len()
            invariant
                self.pos <= i <= self.entries.len() || (i == self.pos && self.pos
                    > self.entries.len()),
                owned_entries(out@) == owned_entries(self.entries@).subrange(
                    self.pos as int,
                    i as int,
                ) || self.pos > self.entries.len(),
                self.pos > self.entries.len() ==> out@.len() == 0,
            decreases self.entries.len() - i,
        {
            out.push(self.entries[i]);
            i = i + 1;
            proof {
                assert(owned_entries(out@) =~= owned_entries(self.entries@).subrange(
                    self.pos as int,
                    i as int,
                ));
            }
        }
        proof {
            if self.pos <= self.entries.len() {
                assert(owned_entries(out@) =~= self.remaining());
            } else {
                assert(owned_entries(out@) =~= self.remaining());
            }
        }
        out
    }
}

/// An ordered map from `u32` keys, kept as a left-leaning red-black tree.
pub struct RBTreeMap<V> {
    root: Option<Box<Node<V>>>,
    len: usize,
}

impl<T> View for RBTreeMap<T> {
    type V = Map<u32, T>;

    closed spec fn view(&self) -> Map<u32, T> {
        tmap(self.root)
    }
}

impl<V> RBTreeMap<V> {
    /// Search order holds, the count is the number of nodes, the root
    /// link is black, and the tree has the left-leaning red-black shape.
    pub closed spec fn wf(&self) -> bool {
        &&& ordered(self.root)
        &&& self.len == size(self.root)
        &&& self.root is Some ==> self.root->0.color == Color::Black
        &&& llrb(self.root)
    }

    /// Every path from the root to an absent link crosses the same number
    /// of black links.
    pub open spec fn paths_black_balanced(&self) -> bool {
        black_balanced(self.tree())
    }

    /// The tree itself.
    pub closed spec fn tree(&self) -> Option<Box<Node<V>>> {
        self.root
    }

    /// Number of links on the longest path from the root down.
    pub open spec fn tree_height(&self) -> int {
        height(self.tree()) - 1
    }

    /// The entries, each node before its left and then its right subtree.
    pub open spec fn preorder_entries(&self) -> Seq<(u32, V)> {
        preorder_seq(self.tree())
    }

    /// The entries in key order.
    pub open spec fn inorder_entries(&self) -> Seq<(u32, V)> {
        inorder_seq(self.tree())
    }

    /// An empty map.
    pub fn new() -> (r: Self)
        ensures
            r.wf(),
            r@ == Map::<u32, V>::empty(),
            r.tree() is None,
    {
        RBTreeMap { root: None, len: 0 }
    }

    /// Number of distinct keys.
    pub fn len(&self) -> (r: usize)
        requires
            self.wf(),
        ensures
            self@.dom().finite(),
            r == self@.len(),
    {
        proof {
            lemma_size_is_key_count(self.root);
        }
        self.len
    }

    /// Adds or overwrites the entry for `key`; returns the value it held
    /// before, if any.
    pub fn insert(&mut self, key: u32, value: V) -> (r: Option<V>)
        requires
            old(self).wf(),
            old(self)@.len() < usize::MAX,
        ensures
            final(self).tree() == tree_after_insert(old(self).tree(), key, value),
            final(self).wf(),
            final(self)@ == old(self)@.insert(key, value),
            r == (if old(self)@.contains_key(key) {
                Some(old(self)@[key])
            } else {
                None
            }),
    {
        proof {
            lemma_size_is_key_count(self.root);
        }
        match self.root.take() {
            None => {
                self.root = Some(Box::new(Node::new(key, value, Color::Black)));
                self.len = 1;
                proof {
                    assert(llrb(self.root->0.left) && llrb(self.root->0.right));
                    assert(tmap(self.root) =~= Map::<u32, V>::empty().insert(key, value));
                }
                None
            },
            Some(root) => {
                let ghost r0 = Some(root);
                let (mut nr, prev) = Node::insert(root, key, value);
                let ghost r1 = Some(nr);
                nr.blacken();
                self.root = Some(nr);
                proof {
                    assert(tmap(self.root) == tmap(r1));
                    assert(ordered(self.root));
                    if llrb(r0) {
                        assert(!red(r0));
                        assert(llrb(r1));
                        assert(llrb(r1->0.left) && llrb(r1->0.right));
                        assert(llrb(self.root));
                    }
                    lemma_size_is_key_count(r0);
                    lemma_size_is_key_count(self.root);
                    assert(tmap(self.root).dom() =~= tmap(r0).dom().insert(key));
                }
                if prev.is_none() {
                    self.len = self.len + 1;
                }
                prev
            },
        }
    }

    /// Removes the entry with the smallest key and returns its value;
    /// `None` exactly when the map is empty.
    pub fn pop_min(&mut self) -> (r: Option<V>)
        requires
            old(self).wf(),
        ensures
            final(self).tree() == tree_after_pop_min(old(self).tree()),
            final(self).wf(),
            r is None <==> old(self)@ == Map::<u32, V>::empty(),
            r is None ==> final(self)@ == old(self)@,
            r is Some ==> exists|k: u32|
                is_min_key(old(self)@, k) && r == Some(old(self)@[k]) && final(self)@ == old(
                    self,
                )@.remove(k),
    {
        let ghost before = self@;
        match self.root.take() {
            None => None,
            Some(root) => {
                let ghost r0 = Some(root);
                proof {
                    assert(tmap(r0).dom().contains(root.key));
                }
                let (rest, m) = Node::pop_min(root);
                self.root = rest;
                if let Some(mut nr) = self.root.take() {
                    let ghost r1 = Some(nr);
                    nr.blacken();
                    self.root = Some(nr);
                    proof {
                        assert(tmap(self.root) == tmap(r1));
                        assert(ordered(self.root));
                        if llrb(r0) {
                            assert(near_llrb(r1));
                            assert(llrb(self.root));
                        }
                    }
                }
                self.len = self.len - 1;
                let ghost mk = m.key;
                let v = Node::into_value(m);
                proof {
                    assert(tmap(self.root) == tmap(r0).remove(mk));
                    assert(is_min_key(tmap(r0), mk));
                    assert(v == tmap(r0)[mk]);
                    assert(before == tmap(r0));
                    assert(is_min_key(before, mk) && Some(v) == Some(before[mk]) && self@
                        == before.remove(mk));
                }
                Some(v)
            },
        }
    }

    /// Removes the entry for `key`; returns its value, or `None` when the
    /// key is absent, in which case the tree is left exactly as it was.
    pub fn remove(&mut self, key: &u32) -> (r: Option<V>)
        requires
            old(self).wf(),
        ensures
            final(self).tree() == tree_after_remove(old(self).tree(), *key),
            final(self).wf(),
            final(self)@ == old(self)@.remove(*key),
            r == (if old(self)@.contains_key(*key) {
                Some(old(self)@[*key])
            } else {
                None
            }),
            !old(self)@.contains_key(*key) ==> *final(self) == *old(self),
    {
        let present = match &self.root {
            None => false,
            Some(root) => root.get_node(*key).is_some(),
        };
        if !present {
            proof {
                assert(self@.remove(*key) =~= self@);
            }
            return None;
        }
        match self.root.take() {
            None => {
                proof {
                    assert(tmap(self.root) =~= tmap(self.root).remove(*key));
                }
                None
            },
            Some(root) => {
                let ghost r0 = Some(root);
                proof {
                    assert(tmap(r0).dom().contains(*key));
                }
                let (rest, removal) = Node::remove(root, *key);
                self.root = rest;
                if let Some(mut nr) = self.root.take() {
                    let ghost r1 = Some(nr);
                    nr.blacken();
                    self.root = Some(nr);
                    proof {
                        assert(tmap(self.root) == tmap(r1));
                        assert(ordered(self.root));
                        if llrb(r0) {
                            assert(near_llrb(r1));
                            assert(llrb(self.root));
                        }
                    }
                }
                proof {
                    lemma_size_is_key_count(r0);
                    lemma_size_is_key_count(self.root);
                }
                match removal {
                    Some(node) => {
                        self.len = self.len - 1;
                        Some(Node::into_value(node))
                    },
                    None => {
                        proof {
                            assert(tmap(r0).remove(*key) =~= tmap(r0));
                        }
                        None
                    },
                }
            },
        }
    }

    /// The value stored for `key`, if any.
    pub fn get(&self, key: &u32) -> (r: Option<&V>)
        requires
            self.wf(),
        ensures
            r == (if self@.contains_key(*key) {
                Some(&self@[*key])
            } else {
                None
            }),
    {
        match &self.root {
            None => None,
            Some(root) => root.get_node(*key),
        }
    }

    /// Number of links on the longest path from the root; `None` for an
    /// empty map.
    pub fn height(&self) -> (r: Option<usize>)
        requires
            self.wf(),
        ensures
            r is None <==> self@ == Map::<u32, V>::empty(),
            r is Some ==> r->0 == self.tree_height(),
    {
        match &self.root {
            None => None,
            Some(root) => {
                proof {
                    assert(tmap(self.root).dom().contains(root.key));
                }
                Some(root.height())
            },
        }
    }

    /// The entries in preorder; `None` for an empty map.
    pub fn preorder(&self) -> (r: Option<PreorderIter<'_, V>>)
        requires
            self.wf(),
        ensures
            r is None <==> self@ == Map::<u32, V>::empty(),
            r is Some ==> r->0.remaining() == self.preorder_entries(),
    {
        match &self.root {
            None => None,
            Some(root) => {
                proof {
                    assert(tmap(self.root).dom().contains(root.key));
                }
                let mut entries: Vec<(u32, &V)> = Vec::new();
                root.preorder(&mut entries);
                let it = PreorderIter { entries, pos: 0 };
                proof {
                    assert(owned_entries(it.entries@).skip(0) =~= owned_entries(it.entries@));
                    assert(owned_entries(Seq::<(u32, &V)>::empty()) =~= Seq::empty());
                }
                Some(it)
            },
        }
    }

    /// The entries in strictly ascending key order, each once; `None` for
    /// an empty map.
    pub fn inorder(&self) -> (r: Option<InorderIter<'_, V>>)
        requires
            self.wf(),
        ensures
            r is None <==> self@ == Map::<u32, V>::empty(),
            r is Some ==> {
                let s = r->0.remaining();
                &&& s == self.inorder_entries()
                &&& strictly_ascending(s)
                &&& s.len() == self@.len()
                &&& forall|i: int|
                    0 <= i < s.len() ==> self@.contains_key(#[trigger] s[i].0) && self@[s[i].0]
                        == s[i].1
            },
    {
        proof {
            lemma_inorder_sorted(self.root);
            lemma_size_is_key_count(self.root);
        }
        match &self.root {
            None => None,
            Some(root) => {
                proof {
                    assert(tmap(self.root).dom().contains(root.key));
                }
                let mut entries: Vec<(u32, &V)> = Vec::new();
                root.inorder(&mut entries);
                let it = InorderIter { entries, pos: 0 };
                proof {
                    assert(owned_entries(it.entries@).skip(0) =~= owned_entries(it.entries@));
                    assert(owned_entries(Seq::<(u32, &V)>::empty()) =~= Seq::empty());
                }
                Some(it)
            },
        }
    }
}

/// Every path from the root to an absent link crosses the same number of
/// black links: the left-leaning red-black shape is part of well-formedness,
/// which `new` establishes and `insert`, `pop_min` and `remove` keep, so it
/// holds after any sequence of these operations.
pub proof fn lemma_llrb_paths_balanced<V>(map: RBTreeMap<V>)
    requires
        map.wf(),
    ensures
        map.paths_black_balanced(),
{
    lemma_llrb_black_balanced(map.root);
}

/// The left-leaning red-black shape is black-balanced at every node.
pub proof fn lemma_llrb_black_balanced<V>(t: Option<Box<Node<V>>>)
    requires
        llrb(t),
    ensures
        black_balanced(t),
    decreases t,
{
    if let Some(n) = t {
        lemma_llrb_black_balanced(n.left);
        lemma_llrb_black_balanced(n.right);
    }
}

/// A left-leaning red-black subtree is at most about twice as tall as the
/// number of black links on its paths.
pub proof fn lemma_llrb_height<V>(t: Option<Box<Node<V>>>)
    requires
        llrb(t),
    ensures
        height(t) <= 2 * black_height(t) + if red(t) {
            1int
        } else {
            0int
        },
    decreases t,
{
    if let Some(n) = t {
        lemma_llrb_height(n.left);
        lemma_llrb_height(n.right);
        if n.color == Color::Red {
            assert(!red(n.left) && !red(n.right));
        }
    }
}

/// A left-leaning red-black subtree with `b` black links on its paths holds
/// at least `2^b - 1` entries.
pub proof fn lemma_llrb_size<V>(t: Option<Box<Node<V>>>)
    requires
        llrb(t),
    ensures
        pow2(black_height(t)) <= size(t) + 1,
    decreases t,
{
    match t {
        None => {
            vstd::arithmetic::power::lemma_pow0(2);
        },
        Some(n) => {
            lemma_llrb_size(n.left);
            lemma_llrb_size(n.right);
            let b = black_height(n.left);
            if n.color == Color::Black {
                vstd::arithmetic::power2::lemma_pow2_unfold(b + 1);
            }
        },
    }
}

/// The height of a well-formed map (in links) is below twice the binary
/// logarithm of one more than its number of entries: with `b` black links
/// on every path, `height + 1 <= 2 b` and `2^b <= len + 1`.
pub proof fn lemma_height_logarithmic<V>(map: RBTreeMap<V>)
    requires
        map.wf(),
    ensures
        map@.dom().finite(),
        exists|b: nat| map.tree_height() + 1 <= 2 * b && pow2(b) <= map@.len() + 1,
{
    lemma_size_is_key_count(map.root);
    lemma_llrb_height(map.root);
    lemma_llrb_size(map.root);
    let b = black_height(map.root);
    assert(map.tree_height() + 1 <= 2 * b && pow2(b) <= map@.len() + 1);
}

/// After `insert(key, value)`, looking `key` up finds `value`.
pub proof fn lemma_insert_then_get<V>(before: RBTreeMap<V>, after: RBTreeMap<V>, key: u32, value: V)
    requires
        after@ == before@.insert(key, value),
    ensures
        after@.contains_key(key),
        after@[key] == value,
{
}

/// Inserting a key that is already present keeps the set of keys, hence the
/// count.
pub proof fn lemma_reinsert_keeps_len<V>(
    before: RBTreeMap<V>,
    after: RBTreeMap<V>,
    key: u32,
    value: V,
)
    requires
        before.wf(),
        before@.contains_key(key),
        after@ == before@.insert(key, value),
    ensures
        after@.dom() == before@.dom(),
        after@.len() == before@.len(),
{
    assert(after@.dom() =~= before@.dom());
}

/// Removing an absent key changes neither the entries, nor the count, nor
/// the in-order listing (`remove` goes further and leaves the tree itself
/// untouched, so its height and preorder stay too).
pub proof fn lemma_remove_absent_changes_nothing<V>(
    before: RBTreeMap<V>,
    after: RBTreeMap<V>,
    key: u32,
)
    requires
        before.wf(),
        after.wf(),
        !before@.contains_key(key),
        after@ == before@.remove(key),
    ensures
        after@ == before@,
        after@.len() == before@.len(),
        after.inorder_entries() == before.inorder_entries(),
{
    assert(after@ =~= before@);
    lemma_inorder_sorted(before.root);
    lemma_inorder_sorted(after.root);
    lemma_sorted_entries_unique(inorder_seq(after.root), inorder_seq(before.root), before@);
}

/// Two successive minimum removals come out in strictly ascending key
/// order, so repeated `pop_min` drains a map in ascending order.
pub proof fn lemma_pop_min_ascending<V>(m: Map<u32, V>, first: u32, second: u32)
    requires
        is_min_key(m, first),
        is_min_key(m.remove(first), second),
    ensures
        first < second,
{
    assert(m.dom().contains(second));
}

/// The in-order listing of a well-formed map is strictly ascending in key.
pub proof fn lemma_inorder_ascending<V>(map: RBTreeMap<V>)
    requires
        map.wf(),
    ensures
        strictly_ascending(map.inorder_entries()),
{
    lemma_inorder_sorted(map.root);
}

} // verus!
