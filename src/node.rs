//! Node handles, links and the arena that holds a tree.
//!
//! A node is a slot of the arena: its key, its value and its links (parent,
//! two children, color) are kept at the same index of three vectors. Besides
//! the links the arena carries, as ghost state, the in-order sequence of node
//! indices and, for each node, its in-order position and the half-open range
//! of positions its subtree covers. Every link condition of the tree is a
//! local statement about these numbers.
use crate::order::{KeyOrd, sorted_entries};
use vstd::prelude::*;

verus! {

/// The color of a node.
#[derive(Clone, Copy, Debug, PartialEq, Eq, Structural)]
pub enum Color {
    Red,
    Black,
}

/// A side of a node: which child slot.
#[derive(Clone, Copy, Debug, PartialEq, Eq, Structural)]
pub enum ChildIndex {
    Left,
    Right,
}

impl ChildIndex {
    pub fn is_left(self) -> (r: bool)
        ensures
            r == (self == ChildIndex::Left),
    {
        match self {
            ChildIndex::Left => true,
            ChildIndex::Right => false,
        }
    }

    pub fn is_right(self) -> (r: bool)
        ensures
            r == (self == ChildIndex::Right),
    {
        match self {
            ChildIndex::Left => false,
            ChildIndex::Right => true,
        }
    }

    /// The other side.
    pub fn opposite(self) -> (r: ChildIndex)
        ensures
            r != self,
            r == (match self {
                ChildIndex::Left => ChildIndex::Right,
                ChildIndex::Right => ChildIndex::Left,
            }),
    {
        match self {
            ChildIndex::Left => ChildIndex::Right,
            ChildIndex::Right => ChildIndex::Left,
        }
    }
}

/// A handle to a node: its index in the arena. It owns nothing.
#[derive(Clone, Copy, Debug, PartialEq, Eq, Structural)]
pub struct NodeRef(pub usize);

impl NodeRef {
    pub open spec fn id(self) -> int {
        self.0 as int
    }
}

/// The structural part of a node.
#[derive(Clone, Copy, Debug, PartialEq, Eq, Structural)]
pub struct Links {
    pub parent: Option<NodeRef>,
    pub left: Option<NodeRef>,
    pub right: Option<NodeRef>,
    pub color: Color,
}

pub open spec fn child_of(l: Links, side: ChildIndex) -> Option<NodeRef> {
    match side {
        ChildIndex::Left => l.left,
        ChildIndex::Right => l.right,
    }
}

pub open spec fn with_child(l: Links, side: ChildIndex, c: Option<NodeRef>) -> Links {
    match side {
        ChildIndex::Left => Links { left: c, ..l },
        ChildIndex::Right => Links { right: c, ..l },
    }
}

pub open spec fn is_node(o: Option<NodeRef>, i: int) -> bool {
    o is Some && o.unwrap().id() == i
}

/// A tree: the root handle and the arena of its nodes.
pub struct Root<K, V> {
    pub links: Vec<Links>,
    pub keys: Vec<K>,
    pub vals: Vec<V>,
    pub root: Option<NodeRef>,
    /// Node indices in key order.
    pub order: Ghost<Seq<int>>,
    /// In-order position of each node.
    pub pos: Ghost<Seq<int>>,
    /// First position of each node's subtree.
    pub lo: Ghost<Seq<int>>,
    /// One past the last position of each node's subtree.
    pub hi: Ghost<Seq<int>>,
    /// The number of black nodes on each path from a node down to a
    /// missing child, the node itself included.
    pub bh: Ghost<Seq<int>>,
}

impl<K, V> Root<K, V> {
    pub open spec fn size(&self) -> int {
        self.links@.len() as int
    }

    pub open spec fn valid(&self, n: NodeRef) -> bool {
        0 <= n.id() < self.size()
    }

    pub open spec fn link(&self, i: int) -> Links {
        self.links@[i]
    }

    /// The node at in-order position `j`.
    pub open spec fn at(&self, j: int) -> int {
        self.order@[j]
    }

    /// Link conditions of node `i`, stated over positions and ranges.
    pub open spec fn node_ok(&self, i: int) -> bool {
        let l = self.links@[i];
        let p = self.pos@[i];
        let lo = self.lo@[i];
        let hi = self.hi@[i];
        let n = self.size();
        &&& 0 <= lo <= p < hi <= self.order@.len()
        &&& self.order@[p] == i
        &&& match l.left {
            None => lo == p,
            Some(c) => {
                &&& 0 <= c.id() < n
                &&& is_node(self.links@[c.id()].parent, i)
                &&& self.lo@[c.id()] == lo
                &&& self.hi@[c.id()] == p
            },
        }
        &&& match l.right {
            None => hi == p + 1,
            Some(c) => {
                &&& 0 <= c.id() < n
                &&& is_node(self.links@[c.id()].parent, i)
                &&& self.lo@[c.id()] == p + 1
                &&& self.hi@[c.id()] == hi
            },
        }
        &&& match l.parent {
            None => is_node(self.root, i),
            Some(q) => {
                &&& 0 <= q.id() < n
                &&& (is_node(self.links@[q.id()].left, i) || is_node(self.links@[q.id()].right, i))
            },
        }
    }

    /// The arena describes one binary tree whose in-order sequence is `order`.
    pub open spec fn shape_ok(&self) -> bool {
        let n = self.size();
        &&& self.keys@.len() == n
        &&& self.vals@.len() == n
        &&& self.order@.len() == n
        &&& self.pos@.len() == n
        &&& self.lo@.len() == n
        &&& self.hi@.len() == n
        &&& forall|j: int| 0 <= j < n ==> 0 <= #[trigger] self.order@[j] < n && self.pos@[self.order@[j]] == j
        &&& forall|i: int| 0 <= i < n ==> #[trigger] self.node_ok(i)
        &&& match self.root {
            None => n == 0,
            Some(r) => {
                &&& 0 <= r.id() < n
                &&& self.links@[r.id()].parent is None
                &&& self.lo@[r.id()] == 0
                &&& self.hi@[r.id()] == n
            },
        }
    }

    /// The entries in key order.
    pub open spec fn entries(&self) -> Seq<(K, V)> {
        Seq::new(self.order@.len(), |j: int| (self.keys@[self.order@[j]], self.vals@[self.order@[j]]))
    }

    /// The other child of the parent of `x`.
    pub open spec fn sibling_of(&self, x: NodeRef) -> Option<NodeRef> {
        match self.links@[x.id()].parent {
            None => None,
            Some(p) => if is_node(self.links@[p.id()].left, x.id()) {
                self.links@[p.id()].right
            } else {
                self.links@[p.id()].left
            },
        }
    }

    /// The key at in-order position `j`.
    pub open spec fn key_at(&self, j: int) -> K {
        self.keys@[self.order@[j]]
    }
}

impl<K: KeyOrd, V> Root<K, V> {
    /// The full invariant: a well-linked tree whose in-order keys ascend,
    /// in which no red node has a red child, and in which every path from
    /// a node down to a missing child holds the same number of black nodes.
    pub open spec fn inv(&self) -> bool {
        &&& self.shape_ok()
        &&& sorted_entries(self.entries())
        &&& crate::balance::red_ok(self.links@)
        &&& crate::balance::bh_ok(*self)
    }
}

impl<K, V> Root<K, V> {
    /// An empty tree.
    pub fn new() -> (r: Self)
        ensures
            r.shape_ok(),
            r.size() == 0,
            r.root is None,
            r.entries() =~= Seq::<(K, V)>::empty(),
            crate::balance::red_ok(r.links@),
            crate::balance::bh_ok(r),
    {
        Root {
            links: Vec::new(),
            keys: Vec::new(),
            vals: Vec::new(),
            root: None,
            order: Ghost(Seq::empty()),
            pos: Ghost(Seq::empty()),
            lo: Ghost(Seq::empty()),
            hi: Ghost(Seq::empty()),
            bh: Ghost(Seq::empty()),
        }
    }

    /// The link conditions do not depend on the values stored.
    pub proof fn lemma_shape_ignores_values(&self)
        requires
            self.shape_ok(),
        ensures
            forall|o: Root<K, V>|
                #![trigger o.shape_ok()]
                o.links@ == self.links@ && o.keys@ == self.keys@ && o.vals@.len() == self.vals@.len() && o.root
                    == self.root && o.order@ == self.order@ && o.pos@ == self.pos@ && o.lo@ == self.lo@ && o.hi@
                    == self.hi@ ==> o.shape_ok(),
    {
        assert forall|o: Root<K, V>|
            o.links@ == self.links@ && o.keys@ == self.keys@ && o.vals@.len() == self.vals@.len() && o.root
                == self.root && o.order@ == self.order@ && o.pos@ == self.pos@ && o.lo@ == self.lo@ && o.hi@
                == self.hi@ implies #[trigger] o.shape_ok() by {
            assert forall|i: int| 0 <= i < o.size() implies #[trigger] o.node_ok(i) by {
                assert(self.node_ok(i));
            }
        }
    }

    /// The number of nodes.
    pub fn len(&self) -> (r: usize)
        ensures
            r == self.size(),
    {
        self.links.len()
    }

    pub fn is_empty(&self) -> (r: bool)
        requires
            self.shape_ok(),
        ensures
            r == (self.size() == 0),
    {
        self.root.is_none()
    }

    /// The root handle.
    pub fn inner(&self) -> (r: Option<NodeRef>)
        ensures
            r == self.root,
    {
        self.root
    }

    pub proof fn lemma_child_range(&self, i: int)
        requires
            self.shape_ok(),
            0 <= i < self.size(),
        ensures
            self.links@[i].parent is Some ==> {
                let q = self.links@[i].parent.unwrap().id();
                &&& 0 <= q < self.size()
                &&& self.lo@[q] <= self.lo@[i]
                &&& self.hi@[i] <= self.hi@[q]
                &&& self.hi@[i] - self.lo@[i] < self.hi@[q] - self.lo@[q]
            },
    {
        assert(self.node_ok(i));
        if let Some(q) = self.links@[i].parent {
            assert(self.node_ok(q.id()));
        }
    }
}

impl NodeRef {
    /// Reads the links of this node.
    pub fn links<K, V>(self, tree: &Root<K, V>) -> (r: Links)
        requires
            tree.valid(self),
        ensures
            r == tree.links@[self.id()],
    {
        tree.links[self.0]
    }

    pub fn parent<K, V>(self, tree: &Root<K, V>) -> (r: Option<NodeRef>)
        requires
            tree.valid(self),
        ensures
            r == tree.links@[self.id()].parent,
    {
        tree.links[self.0].parent
    }

    pub fn left<K, V>(self, tree: &Root<K, V>) -> (r: Option<NodeRef>)
        requires
            tree.valid(self),
        ensures
            r == tree.links@[self.id()].left,
    {
        tree.links[self.0].left
    }

    pub fn right<K, V>(self, tree: &Root<K, V>) -> (r: Option<NodeRef>)
        requires
            tree.valid(self),
        ensures
            r == tree.links@[self.id()].right,
    {
        tree.links[self.0].right
    }

    pub fn child<K, V>(self, tree: &Root<K, V>, idx: ChildIndex) -> (r: Option<NodeRef>)
        requires
            tree.valid(self),
        ensures
            r == child_of(tree.links@[self.id()], idx),
    {
        match idx {
            ChildIndex::Left => tree.links[self.0].left,
            ChildIndex::Right => tree.links[self.0].right,
        }
    }

    pub fn children<K, V>(self, tree: &Root<K, V>) -> (r: (Option<NodeRef>, Option<NodeRef>))
        requires
            tree.valid(self),
        ensures
            r == (tree.links@[self.id()].left, tree.links@[self.id()].right),
    {
        let l = tree.links[self.0];
        (l.left, l.right)
    }

    pub fn color<K, V>(self, tree: &Root<K, V>) -> (r: Color)
        requires
            tree.valid(self),
        ensures
            r == tree.links@[self.id()].color,
    {
        tree.links[self.0].color
    }

    pub fn is_red<K, V>(self, tree: &Root<K, V>) -> (r: bool)
        requires
            tree.valid(self),
        ensures
            r == (tree.links@[self.id()].color == Color::Red),
    {
        match tree.links[self.0].color {
            Color::Red => true,
            Color::Black => false,
        }
    }

    pub fn is_black<K, V>(self, tree: &Root<K, V>) -> (r: bool)
        requires
            tree.valid(self),
        ensures
            r == (tree.links@[self.id()].color == Color::Black),
    {
        !self.is_red(tree)
    }

    /// The side this node occupies on its parent; `None` for the root.
    pub fn index_on_parent<K, V>(self, tree: &Root<K, V>) -> (r: Option<ChildIndex>)
        requires
            tree.shape_ok(),
            tree.valid(self),
        ensures
            r is None <==> tree.links@[self.id()].parent is None,
            r is Some ==> is_node(
                child_of(tree.links@[tree.links@[self.id()].parent.unwrap().id()], r.unwrap()),
                self.id(),
            ),
    {
        proof {
            assert(tree.node_ok(self.id()));
        }
        match tree.links[self.0].parent {
            None => None,
            Some(p) => {
                match tree.links[p.0].left {
                    Some(c) => {
                        if c.0 == self.0 {
                            Some(ChildIndex::Left)
                        } else {
                            Some(ChildIndex::Right)
                        }
                    },
                    None => Some(ChildIndex::Right),
                }
            },
        }
    }

    /// The side this node occupies on its parent, and the parent.
    pub fn index_and_parent<K, V>(self, tree: &Root<K, V>) -> (r: Option<(ChildIndex, NodeRef)>)
        requires
            tree.shape_ok(),
            tree.valid(self),
        ensures
            r is None <==> tree.links@[self.id()].parent is None,
            r is Some ==> {
                &&& Some(r.unwrap().1) == tree.links@[self.id()].parent
                &&& tree.valid(r.unwrap().1)
                &&& is_node(child_of(tree.links@[r.unwrap().1.id()], r.unwrap().0), self.id())
            },
    {
        proof {
            assert(tree.node_ok(self.id()));
        }
        match self.index_on_parent(tree) {
            None => None,
            Some(idx) => {
                match tree.links[self.0].parent {
                    Some(p) => Some((idx, p)),
                    None => None,
                }
            },
        }
    }

    pub fn grandparent<K, V>(self, tree: &Root<K, V>) -> (r: Option<NodeRef>)
        requires
            tree.shape_ok(),
            tree.valid(self),
        ensures
            r == (match tree.links@[self.id()].parent {
                None => None,
                Some(p) => tree.links@[p.id()].parent,
            }),
            r is Some ==> tree.valid(r.unwrap()),
    {
        proof {
            assert(tree.node_ok(self.id()));
        }
        match self.parent(tree) {
            None => None,
            Some(p) => {
                proof {
                    assert(tree.node_ok(p.id()));
                }
                p.parent(tree)
            },
        }
    }

    /// The other child of this node's parent.
    pub fn sibling<K, V>(self, tree: &Root<K, V>) -> (r: Option<NodeRef>)
        requires
            tree.shape_ok(),
            tree.valid(self),
        ensures
            r == tree.sibling_of(self),
            r is Some ==> tree.valid(r.unwrap()),
    {
        proof {
            assert(tree.node_ok(self.id()));
        }
        match self.index_and_parent(tree) {
            None => None,
            Some((idx, p)) => {
                proof {
                    assert(tree.node_ok(p.id()));
                }
                p.child(tree, idx.opposite())
            },
        }
    }

    /// The sibling of this node's parent.
    pub fn uncle<K, V>(self, tree: &Root<K, V>) -> (r: Option<NodeRef>)
        requires
            tree.shape_ok(),
            tree.valid(self),
        ensures
            r is Some ==> tree.valid(r.unwrap()),
            r == (match tree.links@[self.id()].parent {
                None => None,
                Some(p) => tree.sibling_of(p),
            }),
    {
        proof {
            assert(tree.node_ok(self.id()));
        }
        match self.parent(tree) {
            None => None,
            Some(p) => p.sibling(tree),
        }
    }

    /// The sibling's child on this node's own side.
    pub fn close_nephew<K, V>(self, tree: &Root<K, V>) -> (r: Option<NodeRef>)
        requires
            tree.shape_ok(),
            tree.valid(self),
        ensures
            r is Some ==> tree.valid(r.unwrap()),
            r == (match tree.sibling_of(self) {
                None => None,
                Some(s) => if is_node(tree.links@[tree.links@[self.id()].parent.unwrap().id()].left, self.id()) {
                    tree.links@[s.id()].left
                } else {
                    tree.links@[s.id()].right
                },
            }),
    {
        proof {
            assert(tree.node_ok(self.id()));
            if let Some(p) = tree.links@[self.id()].parent {
                assert(tree.node_ok(p.id()));
                if let Some(c) = tree.links@[p.id()].left {
                    assert(tree.node_ok(c.id()));
                }
                if let Some(c) = tree.links@[p.id()].right {
                    assert(tree.node_ok(c.id()));
                }
            }
        }
        match self.index_on_parent(tree) {
            None => None,
            Some(idx) => {
                match self.sibling(tree) {
                    None => None,
                    Some(s) => {
                        proof {
                            assert(tree.node_ok(s.id()));
                        }
                        s.child(tree, idx)
                    },
                }
            },
        }
    }

    /// The sibling's child on the side opposite to this node's.
    pub fn distant_nephew<K, V>(self, tree: &Root<K, V>) -> (r: Option<NodeRef>)
        requires
            tree.shape_ok(),
            tree.valid(self),
        ensures
            r is Some ==> tree.valid(r.unwrap()),
            r == (match tree.sibling_of(self) {
                None => None,
                Some(s) => if is_node(tree.links@[tree.links@[self.id()].parent.unwrap().id()].left, self.id()) {
                    tree.links@[s.id()].right
                } else {
                    tree.links@[s.id()].left
                },
            }),
    {
        proof {
            assert(tree.node_ok(self.id()));
            if let Some(p) = tree.links@[self.id()].parent {
                assert(tree.node_ok(p.id()));
                if let Some(c) = tree.links@[p.id()].left {
                    assert(tree.node_ok(c.id()));
                }
                if let Some(c) = tree.links@[p.id()].right {
                    assert(tree.node_ok(c.id()));
                }
            }
        }
        match self.index_on_parent(tree) {
            None => None,
            Some(idx) => {
                match self.sibling(tree) {
                    None => None,
                    Some(s) => {
                        proof {
                            assert(tree.node_ok(s.id()));
                        }
                        s.child(tree, idx.opposite())
                    },
                }
            },
        }
    }

    /// The key stored in this node.
    pub fn key<'a, K, V>(self, tree: &'a Root<K, V>) -> (r: &'a K)
        requires
            tree.shape_ok(),
            tree.valid(self),
        ensures
            *r == tree.keys@[self.id()],
    {
        &tree.keys[self.0]
    }

    /// The value stored in this node.
    pub fn value<'a, K, V>(self, tree: &'a Root<K, V>) -> (r: &'a V)
        requires
            tree.shape_ok(),
            tree.valid(self),
        ensures
            *r == tree.vals@[self.id()],
    {
        &tree.vals[self.0]
    }

    /// The key and the value stored in this node.
    pub fn key_value<'a, K, V>(self, tree: &'a Root<K, V>) -> (r: (&'a K, &'a V))
        requires
            tree.shape_ok(),
            tree.valid(self),
        ensures
            *r.0 == tree.keys@[self.id()],
            *r.1 == tree.vals@[self.id()],
    {
        (&tree.keys[self.0], &tree.vals[self.0])
    }

    /// The leftmost node of this node's subtree: the first of its positions.
    pub fn min_child<K, V>(self, tree: &Root<K, V>) -> (r: NodeRef)
        requires
            tree.shape_ok(),
            tree.valid(self),
        ensures
            tree.valid(r),
            tree.pos@[r.id()] == tree.lo@[self.id()],
    {
        let mut cur = self;
        loop
            invariant
                tree.shape_ok(),
                tree.valid(cur),
                tree.lo@[cur.id()] == tree.lo@[self.id()],
            decreases tree.hi@[cur.id()] - tree.lo@[cur.id()],
        {
            proof {
                assert(tree.node_ok(cur.id()));
            }
            match tree.links[cur.0].left {
                Some(l) => {
                    proof {
                        assert(tree.node_ok(l.id()));
                    }
                    cur = l;
                },
                None => {
                    return cur;
                },
            }
        }
    }

    /// The rightmost node of this node's subtree: the last of its positions.
    pub fn max_child<K, V>(self, tree: &Root<K, V>) -> (r: NodeRef)
        requires
            tree.shape_ok(),
            tree.valid(self),
        ensures
            tree.valid(r),
            tree.pos@[r.id()] == tree.hi@[self.id()] - 1,
            tree.links@[r.id()].right is None,
    {
        let mut cur = self;
        loop
            invariant
                tree.shape_ok(),
                tree.valid(cur),
                tree.hi@[cur.id()] == tree.hi@[self.id()],
            decreases tree.hi@[cur.id()] - tree.lo@[cur.id()],
        {
            proof {
                assert(tree.node_ok(cur.id()));
            }
            match tree.links[cur.0].right {
                Some(r) => {
                    proof {
                        assert(tree.node_ok(r.id()));
                    }
                    cur = r;
                },
                None => {
                    return cur;
                },
            }
        }
    }
}

/// Two link tables with the same parents and children.
pub open spec fn same_shape(a: Seq<Links>, b: Seq<Links>) -> bool {
    &&& a.len() == b.len()
    &&& forall|i: int|
        0 <= i < a.len() ==> (#[trigger] a[i]).parent == b[i].parent && a[i].left == b[i].left && a[i].right
            == b[i].right
}

impl<K, V> Root<K, V> {
    /// Everything but the link table is the same.
    pub open spec fn same_but_links(&self, other: &Self) -> bool {
        &&& self.keys@ == other.keys@
        &&& self.vals@ == other.vals@
        &&& self.root == other.root
        &&& self.order@ == other.order@
        &&& self.pos@ == other.pos@
        &&& self.lo@ == other.lo@
        &&& self.hi@ == other.hi@
        &&& self.bh@ == other.bh@
    }

    /// Only colors may differ.
    pub open spec fn recolored(&self, other: &Self) -> bool {
        &&& self.same_but_links(other)
        &&& same_shape(self.links@, other.links@)
    }

    pub proof fn lemma_recolored_shape(&self, other: &Self)
        requires
            self.shape_ok(),
            self.recolored(other),
        ensures
            other.shape_ok(),
            other.entries() == self.entries(),
    {
        assert forall|i: int| 0 <= i < other.size() implies #[trigger] other.node_ok(i) by {
            assert(self.node_ok(i));
            let l = self.links@[i];
            if let Some(c) = l.left {
                assert(self.links@[c.id()].parent == other.links@[c.id()].parent);
            }
            if let Some(c) = l.right {
                assert(self.links@[c.id()].parent == other.links@[c.id()].parent);
            }
            if let Some(q) = l.parent {
                assert(self.links@[q.id()].left == other.links@[q.id()].left);
                assert(self.links@[q.id()].right == other.links@[q.id()].right);
            }
        }
        if let Some(r) = self.root {
            assert(self.links@[r.id()].parent == other.links@[r.id()].parent);
        }
        assert(other.entries() =~= self.entries());
    }
}

impl NodeRef {
    /// Colors this node.
    pub fn set_color<K, V>(self, tree: &mut Root<K, V>, color: Color)
        requires
            old(tree).shape_ok(),
            old(tree).valid(self),
        ensures
            final(tree).recolored(old(tree)),
            final(tree).shape_ok(),
            final(tree).entries() == old(tree).entries(),
            final(tree).links@ == old(tree).links@.update(
                self.id(),
                Links { color, ..old(tree).links@[self.id()] },
            ),
    {
        let mut l = tree.links[self.0];
        l.color = color;
        tree.links.set(self.0, l);
        proof {
            old(tree).lemma_recolored_shape(tree);
        }
    }

    /// Writes `new_child` into the slot `idx` of this node and makes this
    /// node its parent; returns the former occupant of the slot. The ghost
    /// bookkeeping is left to the caller.
    pub fn set_child<K, V>(self, tree: &mut Root<K, V>, idx: ChildIndex, new_child: Option<NodeRef>) -> (r: Option<NodeRef>)
        requires
            old(tree).valid(self),
            new_child is Some ==> old(tree).valid(new_child.unwrap()) && new_child.unwrap() != self,
        ensures
            r == child_of(old(tree).links@[self.id()], idx),
            final(tree).same_but_links(old(tree)),
            final(tree).links@ == (match new_child {
                None => old(tree).links@.update(self.id(), with_child(old(tree).links@[self.id()], idx, None)),
                Some(c) => old(tree).links@.update(
                    c.id(),
                    Links { parent: Some(self), ..old(tree).links@[c.id()] },
                ).update(self.id(), with_child(old(tree).links@[self.id()], idx, new_child)),
            }),
    {
        if let Some(c) = new_child {
            let mut cl = tree.links[c.0];
            cl.parent = Some(self);
            tree.links.set(c.0, cl);
        }
        let mut l = tree.links[self.0];
        let old_child = match idx {
            ChildIndex::Left => {
                let o = l.left;
                l.left = new_child;
                o
            },
            ChildIndex::Right => {
                let o = l.right;
                l.right = new_child;
                o
            },
        };
        tree.links.set(self.0, l);
        old_child
    }

    /// Clears this node's parent link.
    pub fn make_root<K, V>(self, tree: &mut Root<K, V>)
        requires
            old(tree).valid(self),
        ensures
            final(tree).same_but_links(old(tree)),
            final(tree).links@ == old(tree).links@.update(
                self.id(),
                Links { parent: None, ..old(tree).links@[self.id()] },
            ),
    {
        let mut l = tree.links[self.0];
        l.parent = None;
        tree.links.set(self.0, l);
    }
}

impl NodeRef {
    /// Allocates a fresh red node holding `(key, value)`, with no parent and
    /// no children. Linking it into the tree is left to the caller.
    pub fn new<K, V>(tree: &mut Root<K, V>, key: K, value: V) -> (r: NodeRef)
        requires
            old(tree).size() < usize::MAX,
        ensures
            r.id() == old(tree).size(),
            final(tree).links@ == old(tree).links@.push(
                Links { parent: None, left: None, right: None, color: Color::Red },
            ),
            final(tree).keys@ == old(tree).keys@.push(key),
            final(tree).vals@ == old(tree).vals@.push(value),
            final(tree).root == old(tree).root,
            final(tree).order@ == old(tree).order@,
            final(tree).pos@ == old(tree).pos@,
            final(tree).lo@ == old(tree).lo@,
            final(tree).hi@ == old(tree).hi@,
            final(tree).bh@ == old(tree).bh@,
    {
        let n = tree.links.len();
        tree.links.push(Links { parent: None, left: None, right: None, color: Color::Red });
        tree.keys.push(key);
        tree.vals.push(value);
        NodeRef(n)
    }

    /// Empties the child slot `idx` of this node and clears the former
    /// child's parent link; returns the former child. The ghost bookkeeping
    /// is left to the caller.
    pub fn clear_child<K, V>(self, tree: &mut Root<K, V>, idx: ChildIndex) -> (r: Option<NodeRef>)
        requires
            old(tree).valid(self),
            child_of(old(tree).links@[self.id()], idx) is Some ==> old(tree).valid(
                child_of(old(tree).links@[self.id()], idx).unwrap(),
            ),
        ensures
            r == child_of(old(tree).links@[self.id()], idx),
            final(tree).same_but_links(old(tree)),
            final(tree).links@ == (match r {
                None => old(tree).links@,
                Some(c) => old(tree).links@.update(c.id(), Links { parent: None, ..old(tree).links@[c.id()] }).update(
                    self.id(),
                    with_child(
                        old(tree).links@.update(c.id(), Links { parent: None, ..old(tree).links@[c.id()] })[self.id()],
                        idx,
                        None,
                    ),
                ),
            }),
    {
        match self.child(tree, idx) {
            None => None,
            Some(c) => {
                let mut lc = tree.links[c.0];
                lc.parent = None;
                tree.links.set(c.0, lc);
                let l = tree.links[self.0];
                tree.links.set(self.0, put_child(l, idx, None));
                Some(c)
            },
        }
    }
}

impl<K: KeyOrd, V> Root<K, V> {
    /// The value of node `x`, to change in place; the tree stays valid
    /// whatever value it is given.
    pub fn value_mut(&mut self, x: NodeRef) -> (r: &mut V)
        requires
            old(self).inv(),
            old(self).valid(x),
        ensures
            *r == old(self).vals@[x.id()],
            final(self).inv(),
            final(self).entries() == old(self).entries().update(
                old(self).pos@[x.id()],
                (old(self).keys@[x.id()], *final(r)),
            ),
    {
        proof {
            assert(self.node_ok(x.id()));
            crate::order::lemma_sorted_same_keys(self.entries());
            self.lemma_shape_ignores_values();
            crate::balance::lemma_bh_frame(*self);
            assert(self.entries()[self.pos@[x.id()]].0 == self.keys@[x.id()]);
        }
        &mut self.vals[x.0]
    }

    /// The key of node `x`, and its value to change in place.
    pub fn key_value_mut(&mut self, x: NodeRef) -> (r: (&K, &mut V))
        requires
            old(self).inv(),
            old(self).valid(x),
        ensures
            *r.0 == old(self).keys@[x.id()],
            *r.1 == old(self).vals@[x.id()],
            final(self).inv(),
            final(self).entries() == old(self).entries().update(
                old(self).pos@[x.id()],
                (old(self).keys@[x.id()], *final(r.1)),
            ),
    {
        proof {
            assert(self.node_ok(x.id()));
            crate::order::lemma_sorted_same_keys(self.entries());
            self.lemma_shape_ignores_values();
            crate::balance::lemma_bh_frame(*self);
        }
        (&self.keys[x.0], &mut self.vals[x.0])
    }
}

/// `l` with `c` in the child slot `side`.
pub fn put_child(l: Links, side: ChildIndex, c: Option<NodeRef>) -> (r: Links)
    ensures
        r == with_child(l, side, c),
{
    match side {
        ChildIndex::Left => Links { left: c, ..l },
        ChildIndex::Right => Links { right: c, ..l },
    }
}

} // verus!
