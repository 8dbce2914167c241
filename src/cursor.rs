//! Ordered traversal without a stack: two cursors walk the parent links
//! from either end, each remembering how it reached its node.
use crate::node::{ChildIndex, NodeRef, Root};
use crate::order::{KeyOrd, keys_of, lemma_less_asym, sorted_entries};
use std::cmp::Ordering;
use vstd::prelude::*;

verus! {

/// How a cursor arrived at its current node.
#[derive(Clone, Copy, Debug, PartialEq, Eq, Structural)]
pub enum PreviousStep {
    /// Came down from the parent: nothing of this subtree is handled yet.
    Parent,
    /// Came up from the left subtree: the node itself is next.
    LeftChild,
    /// Came up from the right subtree: the whole subtree is handled.
    RightChild,
}

impl PreviousStep {
    pub fn is_parent(self) -> (r: bool)
        ensures
            r == (self == PreviousStep::Parent),
    {
        match self {
            PreviousStep::Parent => true,
            _ => false,
        }
    }

    pub fn is_left_child(self) -> (r: bool)
        ensures
            r == (self == PreviousStep::LeftChild),
    {
        match self {
            PreviousStep::LeftChild => true,
            _ => false,
        }
    }

    pub fn is_right_child(self) -> (r: bool)
        ensures
            r == (self == PreviousStep::RightChild),
    {
        match self {
            PreviousStep::RightChild => true,
            _ => false,
        }
    }
}

/// A pair of cursors over a window of in-order positions of a tree. Each
/// cursor rests on the next node it yields: the front one as having come up
/// from the left subtree, the back one as having come up from the right.
/// The window is empty when both are `None`; it ends when they meet.
#[derive(Clone, Copy, Debug)]
pub struct RefLeafRange {
    pub start: Option<NodeRef>,
    pub start_prev: PreviousStep,
    pub end: Option<NodeRef>,
    pub end_prev: PreviousStep,
}

impl RefLeafRange {
    pub open spec fn wf<K, V>(&self, tree: &Root<K, V>) -> bool {
        &&& tree.shape_ok()
        &&& (self.start is Some <==> self.end is Some)
        &&& self.start is Some ==> {
            &&& tree.valid(self.start.unwrap())
            &&& tree.valid(self.end.unwrap())
            &&& self.start_prev == PreviousStep::LeftChild
            &&& self.end_prev == PreviousStep::RightChild
            &&& tree.pos@[self.start.unwrap().id()] <= tree.pos@[self.end.unwrap().id()]
        }
    }

    /// The positions left to yield: a half-open window.
    pub open spec fn window<K, V>(&self, tree: &Root<K, V>) -> (int, int) {
        if self.start is None {
            (0, 0)
        } else {
            (tree.pos@[self.start.unwrap().id()], tree.pos@[self.end.unwrap().id()] + 1)
        }
    }

    /// The entries left to yield, in order.
    pub open spec fn rest<K, V>(&self, tree: &Root<K, V>) -> Seq<(K, V)> {
        tree.entries().subrange(self.window(tree).0, self.window(tree).1)
    }

    /// A cursor pair that yields nothing.
    pub fn empty() -> (r: Self)
        ensures
            r.start is None,
            r.end is None,
    {
        RefLeafRange {
            start: None,
            start_prev: PreviousStep::LeftChild,
            end: None,
            end_prev: PreviousStep::RightChild,
        }
    }

    /// Cursors at the nodes `first` and `last`, both to be yielded; empty
    /// when `last` comes before `first`, which the caller states.
    pub fn new<K, V>(tree: &Root<K, V>, first: NodeRef, last: NodeRef, nonempty: bool) -> (r: Self)
        requires
            tree.shape_ok(),
            tree.valid(first),
            tree.valid(last),
            nonempty == (tree.pos@[first.id()] <= tree.pos@[last.id()]),
        ensures
            r.wf(tree),
            nonempty ==> r.window(tree) == (tree.pos@[first.id()], tree.pos@[last.id()] + 1),
            !nonempty ==> r.start is None,
    {
        if nonempty {
            RefLeafRange {
                start: Some(first),
                start_prev: PreviousStep::LeftChild,
                end: Some(last),
                end_prev: PreviousStep::RightChild,
            }
        } else {
            RefLeafRange::empty()
        }
    }

    /// Cursors over the whole tree.
    pub fn all<K, V>(tree: &Root<K, V>) -> (r: Self)
        requires
            tree.shape_ok(),
        ensures
            r.wf(tree),
            r.window(tree) == (if tree.size() == 0 { (0int, 0int) } else { (0int, tree.size()) }),
    {
        match tree.root {
            None => RefLeafRange::empty(),
            Some(root) => {
                proof {
                    assert(tree.node_ok(root.id()));
                }
                let first = root.min_child(tree);
                let last = root.max_child(tree);
                RefLeafRange::new(tree, first, last, true)
            },
        }
    }

    /// Yields the node at the front of the window.
    pub fn cut_left<K, V>(&mut self, tree: &Root<K, V>) -> (r: Option<NodeRef>)
        requires
            old(self).wf(tree),
        ensures
            final(self).wf(tree),
            old(self).start is None ==> r is None && final(self).start is None,
            old(self).start is Some ==> {
                &&& r == old(self).start
                &&& final(self).start is Some ==> final(self).window(tree) == (
                    old(self).window(tree).0 + 1,
                    old(self).window(tree).1,
                )
                &&& final(self).start is None ==> old(self).window(tree).0 + 1 == old(self).window(tree).1
            },
    {
        match (self.start, self.end) {
            (Some(x), Some(e)) => {
                if x.0 == e.0 {
                    self.start = None;
                    self.end = None;
                } else {
                    proof {
                        assert(tree.node_ok(x.id()));
                        assert(tree.node_ok(e.id()));
                        assert(tree.pos@[x.id()] < tree.pos@[e.id()]);
                    }
                    self.start = x.next_node(tree);
                }
                Some(x)
            },
            _ => None,
        }
    }

    /// Yields the node at the back of the window.
    pub fn cut_right<K, V>(&mut self, tree: &Root<K, V>) -> (r: Option<NodeRef>)
        requires
            old(self).wf(tree),
        ensures
            final(self).wf(tree),
            old(self).start is None ==> r is None && final(self).start is None,
            old(self).start is Some ==> {
                &&& r == old(self).end
                &&& final(self).start is Some ==> final(self).window(tree) == (
                    old(self).window(tree).0,
                    old(self).window(tree).1 - 1,
                )
                &&& final(self).start is None ==> old(self).window(tree).0 + 1 == old(self).window(tree).1
            },
    {
        match (self.start, self.end) {
            (Some(x), Some(e)) => {
                if x.0 == e.0 {
                    self.start = None;
                    self.end = None;
                } else {
                    proof {
                        assert(tree.node_ok(x.id()));
                        assert(tree.node_ok(e.id()));
                        assert(tree.pos@[x.id()] < tree.pos@[e.id()]);
                    }
                    self.end = e.prev_node(tree);
                }
                Some(e)
            },
            _ => None,
        }
    }
}

impl NodeRef {
    /// The node that follows this one in key order. The walk goes right
    /// once and then down to the left, or up until it arrives from a left
    /// child, tracking how it reached each node.
    pub fn next_node<K, V>(self, tree: &Root<K, V>) -> (r: Option<NodeRef>)
        requires
            tree.shape_ok(),
            tree.valid(self),
        ensures
            r is Some <==> tree.pos@[self.id()] + 1 < tree.size(),
            r is Some ==> tree.valid(r.unwrap()) && tree.pos@[r.unwrap().id()] == tree.pos@[self.id()] + 1,
    {
        proof {
            assert(tree.node_ok(self.id()));
        }
        let ghost target = tree.pos@[self.id()] + 1;
        let (mut cur, mut prev) = match self.right(tree) {
            Some(r) => (r, PreviousStep::Parent),
            None => (self, PreviousStep::RightChild),
        };
        proof {
            assert(tree.node_ok(cur.id()));
        }
        loop
            invariant
                tree.shape_ok(),
                tree.valid(cur),
                target == tree.pos@[self.id()] + 1,
                prev == PreviousStep::Parent ==> tree.lo@[cur.id()] == target,
                prev == PreviousStep::LeftChild ==> tree.pos@[cur.id()] == target,
                prev == PreviousStep::RightChild ==> tree.hi@[cur.id()] == target,
            decreases (match prev {
                PreviousStep::Parent => tree.hi@[cur.id()] - tree.lo@[cur.id()],
                PreviousStep::LeftChild => 0,
                PreviousStep::RightChild => 3 * tree.size() - (tree.hi@[cur.id()] - tree.lo@[cur.id()]),
            }),
        {
            proof {
                assert(tree.node_ok(cur.id()));
                tree.lemma_child_range(cur.id());
            }
            match prev {
                PreviousStep::Parent => {
                    match cur.left(tree) {
                        Some(l) => {
                            proof {
                                assert(tree.node_ok(l.id()));
                            }
                            cur = l;
                        },
                        None => {
                            prev = PreviousStep::LeftChild;
                        },
                    }
                },
                PreviousStep::LeftChild => {
                    return Some(cur);
                },
                PreviousStep::RightChild => {
                    match cur.index_and_parent(tree) {
                        Some((idx, p)) => {
                            proof {
                                assert(tree.node_ok(p.id()));
                            }
                            if idx.is_left() {
                                prev = PreviousStep::LeftChild;
                            }
                            cur = p;
                        },
                        None => {
                            proof {
                                assert(tree.node_ok(cur.id()));
                                if let Some(r) = tree.root {
                                    assert(tree.node_ok(r.id()));
                                }
                            }
                            return None;
                        },
                    }
                },
            }
        }
    }

    /// The node that precedes this one in key order: the mirror image of
    /// `next_node`.
    pub fn prev_node<K, V>(self, tree: &Root<K, V>) -> (r: Option<NodeRef>)
        requires
            tree.shape_ok(),
            tree.valid(self),
        ensures
            r is Some <==> tree.pos@[self.id()] > 0,
            r is Some ==> tree.valid(r.unwrap()) && tree.pos@[r.unwrap().id()] == tree.pos@[self.id()] - 1,
    {
        proof {
            assert(tree.node_ok(self.id()));
        }
        let ghost target = tree.pos@[self.id()];
        let (mut cur, mut prev) = match self.left(tree) {
            Some(l) => (l, PreviousStep::Parent),
            None => (self, PreviousStep::LeftChild),
        };
        proof {
            assert(tree.node_ok(cur.id()));
        }
        loop
            invariant
                tree.shape_ok(),
                tree.valid(cur),
                target == tree.pos@[self.id()],
                prev == PreviousStep::Parent ==> tree.hi@[cur.id()] == target,
                prev == PreviousStep::RightChild ==> tree.pos@[cur.id()] + 1 == target,
                prev == PreviousStep::LeftChild ==> tree.lo@[cur.id()] == target,
            decreases (match prev {
                PreviousStep::Parent => tree.hi@[cur.id()] - tree.lo@[cur.id()],
                PreviousStep::RightChild => 0,
                PreviousStep::LeftChild => 3 * tree.size() - (tree.hi@[cur.id()] - tree.lo@[cur.id()]),
            }),
        {
            proof {
                assert(tree.node_ok(cur.id()));
                tree.lemma_child_range(cur.id());
            }
            match prev {
                PreviousStep::Parent => {
                    match cur.right(tree) {
                        Some(r) => {
                            proof {
                                assert(tree.node_ok(r.id()));
                            }
                            cur = r;
                        },
                        None => {
                            prev = PreviousStep::RightChild;
                        },
                    }
                },
                PreviousStep::RightChild => {
                    return Some(cur);
                },
                PreviousStep::LeftChild => {
                    match cur.index_and_parent(tree) {
                        Some((idx, p)) => {
                            proof {
                                assert(tree.node_ok(p.id()));
                            }
                            if idx.is_right() {
                                prev = PreviousStep::RightChild;
                            }
                            cur = p;
                        },
                        None => {
                            proof {
                                assert(tree.node_ok(cur.id()));
                                if let Some(r) = tree.root {
                                    assert(tree.node_ok(r.id()));
                                }
                            }
                            return None;
                        },
                    }
                },
            }
        }
    }
}

/// One end of a key range.
#[derive(Debug)]
pub enum Bound<K> {
    Included(K),
    Excluded(K),
    Unbounded,
}

/// `k` lies on the inner side of the lower bound `b`.
pub open spec fn above<K: KeyOrd>(k: K, b: Bound<K>) -> bool {
    match b {
        Bound::Included(x) => !k.less(x),
        Bound::Excluded(x) => x.less(k),
        Bound::Unbounded => true,
    }
}

/// `k` lies on the inner side of the upper bound `b`.
pub open spec fn below<K: KeyOrd>(k: K, b: Bound<K>) -> bool {
    match b {
        Bound::Included(x) => !x.less(k),
        Bound::Excluded(x) => k.less(x),
        Bound::Unbounded => true,
    }
}

/// `k` lies between the two bounds.
pub open spec fn in_bounds<K: KeyOrd>(k: K, lower: Bound<K>, upper: Bound<K>) -> bool {
    above(k, lower) && below(k, upper)
}

/// Filtering entries by the bounds and then taking the keys is filtering the keys.
pub proof fn lemma_keys_in_bounds<K: KeyOrd, V>(s: Seq<(K, V)>, lower: Bound<K>, upper: Bound<K>)
    ensures
        keys_of(s.filter(|e: (K, V)| in_bounds(e.0, lower, upper))) == keys_of(s).filter(
            |x: K| in_bounds(x, lower, upper),
        ),
    decreases s.len(),
{
    let q = |e: (K, V)| in_bounds(e.0, lower, upper);
    let p = |x: K| in_bounds(x, lower, upper);
    if s.len() == 0 {
        assert(s.filter(q) =~= Seq::<(K, V)>::empty());
        assert(keys_of(s).filter(p) =~= Seq::<K>::empty());
        assert(keys_of(s.filter(q)) =~= Seq::<K>::empty());
    } else {
        lemma_keys_in_bounds(s.drop_last(), lower, upper);
        assert(keys_of(s).drop_last() =~= keys_of(s.drop_last()));
        assert(s.filter(q) == if q(s.last()) {
            s.drop_last().filter(q).push(s.last())
        } else {
            s.drop_last().filter(q)
        }) by {
            reveal(Seq::filter);
        }
        assert(keys_of(s).filter(p) == if p(keys_of(s).last()) {
            keys_of(s).drop_last().filter(p).push(keys_of(s).last())
        } else {
            keys_of(s).drop_last().filter(p)
        }) by {
            reveal(Seq::filter);
        }
        assert(keys_of(s.drop_last().filter(q).push(s.last())) =~= keys_of(s.drop_last().filter(q)).push(s.last().0));
    }
}

/// Above a lower bound stays above for greater keys.
pub proof fn lemma_above_mono<K: KeyOrd>(a: K, c: K, b: Bound<K>)
    requires
        above(a, b),
        a.less(c),
    ensures
        above(c, b),
{
    match b {
        Bound::Included(x) => {
            if c.less(x) {
                K::lemma_transitive(a, c, x);
            }
        },
        Bound::Excluded(x) => {
            K::lemma_transitive(x, a, c);
        },
        Bound::Unbounded => {},
    }
}

/// Below an upper bound stays below for smaller keys.
pub proof fn lemma_below_mono<K: KeyOrd>(a: K, c: K, b: Bound<K>)
    requires
        below(c, b),
        a.less(c),
    ensures
        below(a, b),
{
    match b {
        Bound::Included(x) => {
            if x.less(a) {
                K::lemma_transitive(x, a, c);
            }
        },
        Bound::Excluded(x) => {
            K::lemma_transitive(a, c, x);
        },
        Bound::Unbounded => {},
    }
}

/// Whether `k` is on the inner side of the lower bound `b`.
pub fn is_above<K: KeyOrd>(k: &K, b: &Bound<K>) -> (r: bool)
    ensures
        r == above(*k, *b),
{
    match b {
        Bound::Included(x) => {
            match k.compare(x) {
                Ordering::Less => false,
                _ => true,
            }
        },
        Bound::Excluded(x) => {
            match x.compare(k) {
                Ordering::Less => true,
                _ => false,
            }
        },
        Bound::Unbounded => true,
    }
}

/// Whether `k` is on the inner side of the upper bound `b`.
pub fn is_below<K: KeyOrd>(k: &K, b: &Bound<K>) -> (r: bool)
    ensures
        r == below(*k, *b),
{
    match b {
        Bound::Included(x) => {
            match x.compare(k) {
                Ordering::Less => false,
                _ => true,
            }
        },
        Bound::Excluded(x) => {
            match k.compare(x) {
                Ordering::Less => true,
                _ => false,
            }
        },
        Bound::Unbounded => true,
    }
}

impl<K: KeyOrd, V> Root<K, V> {
    /// The first node whose key is above the lower bound `b`.
    pub fn lower_bound(&self, b: &Bound<K>) -> (r: Option<NodeRef>)
        requires
            self.inv(),
        ensures
            r is Some ==> self.valid(r.unwrap()) && above(self.keys@[r.unwrap().id()], *b),
            forall|j: int|
                0 <= j < self.size() && (r is None || j < self.pos@[r.unwrap().id()]) ==> !above(
                    #[trigger] self.key_at(j),
                    *b,
                ),
    {
        let mut cur = match self.root {
            None => {
                return None;
            },
            Some(r) => r,
        };
        proof {
            assert(self.node_ok(cur.id()));
        }
        let mut ans: Option<NodeRef> = None;
        loop
            invariant
                self.inv(),
                self.valid(cur),
                forall|j: int| 0 <= j < self.lo@[cur.id()] ==> !above(#[trigger] self.key_at(j), *b),
                match ans {
                    Some(a) => self.valid(a) && self.pos@[a.id()] == self.hi@[cur.id()] && above(
                        self.keys@[a.id()],
                        *b,
                    ),
                    None => self.hi@[cur.id()] == self.size(),
                },
            decreases self.hi@[cur.id()] - self.lo@[cur.id()],
        {
            proof {
                assert(self.node_ok(cur.id()));
                self.lemma_found_position(cur);
            }
            let ghost p = self.pos@[cur.id()];
            if is_above(&self.keys[cur.0], b) {
                match cur.left(self) {
                    Some(l) => {
                        proof {
                            assert(self.node_ok(l.id()));
                        }
                        ans = Some(cur);
                        cur = l;
                    },
                    None => {
                        return Some(cur);
                    },
                }
            } else {
                proof {
                    assert forall|j: int| 0 <= j <= p implies !above(#[trigger] self.key_at(j), *b) by {
                        if j < p && above(self.key_at(j), *b) {
                            assert(self.entries()[j].0 == self.key_at(j));
                            assert(self.entries()[p].0 == self.key_at(p));
                            lemma_above_mono(self.key_at(j), self.key_at(p), *b);
                        }
                    }
                }
                match cur.right(self) {
                    Some(r) => {
                        proof {
                            assert(self.node_ok(r.id()));
                        }
                        cur = r;
                    },
                    None => {
                        return ans;
                    },
                }
            }
        }
    }

    /// The last node whose key is below the upper bound `b`.
    pub fn upper_bound(&self, b: &Bound<K>) -> (r: Option<NodeRef>)
        requires
            self.inv(),
        ensures
            r is Some ==> self.valid(r.unwrap()) && below(self.keys@[r.unwrap().id()], *b),
            forall|j: int|
                0 <= j < self.size() && (r is None || j > self.pos@[r.unwrap().id()]) ==> !below(
                    #[trigger] self.key_at(j),
                    *b,
                ),
    {
        let mut cur = match self.root {
            None => {
                return None;
            },
            Some(r) => r,
        };
        proof {
            assert(self.node_ok(cur.id()));
        }
        let mut ans: Option<NodeRef> = None;
        loop
            invariant
                self.inv(),
                self.valid(cur),
                forall|j: int| self.hi@[cur.id()] <= j < self.size() ==> !below(#[trigger] self.key_at(j), *b),
                match ans {
                    Some(a) => self.valid(a) && self.pos@[a.id()] + 1 == self.lo@[cur.id()] && below(
                        self.keys@[a.id()],
                        *b,
                    ),
                    None => self.lo@[cur.id()] == 0,
                },
            decreases self.hi@[cur.id()] - self.lo@[cur.id()],
        {
            proof {
                assert(self.node_ok(cur.id()));
                self.lemma_found_position(cur);
            }
            let ghost p = self.pos@[cur.id()];
            if is_below(&self.keys[cur.0], b) {
                match cur.right(self) {
                    Some(r) => {
                        proof {
                            assert(self.node_ok(r.id()));
                        }
                        ans = Some(cur);
                        cur = r;
                    },
                    None => {
                        return Some(cur);
                    },
                }
            } else {
                proof {
                    assert forall|j: int| p <= j < self.size() implies !below(#[trigger] self.key_at(j), *b) by {
                        if j > p && below(self.key_at(j), *b) {
                            assert(self.entries()[j].0 == self.key_at(j));
                            assert(self.entries()[p].0 == self.key_at(p));
                            lemma_below_mono(self.key_at(p), self.key_at(j), *b);
                        }
                    }
                }
                match cur.left(self) {
                    Some(l) => {
                        proof {
                            assert(self.node_ok(l.id()));
                        }
                        cur = l;
                    },
                    None => {
                        return ans;
                    },
                }
            }
        }
    }
}

impl RefLeafRange {
    /// Cursors over the entries whose keys lie between `lower` and `upper`.
    pub fn range<K: KeyOrd, V>(tree: &Root<K, V>, lower: &Bound<K>, upper: &Bound<K>) -> (r: Self)
        requires
            tree.inv(),
        ensures
            r.wf(tree),
            forall|j: int|
                0 <= j < tree.size() ==> ((r.window(tree).0 <= j < r.window(tree).1) <==> (above(
                    #[trigger] tree.key_at(j),
                    *lower,
                ) && below(tree.key_at(j), *upper))),
            0 <= r.window(tree).0 <= r.window(tree).1 <= tree.size(),
    {
        let lo = tree.lower_bound(lower);
        let hi = tree.upper_bound(upper);
        match (lo, hi) {
            (Some(a), Some(b)) => {
                proof {
                    tree.lemma_found_position(a);
                    tree.lemma_found_position(b);
                }
                let ghost pa = tree.pos@[a.id()];
                let ghost pb = tree.pos@[b.id()];
                let nonempty = match tree.keys[a.0].compare(&tree.keys[b.0]) {
                    Ordering::Greater => false,
                    _ => true,
                };
                proof {
                    assert(tree.entries()[pa].0 == tree.keys@[a.id()]);
                    assert(tree.entries()[pb].0 == tree.keys@[b.id()]);
                    if pa > pb {
                        assert(tree.keys@[b.id()].less(tree.keys@[a.id()]));
                        lemma_less_asym(tree.keys@[b.id()], tree.keys@[a.id()]);
                    }
                    if pa < pb {
                        lemma_less_asym(tree.keys@[a.id()], tree.keys@[b.id()]);
                    }
                    assert forall|j: int| 0 <= j < tree.size() && pa <= j <= pb implies above(
                        #[trigger] tree.key_at(j),
                        *lower,
                    ) && below(tree.key_at(j), *upper) by {
                        assert(tree.entries()[j].0 == tree.key_at(j));
                        if pa < j {
                            lemma_above_mono(tree.key_at(pa), tree.key_at(j), *lower);
                        }
                        if j < pb {
                            lemma_below_mono(tree.key_at(j), tree.key_at(pb), *upper);
                        }
                    }
                }
                RefLeafRange::new(tree, a, b, nonempty)
            },
            _ => RefLeafRange::empty(),
        }
    }
}

} // verus!
