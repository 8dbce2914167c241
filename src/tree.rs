//! Locating keys, and inserting and removing entries.
use crate::balance::{bh_done, bh_node_ok, bh_of, bh_ok, black_or, lemma_bh_frame, own_black, red_ok, red_ok_except};
use crate::node::{ChildIndex, Color, Links, NodeRef, Root, child_of, is_node, put_child, with_child};
use crate::order::{KeyOrd, as_map, has_key, lemma_map_index, lemma_map_insert, lemma_map_remove, lemma_map_update, sorted_entries};
use std::cmp::Ordering;
use vstd::prelude::*;

verus! {


/// A position after a new entry took position `g`.
pub open spec fn shift_pos(x: int, g: int) -> int {
    if x < g {
        x
    } else {
        x + 1
    }
}

/// A range bound after a new entry took position `g` as a child on `side`.
/// A left child joins the ranges that start at `g`; a right child joins
/// those that end at `g`.
pub open spec fn shift_bound(x: int, g: int, side: ChildIndex) -> int {
    match side {
        ChildIndex::Left => if x <= g {
            x
        } else {
            x + 1
        },
        ChildIndex::Right => if x < g {
            x
        } else {
            x + 1
        },
    }
}

/// The arena after attaching a fresh red leaf `(k, v)` on `side` of `p`.
pub open spec fn attached<K, V>(t0: Root<K, V>, t1: Root<K, V>, p: NodeRef, side: ChildIndex, k: K, v: V) -> bool {
    let n = t0.size();
    let g = t0.gap(p, side);
    let z = NodeRef(n as usize);
    &&& t0.shape_ok()
    &&& t0.valid(p)
    &&& child_of(t0.links@[p.id()], side) is None
    &&& n + 1 <= usize::MAX
    &&& t1.links@ == t0.links@.update(p.id(), with_child(t0.links@[p.id()], side, Some(z))).push(
        Links { parent: Some(p), left: None, right: None, color: Color::Red },
    )
    &&& t1.keys@ == t0.keys@.push(k)
    &&& t1.vals@ == t0.vals@.push(v)
    &&& t1.root == t0.root
    &&& t1.order@ == t0.order@.insert(g, n)
    &&& t1.pos@ == Seq::new((n + 1) as nat, |i: int| if i == n { g } else { shift_pos(t0.pos@[i], g) })
    &&& t1.lo@ == Seq::new((n + 1) as nat, |i: int| if i == n { g } else { shift_bound(t0.lo@[i], g, side) })
    &&& t1.hi@ == Seq::new((n + 1) as nat, |i: int| if i == n { g + 1 } else { shift_bound(t0.hi@[i], g, side) })
}

proof fn lemma_attach_node<K, V>(t0: Root<K, V>, t1: Root<K, V>, p: NodeRef, side: ChildIndex, k: K, v: V, i: int)
    requires
        attached(t0, t1, p, side, k, v),
        0 <= i < t0.size(),
    ensures
        t1.node_ok(i),
{
    let n = t0.size();
    let g = t0.gap(p, side);
    assert(t0.node_ok(i));
    assert(t0.node_ok(p.id()));
    let l = t0.links@[i];
    if let Some(x) = l.left {
        assert(t0.node_ok(x.id()));
        assert(x.id() != n);
    }
    if let Some(x) = l.right {
        assert(t0.node_ok(x.id()));
    }
    if let Some(x) = l.parent {
        assert(t0.node_ok(x.id()));
    }
    if i != p.id() {
        assert(t0.pos@[i] != t0.pos@[p.id()]);
    }
}

proof fn lemma_attach_shape<K, V>(t0: Root<K, V>, t1: Root<K, V>, p: NodeRef, side: ChildIndex, k: K, v: V)
    requires
        attached(t0, t1, p, side, k, v),
    ensures
        t1.shape_ok(),
        t1.entries() == t0.entries().insert(t0.gap(p, side), (k, v)),
        0 <= t0.gap(p, side) <= t0.size(),
{
    let n = t0.size();
    let g = t0.gap(p, side);
    assert(t0.node_ok(p.id()));
    assert forall|i: int| 0 <= i < t1.size() implies #[trigger] t1.node_ok(i) by {
        if i < n {
            lemma_attach_node(t0, t1, p, side, k, v, i);
        } else {
            assert(t1.order@[g] == n);
        }
    }
    assert forall|j: int| 0 <= j < n + 1 implies 0 <= #[trigger] t1.order@[j] < n + 1 && t1.pos@[t1.order@[j]] == j by {
        if j < g {
            assert(t1.order@[j] == t0.order@[j]);
        } else if j > g {
            assert(t1.order@[j] == t0.order@[j - 1]);
        }
    }
    if let Some(r) = t1.root {
        assert(t0.node_ok(r.id()));
    }
    assert(t1.entries() =~= t0.entries().insert(g, (k, v)));
}


impl<K, V> Root<K, V> {
    /// Node `v` has been unlinked: the others form a tree over `order`, no
    /// link leads to `v`, and its ghost range is void.
    pub open spec fn detached_ok(&self, v: int) -> bool {
        let n = self.size();
        &&& 0 <= v < n
        &&& self.keys@.len() == n
        &&& self.vals@.len() == n
        &&& self.order@.len() == n - 1
        &&& self.pos@.len() == n
        &&& self.lo@.len() == n
        &&& self.hi@.len() == n
        &&& self.pos@[v] == -1
        &&& self.lo@[v] == -1
        &&& self.hi@[v] == -1
        &&& forall|j: int|
            0 <= j < n - 1 ==> 0 <= #[trigger] self.order@[j] < n && self.order@[j] != v && self.pos@[self.order@[j]]
                == j
        &&& forall|i: int| 0 <= i < n && i != v ==> #[trigger] self.node_ok(i)
        &&& self.links@[v].parent is None
        &&& self.links@[v].left is None
        &&& self.links@[v].right is None
        &&& match self.root {
            None => n - 1 == 0,
            Some(r) => {
                &&& 0 <= r.id() < n
                &&& r.id() != v
                &&& self.links@[r.id()].parent is None
                &&& self.lo@[r.id()] == 0
                &&& self.hi@[r.id()] == n - 1
            },
        }
    }
}

/// Where the entries of `a` other than that of node `v` are found in `b`,
/// after `v` left: every node keeps its index, but the last, which moves
/// into `v`'s slot; positions after `v`'s close up.
pub open spec fn kept_after_removal<K, V>(a: Root<K, V>, b: Root<K, V>, v: int) -> bool {
    forall|i: int|
        0 <= i < a.size() && i != v ==> #[trigger] kept_node(a, b, v, i)
}

/// Node `i` of `a`, other than `v`, is found in `b` with its entry and its
/// closed-up position.
pub open spec fn kept_node<K, V>(a: Root<K, V>, b: Root<K, V>, v: int, i: int) -> bool {
    let j = if i == a.size() - 1 { v } else { i };
    &&& 0 <= j < b.size()
    &&& a.keys@[i] == b.keys@[j]
    &&& a.vals@[i] == b.vals@[j]
    &&& b.pos@[j] == unshift_pos(a.pos@[i], a.pos@[v])
}

/// A position after the entry at `pv` left.
pub open spec fn unshift_pos(x: int, pv: int) -> int {
    if x < pv {
        x
    } else {
        x - 1
    }
}

/// A range bound after the entry at `pv` left.
pub open spec fn unshift_bound(x: int, pv: int) -> int {
    if x <= pv {
        x
    } else {
        x - 1
    }
}

/// The link table after node `v`, with at most the child `c`, is replaced by `c`.
pub open spec fn spliced_links(l: Seq<Links>, v: int) -> Seq<Links> {
    let c = if l[v].left is Some {
        l[v].left
    } else {
        l[v].right
    };
    let q = l[v].parent;
    let l1 = match c {
        Some(x) => l.update(x.id(), Links { parent: q, ..l[x.id()] }),
        None => l,
    };
    let l2 = match q {
        Some(x) => l1.update(
            x.id(),
            if is_node(l[x.id()].left, v) {
                Links { left: c, ..l1[x.id()] }
            } else {
                Links { right: c, ..l1[x.id()] }
            },
        ),
        None => l1,
    };
    l2.update(v, Links { parent: None, left: None, right: None, ..l[v] })
}

pub open spec fn spliced<K, V>(t0: Root<K, V>, t1: Root<K, V>, v: int) -> bool {
    let n = t0.size();
    let pv = t0.pos@[v];
    let c = if t0.links@[v].left is Some {
        t0.links@[v].left
    } else {
        t0.links@[v].right
    };
    &&& t0.shape_ok()
    &&& 0 <= v < n
    &&& (t0.links@[v].left is None || t0.links@[v].right is None)
    &&& t1.links@ == spliced_links(t0.links@, v)
    &&& t1.keys@ == t0.keys@
    &&& t1.vals@ == t0.vals@
    &&& t1.root == (if t0.links@[v].parent is None { c } else { t0.root })
    &&& t1.order@ == t0.order@.remove(pv)
    &&& t1.pos@ == removed_pos(t0.pos@, v, pv)
    &&& t1.lo@ == removed_bounds(t0.lo@, v, pv)
    &&& t1.hi@ == removed_bounds(t0.hi@, v, pv)
}

#[verifier::rlimit(40)]
proof fn lemma_splice_node<K, V>(t0: Root<K, V>, t1: Root<K, V>, v: int, i: int)
    requires
        spliced(t0, t1, v),
        0 <= i < t0.size(),
        i != v,
    ensures
        t1.node_ok(i),
{
    let pv = t0.pos@[v];
    assert(t0.node_ok(i));
    assert(t0.node_ok(v));
    assert(t0.pos@[i] != pv);
    let l = t0.links@[i];
    if let Some(x) = l.left {
        assert(t0.node_ok(x.id()));
    }
    if let Some(x) = l.right {
        assert(t0.node_ok(x.id()));
    }
    if let Some(x) = l.parent {
        assert(t0.node_ok(x.id()));
    }
    if let Some(x) = t0.links@[v].parent {
        assert(t0.node_ok(x.id()));
    }
    if let Some(x) = t0.links@[v].left {
        assert(t0.node_ok(x.id()));
    }
    if let Some(x) = t0.links@[v].right {
        assert(t0.node_ok(x.id()));
    }
}

proof fn lemma_splice_shape<K, V>(t0: Root<K, V>, t1: Root<K, V>, v: int)
    requires
        spliced(t0, t1, v),
    ensures
        t1.detached_ok(v),
        t1.entries() == t0.entries().remove(t0.pos@[v]),
{
    let n = t0.size();
    let pv = t0.pos@[v];
    assert(t0.node_ok(v));
    assert forall|i: int| 0 <= i < n && i != v implies #[trigger] t1.node_ok(i) by {
        lemma_splice_node(t0, t1, v, i);
    }
    assert forall|j: int| 0 <= j < n - 1 implies 0 <= #[trigger] t1.order@[j] < n && t1.order@[j] != v
        && t1.pos@[t1.order@[j]] == j by {
        if j < pv {
            assert(t1.order@[j] == t0.order@[j]);
        } else {
            assert(t1.order@[j] == t0.order@[j + 1]);
        }
    }
    if let Some(r) = t0.root {
        assert(t0.node_ok(r.id()));
    }
    if let Some(x) = t0.links@[v].left {
        assert(t0.node_ok(x.id()));
    }
    if let Some(x) = t0.links@[v].right {
        assert(t0.node_ok(x.id()));
    }
    assert(t1.entries() =~= t0.entries().remove(pv));
}



/// Per-node positions after node `v` at position `pv` left.
pub open spec fn removed_pos(s: Seq<int>, v: int, pv: int) -> Seq<int> {
    Seq::new(s.len(), |i: int| if i == v { -1 } else { unshift_pos(s[i], pv) })
}

/// Per-node range bounds after node `v` at position `pv` left.
pub open spec fn removed_bounds(s: Seq<int>, v: int, pv: int) -> Seq<int> {
    Seq::new(s.len(), |i: int| if i == v { -1 } else { unshift_bound(s[i], pv) })
}

/// A per-node sequence after the last slot moved into slot `v`.
pub open spec fn moved_last<T>(s: Seq<T>, v: int) -> Seq<T> {
    if v == s.len() - 1 {
        s.drop_last()
    } else {
        s.update(v, s[s.len() - 1]).drop_last()
    }
}

/// The in-order node sequence after node `last` was renamed `v`.
pub open spec fn renamed_order(o: Seq<int>, last: int, v: int) -> Seq<int> {
    Seq::new(o.len(), |j: int| if o[j] == last { v } else { o[j] })
}

/// The link table after the last slot moved into slot `v`.
pub open spec fn compacted_links(l: Seq<Links>, v: NodeRef) -> Seq<Links> {
    let last = l.len() - 1;
    Seq::new((l.len() - 1) as nat, |i: int| renamed_links(if i == v.id() { l[last] } else { l[i] }, last, v))
}


/// The link table after the links to the last node were pointed at `v`.
pub open spec fn redirected_links(l: Seq<Links>, v: NodeRef) -> Seq<Links> {
    let last = l.len() - 1;
    let ll = l[last];
    let l1 = match ll.parent {
        Some(q) => l.update(
            q.id(),
            if is_node(l[q.id()].left, last) {
                Links { left: Some(v), ..l[q.id()] }
            } else {
                Links { right: Some(v), ..l[q.id()] }
            },
        ),
        None => l,
    };
    let l2 = match ll.left {
        Some(c) => l1.update(c.id(), Links { parent: Some(v), ..l1[c.id()] }),
        None => l1,
    };
    match ll.right {
        Some(c) => l2.update(c.id(), Links { parent: Some(v), ..l2[c.id()] }),
        None => l2,
    }
}

proof fn lemma_redirected<K, V>(t1: Root<K, V>, v: NodeRef)
    requires
        t1.detached_ok(v.id()),
        v.id() != t1.size() - 1,
    ensures
        moved_last(redirected_links(t1.links@, v), v.id()) == compacted_links(t1.links@, v),
{
    let n = t1.size();
    let last = n - 1;
    let vi = v.id();
    let a = moved_last(redirected_links(t1.links@, v), vi);
    let b = compacted_links(t1.links@, v);
    assert(t1.node_ok(last));
    assert forall|i: int| 0 <= i < n - 1 implies a[i] == b[i] by {
        let src = if i == vi { last } else { i };
        assert(t1.node_ok(src));
        let ls = t1.links@[src];
        if let Some(x) = ls.left {
            assert(t1.node_ok(x.id()));
        }
        if let Some(x) = ls.right {
            assert(t1.node_ok(x.id()));
        }
        if let Some(x) = ls.parent {
            assert(t1.node_ok(x.id()));
        }
        if let Some(x) = t1.links@[last].parent {
            assert(t1.node_ok(x.id()));
        }
        if let Some(x) = t1.links@[last].left {
            assert(t1.node_ok(x.id()));
        }
        if let Some(x) = t1.links@[last].right {
            assert(t1.node_ok(x.id()));
        }
    }
    assert(a =~= b);
}

/// A link to node `from` redirected to `to`.
pub open spec fn renamed(o: Option<NodeRef>, from: int, to: NodeRef) -> Option<NodeRef> {
    if is_node(o, from) {
        Some(to)
    } else {
        o
    }
}

pub open spec fn renamed_links(l: Links, from: int, to: NodeRef) -> Links {
    Links {
        parent: renamed(l.parent, from, to),
        left: renamed(l.left, from, to),
        right: renamed(l.right, from, to),
        color: l.color,
    }
}

/// The arena after the detached node `v` was dropped and the last node
/// moved into its slot.
pub open spec fn compacted<K, V>(t1: Root<K, V>, t2: Root<K, V>, v: NodeRef) -> bool {
    let n = t1.size();
    let last = n - 1;
    &&& t1.detached_ok(v.id())
    &&& t2.links@ == compacted_links(t1.links@, v)
    &&& t2.keys@ == moved_last(t1.keys@, v.id())
    &&& t2.vals@ == moved_last(t1.vals@, v.id())
    &&& t2.root == (match t1.root {
        None => None,
        Some(r) => Some(if r.id() == last { v } else { r }),
    })
    &&& t2.order@ == renamed_order(t1.order@, last, v.id())
    &&& t2.pos@ == moved_last(t1.pos@, v.id())
    &&& t2.lo@ == moved_last(t1.lo@, v.id())
    &&& t2.hi@ == moved_last(t1.hi@, v.id())
}

proof fn lemma_compact_node<K, V>(t1: Root<K, V>, t2: Root<K, V>, v: NodeRef, i: int)
    requires
        compacted(t1, t2, v),
        0 <= i < t1.size() - 1,
    ensures
        t2.node_ok(i),
{
    let n = t1.size();
    let last = n - 1;
    let src = if i == v.id() { last } else { i };
    assert(t1.node_ok(src));
    let l = t1.links@[src];
    if let Some(x) = l.left {
        assert(t1.node_ok(x.id()));
    }
    if let Some(x) = l.right {
        assert(t1.node_ok(x.id()));
    }
    if let Some(x) = l.parent {
        assert(t1.node_ok(x.id()));
    }
    assert(t1.order@[t1.pos@[src]] == src);
}

proof fn lemma_compact_shape<K, V>(t1: Root<K, V>, t2: Root<K, V>, v: NodeRef)
    requires
        compacted(t1, t2, v),
    ensures
        t2.shape_ok(),
        t2.entries() == t1.entries(),
{
    let n = t1.size();
    let last = n - 1;
    assert forall|i: int| 0 <= i < n - 1 implies #[trigger] t2.node_ok(i) by {
        lemma_compact_node(t1, t2, v, i);
    }
    assert forall|j: int| 0 <= j < n - 1 implies 0 <= #[trigger] t2.order@[j] < n - 1 && t2.pos@[t2.order@[j]] == j by {
        assert(0 <= t1.order@[j] < n);
    }
    if let Some(r) = t1.root {
        assert(t1.node_ok(r.id()));
    }
    assert(t2.entries() =~= t1.entries());
}


/// Replacing a node by its only child keeps red nodes off red children when
/// that child is not red.
proof fn lemma_splice_red<K, V>(t0: Root<K, V>, v: int)
    requires
        t0.shape_ok(),
        0 <= v < t0.size(),
        t0.links@[v].left is None || t0.links@[v].right is None,
        red_ok(t0.links@),
        black_or(t0.links@, if t0.links@[v].left is Some { t0.links@[v].left } else { t0.links@[v].right }, -1),
    ensures
        red_ok(spliced_links(t0.links@, v)),
{
    let l0 = t0.links@;
    let l1 = spliced_links(l0, v);
    assert(t0.node_ok(v));
    assert forall|i: int| 0 <= i < l1.len() && (#[trigger] l1[i]).color == Color::Red implies black_or(l1, l1[i].left, -1)
        && black_or(l1, l1[i].right, -1) by {
        assert(t0.node_ok(i));
        if let Some(x) = l0[i].left {
            assert(t0.node_ok(x.id()));
        }
        if let Some(x) = l0[i].right {
            assert(t0.node_ok(x.id()));
        }
        if let Some(x) = l0[v].left {
            assert(t0.node_ok(x.id()));
        }
        if let Some(x) = l0[v].right {
            assert(t0.node_ok(x.id()));
        }
        if let Some(q) = l0[v].parent {
            assert(t0.node_ok(q.id()));
            if let Some(x) = l0[q.id()].left {
                assert(t0.node_ok(x.id()));
            }
            if let Some(x) = l0[q.id()].right {
                assert(t0.node_ok(x.id()));
            }
        }
    }
}

/// Moving the last node into a freed slot keeps red nodes off red children.
proof fn lemma_compact_red<K, V>(t1: Root<K, V>, v: NodeRef)
    requires
        t1.detached_ok(v.id()),
        red_ok(t1.links@),
    ensures
        red_ok(compacted_links(t1.links@, v)),
{
    let l1 = t1.links@;
    let l2 = compacted_links(l1, v);
    let last = l1.len() - 1;
    assert forall|i: int| 0 <= i < l2.len() && (#[trigger] l2[i]).color == Color::Red implies black_or(l2, l2[i].left, -1)
        && black_or(l2, l2[i].right, -1) by {
        let src = if i == v.id() { last } else { i };
        assert(t1.node_ok(src));
        assert(l1[src].color == Color::Red);
        if let Some(x) = l1[src].left {
            assert(t1.node_ok(x.id()));
            let y = if x.id() == last { v.id() } else { x.id() };
            assert(l2[y].color == l1[x.id()].color);
        }
        if let Some(x) = l1[src].right {
            assert(t1.node_ok(x.id()));
            let y = if x.id() == last { v.id() } else { x.id() };
            assert(l2[y].color == l1[x.id()].color);
        }
    }
}

/// Attaching a fresh red leaf leaves that leaf the only red node that may
/// sit under a red parent.
proof fn lemma_attach_red<K, V>(t0: Root<K, V>, t1: Root<K, V>, p: NodeRef, side: ChildIndex, k: K, v: V)
    requires
        attached(t0, t1, p, side, k, v),
        red_ok(t0.links@),
    ensures
        red_ok_except(t1.links@, t0.size()),
{
    let l0 = t0.links@;
    let l1 = t1.links@;
    let n = t0.size();
    assert(t0.node_ok(p.id()));
    assert forall|i: int| 0 <= i < l1.len() && (#[trigger] l1[i]).color == Color::Red implies black_or(l1, l1[i].left, n)
        && black_or(l1, l1[i].right, n) by {
        if i < n {
            assert(t0.node_ok(i));
            assert(l0[i].color == Color::Red);
            if let Some(x) = l0[i].left {
                assert(t0.node_ok(x.id()));
            }
            if let Some(x) = l0[i].right {
                assert(t0.node_ok(x.id()));
            }
        }
    }
}


/// A fresh red leaf has black height zero, like the missing child it replaces.
proof fn lemma_attach_bh<K, V>(t0: Root<K, V>, t1: Root<K, V>, p: NodeRef, side: ChildIndex, k: K, v: V)
    requires
        attached(t0, t1, p, side, k, v),
        bh_ok(t0),
        t1.bh@ == t0.bh@.push(0),
    ensures
        bh_ok(t1),
{
    let n = t0.size();
    assert(t0.node_ok(p.id()));
    assert forall|i: int| 0 <= i < t1.size() implies #[trigger] bh_node_ok(t1, i) by {
        if i < n {
            assert(t0.node_ok(i));
            assert(bh_node_ok(t0, i));
            if let Some(x) = t0.links@[i].left {
                assert(t0.node_ok(x.id()));
            }
            if let Some(x) = t0.links@[i].right {
                assert(t0.node_ok(x.id()));
            }
        }
    }
}

/// Replacing node `v` by its only child keeps every other node balanced
/// when the child's black height equals the one recorded for `v`.
proof fn lemma_splice_bh<K, V>(t0: Root<K, V>, t1: Root<K, V>, v: int)
    requires
        spliced(t0, t1, v),
        bh_done(t0, v),
        t1.bh@ == t0.bh@,
        t0.links@[v].parent is None || bh_of(
            t0,
            if t0.links@[v].left is Some { t0.links@[v].left } else { t0.links@[v].right },
        ) == t0.bh@[v],
    ensures
        bh_done(t1, v),
{
    let l0 = t0.links@;
    assert(t0.node_ok(v));
    assert forall|i: int| 0 <= i < t1.size() && i != v implies #[trigger] bh_node_ok(t1, i) by {
        assert(t0.node_ok(i));
        assert(bh_node_ok(t0, i));
        if let Some(x) = l0[i].left {
            assert(t0.node_ok(x.id()));
        }
        if let Some(x) = l0[i].right {
            assert(t0.node_ok(x.id()));
        }
        if let Some(x) = l0[v].left {
            assert(t0.node_ok(x.id()));
        }
        if let Some(x) = l0[v].right {
            assert(t0.node_ok(x.id()));
        }
        if let Some(q) = l0[v].parent {
            assert(t0.node_ok(q.id()));
        }
    }
}

/// Moving the last node into a freed slot, its recorded height with it,
/// keeps every node balanced.
proof fn lemma_compact_bh<K, V>(t1: Root<K, V>, t2: Root<K, V>, v: NodeRef)
    requires
        compacted(t1, t2, v),
        bh_done(t1, v.id()),
        t2.bh@ == moved_last(t1.bh@, v.id()),
    ensures
        bh_ok(t2),
{
    let l1 = t1.links@;
    let last = l1.len() - 1;
    assert forall|i: int| 0 <= i < t2.size() implies #[trigger] bh_node_ok(t2, i) by {
        let src = if i == v.id() { last } else { i };
        assert(t1.node_ok(src));
        assert(bh_node_ok(t1, src));
        if let Some(x) = l1[src].left {
            assert(t1.node_ok(x.id()));
        }
        if let Some(x) = l1[src].right {
            assert(t1.node_ok(x.id()));
        }
    }
}

impl<K, V> Root<K, V> {
    /// The in-order position a new child on `side` of `p` would take.
    pub open spec fn gap(&self, p: NodeRef, side: ChildIndex) -> int {
        match side {
            ChildIndex::Left => self.pos@[p.id()],
            ChildIndex::Right => self.pos@[p.id()] + 1,
        }
    }
}

impl<K: KeyOrd, V> Root<K, V> {
    /// Every key before position `a` is less than `k`, every key from `b` on is greater.
    pub open spec fn brackets(&self, k: K, a: int, b: int) -> bool {
        &&& forall|j: int| 0 <= j < a ==> (#[trigger] self.key_at(j)).less(k)
        &&& forall|j: int| b <= j < self.size() ==> k.less(#[trigger] self.key_at(j))
    }

    /// What a search for `k` found: a node holding `k`, or the empty slot
    /// where `k` belongs.
    pub open spec fn search_result(&self, k: K, r: Result<NodeRef, (NodeRef, ChildIndex)>) -> bool {
        match r {
            Ok(x) => self.valid(x) && self.keys@[x.id()] == k,
            Err((p, side)) => {
                &&& self.valid(p)
                &&& child_of(self.links@[p.id()], side) is None
                &&& self.brackets(k, self.gap(p, side), self.gap(p, side))
            },
        }
    }

    pub proof fn lemma_brackets_absent(&self, k: K, g: int)
        requires
            self.shape_ok(),
            self.brackets(k, g, g),
        ensures
            forall|j: int| 0 <= j < self.size() ==> self.key_at(j) != k,
    {
        assert forall|j: int| 0 <= j < self.size() implies self.key_at(j) != k by {
            if j < g {
                crate::order::lemma_less_asym(self.key_at(j), k);
            } else {
                crate::order::lemma_less_asym(k, self.key_at(j));
            }
        }
    }

    /// A key found at no position is in no entry.
    pub proof fn lemma_absent(&self, k: K)
        requires
            self.shape_ok(),
            forall|j: int| 0 <= j < self.size() ==> self.key_at(j) != k,
        ensures
            !has_key(self.entries(), k),
            !as_map(self.entries()).contains_key(k),
    {
        if has_key(self.entries(), k) {
            let j = choose|j: int| 0 <= j < self.entries().len() && (#[trigger] self.entries()[j]).0 == k;
            assert(self.key_at(j) == k);
        }
    }

    /// The position of a node whose key is `k`.
    pub proof fn lemma_found_position(&self, x: NodeRef)
        requires
            self.shape_ok(),
            self.valid(x),
        ensures
            0 <= self.pos@[x.id()] < self.size(),
            self.key_at(self.pos@[x.id()]) == self.keys@[x.id()],
            self.entries()[self.pos@[x.id()]] == (self.keys@[x.id()], self.vals@[x.id()]),
    {
        assert(self.node_ok(x.id()));
    }

    /// Looks `k` up from the root.
    pub fn search(&self, key: &K) -> (r: Option<Result<NodeRef, (NodeRef, ChildIndex)>>)
        requires
            self.inv(),
        ensures
            r is None <==> self.size() == 0,
            r is Some ==> self.search_result(*key, r.unwrap()),
    {
        match self.root {
            None => None,
            Some(r) => Some(r.search(self, key)),
        }
    }
}


impl<K: KeyOrd, V> Root<K, V> {
    /// Inserts `(key, value)`. A new key gets a new red node, attached where
    /// the search ended, and the coloring is then repaired; for a key that is
    /// present only the value is replaced, and the given key is handed back
    /// with the former value.
    pub fn insert_node(&mut self, key: K, value: V) -> (r: Result<NodeRef, (K, V)>)
        requires
            old(self).inv(),
            old(self).size() < usize::MAX,
        ensures
            final(self).inv(),
            as_map(final(self).entries()) == as_map(old(self).entries()).insert(key, value),
            match r {
                Ok(z) => {
                    &&& !has_key(old(self).entries(), key)
                    &&& final(self).size() == old(self).size() + 1
                    &&& final(self).valid(z)
                    &&& final(self).keys@[z.id()] == key
                },
                Err((k, v)) => {
                    &&& has_key(old(self).entries(), key)
                    &&& k == key
                    &&& v == as_map(old(self).entries())[key]
                    &&& final(self).size() == old(self).size()
                },
            },
    {
        let ghost t0 = *self;
        match self.search(&key) {
            None => {
                self.links.push(Links { parent: None, left: None, right: None, color: Color::Black });
                self.keys.push(key);
                self.vals.push(value);
                let z = NodeRef(0);
                self.root = Some(z);
                proof {
                    self.order@ = seq![0int];
                    self.pos@ = seq![0int];
                    self.lo@ = seq![0int];
                    self.hi@ = seq![1int];
                    self.bh@ = seq![1int];
                    assert(self.node_ok(0));
                    assert(bh_node_ok(*self, 0));
                    assert(crate::balance::red_ok(self.links@));
                    assert(self.entries() =~= seq![(key, value)]);
                    assert(t0.entries() =~= Seq::<(K, V)>::empty());
                    lemma_map_insert(t0.entries(), 0, key, value);
                    assert(t0.entries().insert(0, (key, value)) =~= seq![(key, value)]);
                }
                Ok(z)
            },
            Some(Ok(x)) => {
                let mut value = value;
                proof {
                    lemma_bh_frame(*self);
                }
                std::mem::swap(&mut self.vals[x.0], &mut value);
                proof {
                    t0.lemma_found_position(x);
                    let j = t0.pos@[x.id()];
                    lemma_map_index(t0.entries(), j);
                    lemma_map_update(t0.entries(), j, self.vals@[x.id()]);
                    assert forall|i: int| 0 <= i < self.size() implies #[trigger] self.node_ok(i) by {
                        assert(t0.node_ok(i));
                    }
                    assert(t0.node_ok(x.id()));
                    assert forall|i: int| 0 <= i < self.size() implies self.entries()[i] == t0.entries().update(
                        j,
                        (key, self.vals@[x.id()]),
                    )[i] by {
                        if i != j {
                            assert(t0.pos@[t0.order@[i]] == i);
                        }
                    }
                    assert(self.entries() =~= t0.entries().update(j, (key, self.vals@[x.id()])));
                    assert(has_key(t0.entries(), key));
                }
                Err((key, value))
            },
            Some(Err((p, side))) => {
                let n = self.links.len();
                let ghost g = t0.gap(p, side);
                let z = NodeRef::new(self, key, value);
                p.set_child(self, side, Some(z));
                proof {
                    let n = n as int;
                    self.order@ = t0.order@.insert(g, n);
                    self.pos@ = Seq::new((n + 1) as nat, |i: int| if i == n { g } else { shift_pos(t0.pos@[i], g) });
                    self.lo@ = Seq::new((n + 1) as nat, |i: int| if i == n { g } else { shift_bound(t0.lo@[i], g, side) });
                    self.hi@ = Seq::new((n + 1) as nat, |i: int| if i == n { g + 1 } else { shift_bound(t0.hi@[i], g, side) });
                    assert(self.links@ =~= t0.links@.update(p.id(), with_child(t0.links@[p.id()], side, Some(z))).push(
                        Links { parent: Some(p), left: None, right: None, color: Color::Red },
                    ));
                    self.bh@ = t0.bh@.push(0);
                    lemma_attach_shape(t0, *self, p, side, key, value);
                    lemma_attach_red(t0, *self, p, side, key, value);
                    lemma_attach_bh(t0, *self, p, side, key, value);
                    let e = self.entries();
                    assert forall|i: int, j: int| 0 <= i < j < e.len() implies (#[trigger] e[i]).0.less((#[trigger] e[j]).0) by {
                        if i < g && j < g {
                            assert(e[i] == t0.entries()[i] && e[j] == t0.entries()[j]);
                        } else if i < g && j == g {
                            assert(e[i].0 == t0.key_at(i));
                        } else if i < g {
                            assert(e[i].0 == t0.key_at(i));
                            assert(e[j].0 == t0.key_at(j - 1));
                            assert(t0.entries()[i] == e[i] && t0.entries()[j - 1] == e[j]);
                        } else if i == g {
                            assert(e[j].0 == t0.key_at(j - 1));
                        } else {
                            assert(e[i] == t0.entries()[i - 1] && e[j] == t0.entries()[j - 1]);
                        }
                    }
                    lemma_map_insert(t0.entries(), g, key, value);
                }
                let ghost t1 = *self;
                z.balance_after_insert(self);
                proof {
                    let e = self.entries();
                    assert(e == t1.entries());
                }
                Ok(z)
            },
        }
    }
}



impl<K: KeyOrd, V> Root<K, V> {
    /// Removes the entry with key `key` and returns it.
    pub fn remove_node(&mut self, key: &K) -> (r: Option<(K, V)>)
        requires
            old(self).inv(),
        ensures
            final(self).inv(),
            as_map(final(self).entries()) == as_map(old(self).entries()).remove(*key),
            r is Some <==> has_key(old(self).entries(), *key),
            r is Some ==> r.unwrap().0 == *key && r.unwrap().1 == as_map(old(self).entries())[*key],
            final(self).size() == old(self).size() - (if r is Some { 1int } else { 0 }),
    {
        let ghost t0 = *self;
        let x = match self.search(key) {
            Some(Ok(x)) => x,
            Some(Err((p, side))) => {
                proof {
                    self.lemma_brackets_absent(*key, self.gap(p, side));
                    self.lemma_absent(*key);
                    assert(as_map(self.entries()).remove(*key) =~= as_map(self.entries()));
                }
                return None;
            },
            None => {
                proof {
                    assert(as_map(self.entries()).remove(*key) =~= as_map(self.entries()));
                }
                return None;
            },
        };
        proof {
            t0.lemma_found_position(x);
            lemma_map_index(t0.entries(), t0.pos@[x.id()]);
            lemma_map_remove(t0.entries(), t0.pos@[x.id()]);
        }
        let (e, _) = self.remove_at(x, None);
        Some(e)
    }

    /// Takes node `v`, which has at most one child, out of the tree and
    /// frees it, repairing the coloring first: a red node simply goes; a
    /// black node's red child takes its place and turns black; a black leaf
    /// first has the missing black pushed up the tree. Returns its entry.
    #[verifier::spinoff_prover]
    #[verifier::rlimit(80)]
    pub fn excise(&mut self, v: NodeRef) -> (r: (K, V))
        requires
            old(self).shape_ok(),
            red_ok(old(self).links@),
            bh_ok(*old(self)),
            old(self).valid(v),
            old(self).links@[v.id()].left is None || old(self).links@[v.id()].right is None,
        ensures
            final(self).shape_ok(),
            red_ok(final(self).links@),
            bh_ok(*final(self)),
            final(self).entries() == old(self).entries().remove(old(self).pos@[v.id()]),
            final(self).size() == old(self).size() - 1,
            r == (old(self).keys@[v.id()], old(self).vals@[v.id()]),
            kept_after_removal(*old(self), *final(self), v.id()),
    {
        let ghost t0 = *self;
        proof {
            assert(self.node_ok(v.id()));
            assert(bh_node_ok(*self, v.id()));
        }
        let lv = v.links(self);
        let child = if lv.left.is_some() {
            lv.left
        } else {
            lv.right
        };
        proof {
            if let Some(c) = child {
                assert(self.node_ok(c.id()));
                assert(bh_node_ok(*self, c.id()));
                if let Some(g) = self.links@[c.id()].left {
                    assert(self.node_ok(g.id()));
                    assert(bh_node_ok(*self, g.id()));
                }
                if let Some(g) = self.links@[c.id()].right {
                    assert(self.node_ok(g.id()));
                    assert(bh_node_ok(*self, g.id()));
                }
            }
        }
        if v.is_black(self) {
            match child {
                Some(c) => {
                    proof {
                        crate::balance::lemma_blacken(*self, c.id());
                    }
                    let ghost tb = *self;
                    c.set_color(self, Color::Black);
                    proof {
                        let tc = *self;
                        tc.lemma_shape_ignores_values();
                        self.bh@ = tb.bh@.update(c.id(), 1);
                        assert forall|i: int| 0 <= i < self.size() && i != v.id() implies #[trigger] bh_node_ok(*self, i) by {
                            assert(tb.node_ok(i));
                            assert(bh_node_ok(tb, i));
                            if let Some(x) = tb.links@[i].left {
                                assert(tb.node_ok(x.id()));
                            }
                            if let Some(x) = tb.links@[i].right {
                                assert(tb.node_ok(x.id()));
                            }
                        }
                    }
                },
                None => {
                    if lv.parent.is_some() {
                        v.balance_after_remove(self);
                    }
                },
            }
        }
        let ghost t1 = *self;
        proof {
            assert(self.node_ok(v.id()));
            if let Some(c) = child {
                assert(self.node_ok(c.id()));
            }
        }
        v.unlink(self);
        let ghost t2 = *self;
        let r = v.deallocate(self);
        proof {
            assert(t1.pos@[v.id()] == t0.pos@[v.id()]);
            assert(kept_after_removal(t0, *self, v.id())) by {
                assert forall|i: int| 0 <= i < t0.size() && i != v.id() implies #[trigger] kept_node(t0, *self, v.id(), i) by {
                    assert(t1.pos@[i] == t0.pos@[i]);
                    assert(t2.pos@[i] == unshift_pos(t1.pos@[i], t1.pos@[v.id()]));
                    assert(t2.keys@[i] == t1.keys@[i]);
                }
            }
        }
        r
    }

    /// Removes the entry of node `x` and returns it, with the handle that
    /// node `follow` has afterwards. A node with two children first trades
    /// places with the greatest node of its left subtree, which then leaves
    /// the tree instead: its entry moves into `x`.
    pub fn remove_at(&mut self, x: NodeRef, follow: Option<NodeRef>) -> (r: ((K, V), Option<NodeRef>))
        requires
            old(self).inv(),
            old(self).valid(x),
            follow is Some ==> old(self).valid(follow.unwrap()) && follow.unwrap() != x,
        ensures
            final(self).inv(),
            final(self).entries() == old(self).entries().remove(old(self).pos@[x.id()]),
            r.0 == old(self).entries()[old(self).pos@[x.id()]],
            final(self).size() == old(self).size() - 1,
            follow is None ==> r.1 is None,
            follow is Some ==> r.1 is Some && final(self).valid(r.1.unwrap()) && final(self).pos@[r.1.unwrap().id()]
                == crate::tree::unshift_pos(old(self).pos@[follow.unwrap().id()], old(self).pos@[x.id()]),
    {
        let ghost t0 = *self;
        proof {
            assert(self.node_ok(x.id()));
            t0.lemma_found_position(x);
            lemma_map_remove(t0.entries(), t0.pos@[x.id()]);
            if let Some(f) = follow {
                assert(self.node_ok(f.id()));
            }
        }
        let ghost px = t0.pos@[x.id()];
        let lx = x.links(self);
        let victim = match (lx.left, lx.right) {
            (Some(l), Some(_)) => {
                proof {
                    assert(self.node_ok(l.id()));
                }
                l.max_child(self)
            },
            _ => x,
        };
        proof {
            assert(self.node_ok(victim.id()));
            if victim != x {
                assert(self.pos@[victim.id()] == px - 1);
            }
        }
        let ghost pm = self.pos@[victim.id()];
        let ghost t2 = *self;
        let (k, v) = self.excise(victim);
        let ghost t3 = *self;
        let last = self.links.len();
        let tracked_node = match follow {
            Some(f) => {
                if f.0 == victim.0 && victim.0 != x.0 {
                    Some(x)
                } else {
                    Some(f)
                }
            },
            None => None,
        };
        let handle = match tracked_node {
            Some(t) => {
                if t.0 == last {
                    Some(victim)
                } else {
                    Some(t)
                }
            },
            None => None,
        };
        proof {
            if let Some(f) = follow {
                let t = tracked_node.unwrap().id();
                assert(t != victim.id());
                assert(t0.node_ok(f.id()));
                assert(kept_node(t2, t3, victim.id(), t));
                assert(t2.keys@[t] == t3.keys@[handle.unwrap().id()]);
                assert(t3.pos@[handle.unwrap().id()] == unshift_pos(t0.pos@[t], pm));
                assert(t0.pos@[f.id()] != px);
            }
        }
        if victim.0 != x.0 {
            let last = self.links.len();
            let xi = if x.0 == last {
                victim.0
            } else {
                x.0
            };
            let mut k = k;
            let mut v = v;
            std::mem::swap(&mut self.keys[xi], &mut k);
            std::mem::swap(&mut self.vals[xi], &mut v);
            proof {
                let e0 = t0.entries();
                assert(kept_node(t2, t3, victim.id(), x.id()));
                assert(t2.keys@[x.id()] == t3.keys@[xi as int]);
                assert(t3.pos@[xi as int] == pm);
                lemma_bh_frame(t3);
                assert(crate::balance::bh_ok(*self));
                assert(t3.keys@[xi as int] == t0.keys@[x.id()]);
                assert(t3.vals@[xi as int] == t0.vals@[x.id()]);
                assert(self.order@[pm] == xi as int) by {
                    assert(t3.node_ok(xi as int));
                }
                assert forall|i: int| 0 <= i < self.size() implies #[trigger] self.node_ok(i) by {
                    assert(t3.node_ok(i));
                }
                assert(t3.entries() == e0.remove(pm));
                assert forall|j: int| 0 <= j < self.order@.len() implies self.entries()[j] == e0.remove(px)[j] by {
                    if j != pm {
                        assert(t3.pos@[t3.order@[j]] == j);
                        assert(self.entries()[j] == t3.entries()[j]);
                    } else {
                        assert(e0[pm] == (t0.keys@[victim.id()], t0.vals@[victim.id()])) by {
                            assert(t0.node_ok(victim.id()));
                        }
                    }
                }
                assert(self.entries() =~= e0.remove(px));
                assert(e0[px] == (t0.keys@[x.id()], t0.vals@[x.id()]));
            }
            ((k, v), handle)
        } else {
            proof {
                assert(self.entries() == t0.entries().remove(px));
            }
            ((k, v), handle)
        }
    }
}


impl<K, V> Root<K, V> {
    /// Every node but the root has a parent, exactly one of whose two child
    /// links leads back to it; the root has none.
    pub proof fn lemma_back_pointers(&self, i: int)
        requires
            self.shape_ok(),
            0 <= i < self.size(),
        ensures
            match self.links@[i].parent {
                Some(p) => {
                    &&& 0 <= p.id() < self.size()
                    &&& is_node(self.links@[p.id()].left, i) != is_node(self.links@[p.id()].right, i)
                },
                None => is_node(self.root, i),
            },
            self.links@[i].left is Some ==> is_node(self.links@[self.links@[i].left.unwrap().id()].parent, i),
            self.links@[i].right is Some ==> is_node(self.links@[self.links@[i].right.unwrap().id()].parent, i),
    {
        assert(self.node_ok(i));
        if let Some(p) = self.links@[i].parent {
            assert(self.node_ok(p.id()));
            if let Some(l) = self.links@[p.id()].left {
                assert(self.node_ok(l.id()));
            }
            if let Some(r) = self.links@[p.id()].right {
                assert(self.node_ok(r.id()));
            }
        }
    }

    /// The stored size is the number of entries an in-order walk visits.
    pub proof fn lemma_size(&self)
        requires
            self.shape_ok(),
        ensures
            self.entries().len() == self.size(),
    {
    }
}

impl<K: KeyOrd, V> Root<K, V> {
    /// Search-tree order at every node: the keys of its left subtree are
    /// less than its key, those of its right subtree greater.
    pub proof fn lemma_search_order(&self, i: int)
        requires
            self.inv(),
            0 <= i < self.size(),
        ensures
            forall|j: int|
                self.lo@[i] <= j < self.pos@[i] ==> (#[trigger] self.key_at(j)).less(self.keys@[i]),
            forall|j: int|
                self.pos@[i] < j < self.hi@[i] ==> self.keys@[i].less(#[trigger] self.key_at(j)),
    {
        assert(self.node_ok(i));
        assert(self.key_at(self.pos@[i]) == self.keys@[i]);
        assert forall|j: int| self.lo@[i] <= j < self.pos@[i] implies (#[trigger] self.key_at(j)).less(self.keys@[i]) by {
            assert(self.entries()[j].0 == self.key_at(j));
            assert(self.entries()[self.pos@[i]].0 == self.keys@[i]);
        }
        assert forall|j: int| self.pos@[i] < j < self.hi@[i] implies self.keys@[i].less(#[trigger] self.key_at(j)) by {
            assert(self.entries()[j].0 == self.key_at(j));
            assert(self.entries()[self.pos@[i]].0 == self.keys@[i]);
        }
    }
}

impl NodeRef {
    /// Unlinks this node, which has at most one child, from the tree: the
    /// child, if any, takes its place. The node's own links are cleared.
    pub fn unlink<K, V>(self, tree: &mut Root<K, V>)
        requires
            old(tree).shape_ok(),
            old(tree).valid(self),
            old(tree).links@[self.id()].left is None || old(tree).links@[self.id()].right is None,
        ensures
            final(tree).detached_ok(self.id()),
            final(tree).entries() == old(tree).entries().remove(old(tree).pos@[self.id()]),
            final(tree).keys@ == old(tree).keys@,
            final(tree).vals@ == old(tree).vals@,
            forall|i: int| 0 <= i < old(tree).size() && i != self.id() ==> #[trigger] final(tree).pos@[i] == unshift_pos(old(tree).pos@[i], old(tree).pos@[self.id()]),
            red_ok(old(tree).links@) && black_or(
                old(tree).links@,
                if old(tree).links@[self.id()].left is Some {
                    old(tree).links@[self.id()].left
                } else {
                    old(tree).links@[self.id()].right
                },
                -1,
            ) ==> red_ok(final(tree).links@),
            final(tree).bh@ == old(tree).bh@,
            bh_done(*old(tree), self.id()) && (old(tree).links@[self.id()].parent is None || bh_of(
                *old(tree),
                if old(tree).links@[self.id()].left is Some {
                    old(tree).links@[self.id()].left
                } else {
                    old(tree).links@[self.id()].right
                },
            ) == old(tree).bh@[self.id()]) ==> bh_done(*final(tree), self.id()),
    {
        let ghost t0 = *tree;
        proof {
            assert(tree.node_ok(self.id()));
        }
        let l = tree.links[self.0];
        let c = if l.left.is_some() {
            l.left
        } else {
            l.right
        };
        if let Some(ch) = c {
            let mut lc = tree.links[ch.0];
            lc.parent = l.parent;
            tree.links.set(ch.0, lc);
        }
        match l.parent {
            Some(q) => {
                proof {
                    assert(t0.node_ok(q.id()));
                }
                let mut lq = tree.links[q.0];
                let on_left = match lq.left {
                    Some(x) => x.0 == self.0,
                    None => false,
                };
                if on_left {
                    lq.left = c;
                } else {
                    lq.right = c;
                }
                tree.links.set(q.0, lq);
            },
            None => {
                tree.root = c;
            },
        }
        tree.links.set(self.0, Links { parent: None, left: None, right: None, color: l.color });
        proof {
            let n = t0.size();
            let v = self.id();
            let pv = t0.pos@[v];
            tree.order@ = t0.order@.remove(pv);
            tree.pos@ = removed_pos(t0.pos@, v, pv);
            tree.lo@ = removed_bounds(t0.lo@, v, pv);
            tree.hi@ = removed_bounds(t0.hi@, v, pv);
            if let Some(x) = t0.links@[v].left {
                assert(t0.node_ok(x.id()));
            }
            if let Some(x) = t0.links@[v].right {
                assert(t0.node_ok(x.id()));
            }
            assert(tree.links@ =~= spliced_links(t0.links@, v));
            if red_ok(t0.links@) && black_or(
                t0.links@,
                if t0.links@[v].left is Some { t0.links@[v].left } else { t0.links@[v].right },
                -1,
            ) {
                lemma_splice_red(t0, v);
            }
            assert(tree.keys@ == t0.keys@);
            assert(tree.root == (if t0.links@[v].parent is None { c } else { t0.root }));
            assert(tree.order@ == t0.order@.remove(pv));
            lemma_splice_shape(t0, *tree, v);
            if bh_done(t0, v) && (t0.links@[v].parent is None || bh_of(
                t0,
                if t0.links@[v].left is Some { t0.links@[v].left } else { t0.links@[v].right },
            ) == t0.bh@[v]) {
                lemma_splice_bh(t0, *tree, v);
            }
        }
    }

    /// Frees this unlinked node and hands out its key and value. The last
    /// node of the arena moves into the freed slot, and the links to it are
    /// redirected.
    #[verifier::rlimit(80)]
    pub fn deallocate<K, V>(self, tree: &mut Root<K, V>) -> (r: (K, V))
        requires
            old(tree).detached_ok(self.id()),
        ensures
            final(tree).shape_ok(),
            final(tree).entries() == old(tree).entries(),
            final(tree).size() == old(tree).size() - 1,
            r == (old(tree).keys@[self.id()], old(tree).vals@[self.id()]),
            red_ok(old(tree).links@) ==> red_ok(final(tree).links@),
            bh_done(*old(tree), self.id()) ==> bh_ok(*final(tree)),
            forall|i: int|
                0 <= i < old(tree).size() && i != self.id() ==> {
                    let j = if i == old(tree).size() - 1 { self.id() } else { i };
                    &&& 0 <= j < final(tree).size()
                    &&& #[trigger] old(tree).keys@[i] == final(tree).keys@[j]
                    &&& old(tree).vals@[i] == final(tree).vals@[j]
                    &&& old(tree).pos@[i] == final(tree).pos@[j]
                },
    {
        let ghost t1 = *tree;
        let last = tree.links.len() - 1;
        if self.0 != last {
            let ll = tree.links[last];
            proof {
                assert(t1.node_ok(last as int));
            }
            if let Some(q) = ll.parent {
                proof {
                    assert(t1.node_ok(q.id()));
                }
                let mut lq = tree.links[q.0];
                let on_left = match lq.left {
                    Some(x) => x.0 == last,
                    None => false,
                };
                if on_left {
                    lq.left = Some(self);
                } else {
                    lq.right = Some(self);
                }
                tree.links.set(q.0, lq);
            }
            if let Some(c) = ll.left {
                let mut lc = tree.links[c.0];
                lc.parent = Some(self);
                tree.links.set(c.0, lc);
            }
            if let Some(c) = ll.right {
                let mut lc = tree.links[c.0];
                lc.parent = Some(self);
                tree.links.set(c.0, lc);
            }
            if let Some(r) = tree.root {
                if r.0 == last {
                    tree.root = Some(self);
                }
            }
        }
        let ghost t1b = *tree;
        let l = tree.links.swap_remove(self.0);
        let k = tree.keys.swap_remove(self.0);
        let v = tree.vals.swap_remove(self.0);
        proof {
            let n = t1.size();
            let lastg = n - 1;
            let vi = self.id();
            tree.order@ = renamed_order(t1.order@, lastg, vi);
            tree.pos@ = moved_last(t1.pos@, vi);
            tree.lo@ = moved_last(t1.lo@, vi);
            tree.hi@ = moved_last(t1.hi@, vi);
            tree.bh@ = moved_last(t1.bh@, vi);
            if vi != lastg {
                assert(t1b.links@ =~= redirected_links(t1.links@, self));
                lemma_redirected(t1, self);
            } else {
                assert(t1b.links@ == t1.links@);
                assert forall|i: int| 0 <= i < n - 1 implies tree.links@[i] == compacted_links(t1.links@, self)[i] by {
                    assert(t1.node_ok(i));
                    let ls = t1.links@[i];
                    if let Some(x) = ls.left {
                        assert(t1.node_ok(x.id()));
                    }
                    if let Some(x) = ls.right {
                        assert(t1.node_ok(x.id()));
                    }
                    if let Some(x) = ls.parent {
                        assert(t1.node_ok(x.id()));
                    }
                }
            }
            assert(tree.links@ =~= compacted_links(t1.links@, self));
            if red_ok(t1.links@) {
                lemma_compact_red(t1, self);
            }
            assert(tree.keys@ =~= moved_last(t1.keys@, vi));
            assert(tree.vals@ =~= moved_last(t1.vals@, vi));
            lemma_compact_shape(t1, *tree, self);
            if bh_done(t1, vi) {
                lemma_compact_bh(t1, *tree, self);
            }
        }
        (k, v)
    }
}

impl NodeRef {
    /// Looks `k` up in the subtree of this node, where it must lie if present.
    pub fn search<K: KeyOrd, V>(self, tree: &Root<K, V>, key: &K) -> (r: Result<NodeRef, (NodeRef, ChildIndex)>)
        requires
            tree.inv(),
            tree.valid(self),
            tree.brackets(*key, tree.lo@[self.id()], tree.hi@[self.id()]),
        ensures
            tree.search_result(*key, r),
    {
        let mut cur = self;
        loop
            invariant
                tree.inv(),
                tree.valid(cur),
                tree.brackets(*key, tree.lo@[cur.id()], tree.hi@[cur.id()]),
            decreases tree.hi@[cur.id()] - tree.lo@[cur.id()],
        {
            proof {
                assert(tree.node_ok(cur.id()));
            }
            let ghost p = tree.pos@[cur.id()];
            let idx = match key.compare(&tree.keys[cur.0]) {
                Ordering::Less => {
                    proof {
                        assert(tree.key_at(p) == tree.keys@[cur.id()]);
                        assert forall|j: int| p <= j < tree.size() implies key.less(#[trigger] tree.key_at(j)) by {
                            if j > p {
                                assert(tree.entries()[p].0 == tree.key_at(p));
                                assert(tree.entries()[j].0 == tree.key_at(j));
                                K::lemma_transitive(*key, tree.key_at(p), tree.key_at(j));
                            }
                        }
                    }
                    ChildIndex::Left
                },
                Ordering::Equal => {
                    return Ok(cur);
                },
                Ordering::Greater => {
                    proof {
                        assert(tree.key_at(p) == tree.keys@[cur.id()]);
                        assert forall|j: int| 0 <= j <= p implies (#[trigger] tree.key_at(j)).less(*key) by {
                            if j < p {
                                assert(tree.entries()[p].0 == tree.key_at(p));
                                assert(tree.entries()[j].0 == tree.key_at(j));
                                K::lemma_transitive(tree.key_at(j), tree.key_at(p), *key);
                            }
                        }
                    }
                    ChildIndex::Right
                },
            };
            match cur.child(tree, idx) {
                Some(c) => {
                    proof {
                        assert(tree.node_ok(c.id()));
                    }
                    cur = c;
                },
                None => {
                    return Err((cur, idx));
                },
            }
        }
    }
}

} // verus!
