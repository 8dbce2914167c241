//! Rotation and the two rebalancing loops.
use crate::node::{ChildIndex, Color, Links, NodeRef, Root, child_of, is_node, put_child, with_child};
use vstd::prelude::*;

verus! {

impl<K, V> Root<K, V> {
    /// Only links and subtree ranges may differ: the entries and their order are kept.
    pub open spec fn same_entries(&self, other: &Self) -> bool {
        &&& self.keys@ == other.keys@
        &&& self.vals@ == other.vals@
        &&& self.order@ == other.order@
        &&& self.pos@ == other.pos@
        &&& self.links@.len() == other.links@.len()
    }
}


/// The link table after rotating node `t` with its child `c` on `side`.
pub open spec fn rotated_links(l: Seq<Links>, tn: NodeRef, cn: NodeRef, side: ChildIndex) -> Seq<Links> {
    let t = tn.id();
    let c = cn.id();
    let opp = match side {
        ChildIndex::Left => ChildIndex::Right,
        ChildIndex::Right => ChildIndex::Left,
    };
    let b = child_of(l[c], opp);
    let q = l[t].parent;
    let l1 = l.update(t, with_child(Links { parent: Some(cn), ..l[t] }, side, b)).update(
        c,
        with_child(Links { parent: q, ..l[c] }, opp, Some(tn)),
    );
    let l2 = match b {
        Some(x) => l1.update(x.id(), Links { parent: Some(tn), ..l1[x.id()] }),
        None => l1,
    };
    match q {
        Some(x) => l2.update(
            x.id(),
            if is_node(l[x.id()].left, t) {
                Links { left: Some(cn), ..l2[x.id()] }
            } else {
                Links { right: Some(cn), ..l2[x.id()] }
            },
        ),
        None => l2,
    }
}

pub open spec fn rotated_ok<K, V>(t0: Root<K, V>, t1: Root<K, V>, tn: NodeRef, cn: NodeRef, side: ChildIndex) -> bool {
    let t = tn.id();
    let c = cn.id();
    &&& t0.shape_ok()
    &&& 0 <= t < t0.size()
    &&& is_node(child_of(t0.links@[t], side), c)
    &&& t1.same_entries(&t0)
    &&& t1.links@ == rotated_links(t0.links@, tn, cn, side)
    &&& t1.root == (if t0.links@[t].parent is None { Some(cn) } else { t0.root })
    &&& match side {
        ChildIndex::Left => {
            &&& t1.lo@ == t0.lo@.update(t, t0.pos@[c] + 1).update(c, t0.lo@[t])
            &&& t1.hi@ == t0.hi@.update(c, t0.hi@[t])
        },
        ChildIndex::Right => {
            &&& t1.hi@ == t0.hi@.update(t, t0.pos@[c]).update(c, t0.hi@[t])
            &&& t1.lo@ == t0.lo@.update(c, t0.lo@[t])
        },
    }
}

pub open spec fn opposite(side: ChildIndex) -> ChildIndex {
    match side {
        ChildIndex::Left => ChildIndex::Right,
        ChildIndex::Right => ChildIndex::Left,
    }
}

/// The nodes a rotation touches are distinct, and its link table in closed form.
proof fn lemma_rotate_facts<K, V>(t0: Root<K, V>, t1: Root<K, V>, tn: NodeRef, cn: NodeRef, side: ChildIndex)
    requires
        t0.shape_ok(),
        0 <= tn.id() < t0.size(),
        is_node(child_of(t0.links@[tn.id()], side), cn.id()),
        t1.links@ == rotated_links(t0.links@, tn, cn, side),
    ensures
        0 <= cn.id() < t0.size(),
        cn.id() != tn.id(),
        t0.links@[cn.id()].parent == Some(tn),
        t0.links@[tn.id()].parent is None ==> t0.root == Some(tn),
        t1.links@[tn.id()] == with_child(Links { parent: Some(cn), ..t0.links@[tn.id()] }, side, child_of(t0.links@[cn.id()], opposite(side))),
        t1.links@[cn.id()] == with_child(Links { parent: t0.links@[tn.id()].parent, ..t0.links@[cn.id()] }, opposite(side), Some(tn)),
        child_of(t0.links@[cn.id()], opposite(side)) is Some ==> {
            let x = child_of(t0.links@[cn.id()], opposite(side)).unwrap().id();
            &&& 0 <= x < t0.size()
            &&& x != tn.id() && x != cn.id()
            &&& t0.links@[x].parent == Some(cn)
            &&& t1.links@[x] == Links { parent: Some(tn), ..t0.links@[x] }
        },
        t0.links@[tn.id()].parent is Some ==> {
            let x = t0.links@[tn.id()].parent.unwrap().id();
            &&& 0 <= x < t0.size()
            &&& x != tn.id() && x != cn.id()
            &&& (child_of(t0.links@[cn.id()], opposite(side)) is Some ==> x != child_of(t0.links@[cn.id()], opposite(side)).unwrap().id())
            &&& t1.links@[x] == if is_node(t0.links@[x].left, tn.id()) {
                Links { left: Some(cn), ..t0.links@[x] }
            } else {
                Links { right: Some(cn), ..t0.links@[x] }
            }
        },
        forall|x: int|
            0 <= x < t0.size() && x != tn.id() && x != cn.id() && !is_node(child_of(t0.links@[cn.id()], opposite(side)), x) && !is_node(
                t0.links@[tn.id()].parent,
                x,
            ) ==> t1.links@[x] == t0.links@[x],
{
    let t = tn.id();
    let c = cn.id();
    assert(t0.node_ok(t));
    assert(t0.node_ok(c));
    if let Some(x) = child_of(t0.links@[c], opposite(side)) {
        assert(t0.node_ok(x.id()));
    }
    if let Some(x) = t0.links@[t].parent {
        assert(t0.node_ok(x.id()));
    }
}

/// After a rotation, a node that is neither rotated nor relinked still
/// satisfies its link conditions.
proof fn lemma_rotate_other<K, V>(t0: Root<K, V>, t1: Root<K, V>, tn: NodeRef, cn: NodeRef, side: ChildIndex, i: int)
    requires
        rotated_ok(t0, t1, tn, cn, side),
        0 <= i < t0.size(),
        i != tn.id(),
        i != cn.id(),
        !is_node(child_of(t0.links@[cn.id()], opposite(side)), i),
        !is_node(t0.links@[tn.id()].parent, i),
    ensures
        t1.node_ok(i),
{
    let t = tn.id();
    let c = cn.id();
    lemma_rotate_facts(t0, t1, tn, cn, side);
    assert(t0.node_ok(i));
    let l = t0.links@[i];
    assert(t1.links@[i] == l);
    assert(t1.lo@[i] == t0.lo@[i] && t1.hi@[i] == t0.hi@[i]);
    if let Some(x) = l.left {
        assert(t0.node_ok(x.id()));
        assert(x.id() != t && x.id() != c);
        assert(t1.links@[x.id()].parent == t0.links@[x.id()].parent);
        assert(t1.lo@[x.id()] == t0.lo@[x.id()] && t1.hi@[x.id()] == t0.hi@[x.id()]);
    }
    if let Some(x) = l.right {
        assert(t0.node_ok(x.id()));
        assert(x.id() != t && x.id() != c);
        assert(t1.links@[x.id()].parent == t0.links@[x.id()].parent);
        assert(t1.lo@[x.id()] == t0.lo@[x.id()] && t1.hi@[x.id()] == t0.hi@[x.id()]);
    }
    match l.parent {
        Some(x) => {
            let p = x.id();
            assert(t0.node_ok(p));
            if p == t {
                assert(is_node(child_of(t0.links@[t], opposite(side)), i));
                assert(is_node(child_of(t1.links@[t], opposite(side)), i));
            } else if p == c {
                assert(is_node(child_of(t0.links@[c], side), i));
                assert(is_node(child_of(t1.links@[c], side), i));
            } else if is_node(child_of(t0.links@[c], opposite(side)), p) {
                assert(t1.links@[p].left == t0.links@[p].left);
                assert(t1.links@[p].right == t0.links@[p].right);
            } else if is_node(t0.links@[t].parent, p) {
                assert(t0.node_ok(t));
                if is_node(t0.links@[p].left, t) {
                    assert(is_node(t0.links@[p].right, i));
                    assert(t1.links@[p].right == t0.links@[p].right);
                } else {
                    assert(is_node(t0.links@[p].left, i));
                    assert(t1.links@[p].left == t0.links@[p].left);
                }
            } else {
                assert(t1.links@[p] == t0.links@[p]);
            }
        },
        None => {
            assert(t0.node_ok(t));
        },
    }
}

proof fn lemma_rotate_node<K, V>(t0: Root<K, V>, t1: Root<K, V>, tn: NodeRef, cn: NodeRef, side: ChildIndex, i: int)
    requires
        rotated_ok(t0, t1, tn, cn, side),
        0 <= i < t0.size(),
    ensures
        t1.node_ok(i),
{
    let t = tn.id();
    let c = cn.id();
    lemma_rotate_facts(t0, t1, tn, cn, side);
    let b = child_of(t0.links@[c], opposite(side));
    let q = t0.links@[t].parent;
    if i == t {
        lemma_rotate_target(t0, t1, tn, cn, side);
    } else if i == c {
        lemma_rotate_pivot(t0, t1, tn, cn, side);
    } else if is_node(b, i) {
        lemma_rotate_moved(t0, t1, tn, cn, side);
    } else if is_node(q, i) {
        lemma_rotate_parent(t0, t1, tn, cn, side);
    } else {
        lemma_rotate_other(t0, t1, tn, cn, side, i);
    }
}

proof fn lemma_rotate_target<K, V>(t0: Root<K, V>, t1: Root<K, V>, tn: NodeRef, cn: NodeRef, side: ChildIndex)
    requires
        rotated_ok(t0, t1, tn, cn, side),
    ensures
        t1.node_ok(tn.id()),
{
    let t = tn.id();
    let c = cn.id();
    lemma_rotate_facts(t0, t1, tn, cn, side);
    assert(t0.node_ok(t));
    assert(t0.node_ok(c));
    if let Some(x) = child_of(t0.links@[c], opposite(side)) {
        assert(t0.node_ok(x.id()));
    }
    if let Some(x) = child_of(t0.links@[t], opposite(side)) {
        assert(t0.node_ok(x.id()));
        assert(x.id() != c);
        assert(t1.links@[x.id()].parent == t0.links@[x.id()].parent);
    }
}

proof fn lemma_rotate_pivot<K, V>(t0: Root<K, V>, t1: Root<K, V>, tn: NodeRef, cn: NodeRef, side: ChildIndex)
    requires
        rotated_ok(t0, t1, tn, cn, side),
    ensures
        t1.node_ok(cn.id()),
{
    let t = tn.id();
    let c = cn.id();
    lemma_rotate_facts(t0, t1, tn, cn, side);
    assert(t0.node_ok(t));
    assert(t0.node_ok(c));
    if let Some(x) = child_of(t0.links@[c], side) {
        assert(t0.node_ok(x.id()));
        assert(x.id() != t);
        assert(t1.links@[x.id()].parent == t0.links@[x.id()].parent);
        assert(t1.lo@[x.id()] == t0.lo@[x.id()] && t1.hi@[x.id()] == t0.hi@[x.id()]);
    }
    if let Some(x) = t0.links@[t].parent {
        assert(t0.node_ok(x.id()));
    }
}

proof fn lemma_rotate_moved<K, V>(t0: Root<K, V>, t1: Root<K, V>, tn: NodeRef, cn: NodeRef, side: ChildIndex)
    requires
        rotated_ok(t0, t1, tn, cn, side),
        child_of(t0.links@[cn.id()], opposite(side)) is Some,
    ensures
        t1.node_ok(child_of(t0.links@[cn.id()], opposite(side)).unwrap().id()),
{
    let t = tn.id();
    let c = cn.id();
    lemma_rotate_facts(t0, t1, tn, cn, side);
    let b = child_of(t0.links@[c], opposite(side)).unwrap().id();
    assert(t0.node_ok(t));
    assert(t0.node_ok(c));
    assert(t0.node_ok(b));
    let l = t0.links@[b];
    if let Some(x) = l.left {
        assert(t0.node_ok(x.id()));
        assert(x.id() != t && x.id() != c);
        assert(t1.links@[x.id()].parent == t0.links@[x.id()].parent);
    }
    if let Some(x) = l.right {
        assert(t0.node_ok(x.id()));
        assert(x.id() != t && x.id() != c);
        assert(t1.links@[x.id()].parent == t0.links@[x.id()].parent);
    }
    assert(is_node(child_of(t1.links@[t], side), b));
}

proof fn lemma_rotate_parent<K, V>(t0: Root<K, V>, t1: Root<K, V>, tn: NodeRef, cn: NodeRef, side: ChildIndex)
    requires
        rotated_ok(t0, t1, tn, cn, side),
        t0.links@[tn.id()].parent is Some,
    ensures
        t1.node_ok(t0.links@[tn.id()].parent.unwrap().id()),
{
    let t = tn.id();
    let c = cn.id();
    lemma_rotate_facts(t0, t1, tn, cn, side);
    let q = t0.links@[t].parent.unwrap().id();
    assert(t0.node_ok(t));
    assert(t0.node_ok(c));
    assert(t0.node_ok(q));
    let l = t0.links@[q];
    if let Some(x) = l.left {
        assert(t0.node_ok(x.id()));
        if x.id() != t {
            assert(x.id() != c);
            assert(t1.links@[x.id()].parent == t0.links@[x.id()].parent);
        }
    }
    if let Some(x) = l.right {
        assert(t0.node_ok(x.id()));
        if x.id() != t {
            assert(x.id() != c);
            assert(t1.links@[x.id()].parent == t0.links@[x.id()].parent);
        }
    }
    if let Some(x) = l.parent {
        assert(t0.node_ok(x.id()));
        assert(x.id() != t && x.id() != c);
        assert(t1.links@[x.id()].left == t0.links@[x.id()].left);
        assert(t1.links@[x.id()].right == t0.links@[x.id()].right);
    }
}

proof fn lemma_rotate_shape<K, V>(t0: Root<K, V>, t1: Root<K, V>, tn: NodeRef, cn: NodeRef, side: ChildIndex)
    requires
        rotated_ok(t0, t1, tn, cn, side),
    ensures
        t1.shape_ok(),
        t1.entries() == t0.entries(),
{
    let t = tn.id();
    let c = cn.id();
    assert forall|i: int| 0 <= i < t1.size() implies #[trigger] t1.node_ok(i) by {
        lemma_rotate_node(t0, t1, tn, cn, side, i);
    }
    assert(t0.node_ok(t));
    assert(t0.node_ok(c));
    if let Some(r) = t1.root {
        assert(t0.node_ok(r.id()));
    }
    assert(t1.entries() =~= t0.entries());
}


/// `c` is missing, black, or the node `z`.
pub open spec fn black_or(l: Seq<Links>, c: Option<NodeRef>, z: int) -> bool {
    match c {
        None => true,
        Some(x) => x.id() == z || l[x.id()].color == Color::Black,
    }
}

/// No red node has a red child, except that the node `z` may be red under
/// a red parent.
pub open spec fn red_ok_except(l: Seq<Links>, z: int) -> bool {
    forall|i: int|
        0 <= i < l.len() && (#[trigger] l[i]).color == Color::Red ==> black_or(l, l[i].left, z) && black_or(
            l,
            l[i].right,
            z,
        )
}

/// No red node has a red child.
pub open spec fn red_ok(l: Seq<Links>) -> bool {
    red_ok_except(l, -1)
}

pub open spec fn is_red_at(l: Seq<Links>, i: int) -> bool {
    l[i].color == Color::Red
}

/// The first rotation of the insertion repair: `z` is the inner child of
/// its red parent `p`; rotating `p` toward `z` makes `p` the outer child of
/// `z`, and `p` becomes the one red node that may sit under a red parent.
proof fn lemma_inner_rotation<K, V>(t0: Root<K, V>, t1: Root<K, V>, p: NodeRef, z: NodeRef, zi: ChildIndex)
    requires
        t0.shape_ok(),
        t0.valid(p),
        is_node(child_of(t0.links@[p.id()], zi), z.id()),
        is_red_at(t0.links@, z.id()),
        is_red_at(t0.links@, p.id()),
        red_ok_except(t0.links@, z.id()),
        t1.links@ == rotated_links(t0.links@, p, z, zi),
    ensures
        red_ok_except(t1.links@, p.id()),
{
    lemma_rotate_facts(t0, t1, p, z, zi);
    let l0 = t0.links@;
    let l1 = t1.links@;
    assert(t0.node_ok(p.id()));
    assert(t0.node_ok(z.id()));
    assert forall|i: int| 0 <= i < l1.len() && (#[trigger] l1[i]).color == Color::Red implies black_or(l1, l1[i].left, p.id())
        && black_or(l1, l1[i].right, p.id()) by {
        assert(t0.node_ok(i));
        if let Some(x) = l0[i].left {
            assert(t0.node_ok(x.id()));
        }
        if let Some(x) = l0[i].right {
            assert(t0.node_ok(x.id()));
        }
        if let Some(x) = l0[z.id()].left {
            assert(t0.node_ok(x.id()));
        }
        if let Some(x) = l0[z.id()].right {
            assert(t0.node_ok(x.id()));
        }
        if let Some(x) = l0[p.id()].left {
            assert(t0.node_ok(x.id()));
        }
        if let Some(x) = l0[p.id()].right {
            assert(t0.node_ok(x.id()));
        }
        if let Some(q) = l0[p.id()].parent {
            assert(t0.node_ok(q.id()));
        }
    }
}

/// The last step of the insertion repair: `o` is the outer child of its
/// red parent `p`, whose parent is `g` and whose sibling is not red. With
/// `p` black and `g` red, rotating `g` toward `p` leaves no red node with a
/// red child.
proof fn lemma_outer_rotation<K, V>(
    t0: Root<K, V>,
    t1: Root<K, V>,
    t2: Root<K, V>,
    g: NodeRef,
    p: NodeRef,
    o: NodeRef,
    s: ChildIndex,
)
    requires
        t0.shape_ok(),
        t0.valid(g),
        is_node(child_of(t0.links@[g.id()], s), p.id()),
        is_node(child_of(t0.links@[p.id()], s), o.id()),
        is_red_at(t0.links@, o.id()),
        is_red_at(t0.links@, p.id()),
        black_or(t0.links@, child_of(t0.links@[g.id()], opposite(s)), -1),
        red_ok_except(t0.links@, o.id()),
        t1.shape_ok(),
        t1.links@ == t0.links@.update(p.id(), Links { color: Color::Black, ..t0.links@[p.id()] }).update(
            g.id(),
            Links { color: Color::Red, ..t0.links@[g.id()] },
        ),
        t2.links@ == rotated_links(t1.links@, g, p, s),
    ensures
        red_ok(t2.links@),
{
    let l0 = t0.links@;
    let l1 = t1.links@;
    let l2 = t2.links@;
    assert(t0.node_ok(g.id()));
    assert(t0.node_ok(p.id()));
    assert(t0.node_ok(o.id()));
    lemma_rotate_facts(t1, t2, g, p, s);
    assert forall|i: int| 0 <= i < l2.len() && (#[trigger] l2[i]).color == Color::Red implies black_or(l2, l2[i].left, -1)
        && black_or(l2, l2[i].right, -1) by {
        lemma_outer_node(t0, t1, t2, g, p, o, s, i);
    }
}

#[verifier::rlimit(60)]
proof fn lemma_outer_node<K, V>(
    t0: Root<K, V>,
    t1: Root<K, V>,
    t2: Root<K, V>,
    g: NodeRef,
    p: NodeRef,
    o: NodeRef,
    s: ChildIndex,
    i: int,
)
    requires
        t0.shape_ok(),
        t0.valid(g),
        is_node(child_of(t0.links@[g.id()], s), p.id()),
        is_node(child_of(t0.links@[p.id()], s), o.id()),
        is_red_at(t0.links@, o.id()),
        is_red_at(t0.links@, p.id()),
        black_or(t0.links@, child_of(t0.links@[g.id()], opposite(s)), -1),
        red_ok_except(t0.links@, o.id()),
        t1.shape_ok(),
        t1.links@ == t0.links@.update(p.id(), Links { color: Color::Black, ..t0.links@[p.id()] }).update(
            g.id(),
            Links { color: Color::Red, ..t0.links@[g.id()] },
        ),
        t2.links@ == rotated_links(t1.links@, g, p, s),
        0 <= i < t2.links@.len(),
        t2.links@[i].color == Color::Red,
    ensures
        black_or(t2.links@, t2.links@[i].left, -1) && black_or(t2.links@, t2.links@[i].right, -1),
{
    let l0 = t0.links@;
    let l1 = t1.links@;
    let l2 = t2.links@;
    lemma_rotate_facts(t1, t2, g, p, s);
    assert(t0.node_ok(g.id()));
    assert(t0.node_ok(p.id()));
    assert(t0.node_ok(o.id()));
    assert(t0.node_ok(i));
    let b = child_of(l0[p.id()], opposite(s));
    let u = child_of(l0[g.id()], opposite(s));
    assert(l0[p.id()].color == Color::Red);
    if let Some(x) = b {
        assert(t0.node_ok(x.id()));
        assert(x.id() != o.id());
        assert(l0[x.id()].color == Color::Black);
        assert(l2[x.id()].color == Color::Black);
    }
    if let Some(x) = u {
        assert(t0.node_ok(x.id()));
        assert(l2[x.id()].color == l0[x.id()].color);
    }
    if let Some(x) = l0[o.id()].left {
        assert(t0.node_ok(x.id()));
        assert(l2[x.id()].color == l0[x.id()].color);
    }
    if let Some(x) = l0[o.id()].right {
        assert(t0.node_ok(x.id()));
        assert(l2[x.id()].color == l0[x.id()].color);
    }
    if i == g.id() {
        assert(l2[i].color == Color::Red);
    } else if i == p.id() {
        assert(l2[i].color == Color::Black);
    } else if is_node(b, i) {
        assert(l2[i].left == l0[i].left && l2[i].right == l0[i].right);
    } else if is_node(l0[g.id()].parent, i) {
        assert(l0[i].color == Color::Red);
        if let Some(x) = l0[i].left {
            assert(t0.node_ok(x.id()));
            if x.id() != g.id() {
                assert(l2[x.id()].color == l0[x.id()].color);
            }
        }
        if let Some(x) = l0[i].right {
            assert(t0.node_ok(x.id()));
            if x.id() != g.id() {
                assert(l2[x.id()].color == l0[x.id()].color);
            }
        }
    } else {
        assert(l2[i] == l1[i]);
        assert(l1[i] == l0[i]);
        if let Some(x) = l0[i].left {
            assert(t0.node_ok(x.id()));
            assert(x.id() != p.id() && x.id() != g.id());
            assert(l2[x.id()].color == l0[x.id()].color);
        }
        if let Some(x) = l0[i].right {
            assert(t0.node_ok(x.id()));
            assert(x.id() != p.id() && x.id() != g.id());
            assert(l2[x.id()].color == l0[x.id()].color);
        }
    }
}


/// Blackening the parent of the one red node allowed under a red parent (or
/// that node itself, when it has no parent), or finding that parent black,
/// leaves no red node with a red child.
proof fn lemma_settle_at<K, V>(t0: Root<K, V>, l1: Seq<Links>, z: NodeRef, b: int)
    requires
        t0.shape_ok(),
        t0.valid(z),
        red_ok_except(t0.links@, z.id()),
        (b == z.id() && t0.links@[z.id()].parent is None) || (t0.links@[z.id()].parent is Some && b
            == t0.links@[z.id()].parent.unwrap().id()),
        0 <= b < t0.size(),
        l1 == t0.links@.update(b, Links { color: Color::Black, ..t0.links@[b] }) || (l1 == t0.links@
            && t0.links@[b].color == Color::Black && b != z.id()),
    ensures
        red_ok(l1),
{
    let l0 = t0.links@;
    assert(t0.node_ok(z.id()));
    assert forall|i: int| 0 <= i < l1.len() && (#[trigger] l1[i]).color == Color::Red implies black_or(l1, l1[i].left, -1)
        && black_or(l1, l1[i].right, -1) by {
        assert(t0.node_ok(i));
        assert(l0[i].color == Color::Red);
        if let Some(x) = l0[i].left {
            assert(t0.node_ok(x.id()));
        }
        if let Some(x) = l0[i].right {
            assert(t0.node_ok(x.id()));
        }
    }
}

/// With a red parent and a red uncle, blackening both and reddening the
/// grandparent moves the one allowed red-under-red spot up to the
/// grandparent.
proof fn lemma_recolor_up<K, V>(t0: Root<K, V>, l1: Seq<Links>, z: NodeRef, p: NodeRef, g: NodeRef, u: NodeRef)
    requires
        t0.shape_ok(),
        t0.valid(z),
        red_ok_except(t0.links@, z.id()),
        t0.links@[z.id()].parent == Some(p),
        t0.valid(p),
        t0.links@[p.id()].parent == Some(g),
        t0.valid(g),
        is_red_at(t0.links@, p.id()),
        t0.valid(u),
        u != p,
        t0.links@[g.id()].left == Some(u) || t0.links@[g.id()].right == Some(u),
        l1 == t0.links@.update(p.id(), Links { color: Color::Black, ..t0.links@[p.id()] }).update(
            u.id(),
            Links { color: Color::Black, ..t0.links@[u.id()] },
        ).update(g.id(), Links { color: Color::Red, ..t0.links@[g.id()] }),
    ensures
        red_ok_except(l1, g.id()),
{
    let l0 = t0.links@;
    assert(t0.node_ok(z.id()));
    assert(t0.node_ok(p.id()));
    assert(t0.node_ok(g.id()));
    assert(t0.node_ok(u.id()));
    assert forall|i: int| 0 <= i < l1.len() && (#[trigger] l1[i]).color == Color::Red implies black_or(l1, l1[i].left, g.id())
        && black_or(l1, l1[i].right, g.id()) by {
        assert(t0.node_ok(i));
        if let Some(x) = l0[i].left {
            assert(t0.node_ok(x.id()));
        }
        if let Some(x) = l0[i].right {
            assert(t0.node_ok(x.id()));
        }
        if i == g.id() {
            if let Some(x) = l0[g.id()].left {
                assert(x == p || x == u);
            }
            if let Some(x) = l0[g.id()].right {
                assert(x == p || x == u);
            }
        }
    }
}


/// Blackening a node keeps red nodes off red children.
pub proof fn lemma_blacken<K, V>(t: Root<K, V>, x: int)
    requires
        t.shape_ok(),
        red_ok(t.links@),
        0 <= x < t.size(),
    ensures
        red_ok(t.links@.update(x, Links { color: Color::Black, ..t.links@[x] })),
{
    let l = t.links@;
    let l1 = l.update(x, Links { color: Color::Black, ..l[x] });
    assert forall|i: int| 0 <= i < l1.len() && (#[trigger] l1[i]).color == Color::Red implies black_or(l1, l1[i].left, -1)
        && black_or(l1, l1[i].right, -1) by {
        assert(i != x);
        assert(l1[i] == l[i]);
        assert(t.node_ok(i));
        assert(l[i].color == Color::Red);
        assert(black_or(l, l[i].left, -1) && black_or(l, l[i].right, -1));
        if let Some(c) = l[i].left {
            if c.id() != x {
                assert(l1[c.id()] == l[c.id()]);
            }
        }
        if let Some(c) = l[i].right {
            if c.id() != x {
                assert(l1[c.id()] == l[c.id()]);
            }
        }
    }
}

/// Reddening a node whose parent is not red and whose children are not red
/// keeps red nodes off red children.
pub proof fn lemma_redden<K, V>(t: Root<K, V>, x: int)
    requires
        t.shape_ok(),
        red_ok(t.links@),
        0 <= x < t.size(),
        black_or(t.links@, t.links@[x].left, -1),
        black_or(t.links@, t.links@[x].right, -1),
        t.links@[x].parent is Some ==> t.links@[t.links@[x].parent.unwrap().id()].color == Color::Black,
    ensures
        red_ok(t.links@.update(x, Links { color: Color::Red, ..t.links@[x] })),
{
    let l = t.links@;
    let l1 = l.update(x, Links { color: Color::Red, ..l[x] });
    assert(t.node_ok(x));
    assert forall|i: int| 0 <= i < l1.len() && (#[trigger] l1[i]).color == Color::Red implies black_or(l1, l1[i].left, -1)
        && black_or(l1, l1[i].right, -1) by {
        assert(t.node_ok(i));
        if let Some(c) = l[i].left {
            assert(t.node_ok(c.id()));
        }
        if let Some(c) = l[i].right {
            assert(t.node_ok(c.id()));
        }
    }
}

/// The facts a removal-repair rotation needs about the nodes it touches.
pub open spec fn rotation_setting<K, V>(t0: Root<K, V>, t1: Root<K, V>, tn: NodeRef, cn: NodeRef, side: ChildIndex) -> bool {
    &&& t0.shape_ok()
    &&& 0 <= tn.id() < t0.size()
    &&& is_node(child_of(t0.links@[tn.id()], side), cn.id())
    &&& t1.links@ == rotated_links(t0.links@, tn, cn, side)
    &&& red_ok(t0.links@)
}

/// Rotating a red sibling `c` above its parent `t` and swapping their
/// colors keeps red nodes off red children, when the node on the other
/// side of `t` is black.
#[verifier::rlimit(80)]
proof fn lemma_red_sibling_step<K, V>(t0: Root<K, V>, t1: Root<K, V>, l2: Seq<Links>, tn: NodeRef, cn: NodeRef, side: ChildIndex, i: int)
    requires
        rotation_setting(t0, t1, tn, cn, side),
        is_red_at(t0.links@, cn.id()),
        black_or(t0.links@, child_of(t0.links@[tn.id()], opposite(side)), -1),
        l2 == t1.links@.update(tn.id(), Links { color: Color::Red, ..t1.links@[tn.id()] }).update(
            cn.id(),
            Links { color: Color::Black, ..t1.links@[cn.id()] },
        ),
        0 <= i < l2.len(),
        l2[i].color == Color::Red,
    ensures
        black_or(l2, l2[i].left, -1) && black_or(l2, l2[i].right, -1),
{
    lemma_rotate_facts(t0, t1, tn, cn, side);
    let l0 = t0.links@;
    let t = tn.id();
    let c = cn.id();
    assert(t0.node_ok(t));
    assert(t0.node_ok(c));
    assert(t0.node_ok(i));
    assert(l0[t].color == Color::Black);
    if let Some(x) = l0[c].left {
        assert(t0.node_ok(x.id()));
    }
    if let Some(x) = l0[c].right {
        assert(t0.node_ok(x.id()));
    }
    if let Some(x) = l0[t].left {
        assert(t0.node_ok(x.id()));
    }
    if let Some(x) = l0[t].right {
        assert(t0.node_ok(x.id()));
    }
    if let Some(x) = l0[i].left {
        assert(t0.node_ok(x.id()));
    }
    if let Some(x) = l0[i].right {
        assert(t0.node_ok(x.id()));
    }
    if let Some(q) = l0[t].parent {
        assert(t0.node_ok(q.id()));
        if let Some(x) = l0[q.id()].left {
            assert(t0.node_ok(x.id()));
        }
        if let Some(x) = l0[q.id()].right {
            assert(t0.node_ok(x.id()));
        }
    }
}


/// Rotating the sibling `c` above its parent `t`, giving it the parent's
/// color and blackening the parent and the sibling's far child `far`,
/// keeps red nodes off red children.
#[verifier::rlimit(100)]
proof fn lemma_far_red_step<K, V>(
    t0: Root<K, V>,
    t1: Root<K, V>,
    l2: Seq<Links>,
    tn: NodeRef,
    cn: NodeRef,
    side: ChildIndex,
    i: int,
)
    requires
        rotation_setting(t0, t1, tn, cn, side),
        ({
            let l2a = t1.links@.update(cn.id(), Links { color: t0.links@[tn.id()].color, ..t1.links@[cn.id()] }).update(
                tn.id(),
                Links { color: Color::Black, ..t1.links@[tn.id()] },
            );
            l2 == match child_of(t0.links@[cn.id()], side) {
                Some(d) => l2a.update(d.id(), Links { color: Color::Black, ..l2a[d.id()] }),
                None => l2a,
            }
        }),
        0 <= i < l2.len(),
        l2[i].color == Color::Red,
    ensures
        black_or(l2, l2[i].left, -1) && black_or(l2, l2[i].right, -1),
{
    lemma_rotate_facts(t0, t1, tn, cn, side);
    let l0 = t0.links@;
    let t = tn.id();
    let c = cn.id();
    assert(t0.node_ok(t));
    assert(t0.node_ok(c));
    assert(t0.node_ok(i));
    if let Some(x) = l0[c].left {
        assert(t0.node_ok(x.id()));
    }
    if let Some(x) = l0[c].right {
        assert(t0.node_ok(x.id()));
    }
    if let Some(x) = l0[t].left {
        assert(t0.node_ok(x.id()));
    }
    if let Some(x) = l0[t].right {
        assert(t0.node_ok(x.id()));
    }
    if let Some(x) = l0[i].left {
        assert(t0.node_ok(x.id()));
    }
    if let Some(x) = l0[i].right {
        assert(t0.node_ok(x.id()));
    }
    if let Some(q) = l0[t].parent {
        assert(t0.node_ok(q.id()));
        if let Some(x) = l0[q.id()].left {
            assert(t0.node_ok(x.id()));
        }
        if let Some(x) = l0[q.id()].right {
            assert(t0.node_ok(x.id()));
        }
    }
}

/// Rotating a red near child `c` of the sibling `t` above it and swapping
/// their colors keeps red nodes off red children, when the sibling's far
/// child is not red.
#[verifier::rlimit(80)]
proof fn lemma_close_red_step<K, V>(
    t0: Root<K, V>,
    t1: Root<K, V>,
    l2: Seq<Links>,
    tn: NodeRef,
    cn: NodeRef,
    side: ChildIndex,
    i: int,
)
    requires
        rotation_setting(t0, t1, tn, cn, side),
        is_red_at(t0.links@, cn.id()),
        black_or(t0.links@, child_of(t0.links@[tn.id()], opposite(side)), -1),
        l2 == t1.links@.update(tn.id(), Links { color: Color::Red, ..t1.links@[tn.id()] }).update(
            cn.id(),
            Links { color: Color::Black, ..t1.links@[cn.id()] },
        ),
        0 <= i < l2.len(),
        l2[i].color == Color::Red,
    ensures
        black_or(l2, l2[i].left, -1) && black_or(l2, l2[i].right, -1),
{
    lemma_rotate_facts(t0, t1, tn, cn, side);
    let l0 = t0.links@;
    let t = tn.id();
    let c = cn.id();
    assert(t0.node_ok(t));
    assert(t0.node_ok(c));
    assert(t0.node_ok(i));
    if let Some(x) = l0[c].left {
        assert(t0.node_ok(x.id()));
    }
    if let Some(x) = l0[c].right {
        assert(t0.node_ok(x.id()));
    }
    if let Some(x) = l0[t].left {
        assert(t0.node_ok(x.id()));
    }
    if let Some(x) = l0[t].right {
        assert(t0.node_ok(x.id()));
    }
    if let Some(x) = l0[i].left {
        assert(t0.node_ok(x.id()));
    }
    if let Some(x) = l0[i].right {
        assert(t0.node_ok(x.id()));
    }
    if let Some(q) = l0[t].parent {
        assert(t0.node_ok(q.id()));
        if let Some(x) = l0[q.id()].left {
            assert(t0.node_ok(x.id()));
        }
        if let Some(x) = l0[q.id()].right {
            assert(t0.node_ok(x.id()));
        }
    }
}


/// The recorded black height of a possibly missing node; a missing child
/// counts none.
pub open spec fn bh_of<K, V>(t: Root<K, V>, o: Option<NodeRef>) -> int {
    match o {
        None => 0,
        Some(c) => t.bh@[c.id()],
    }
}

/// One for a black node, none for a red one.
pub open spec fn own_black(l: Links) -> int {
    if l.color == Color::Black {
        1
    } else {
        0
    }
}

/// Node `i`'s two sides have the same black height, and its own counts
/// that plus its own color.
pub open spec fn bh_node_ok<K, V>(t: Root<K, V>, i: int) -> bool {
    let l = t.links@[i];
    &&& bh_of(t, l.left) == bh_of(t, l.right)
    &&& bh_of(t, l.left) >= 0
    &&& t.bh@[i] == bh_of(t, l.left) + own_black(l)
}

/// Every path from a node down to a missing child holds the same number of
/// black nodes.
pub open spec fn bh_ok<K, V>(t: Root<K, V>) -> bool {
    &&& t.bh@.len() == t.size()
    &&& forall|i: int| 0 <= i < t.size() ==> #[trigger] bh_node_ok(t, i)
}

/// Blackening a red node without a parent adds one to its black height and
/// keeps every path count equal.
proof fn lemma_bh_blacken_top<K, V>(t0: Root<K, V>, t1: Root<K, V>, x: NodeRef)
    requires
        t0.shape_ok(),
        bh_ok(t0),
        t0.valid(x),
        t0.links@[x.id()].parent is None,
        is_red_at(t0.links@, x.id()),
        t1.links@ == t0.links@.update(x.id(), Links { color: Color::Black, ..t0.links@[x.id()] }),
        t1.bh@ == t0.bh@.update(x.id(), t0.bh@[x.id()] + 1),
    ensures
        bh_ok(t1),
{
    assert(t0.node_ok(x.id()));
    assert forall|i: int| 0 <= i < t1.size() implies #[trigger] bh_node_ok(t1, i) by {
        assert(bh_node_ok(t0, i));
        assert(t0.node_ok(i));
        if let Some(c) = t0.links@[i].left {
            assert(t0.node_ok(c.id()));
        }
        if let Some(c) = t0.links@[i].right {
            assert(t0.node_ok(c.id()));
        }
    }
}

/// With a red parent and a red uncle under a black grandparent, blackening
/// both and reddening the grandparent keeps every path count equal.
proof fn lemma_bh_recolor_up<K, V>(t0: Root<K, V>, t1: Root<K, V>, p: NodeRef, g: NodeRef, u: NodeRef)
    requires
        t0.shape_ok(),
        bh_ok(t0),
        t0.valid(p),
        t0.valid(g),
        t0.valid(u),
        u != p,
        t0.links@[p.id()].parent == Some(g),
        t0.links@[g.id()].left == Some(u) || t0.links@[g.id()].right == Some(u),
        is_red_at(t0.links@, p.id()),
        is_red_at(t0.links@, u.id()),
        t0.links@[g.id()].color == Color::Black,
        t1.links@ == t0.links@.update(p.id(), Links { color: Color::Black, ..t0.links@[p.id()] }).update(
            u.id(),
            Links { color: Color::Black, ..t0.links@[u.id()] },
        ).update(g.id(), Links { color: Color::Red, ..t0.links@[g.id()] }),
        t1.bh@ == t0.bh@.update(p.id(), t0.bh@[p.id()] + 1).update(u.id(), t0.bh@[u.id()] + 1),
    ensures
        bh_ok(t1),
{
    assert(t0.node_ok(p.id()));
    assert(t0.node_ok(g.id()));
    assert(t0.node_ok(u.id()));
    assert(bh_node_ok(t0, g.id()));
    assert(bh_node_ok(t0, p.id()));
    assert(bh_node_ok(t0, u.id()));
    assert forall|i: int| 0 <= i < t1.size() implies #[trigger] bh_node_ok(t1, i) by {
        assert(bh_node_ok(t0, i));
        assert(t0.node_ok(i));
        if let Some(c) = t0.links@[i].left {
            assert(t0.node_ok(c.id()));
        }
        if let Some(c) = t0.links@[i].right {
            assert(t0.node_ok(c.id()));
        }
        if i == g.id() {
            if let Some(c) = t0.links@[g.id()].left {
                assert(c == p || c == u);
            }
            if let Some(c) = t0.links@[g.id()].right {
                assert(c == p || c == u);
            }
        }
    }
}

/// Rotating a red node `t` with its red child `c` leaves every black height
/// as it was.
proof fn lemma_bh_red_rotation<K, V>(t0: Root<K, V>, t1: Root<K, V>, tn: NodeRef, cn: NodeRef, side: ChildIndex, i: int)
    requires
        t0.shape_ok(),
        bh_ok(t0),
        0 <= tn.id() < t0.size(),
        is_node(child_of(t0.links@[tn.id()], side), cn.id()),
        t1.links@ == rotated_links(t0.links@, tn, cn, side),
        t1.bh@ == t0.bh@,
        is_red_at(t0.links@, tn.id()),
        is_red_at(t0.links@, cn.id()),
        0 <= i < t0.size(),
    ensures
        bh_node_ok(t1, i),
{
    lemma_rotate_facts(t0, t1, tn, cn, side);
    let t = tn.id();
    let c = cn.id();
    assert(t0.node_ok(t));
    assert(t0.node_ok(c));
    assert(t0.node_ok(i));
    assert(bh_node_ok(t0, t));
    assert(bh_node_ok(t0, c));
    assert(bh_node_ok(t0, i));
    if let Some(x) = t0.links@[c].left {
        assert(t0.node_ok(x.id()));
    }
    if let Some(x) = t0.links@[c].right {
        assert(t0.node_ok(x.id()));
    }
    if let Some(x) = t0.links@[i].left {
        assert(t0.node_ok(x.id()));
    }
    if let Some(x) = t0.links@[i].right {
        assert(t0.node_ok(x.id()));
    }
    if let Some(q) = t0.links@[t].parent {
        assert(t0.node_ok(q.id()));
        assert(bh_node_ok(t0, q.id()));
    }
}


/// The last step of the insertion repair keeps every path count equal: the
/// parent `p` turns black and the grandparent `g` red, and after the
/// rotation they trade their black heights.
#[verifier::rlimit(80)]
proof fn lemma_bh_outer_node<K, V>(
    t0: Root<K, V>,
    t1: Root<K, V>,
    t2: Root<K, V>,
    g: NodeRef,
    p: NodeRef,
    s: ChildIndex,
    i: int,
)
    requires
        t0.shape_ok(),
        bh_ok(t0),
        t0.valid(g),
        is_node(child_of(t0.links@[g.id()], s), p.id()),
        is_red_at(t0.links@, p.id()),
        t0.links@[g.id()].color == Color::Black,
        t1.shape_ok(),
        t1.links@ == t0.links@.update(p.id(), Links { color: Color::Black, ..t0.links@[p.id()] }).update(
            g.id(),
            Links { color: Color::Red, ..t0.links@[g.id()] },
        ),
        t2.links@ == rotated_links(t1.links@, g, p, s),
        t2.bh@ == t0.bh@.update(p.id(), t0.bh@[g.id()]).update(g.id(), t0.bh@[p.id()]),
        0 <= i < t0.size(),
    ensures
        bh_node_ok(t2, i),
{
    lemma_rotate_facts(t1, t2, g, p, s);
    let l0 = t0.links@;
    assert(t0.node_ok(g.id()));
    assert(t0.node_ok(p.id()));
    assert(t0.node_ok(i));
    assert(bh_node_ok(t0, g.id()));
    assert(bh_node_ok(t0, p.id()));
    assert(bh_node_ok(t0, i));
    if let Some(x) = l0[p.id()].left {
        assert(t0.node_ok(x.id()));
    }
    if let Some(x) = l0[p.id()].right {
        assert(t0.node_ok(x.id()));
    }
    if let Some(x) = l0[g.id()].left {
        assert(t0.node_ok(x.id()));
    }
    if let Some(x) = l0[g.id()].right {
        assert(t0.node_ok(x.id()));
    }
    if let Some(x) = l0[i].left {
        assert(t0.node_ok(x.id()));
    }
    if let Some(x) = l0[i].right {
        assert(t0.node_ok(x.id()));
    }
    if let Some(q) = l0[g.id()].parent {
        assert(t0.node_ok(q.id()));
        assert(bh_node_ok(t0, q.id()));
    }
}


/// The black heights while a black leaf `v` is being removed: `v` counts as
/// missing already, and all nodes balance but the parent of `n`, whose side
/// holding `n` is one black node short.
pub open spec fn bh_hole<K, V>(t: Root<K, V>, v: int, n: NodeRef) -> bool {
    &&& t.bh@.len() == t.size()
    &&& t.bh@[v] == 0
    &&& forall|i: int|
        0 <= i < t.size() && i != v && !is_node(t.links@[n.id()].parent, i) ==> #[trigger] bh_node_ok(t, i)
    &&& t.bh@[n.id()] >= 0
    &&& match t.links@[n.id()].parent {
        None => true,
        Some(p) => {
            let other = if is_node(t.links@[p.id()].left, n.id()) {
                t.links@[p.id()].right
            } else {
                t.links@[p.id()].left
            };
            &&& t.bh@[n.id()] + 1 == bh_of(t, other)
            &&& t.bh@[p.id()] == bh_of(t, other) + own_black(t.links@[p.id()])
        },
    }
}

/// All nodes but `v` balance.
pub open spec fn bh_done<K, V>(t: Root<K, V>, v: int) -> bool {
    &&& t.bh@.len() == t.size()
    &&& forall|i: int| 0 <= i < t.size() && i != v ==> #[trigger] bh_node_ok(t, i)
}

/// Counting a black leaf as missing leaves its parent one short on its side.
proof fn lemma_bh_hole_start<K, V>(t0: Root<K, V>, t1: Root<K, V>, v: NodeRef)
    requires
        t0.shape_ok(),
        bh_ok(t0),
        t0.valid(v),
        t0.links@[v.id()].left is None,
        t0.links@[v.id()].right is None,
        t0.links@[v.id()].color == Color::Black,
        t1.links@ == t0.links@,
        t1.bh@ == t0.bh@.update(v.id(), 0),
    ensures
        bh_hole(t1, v.id(), v),
{
    assert(t0.node_ok(v.id()));
    assert(bh_node_ok(t0, v.id()));
    if let Some(p) = t0.links@[v.id()].parent {
        assert(t0.node_ok(p.id()));
        assert(bh_node_ok(t0, p.id()));
        if let Some(c) = t0.links@[p.id()].left {
            assert(t0.node_ok(c.id()));
        }
        if let Some(c) = t0.links@[p.id()].right {
            assert(t0.node_ok(c.id()));
        }
    }
    assert forall|i: int| 0 <= i < t1.size() && i != v.id() && !is_node(t1.links@[v.id()].parent, i) implies #[trigger] bh_node_ok(
        t1,
        i,
    ) by {
        assert(bh_node_ok(t0, i));
        assert(t0.node_ok(i));
        if let Some(c) = t0.links@[i].left {
            assert(t0.node_ok(c.id()));
        }
        if let Some(c) = t0.links@[i].right {
            assert(t0.node_ok(c.id()));
        }
    }
}

/// The setting of a removal-repair step at `n`, whose parent is `pn` and
/// whose side there is `idx`; the leaf `vn` lies under `n`.
pub open spec fn hole_setting<K, V>(t0: Root<K, V>, vn: NodeRef, n: NodeRef, pn: NodeRef, idx: ChildIndex) -> bool {
    &&& t0.shape_ok()
    &&& red_ok(t0.links@)
    &&& t0.valid(vn)
    &&& t0.valid(n)
    &&& t0.lo@[n.id()] <= t0.pos@[vn.id()] < t0.hi@[n.id()]
    &&& t0.links@[n.id()].parent == Some(pn)
    &&& is_node(child_of(t0.links@[pn.id()], idx), n.id())
    &&& bh_hole(t0, vn.id(), n)
}

/// Facts about the nodes around `n` in the removal repair: none of them is
/// the leaf `vn`, and the sibling's side is the taller one.
proof fn lemma_hole_around<K, V>(t0: Root<K, V>, vn: NodeRef, n: NodeRef, pn: NodeRef, idx: ChildIndex)
    requires
        hole_setting(t0, vn, n, pn, idx),
    ensures
        t0.valid(pn),
        vn.id() != pn.id(),
        child_of(t0.links@[pn.id()], opposite(idx)) is Some,
        ({
            let sn = child_of(t0.links@[pn.id()], opposite(idx)).unwrap();
            &&& t0.valid(sn)
            &&& sn.id() != vn.id()
            &&& sn.id() != n.id()
            &&& t0.bh@[n.id()] + 1 == t0.bh@[sn.id()]
            &&& t0.bh@[pn.id()] == t0.bh@[sn.id()] + own_black(t0.links@[pn.id()])
            &&& bh_node_ok(t0, sn.id())
            &&& (child_of(t0.links@[sn.id()], idx) is Some ==> child_of(t0.links@[sn.id()], idx).unwrap().id() != vn.id())
            &&& (child_of(t0.links@[sn.id()], opposite(idx)) is Some ==> child_of(
                t0.links@[sn.id()],
                opposite(idx),
            ).unwrap().id() != vn.id())
        }),
        t0.links@[pn.id()].parent is Some ==> t0.links@[pn.id()].parent.unwrap().id() != vn.id() && bh_node_ok(
            t0,
            t0.links@[pn.id()].parent.unwrap().id(),
        ),
{
    vn.lemma_outside_sibling(&t0, n, pn, idx);
    assert(t0.node_ok(n.id()));
    assert(t0.node_ok(pn.id()));
    assert(t0.node_ok(vn.id()));
    if let Some(sn) = child_of(t0.links@[pn.id()], opposite(idx)) {
        assert(t0.node_ok(sn.id()));
        if let Some(x) = t0.links@[sn.id()].left {
            assert(t0.node_ok(x.id()));
        }
        if let Some(x) = t0.links@[sn.id()].right {
            assert(t0.node_ok(x.id()));
        }
    }
    if let Some(q) = t0.links@[pn.id()].parent {
        assert(t0.node_ok(q.id()));
    }
    if t0.bh@[n.id()] + 1 == 0 {
    }
}


#[verifier::rlimit(100)]
proof fn lemma_bh_red_sibling_node<K, V>(
    t0: Root<K, V>,
    t1: Root<K, V>,
    t2: Root<K, V>,
    vn: NodeRef,
    n: NodeRef,
    pn: NodeRef,
    sn: NodeRef,
    idx: ChildIndex,
    i: int,
)
    requires
        hole_setting(t0, vn, n, pn, idx),
        is_node(child_of(t0.links@[pn.id()], opposite(idx)), sn.id()),
        is_red_at(t0.links@, sn.id()),
        t1.links@ == rotated_links(t0.links@, pn, sn, opposite(idx)),
        t2.links@ == t1.links@.update(pn.id(), Links { color: Color::Red, ..t1.links@[pn.id()] }).update(
            sn.id(),
            Links { color: Color::Black, ..t1.links@[sn.id()] },
        ),
        t2.bh@ == t0.bh@.update(pn.id(), t0.bh@[sn.id()]).update(sn.id(), t0.bh@[pn.id()]),
        0 <= i < t0.size(),
        i != vn.id(),
        i != pn.id(),
    ensures
        bh_node_ok(t2, i),
{
    lemma_hole_around(t0, vn, n, pn, idx);
    lemma_rotate_facts(t0, t1, pn, sn, opposite(idx));
    let l0 = t0.links@;
    assert(t0.node_ok(pn.id()));
    assert(t0.node_ok(sn.id()));
    assert(t0.node_ok(i));
    assert(l0[pn.id()].color == Color::Black);
    if i != sn.id() {
        assert(bh_node_ok(t0, i));
    }
    if let Some(x) = l0[sn.id()].left {
        assert(t0.node_ok(x.id()));
    }
    if let Some(x) = l0[sn.id()].right {
        assert(t0.node_ok(x.id()));
    }
    if let Some(x) = l0[i].left {
        assert(t0.node_ok(x.id()));
    }
    if let Some(x) = l0[i].right {
        assert(t0.node_ok(x.id()));
    }
    if let Some(q) = l0[pn.id()].parent {
        assert(t0.node_ok(q.id()));
    }
}

/// Rotating a red sibling above the parent, with their colors swapped,
/// keeps the hole where it is, one black node short beside `n`.
proof fn lemma_bh_red_sibling<K, V>(
    t0: Root<K, V>,
    t1: Root<K, V>,
    t2: Root<K, V>,
    vn: NodeRef,
    n: NodeRef,
    pn: NodeRef,
    sn: NodeRef,
    idx: ChildIndex,
)
    requires
        hole_setting(t0, vn, n, pn, idx),
        is_node(child_of(t0.links@[pn.id()], opposite(idx)), sn.id()),
        is_red_at(t0.links@, sn.id()),
        t1.links@ == rotated_links(t0.links@, pn, sn, opposite(idx)),
        t2.links@ == t1.links@.update(pn.id(), Links { color: Color::Red, ..t1.links@[pn.id()] }).update(
            sn.id(),
            Links { color: Color::Black, ..t1.links@[sn.id()] },
        ),
        t2.bh@ == t0.bh@.update(pn.id(), t0.bh@[sn.id()]).update(sn.id(), t0.bh@[pn.id()]),
        t2.links@.len() == t0.size(),
    ensures
        bh_hole(t2, vn.id(), n),
{
    lemma_hole_around(t0, vn, n, pn, idx);
    lemma_rotate_facts(t0, t1, pn, sn, opposite(idx));
    let l0 = t0.links@;
    assert(t0.node_ok(pn.id()));
    assert(t0.node_ok(sn.id()));
    assert(t0.node_ok(n.id()));
    assert(l0[pn.id()].color == Color::Black);
    assert forall|i: int|
        0 <= i < t2.size() && i != vn.id() && !is_node(t2.links@[n.id()].parent, i) implies #[trigger] bh_node_ok(t2, i) by {
        assert(t2.links@[n.id()].parent == Some(pn));
        lemma_bh_red_sibling_node(t0, t1, t2, vn, n, pn, sn, idx, i);
    }
    if let Some(x) = child_of(l0[sn.id()], idx) {
        assert(t0.node_ok(x.id()));
    }
    assert(t2.links@[n.id()].parent == Some(pn));
    assert(is_node(child_of(t2.links@[pn.id()], idx), n.id()));
}


#[verifier::rlimit(100)]
proof fn lemma_bh_far_red_node<K, V>(
    t0: Root<K, V>,
    t1: Root<K, V>,
    t2: Root<K, V>,
    vn: NodeRef,
    n: NodeRef,
    pn: NodeRef,
    sn: NodeRef,
    dn: NodeRef,
    idx: ChildIndex,
    i: int,
)
    requires
        hole_setting(t0, vn, n, pn, idx),
        is_node(child_of(t0.links@[pn.id()], opposite(idx)), sn.id()),
        t0.links@[sn.id()].color == Color::Black,
        is_node(child_of(t0.links@[sn.id()], opposite(idx)), dn.id()),
        is_red_at(t0.links@, dn.id()),
        t1.links@ == rotated_links(t0.links@, pn, sn, opposite(idx)),
        ({
            let l2a = t1.links@.update(sn.id(), Links { color: t0.links@[pn.id()].color, ..t1.links@[sn.id()] }).update(
                pn.id(),
                Links { color: Color::Black, ..t1.links@[pn.id()] },
            );
            t2.links@ == l2a.update(dn.id(), Links { color: Color::Black, ..l2a[dn.id()] })
        }),
        t2.bh@ == t0.bh@.update(pn.id(), t0.bh@[sn.id()]).update(dn.id(), t0.bh@[dn.id()] + 1).update(
            sn.id(),
            t0.bh@[pn.id()],
        ),
        0 <= i < t0.size(),
        i != vn.id(),
    ensures
        bh_node_ok(t2, i),
{
    lemma_hole_around(t0, vn, n, pn, idx);
    lemma_rotate_facts(t0, t1, pn, sn, opposite(idx));
    let l0 = t0.links@;
    assert(t0.node_ok(pn.id()));
    assert(t0.node_ok(sn.id()));
    assert(t0.node_ok(dn.id()));
    assert(t0.node_ok(n.id()));
    assert(t0.node_ok(i));
    assert(bh_node_ok(t0, dn.id()));
    if i != pn.id() {
        assert(bh_node_ok(t0, i));
    }
    if let Some(x) = l0[sn.id()].left {
        assert(t0.node_ok(x.id()));
    }
    if let Some(x) = l0[sn.id()].right {
        assert(t0.node_ok(x.id()));
    }
    if let Some(x) = l0[i].left {
        assert(t0.node_ok(x.id()));
    }
    if let Some(x) = l0[i].right {
        assert(t0.node_ok(x.id()));
    }
    if let Some(q) = l0[pn.id()].parent {
        assert(t0.node_ok(q.id()));
    }
}

#[verifier::rlimit(100)]
proof fn lemma_bh_close_red_node<K, V>(
    t0: Root<K, V>,
    t1: Root<K, V>,
    t2: Root<K, V>,
    vn: NodeRef,
    n: NodeRef,
    pn: NodeRef,
    sn: NodeRef,
    cn: NodeRef,
    idx: ChildIndex,
    i: int,
)
    requires
        hole_setting(t0, vn, n, pn, idx),
        is_node(child_of(t0.links@[pn.id()], opposite(idx)), sn.id()),
        t0.links@[sn.id()].color == Color::Black,
        is_node(child_of(t0.links@[sn.id()], idx), cn.id()),
        is_red_at(t0.links@, cn.id()),
        t1.links@ == rotated_links(t0.links@, sn, cn, idx),
        t2.links@ == t1.links@.update(sn.id(), Links { color: Color::Red, ..t1.links@[sn.id()] }).update(
            cn.id(),
            Links { color: Color::Black, ..t1.links@[cn.id()] },
        ),
        t2.bh@ == t0.bh@.update(sn.id(), t0.bh@[sn.id()] - 1).update(cn.id(), t0.bh@[sn.id()]),
        0 <= i < t0.size(),
        i != vn.id(),
        i != pn.id(),
    ensures
        bh_node_ok(t2, i),
{
    lemma_hole_around(t0, vn, n, pn, idx);
    lemma_rotate_facts(t0, t1, sn, cn, idx);
    let l0 = t0.links@;
    assert(t0.node_ok(pn.id()));
    assert(t0.node_ok(sn.id()));
    assert(t0.node_ok(cn.id()));
    assert(t0.node_ok(i));
    assert(bh_node_ok(t0, cn.id()));
    assert(bh_node_ok(t0, i));
    if let Some(x) = l0[cn.id()].left {
        assert(t0.node_ok(x.id()));
    }
    if let Some(x) = l0[cn.id()].right {
        assert(t0.node_ok(x.id()));
    }
    if let Some(x) = l0[sn.id()].left {
        assert(t0.node_ok(x.id()));
    }
    if let Some(x) = l0[sn.id()].right {
        assert(t0.node_ok(x.id()));
    }
    if let Some(x) = l0[i].left {
        assert(t0.node_ok(x.id()));
    }
    if let Some(x) = l0[i].right {
        assert(t0.node_ok(x.id()));
    }
}


/// With a black sibling whose children are not red under a red parent,
/// blackening the parent and reddening the sibling fills the hole.
#[verifier::rlimit(100)]
proof fn lemma_bh_red_parent<K, V>(t0: Root<K, V>, t1: Root<K, V>, vn: NodeRef, n: NodeRef, pn: NodeRef, sn: NodeRef, idx: ChildIndex)
    requires
        hole_setting(t0, vn, n, pn, idx),
        is_node(child_of(t0.links@[pn.id()], opposite(idx)), sn.id()),
        t0.links@[sn.id()].color == Color::Black,
        is_red_at(t0.links@, pn.id()),
        t1.links@ == t0.links@.update(pn.id(), Links { color: Color::Black, ..t0.links@[pn.id()] }).update(
            sn.id(),
            Links { color: Color::Red, ..t0.links@[sn.id()] },
        ),
        t1.bh@ == t0.bh@.update(sn.id(), t0.bh@[sn.id()] - 1),
    ensures
        bh_done(t1, vn.id()),
{
    lemma_hole_around(t0, vn, n, pn, idx);
    assert(t0.node_ok(pn.id()));
    assert(t0.node_ok(sn.id()));
    assert(t0.node_ok(n.id()));
    assert forall|i: int| 0 <= i < t1.size() && i != vn.id() implies #[trigger] bh_node_ok(t1, i) by {
        assert(t0.node_ok(i));
        if i != pn.id() {
            assert(bh_node_ok(t0, i));
        }
        if let Some(x) = t0.links@[i].left {
            assert(t0.node_ok(x.id()));
        }
        if let Some(x) = t0.links@[i].right {
            assert(t0.node_ok(x.id()));
        }
    }
}

/// With a black sibling whose children are not red under a black parent,
/// reddening the sibling moves the hole up to the parent.
#[verifier::rlimit(100)]
proof fn lemma_bh_black_parent<K, V>(t0: Root<K, V>, t1: Root<K, V>, vn: NodeRef, n: NodeRef, pn: NodeRef, sn: NodeRef, idx: ChildIndex)
    requires
        hole_setting(t0, vn, n, pn, idx),
        is_node(child_of(t0.links@[pn.id()], opposite(idx)), sn.id()),
        t0.links@[sn.id()].color == Color::Black,
        t0.links@[pn.id()].color == Color::Black,
        t1.links@ == t0.links@.update(sn.id(), Links { color: Color::Red, ..t0.links@[sn.id()] }),
        t1.bh@ == t0.bh@.update(sn.id(), t0.bh@[sn.id()] - 1).update(pn.id(), t0.bh@[pn.id()] - 1),
    ensures
        bh_hole(t1, vn.id(), pn),
{
    lemma_hole_around(t0, vn, n, pn, idx);
    assert(t0.node_ok(pn.id()));
    assert(t0.node_ok(sn.id()));
    assert(t0.node_ok(n.id()));
    assert forall|i: int|
        0 <= i < t1.size() && i != vn.id() && !is_node(t1.links@[pn.id()].parent, i) implies #[trigger] bh_node_ok(t1, i) by {
        assert(t0.node_ok(i));
        if i != pn.id() {
            assert(bh_node_ok(t0, i));
        }
        if let Some(x) = t0.links@[i].left {
            assert(t0.node_ok(x.id()));
        }
        if let Some(x) = t0.links@[i].right {
            assert(t0.node_ok(x.id()));
        }
    }
    if let Some(r) = t0.links@[pn.id()].parent {
        assert(t0.node_ok(r.id()));
        assert(bh_node_ok(t0, r.id()));
        if let Some(x) = t0.links@[r.id()].left {
            assert(t0.node_ok(x.id()));
        }
        if let Some(x) = t0.links@[r.id()].right {
            assert(t0.node_ok(x.id()));
        }
    }
}


/// The side of its parent that `n` is on.
pub open spec fn side_of<K, V>(t: Root<K, V>, n: NodeRef) -> ChildIndex {
    if is_node(t.links@[t.links@[n.id()].parent.unwrap().id()].left, n.id()) {
        ChildIndex::Left
    } else {
        ChildIndex::Right
    }
}

/// `n` has a black sibling whose child on the far side from `n` is red.
pub open spec fn far_red<K, V>(t: Root<K, V>, n: NodeRef) -> bool {
    &&& t.links@[n.id()].parent is Some
    &&& t.sibling_of(n) is Some
    &&& t.links@[t.sibling_of(n).unwrap().id()].color == Color::Black
    &&& child_of(t.links@[t.sibling_of(n).unwrap().id()], opposite(side_of(t, n))) is Some
    &&& is_red_at(t.links@, child_of(t.links@[t.sibling_of(n).unwrap().id()], opposite(side_of(t, n))).unwrap().id())
}

/// `n` has a black sibling whose child on `n`'s side is red and whose other
/// child is not.
pub open spec fn near_red<K, V>(t: Root<K, V>, n: NodeRef) -> bool {
    &&& t.links@[n.id()].parent is Some
    &&& t.sibling_of(n) is Some
    &&& t.links@[t.sibling_of(n).unwrap().id()].color == Color::Black
    &&& child_of(t.links@[t.sibling_of(n).unwrap().id()], side_of(t, n)) is Some
    &&& is_red_at(t.links@, child_of(t.links@[t.sibling_of(n).unwrap().id()], side_of(t, n)).unwrap().id())
    &&& black_or(t.links@, child_of(t.links@[t.sibling_of(n).unwrap().id()], opposite(side_of(t, n))), -1)
}


/// Black heights depend on the links and the recorded heights alone.
pub proof fn lemma_bh_frame<K, V>(t0: Root<K, V>)
    ensures
        forall|o: Root<K, V>|
            #![trigger bh_ok(o)]
            o.links@ == t0.links@ && o.bh@ == t0.bh@ && bh_ok(t0) ==> bh_ok(o),
{
    assert forall|o: Root<K, V>| o.links@ == t0.links@ && o.bh@ == t0.bh@ && bh_ok(t0) implies #[trigger] bh_ok(o) by {
        assert forall|i: int| 0 <= i < o.size() implies #[trigger] bh_node_ok(o, i) by {
            assert(bh_node_ok(t0, i));
        }
    }
}

impl NodeRef {
    /// Promotes this node's child on `pivot_idx` into this node's place;
    /// this node becomes the pivot's child on the other side, and the
    /// pivot's former inner child moves under this node. Colors are kept.
    /// Returns the pivot.
    pub fn rotate<K, V>(self, tree: &mut Root<K, V>, pivot_idx: ChildIndex) -> (r: NodeRef)
        requires
            old(tree).shape_ok(),
            old(tree).valid(self),
            child_of(old(tree).links@[self.id()], pivot_idx) is Some,
        ensures
            final(tree).shape_ok(),
            final(tree).same_entries(old(tree)),
            final(tree).entries() == old(tree).entries(),
            Some(r) == child_of(old(tree).links@[self.id()], pivot_idx),
            final(tree).links@ == rotated_links(old(tree).links@, self, r, pivot_idx),
            final(tree).bh@ == old(tree).bh@,
            final(tree).root == (if old(tree).links@[self.id()].parent is None { Some(r) } else { old(tree).root }),
            final(tree).links@[self.id()].color == old(tree).links@[self.id()].color,
            forall|i: int| 0 <= i < old(tree).size() ==> (#[trigger] final(tree).links@[i]).color == old(tree).links@[i].color,
            forall|i: int|
                0 <= i < old(tree).size() && i != self.id() && i != r.id() ==> #[trigger] final(tree).lo@[i] == old(tree).lo@[i]
                    && final(tree).hi@[i] == old(tree).hi@[i],
            forall|i: int|
                0 <= i < old(tree).size() && i != self.id() && i != r.id() && old(tree).links@[i].left is None
                    && old(tree).links@[i].right is None ==> (#[trigger] final(tree).links@[i]).left is None
                    && final(tree).links@[i].right is None,
    {
        let ghost t0 = *tree;
        proof {
            assert(t0.node_ok(self.id()));
        }
        let pivot = match self.child(tree, pivot_idx) {
            Some(c) => c,
            None => self,
        };
        proof {
            assert(t0.node_ok(pivot.id()));
        }
        let opp = pivot_idx.opposite();
        let be_moved = pivot.child(tree, opp);
        let parent = tree.links[self.0].parent;
        let side = self.index_on_parent(tree);
        proof {
            if let Some(b) = be_moved {
                assert(t0.node_ok(b.id()));
            }
            if let Some(q) = parent {
                assert(t0.node_ok(q.id()));
            }
        }

        let mut lt = tree.links[self.0];
        lt.parent = Some(pivot);
        let lt = put_child(lt, pivot_idx, be_moved);
        let mut lc = tree.links[pivot.0];
        lc.parent = parent;
        let lc = put_child(lc, opp, Some(self));
        tree.links.set(self.0, lt);
        tree.links.set(pivot.0, lc);
        if let Some(b) = be_moved {
            let mut lb = tree.links[b.0];
            lb.parent = Some(self);
            tree.links.set(b.0, lb);
        }
        match parent {
            Some(q) => {
                let lq = tree.links[q.0];
                let s = match side {
                    Some(s) => s,
                    None => ChildIndex::Left,
                };
                tree.links.set(q.0, put_child(lq, s, Some(pivot)));
            },
            None => {
                tree.root = Some(pivot);
            },
        }
        let ghost t = self.id();
        let ghost c = pivot.id();
        proof {
            match pivot_idx {
                ChildIndex::Left => {
                    tree.lo@ = tree.lo@.update(t, t0.pos@[c] + 1).update(c, t0.lo@[t]);
                    tree.hi@ = tree.hi@.update(c, t0.hi@[t]);
                },
                ChildIndex::Right => {
                    tree.hi@ = tree.hi@.update(t, t0.pos@[c]).update(c, t0.hi@[t]);
                    tree.lo@ = tree.lo@.update(c, t0.lo@[t]);
                },
            }
            assert(tree.links@ =~= rotated_links(t0.links@, self, pivot, pivot_idx));
            lemma_rotate_shape(t0, *tree, self, pivot, pivot_idx);
            lemma_rotate_facts(t0, *tree, self, pivot, pivot_idx);
            assert forall|i: int|
                0 <= i < t0.size() && i != t && i != c && t0.links@[i].left is None
                    && t0.links@[i].right is None implies (#[trigger] tree.links@[i]).left is None
                    && tree.links@[i].right is None by {
                if let Some(q) = t0.links@[t].parent {
                    if q.id() == i {
                        assert(t0.node_ok(q.id()));
                    }
                }
            }
        }
        pivot
    }

    /// Restores the red-black coloring after this red node was attached,
    /// when it may sit under a red parent: recolors while the uncle is
    /// red, moving up, then rotates once or twice. Afterwards no red node
    /// has a red child.
    #[verifier::rlimit(80)]
    pub fn balance_after_insert<K, V>(self, tree: &mut Root<K, V>)
        requires
            old(tree).shape_ok(),
            old(tree).valid(self),
            is_red_at(old(tree).links@, self.id()),
            red_ok_except(old(tree).links@, self.id()),
            bh_ok(*old(tree)),
        ensures
            final(tree).shape_ok(),
            final(tree).same_entries(old(tree)),
            final(tree).entries() == old(tree).entries(),
            red_ok(final(tree).links@),
            bh_ok(*final(tree)),
    {
        let ghost t0 = *tree;
        let mut z = self;
        loop
            invariant
                tree.shape_ok(),
                tree.valid(z),
                t0 == *old(tree),
                tree.same_entries(&t0),
                tree.entries() == t0.entries(),
                is_red_at(tree.links@, z.id()),
                red_ok_except(tree.links@, z.id()),
                bh_ok(*tree),
            decreases tree.size() - (tree.hi@[z.id()] - tree.lo@[z.id()]),
        {
            proof {
                assert(tree.node_ok(z.id()));
                tree.lemma_child_range(z.id());
            }
            let ghost before = *tree;
            let parent = match z.parent(tree) {
                None => {
                    z.set_color(tree, Color::Black);
                    proof {
                        lemma_settle_at(before, tree.links@, z, z.id());
                        let t1 = *tree;
                        t1.lemma_shape_ignores_values();
                        tree.bh@ = before.bh@.update(z.id(), before.bh@[z.id()] + 1);
                        lemma_bh_blacken_top(before, *tree, z);
                    }
                    return;
                },
                Some(p) => p,
            };
            if parent.is_black(tree) {
                proof {
                    lemma_settle_at(before, tree.links@, z, parent.id());
                }
                return;
            }
            proof {
                tree.lemma_child_range(parent.id());
                assert(tree.node_ok(parent.id()));
            }
            let grandparent = match parent.parent(tree) {
                None => {
                    parent.set_color(tree, Color::Black);
                    proof {
                        lemma_settle_at(before, tree.links@, z, parent.id());
                        let t1 = *tree;
                        t1.lemma_shape_ignores_values();
                        tree.bh@ = before.bh@.update(parent.id(), before.bh@[parent.id()] + 1);
                        lemma_bh_blacken_top(before, *tree, parent);
                    }
                    return;
                },
                Some(g) => g,
            };
            proof {
                assert(tree.node_ok(grandparent.id()));
            }
            let pi = match parent.index_on_parent(tree) {
                Some(i) => i,
                None => ChildIndex::Left,
            };
            let uncle = grandparent.child(tree, pi.opposite());
            let uncle_red = match uncle {
                Some(u) => u.is_red(tree),
                None => false,
            };
            if uncle_red {
                if let Some(u) = uncle {
                    proof {
                        assert(tree.node_ok(u.id()));
                        assert(u != parent);
                    }
                    parent.set_color(tree, Color::Black);
                    u.set_color(tree, Color::Black);
                    grandparent.set_color(tree, Color::Red);
                    proof {
                        lemma_recolor_up(before, tree.links@, z, parent, grandparent, u);
                        assert(before.links@[grandparent.id()].color == Color::Black);
                        let t1 = *tree;
                        t1.lemma_shape_ignores_values();
                        tree.bh@ = before.bh@.update(parent.id(), before.bh@[parent.id()] + 1).update(
                            u.id(),
                            before.bh@[u.id()] + 1,
                        );
                        lemma_bh_recolor_up(before, *tree, parent, grandparent, u);
                        assert(tree.lo@ == before.lo@ && tree.hi@ == before.hi@);
                        assert(tree.node_ok(grandparent.id()));
                    }
                    z = grandparent;
                }
            } else {
                let zi = match z.index_on_parent(tree) {
                    Some(i) => i,
                    None => ChildIndex::Left,
                };
                let (outer, top) = if zi != pi {
                    let ghost t1 = *tree;
                    parent.rotate(tree, zi);
                    proof {
                        lemma_inner_rotation(t1, *tree, parent, z, zi);
                        lemma_rotate_facts(t1, *tree, parent, z, zi);
                        assert(t1.node_ok(grandparent.id()));
                        assert forall|i: int| 0 <= i < tree.size() implies #[trigger] bh_node_ok(*tree, i) by {
                            lemma_bh_red_rotation(t1, *tree, parent, z, zi, i);
                        }
                    }
                    (parent, z)
                } else {
                    (z, parent)
                };
                let ghost t2 = *tree;
                proof {
                    assert(tree.node_ok(top.id()));
                    assert(tree.node_ok(outer.id()));
                    assert(is_node(child_of(tree.links@[grandparent.id()], pi), top.id()));
                    assert(is_node(child_of(tree.links@[top.id()], pi), outer.id()));
                    assert(child_of(tree.links@[grandparent.id()], opposite(pi)) == uncle);
                }
                top.set_color(tree, Color::Black);
                grandparent.set_color(tree, Color::Red);
                let ghost t3 = *tree;
                grandparent.rotate(tree, pi);
                proof {
                    lemma_outer_rotation(t2, t3, *tree, grandparent, top, outer, pi);
                    assert(t2.links@[grandparent.id()].color == Color::Black);
                    let t4 = *tree;
                    t4.lemma_shape_ignores_values();
                    tree.bh@ = t2.bh@.update(top.id(), t2.bh@[grandparent.id()]).update(
                        grandparent.id(),
                        t2.bh@[top.id()],
                    );
                    assert forall|i: int| 0 <= i < tree.size() implies #[trigger] bh_node_ok(*tree, i) by {
                        lemma_bh_outer_node(t2, t3, *tree, grandparent, top, pi, i);
                    }
                }
                return;
            }
        }
    }

    /// Repairs the black height before this black leaf is unlinked: the
    /// hole it leaves is pushed up the tree, through recolorings and at
    /// most three rotations, until a red node absorbs it or it reaches the
    /// root. The leaf stays a leaf and keeps its place, the entries are
    /// untouched, no red node gets a red child, and, with the leaf counted
    /// as missing, every path holds the same number of black nodes.
    pub fn balance_after_remove<K, V>(self, tree: &mut Root<K, V>)
        requires
            old(tree).shape_ok(),
            old(tree).valid(self),
            old(tree).links@[self.id()].left is None,
            old(tree).links@[self.id()].right is None,
            old(tree).links@[self.id()].color == Color::Black,
            red_ok(old(tree).links@),
            bh_ok(*old(tree)),
        ensures
            final(tree).shape_ok(),
            final(tree).same_entries(old(tree)),
            final(tree).entries() == old(tree).entries(),
            final(tree).links@[self.id()].left is None,
            final(tree).links@[self.id()].right is None,
            red_ok(final(tree).links@),
            bh_done(*final(tree), self.id()),
            final(tree).bh@[self.id()] == 0,
    {
        let ghost t0 = *tree;
        proof {
            assert(tree.node_ok(self.id()));
            let ta = *tree;
            ta.lemma_shape_ignores_values();
            tree.bh@ = ta.bh@.update(self.id(), 0);
            lemma_bh_hole_start(ta, *tree, self);
        }
        let mut n = self;
        loop
            invariant
                t0.same_entries(old(tree)),
                t0.entries() == old(tree).entries(),
                self.hole_ok(tree, n),
                tree.same_entries(&t0),
                tree.entries() == t0.entries(),
            decreases tree.size() - (tree.hi@[n.id()] - tree.lo@[n.id()]),
        {
            proof {
                assert(tree.node_ok(n.id()));
            }
            self.settle_red_sibling(tree, n);
            let (idx, parent) = match n.index_and_parent(tree) {
                None => {
                    return;
                },
                Some(ip) => ip,
            };
            let opp = idx.opposite();
            proof {
                self.lemma_outside_sibling(tree, n, parent, idx);
                tree.lemma_child_range(n.id());
                assert(tree.node_ok(parent.id()));
                lemma_hole_around(*tree, self, n, parent, idx);
            }
            let sibling = match parent.child(tree, opp) {
                Some(sib) => sib,
                None => {
                    return;
                },
            };
            proof {
                assert(tree.node_ok(sibling.id()));
                assert(tree.sibling_of(n) == Some(sibling));
            }
            let distant_red = match sibling.child(tree, opp) {
                Some(d) => d.is_red(tree),
                None => false,
            };
            let close_red = match sibling.child(tree, idx) {
                Some(c) => c.is_red(tree),
                None => false,
            };
            if distant_red {
                self.rotate_at_parent(tree, n);
                return;
            }
            if close_red {
                self.rotate_at_sibling(tree, n);
                self.rotate_at_parent(tree, n);
                return;
            }
            let ghost ts = *tree;
            if parent.is_red(tree) {
                proof {
                    lemma_blacken(*tree, parent.id());
                }
                parent.set_color(tree, Color::Black);
                proof {
                    assert(tree.node_ok(sibling.id()));
                    lemma_redden(*tree, sibling.id());
                }
                sibling.set_color(tree, Color::Red);
                proof {
                    let tb = *tree;
                    tb.lemma_shape_ignores_values();
                    tree.bh@ = ts.bh@.update(sibling.id(), ts.bh@[sibling.id()] - 1);
                    lemma_bh_red_parent(ts, *tree, self, n, parent, sibling, idx);
                }
                return;
            }
            proof {
                assert(tree.node_ok(sibling.id()));
                lemma_redden(*tree, sibling.id());
            }
            sibling.set_color(tree, Color::Red);
            proof {
                let tb = *tree;
                tb.lemma_shape_ignores_values();
                tree.bh@ = ts.bh@.update(sibling.id(), ts.bh@[sibling.id()] - 1).update(
                    parent.id(),
                    ts.bh@[parent.id()] - 1,
                );
                lemma_bh_black_parent(ts, *tree, self, n, parent, sibling, idx);
                assert(tree.node_ok(parent.id()));
            }
            n = parent;
        }
    }

    /// The state of the removal fixup: `self` is the leaf to be unlinked,
    /// and `n` the root of the subtree that lacks a black node.
    pub open spec fn hole_ok<K, V>(self, tree: &Root<K, V>, n: NodeRef) -> bool {
        &&& self.hole_base(tree, n)
        &&& bh_hole(*tree, self.id(), n)
    }

    /// The state of the removal fixup apart from black heights.
    pub open spec fn hole_base<K, V>(self, tree: &Root<K, V>, n: NodeRef) -> bool {
        &&& tree.shape_ok()
        &&& tree.valid(self)
        &&& tree.valid(n)
        &&& tree.lo@[n.id()] <= tree.pos@[self.id()] < tree.hi@[n.id()]
        &&& tree.links@[self.id()].left is None
        &&& tree.links@[self.id()].right is None
        &&& red_ok(tree.links@)
        &&& tree.links@[n.id()].color == Color::Black
    }

    /// What a step of the removal fixup keeps.
    pub open spec fn hole_kept<K, V>(self, t0: &Root<K, V>, t1: &Root<K, V>, n: NodeRef) -> bool {
        &&& self.hole_ok(t1, n)
        &&& t1.same_entries(t0)
        &&& t1.entries() == t0.entries()
        &&& t1.lo@[n.id()] == t0.lo@[n.id()]
        &&& t1.hi@[n.id()] == t0.hi@[n.id()]
    }

    /// When `n`'s sibling is red: rotates it above the parent and swaps
    /// their colors, so that `n` gets a black sibling under a red parent.
    fn settle_red_sibling<K, V>(self, tree: &mut Root<K, V>, n: NodeRef)
        requires
            self.hole_ok(old(tree), n),
        ensures
            self.hole_kept(old(tree), final(tree), n),
            final(tree).sibling_of(n) is Some ==> final(tree).links@[final(tree).sibling_of(n).unwrap().id()].color
                == Color::Black,
    {
        if let Some((idx, parent)) = n.index_and_parent(tree) {
            let opp = idx.opposite();
            proof {
                self.lemma_outside_sibling(tree, n, parent, idx);
                assert(tree.node_ok(parent.id()));
                assert(tree.node_ok(n.id()));
            }
            if let Some(sib) = parent.child(tree, opp) {
                if sib.is_red(tree) {
                    let ghost t0 = *tree;
                    assert(opp == opposite(idx));
                    assert(sib.id() != n.id() && parent.id() != n.id());
                    assert(sib.id() != self.id() && parent.id() != self.id());
                    assert(0 <= n.id() < t0.size());
                    let piv = parent.rotate(tree, opp);
                    assert(piv == sib);
                    assert(n.id() != parent.id() && n.id() != piv.id());
                    assert(tree.lo@[n.id()] == t0.lo@[n.id()]);
                    assert(tree.hi@[n.id()] == t0.hi@[n.id()]);
                    assert(tree.links@[self.id()].left is None && tree.links@[self.id()].right is None);
                    let ghost t1 = *tree;
                    parent.set_color(tree, Color::Red);
                    sib.set_color(tree, Color::Black);
                    assert(tree.lo@[n.id()] == t0.lo@[n.id()] && tree.hi@[n.id()] == t0.hi@[n.id()]);
                    assert(tree.links@[self.id()].left is None && tree.links@[self.id()].right is None);
                    proof {
                        assert(is_node(child_of(t0.links@[parent.id()], opposite(opp)), n.id()));
                        assert forall|i: int| 0 <= i < tree.links@.len() && (#[trigger] tree.links@[i]).color == Color::Red implies black_or(
                            tree.links@,
                            tree.links@[i].left,
                            -1,
                        ) && black_or(tree.links@, tree.links@[i].right, -1) by {
                            lemma_red_sibling_step(t0, t1, tree.links@, parent, sib, opp, i);
                        }
                        let t2 = *tree;
                        t2.lemma_shape_ignores_values();
                        tree.bh@ = t0.bh@.update(parent.id(), t0.bh@[sib.id()]).update(sib.id(), t0.bh@[parent.id()]);
                        lemma_bh_red_sibling(t0, t1, *tree, self, n, parent, sib, idx);
                        lemma_rotate_facts(t0, t1, parent, sib, opp);
                        assert(t0.node_ok(sib.id()));
                        if let Some(c) = child_of(t0.links@[sib.id()], idx) {
                            assert(t0.node_ok(c.id()));
                        }
                        assert(tree.shape_ok());
                        assert(tree.node_ok(parent.id()));
                        assert(tree.node_ok(n.id()));
                    }
                }
            }
        }
    }

    /// When `n`'s sibling has a red child on the far side: rotates the
    /// sibling above the parent; the sibling takes the parent's color, and
    /// the parent and that child turn black. The hole is filled.
    fn rotate_at_parent<K, V>(self, tree: &mut Root<K, V>, n: NodeRef)
        requires
            self.hole_ok(old(tree), n),
            far_red(*old(tree), n),
        ensures
            self.hole_base(final(tree), n),
            final(tree).same_entries(old(tree)),
            final(tree).entries() == old(tree).entries(),
            bh_done(*final(tree), self.id()),
            final(tree).bh@[self.id()] == 0,
    {
        if let Some((idx, parent)) = n.index_and_parent(tree) {
            let opp = idx.opposite();
            proof {
                self.lemma_outside_sibling(tree, n, parent, idx);
                assert(tree.node_ok(parent.id()));
                assert(tree.node_ok(n.id()));
                lemma_hole_around(*tree, self, n, parent, idx);
            }
            if let Some(sib) = parent.child(tree, opp) {
                proof {
                    assert(tree.node_ok(sib.id()));
                }
                let pc = parent.color(tree);
                let far = sib.child(tree, opp);
                let ghost t0 = *tree;
                assert(opp == opposite(idx));
                assert(sib.id() != n.id() && parent.id() != n.id());
                assert(sib.id() != self.id() && parent.id() != self.id());
                assert(0 <= n.id() < t0.size());
                let piv = parent.rotate(tree, opp);
                assert(piv == sib);
                assert(n.id() != parent.id() && n.id() != piv.id());
                assert(tree.lo@[n.id()] == t0.lo@[n.id()]);
                assert(tree.hi@[n.id()] == t0.hi@[n.id()]);
                assert(tree.links@[self.id()].left is None && tree.links@[self.id()].right is None);
                let ghost t1 = *tree;
                proof {
                    if let Some(d) = far {
                        assert(t0.node_ok(d.id()));
                        assert(d.id() != n.id());
                    }
                }
                sib.set_color(tree, pc);
                parent.set_color(tree, Color::Black);
                if let Some(d) = far {
                    d.set_color(tree, Color::Black);
                }
                assert(tree.lo@[n.id()] == t0.lo@[n.id()] && tree.hi@[n.id()] == t0.hi@[n.id()]);
                assert(tree.links@[self.id()].left is None && tree.links@[self.id()].right is None);
                proof {
                    assert forall|i: int| 0 <= i < tree.links@.len() && (#[trigger] tree.links@[i]).color == Color::Red implies black_or(
                        tree.links@,
                        tree.links@[i].left,
                        -1,
                    ) && black_or(tree.links@, tree.links@[i].right, -1) by {
                        lemma_far_red_step(t0, t1, tree.links@, parent, sib, opp, i);
                    }
                    let d = far.unwrap();
                    let t2 = *tree;
                    t2.lemma_shape_ignores_values();
                    tree.bh@ = t0.bh@.update(parent.id(), t0.bh@[sib.id()]).update(d.id(), t0.bh@[d.id()] + 1).update(
                        sib.id(),
                        t0.bh@[parent.id()],
                    );
                    assert forall|i: int| 0 <= i < tree.size() && i != self.id() implies #[trigger] bh_node_ok(*tree, i) by {
                        lemma_bh_far_red_node(t0, t1, *tree, self, n, parent, sib, d, idx, i);
                    }
                }
            }
        }
    }

    /// When `n`'s sibling has a red child on the near side and none on the
    /// far side: rotates that child above the sibling and swaps their
    /// colors, so that the red child ends on the far side.
    fn rotate_at_sibling<K, V>(self, tree: &mut Root<K, V>, n: NodeRef)
        requires
            self.hole_ok(old(tree), n),
            near_red(*old(tree), n),
        ensures
            self.hole_kept(old(tree), final(tree), n),
            far_red(*final(tree), n),
    {
        if let Some((idx, parent)) = n.index_and_parent(tree) {
            let opp = idx.opposite();
            proof {
                self.lemma_outside_sibling(tree, n, parent, idx);
                assert(tree.node_ok(parent.id()));
                assert(tree.node_ok(n.id()));
                lemma_hole_around(*tree, self, n, parent, idx);
            }
            if let Some(sib) = parent.child(tree, opp) {
                proof {
                    assert(tree.node_ok(sib.id()));
                }
                if let Some(close) = sib.child(tree, idx) {
                    proof {
                        assert(tree.node_ok(close.id()));
                        assert(close.id() != n.id());
                        assert(close.id() != self.id());
                    }
                    let ghost t0 = *tree;
                    sib.rotate(tree, idx);
                    assert(tree.lo@[n.id()] == t0.lo@[n.id()]);
                    assert(tree.links@[self.id()].left is None);
                    let ghost t1 = *tree;
                    sib.set_color(tree, Color::Red);
                    close.set_color(tree, Color::Black);
                    assert(tree.lo@[n.id()] == t0.lo@[n.id()]);
                    assert(tree.links@[self.id()].left is None);
                    assert(tree.links@[self.id()].right is None);
                    proof {
                        if let Some(d) = child_of(t0.links@[sib.id()], opp) {
                            assert(t0.node_ok(d.id()));
                        }
                        assert forall|i: int| 0 <= i < tree.links@.len() && (#[trigger] tree.links@[i]).color == Color::Red implies black_or(
                            tree.links@,
                            tree.links@[i].left,
                            -1,
                        ) && black_or(tree.links@, tree.links@[i].right, -1) by {
                            lemma_close_red_step(t0, t1, tree.links@, sib, close, idx, i);
                        }
                        let t2 = *tree;
                        t2.lemma_shape_ignores_values();
                        tree.bh@ = t0.bh@.update(sib.id(), t0.bh@[sib.id()] - 1).update(close.id(), t0.bh@[sib.id()]);
                        assert forall|i: int|
                            0 <= i < tree.size() && i != self.id() && !is_node(tree.links@[n.id()].parent, i) implies #[trigger] bh_node_ok(
                            *tree,
                            i,
                        ) by {
                            lemma_rotate_facts(t0, t1, sib, close, idx);
                            assert(tree.links@[n.id()].parent == Some(parent));
                            lemma_bh_close_red_node(t0, t1, *tree, self, n, parent, sib, close, idx, i);
                        }
                        lemma_rotate_facts(t0, t1, sib, close, idx);
                        assert(tree.shape_ok());
                        assert(tree.node_ok(parent.id()));
                        assert(tree.node_ok(close.id()));
                        assert(t0.node_ok(close.id()));
                        assert(bh_node_ok(t0, close.id()));
                        assert(tree.links@[n.id()].parent == Some(parent));
                        assert(tree.sibling_of(n) == Some(close));
                    }
                }
            }
        }
    }

    /// A node whose position lies in the range of `n` is neither `n`'s
    /// parent `p` nor in the subtree of `n`'s sibling.
    pub proof fn lemma_outside_sibling<K, V>(self, tree: &Root<K, V>, n: NodeRef, p: NodeRef, idx: ChildIndex)
        requires
            tree.shape_ok(),
            tree.valid(self),
            tree.valid(n),
            tree.lo@[n.id()] <= tree.pos@[self.id()] < tree.hi@[n.id()],
            tree.links@[n.id()].parent == Some(p),
            is_node(child_of(tree.links@[p.id()], idx), n.id()),
        ensures
            tree.valid(p),
            self.id() != p.id(),
            n.id() != p.id(),
            tree.lo@[p.id()] <= tree.pos@[self.id()] < tree.hi@[p.id()],
            child_of(tree.links@[p.id()], opposite(idx)) is Some ==> {
                let s = child_of(tree.links@[p.id()], opposite(idx)).unwrap().id();
                &&& 0 <= s < tree.size()
                &&& s != self.id()
                &&& s != n.id()
                &&& !(tree.lo@[s] <= tree.pos@[self.id()] < tree.hi@[s])
            },
    {
        assert(tree.node_ok(n.id()));
        assert(tree.node_ok(self.id()));
        assert(tree.node_ok(p.id()));
        if let Some(s) = tree.links@[p.id()].left {
            assert(tree.node_ok(s.id()));
        }
        if let Some(s) = tree.links@[p.id()].right {
            assert(tree.node_ok(s.id()));
        }
    }
}

} // verus!
