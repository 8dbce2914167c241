//! The height of a red-black tree is logarithmic in its size.
use crate::balance::{bh_node_ok, bh_ok, bh_of, red_ok, black_or};
use crate::node::{Color, NodeRef, Root};
use vstd::prelude::*;

verus! {

/// Two to the power `e`.
pub open spec fn exp2(e: nat) -> nat
    decreases e,
{
    if e == 0 {
        1
    } else {
        2 * exp2((e - 1) as nat)
    }
}

pub proof fn lemma_exp2_mono(a: nat, b: nat)
    requires
        a <= b,
    ensures
        exp2(a) <= exp2(b),
        exp2(a) >= 1,
    decreases b,
{
    if b > 0 {
        if a < b {
            lemma_exp2_mono(a, (b - 1) as nat);
        } else {
            lemma_exp2_mono((a - 1) as nat, (b - 1) as nat);
        }
    }
}

pub proof fn lemma_exp2_add(a: nat, b: nat)
    ensures
        exp2(a + b) == exp2(a) * exp2(b),
    decreases a,
{
    if a > 0 {
        lemma_exp2_add((a - 1) as nat, b);
        assert((a - 1) as nat + b == (a + b - 1) as nat);
        assert(exp2(a + b) == 2 * exp2((a + b - 1) as nat));
        assert(exp2(a) == 2 * exp2((a - 1) as nat));
        let x = exp2((a - 1) as nat);
        let y = exp2(b);
        assert(2 * (x * y) == (2 * x) * y) by (nonlinear_arith);
    } else {
        assert(exp2(0) == 1);
        assert(a + b == b);
    }
}

/// The number of nodes on the longest downward path from `o`. The
/// recursion is bounded by `fuel`; any fuel of at least the subtree's size
/// gives the full height.
pub open spec fn height<K, V>(t: Root<K, V>, o: Option<NodeRef>, fuel: nat) -> nat
    decreases fuel,
{
    match o {
        None => 0,
        Some(c) => if fuel == 0 {
            0
        } else {
            let hl = height(t, t.links@[c.id()].left, (fuel - 1) as nat);
            let hr = height(t, t.links@[c.id()].right, (fuel - 1) as nat);
            1 + if hl >= hr {
                hl
            } else {
                hr
            }
        },
    }
}

/// One for a red node, none for a black one.
pub open spec fn own_red<K, V>(t: Root<K, V>, i: int) -> nat {
    if t.links@[i].color == Color::Red {
        1
    } else {
        0
    }
}

/// The subtree at node `i` is at most twice its black height high (plus
/// one for a red node), and holds at least two to the power of that black
/// height (plus one for a red node), less one, nodes.
pub proof fn lemma_subtree_height<K, V>(t: Root<K, V>, x: NodeRef, fuel: nat)
    requires
        t.shape_ok(),
        red_ok(t.links@),
        bh_ok(t),
        t.valid(x),
        fuel >= t.hi@[x.id()] - t.lo@[x.id()],
    ensures
        t.bh@[x.id()] >= 0,
        height(t, Some(x), fuel) <= 2 * t.bh@[x.id()] + own_red(t, x.id()),
        t.hi@[x.id()] - t.lo@[x.id()] + 1 >= exp2((t.bh@[x.id()] + own_red(t, x.id())) as nat),
    decreases t.hi@[x.id()] - t.lo@[x.id()],
{
    let i = x.id();
    assert(t.node_ok(i));
    assert(bh_node_ok(t, i));
    let l = t.links@[i];
    let bc = bh_of(t, l.left);
    let f1 = (fuel - 1) as nat;
    assert(exp2(0) == 1);
    if let Some(c) = l.left {
        assert(t.node_ok(c.id()));
        lemma_subtree_height(t, c, f1);
        lemma_exp2_mono(bc as nat, (t.bh@[c.id()] + own_red(t, c.id())) as nat);
    }
    if let Some(c) = l.right {
        assert(t.node_ok(c.id()));
        lemma_subtree_height(t, c, f1);
        lemma_exp2_mono(bc as nat, (t.bh@[c.id()] + own_red(t, c.id())) as nat);
    }
    lemma_exp2_add(1, bc as nat);
    assert(exp2(1) == 2);
    assert((t.bh@[i] + own_red(t, i)) as nat == 1 + bc as nat);
    let hl = height(t, l.left, f1);
    let hr = height(t, l.right, f1);
    if l.color == Color::Red {
        assert(black_or(t.links@, l.left, -1) && black_or(t.links@, l.right, -1));
        assert(hl <= 2 * bc);
        assert(hr <= 2 * bc);
    } else {
        assert(hl <= 2 * bc + 1);
        assert(hr <= 2 * bc + 1);
    }
    assert(height(t, Some(x), fuel) == 1 + if hl >= hr { hl } else { hr });
}

impl<K, V> Root<K, V> {
    /// The height of the whole tree.
    pub open spec fn tree_height(&self) -> nat {
        height(*self, self.root, self.size() as nat)
    }

    /// A red-black tree of `n` nodes is at most `2·log₂(n + 1)` high:
    /// two to the power of its height is at most `(n + 1)²`.
    pub proof fn lemma_height_bound(&self)
        requires
            self.shape_ok(),
            red_ok(self.links@),
            bh_ok(*self),
        ensures
            exp2(self.tree_height()) <= (self.size() + 1) * (self.size() + 1),
    {
        match self.root {
            None => {
                assert(exp2(0) == 1);
                assert((self.size() + 1) * (self.size() + 1) >= 1) by (nonlinear_arith)
                    requires
                        self.size() >= 0,
                ;
            },
            Some(r) => {
                assert(self.node_ok(r.id()));
                lemma_subtree_height(*self, r, self.size() as nat);
                let b = (self.bh@[r.id()] + own_red(*self, r.id())) as nat;
                let h = self.tree_height();
                let n1 = self.size() + 1;
                assert(h <= 2 * b);
                lemma_exp2_mono(h, 2 * b);
                lemma_exp2_add(b, b);
                assert(b + b == 2 * b);
                let e = exp2(b);
                assert(n1 >= e);
                assert(e * e <= n1 * n1) by (nonlinear_arith)
                    requires
                        n1 >= e,
                        e >= 0,
                ;
            },
        }
    }
}

impl<K: crate::order::KeyOrd, V> Root<K, V> {
    /// In a valid tree no red node has a red child.
    pub proof fn lemma_red_child(&self, i: int)
        requires
            self.inv(),
            0 <= i < self.size(),
            self.links@[i].color == Color::Red,
        ensures
            black_or(self.links@, self.links@[i].left, -1),
            black_or(self.links@, self.links@[i].right, -1),
    {
    }

    /// In a valid tree every node's two sides hold the same number of black
    /// nodes on each path down to a missing child, so all paths from the
    /// root down hold the same number.
    pub proof fn lemma_black_height(&self, i: int)
        requires
            self.inv(),
            0 <= i < self.size(),
        ensures
            bh_of(*self, self.links@[i].left) == bh_of(*self, self.links@[i].right),
    {
        assert(bh_node_ok(*self, i));
    }
}

} // verus!
