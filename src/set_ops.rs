//! Difference, intersection, union and symmetric difference of sets, and
//! the comparisons built on them.
use crate::order::{KeyOrd, lemma_less_asym, sorted};
use crate::set::{Iter, RbTreeSet};
use std::cmp::Ordering;
use vstd::prelude::*;

verus! {

/// The values of sorted `a` and `b` together, merged in order, common
/// values once.
pub open spec fn union_of<T: KeyOrd>(a: Seq<T>, b: Seq<T>) -> Seq<T>
    decreases a.len() + b.len(),
{
    if a.len() == 0 {
        b
    } else if b.len() == 0 {
        a
    } else if a[0].less(b[0]) {
        seq![a[0]] + union_of(a.drop_first(), b)
    } else if b[0].less(a[0]) {
        seq![b[0]] + union_of(a, b.drop_first())
    } else {
        seq![a[0]] + union_of(a.drop_first(), b.drop_first())
    }
}

/// The values of sorted `a` and `b` that are in exactly one of them, in order.
pub open spec fn sym_diff_of<T: KeyOrd>(a: Seq<T>, b: Seq<T>) -> Seq<T>
    decreases a.len() + b.len(),
{
    if a.len() == 0 {
        b
    } else if b.len() == 0 {
        a
    } else if a[0].less(b[0]) {
        seq![a[0]] + sym_diff_of(a.drop_first(), b)
    } else if b[0].less(a[0]) {
        seq![b[0]] + sym_diff_of(a, b.drop_first())
    } else {
        sym_diff_of(a.drop_first(), b.drop_first())
    }
}

/// Every value of `s` is greater than `x`.
pub open spec fn all_above<T: KeyOrd>(s: Seq<T>, x: T) -> bool {
    forall|i: int| 0 <= i < s.len() ==> x.less(#[trigger] s[i])
}

proof fn lemma_sorted_tail<T: KeyOrd>(s: Seq<T>)
    requires
        sorted(s),
        s.len() > 0,
    ensures
        sorted(s.drop_first()),
        all_above(s.drop_first(), s[0]),
        s =~= seq![s[0]] + s.drop_first(),
{
    assert forall|i: int, j: int| 0 <= i < j < s.drop_first().len() implies (#[trigger] s.drop_first()[i]).less(
        #[trigger] s.drop_first()[j],
    ) by {
        assert(s.drop_first()[i] == s[i + 1] && s.drop_first()[j] == s[j + 1]);
    }
    assert forall|i: int| 0 <= i < s.drop_first().len() implies s[0].less(#[trigger] s.drop_first()[i]) by {
        assert(s.drop_first()[i] == s[i + 1]);
    }
}

proof fn lemma_cons_sorted<T: KeyOrd>(x: T, s: Seq<T>)
    requires
        sorted(s),
        all_above(s, x),
    ensures
        sorted(seq![x] + s),
{
    let t = seq![x] + s;
    assert forall|i: int, j: int| 0 <= i < j < t.len() implies (#[trigger] t[i]).less(#[trigger] t[j]) by {
        if i == 0 {
            assert(t[j] == s[j - 1]);
        } else {
            assert(t[i] == s[i - 1] && t[j] == s[j - 1]);
        }
    }
}

proof fn lemma_above_trans<T: KeyOrd>(s: Seq<T>, x: T, y: T)
    requires
        all_above(s, y),
        x.less(y),
    ensures
        all_above(s, x),
{
    assert forall|i: int| 0 <= i < s.len() implies x.less(#[trigger] s[i]) by {
        T::lemma_transitive(x, y, s[i]);
    }
}

/// The merged union of sorted sequences is sorted, holds exactly the values
/// of both, and stays above any bound both stay above.
pub proof fn lemma_union_of<T: KeyOrd>(a: Seq<T>, b: Seq<T>)
    requires
        sorted(a),
        sorted(b),
    ensures
        sorted(union_of(a, b)),
        union_of(a, b).to_set() == a.to_set().union(b.to_set()),
        forall|x: T| all_above(a, x) && all_above(b, x) ==> all_above(union_of(a, b), x),
    decreases a.len() + b.len(),
{
    let u = union_of(a, b);
    if a.len() == 0 {
        assert(a.to_set() =~= Set::<T>::empty());
        assert(u.to_set() =~= a.to_set().union(b.to_set()));
    } else if b.len() == 0 {
        assert(b.to_set() =~= Set::<T>::empty());
        assert(u.to_set() =~= a.to_set().union(b.to_set()));
    } else {
        lemma_sorted_tail(a);
        lemma_sorted_tail(b);
        let (x, a2, b2) = if a[0].less(b[0]) {
            (a[0], a.drop_first(), b)
        } else if b[0].less(a[0]) {
            (b[0], a, b.drop_first())
        } else {
            (a[0], a.drop_first(), b.drop_first())
        };
        lemma_union_of(a2, b2);
        let rest = union_of(a2, b2);
        assert(u == seq![x] + rest);
        if a[0].less(b[0]) {
            lemma_above_trans(b.drop_first(), a[0], b[0]);
            assert(all_above(b, a[0])) by {
                assert forall|i: int| 0 <= i < b.len() implies a[0].less(#[trigger] b[i]) by {
                    if i > 0 {
                        assert(b[i] == b.drop_first()[i - 1]);
                    }
                }
            }
        } else if b[0].less(a[0]) {
            assert(all_above(a, b[0])) by {
                assert forall|i: int| 0 <= i < a.len() implies b[0].less(#[trigger] a[i]) by {
                    if i > 0 {
                        assert(a[i] == a.drop_first()[i - 1]);
                        T::lemma_transitive(b[0], a[0], a[i]);
                    }
                }
            }
        } else {
            T::lemma_total(a[0], b[0]);
        }
        lemma_cons_sorted(x, rest);
        assert(u.to_set() =~= a.to_set().union(b.to_set())) by {
            assert forall|y: T| #[trigger] u.to_set().contains(y) <==> a.to_set().union(b.to_set()).contains(y) by {
                if u.contains(y) {
                    let k = choose|k: int| 0 <= k < u.len() && u[k] == y;
                    if k > 0 {
                        assert(rest[k - 1] == y);
                        assert(rest.to_set().contains(y));
                        if a2.to_set().contains(y) {
                            let m = choose|m: int| 0 <= m < a2.len() && a2[m] == y;
                            if a2 != a {
                                assert(a[m + 1] == y);
                            }
                        } else {
                            let m = choose|m: int| 0 <= m < b2.len() && b2[m] == y;
                            if b2 != b {
                                assert(b[m + 1] == y);
                            }
                        }
                    } else {
                        assert(u[0] == x);
                    }
                }
                if a.contains(y) {
                    let m = choose|m: int| 0 <= m < a.len() && a[m] == y;
                    if m == 0 {
                        if a2 == a {
                            assert(a2.contains(y));
                            assert(rest.to_set().contains(y));
                            assert(u[0] == x);
                            let k = choose|k: int| 0 <= k < rest.len() && rest[k] == y;
                            assert(u[k + 1] == y);
                        } else {
                            assert(u[0] == y);
                        }
                    } else {
                        if a2 == a {
                            assert(a2[m] == y);
                        } else {
                            assert(a2[m - 1] == y);
                        }
                        assert(rest.to_set().contains(y));
                        let k = choose|k: int| 0 <= k < rest.len() && rest[k] == y;
                        assert(u[k + 1] == y);
                    }
                }
                if b.contains(y) {
                    let m = choose|m: int| 0 <= m < b.len() && b[m] == y;
                    if m == 0 && b2 != b && !(a[0].less(b[0])) && !(b[0].less(a[0])) {
                        assert(a[0] == b[0]);
                        assert(u[0] == y);
                    } else if m == 0 && b2 != b {
                        assert(u[0] == y);
                    } else {
                        if b2 == b {
                            assert(b2[m] == y);
                        } else {
                            assert(b2[m - 1] == y);
                        }
                        assert(rest.to_set().contains(y));
                        let k = choose|k: int| 0 <= k < rest.len() && rest[k] == y;
                        assert(u[k + 1] == y);
                    }
                }
            }
        }
        assert forall|z: T| all_above(a, z) && all_above(b, z) implies all_above(u, z) by {
            assert(all_above(a2, z)) by {
                assert forall|i: int| 0 <= i < a2.len() implies z.less(#[trigger] a2[i]) by {
                    if a2 != a {
                        assert(a2[i] == a[i + 1]);
                    }
                }
            }
            assert(all_above(b2, z)) by {
                assert forall|i: int| 0 <= i < b2.len() implies z.less(#[trigger] b2[i]) by {
                    if b2 != b {
                        assert(b2[i] == b[i + 1]);
                    }
                }
            }
            assert forall|i: int| 0 <= i < u.len() implies z.less(#[trigger] u[i]) by {
                if i > 0 {
                    assert(u[i] == rest[i - 1]);
                }
            }
        }
    }
}

/// A non-empty sequence holds its first value and the values of its tail.
proof fn lemma_contains_cons<T>(s: Seq<T>)
    requires
        s.len() > 0,
    ensures
        forall|y: T| #[trigger] s.contains(y) <==> (y == s[0] || s.drop_first().contains(y)),
{
    assert forall|y: T| #[trigger] s.contains(y) <==> (y == s[0] || s.drop_first().contains(y)) by {
        if s.contains(y) && y != s[0] {
            let k = choose|k: int| 0 <= k < s.len() && s[k] == y;
            assert(s.drop_first()[k - 1] == y);
        }
        if s.drop_first().contains(y) {
            let k = choose|k: int| 0 <= k < s.drop_first().len() && s.drop_first()[k] == y;
            assert(s[k + 1] == y);
        }
        if y == s[0] {
            assert(s[0] == y);
        }
    }
}

/// A sorted sequence does not hold its first value again.
proof fn lemma_head_not_in_tail<T: KeyOrd>(s: Seq<T>)
    requires
        sorted(s),
        s.len() > 0,
    ensures
        !s.drop_first().contains(s[0]),
{
    if s.drop_first().contains(s[0]) {
        let k = choose|k: int| 0 <= k < s.drop_first().len() && s.drop_first()[k] == s[0];
        assert(s[k + 1] == s[0]);
        T::lemma_irreflexive(s[0]);
    }
}

/// A value below everything in a sequence is not in it.
proof fn lemma_below_not_in<T: KeyOrd>(s: Seq<T>, x: T)
    requires
        all_above(s, x),
    ensures
        !s.contains(x),
{
    if s.contains(x) {
        let k = choose|k: int| 0 <= k < s.len() && s[k] == x;
        T::lemma_irreflexive(x);
    }
}

/// The merged symmetric difference of sorted sequences is sorted, holds
/// exactly the values in one of them only, and stays above any bound both
/// stay above.
pub proof fn lemma_sym_diff_of<T: KeyOrd>(a: Seq<T>, b: Seq<T>)
    requires
        sorted(a),
        sorted(b),
    ensures
        sorted(sym_diff_of(a, b)),
        sym_diff_of(a, b).to_set() == a.to_set().difference(b.to_set()).union(b.to_set().difference(a.to_set())),
        forall|x: T| all_above(a, x) && all_above(b, x) ==> all_above(sym_diff_of(a, b), x),
    decreases a.len() + b.len(),
{
    let u = sym_diff_of(a, b);
    let target = a.to_set().difference(b.to_set()).union(b.to_set().difference(a.to_set()));
    if a.len() == 0 {
        assert(a.to_set() =~= Set::<T>::empty());
        assert(u.to_set() =~= target);
    } else if b.len() == 0 {
        assert(b.to_set() =~= Set::<T>::empty());
        assert(u.to_set() =~= target);
    } else {
        lemma_sorted_tail(a);
        lemma_sorted_tail(b);
        lemma_head_not_in_tail(a);
        lemma_head_not_in_tail(b);
        if a[0].less(b[0]) {
            lemma_less_asym(a[0], b[0]);
        }
        let a2 = if b[0].less(a[0]) { a } else { a.drop_first() };
        let b2 = if a[0].less(b[0]) { b } else { b.drop_first() };
        lemma_sym_diff_of(a2, b2);
        let rest = sym_diff_of(a2, b2);
        assert forall|i: int| 0 <= i < a2.len() implies #[trigger] a2[i] == a[i + (a.len() - a2.len())] by {}
        assert forall|i: int| 0 <= i < b2.len() implies #[trigger] b2[i] == b[i + (b.len() - b2.len())] by {}
        if a[0].less(b[0]) {
            assert(all_above(b, a[0])) by {
                assert forall|i: int| 0 <= i < b.len() implies a[0].less(#[trigger] b[i]) by {
                    if i > 0 {
                        T::lemma_transitive(a[0], b[0], b[i]);
                    }
                }
            }
            lemma_below_not_in(b, a[0]);
            lemma_cons_sorted(a[0], rest);
            assert(u == seq![a[0]] + rest);
        } else if b[0].less(a[0]) {
            assert(all_above(a, b[0])) by {
                assert forall|i: int| 0 <= i < a.len() implies b[0].less(#[trigger] a[i]) by {
                    if i > 0 {
                        T::lemma_transitive(b[0], a[0], a[i]);
                    }
                }
            }
            lemma_below_not_in(a, b[0]);
            lemma_cons_sorted(b[0], rest);
            assert(u == seq![b[0]] + rest);
        } else {
            T::lemma_total(a[0], b[0]);
            assert(a[0] == b[0]);
            lemma_below_not_in(a2, a[0]);
            lemma_below_not_in(b2, a[0]);
            assert(u == rest);
        }
        lemma_contains_cons(a);
        lemma_contains_cons(b);
        if u != rest {
            lemma_contains_cons(u);
            assert(u.drop_first() =~= rest);
        }
        assert forall|y: T| #[trigger] u.to_set().contains(y) == target.contains(y) by {
            assert(u.to_set().contains(y) == u.contains(y));
            assert(rest.to_set().contains(y) == rest.contains(y));
            assert(a.to_set().contains(y) == a.contains(y));
            assert(b.to_set().contains(y) == b.contains(y));
            assert(a2.to_set().contains(y) == a2.contains(y));
            assert(b2.to_set().contains(y) == b2.contains(y));
            assert(a.contains(y) <==> (y == a[0] || a.drop_first().contains(y)));
            assert(b.contains(y) <==> (y == b[0] || b.drop_first().contains(y)));
        }
        assert(u.to_set() =~= target);
        assert forall|z: T| all_above(a, z) && all_above(b, z) implies all_above(u, z) by {
            assert(all_above(a2, z)) by {
                assert forall|i: int| 0 <= i < a2.len() implies z.less(#[trigger] a2[i]) by {
                    assert(a2[i] == a[i + (a.len() - a2.len())]);
                }
            }
            assert(all_above(b2, z)) by {
                assert forall|i: int| 0 <= i < b2.len() implies z.less(#[trigger] b2[i]) by {
                    assert(b2[i] == b[i + (b.len() - b2.len())]);
                }
            }
            assert forall|i: int| 0 <= i < u.len() implies z.less(#[trigger] u[i]) by {
                if u != rest && i > 0 {
                    assert(u[i] == rest[i - 1]);
                }
            }
        }
    }
}

/// The values a set iterator has left, with the one taken ahead of it.
pub enum Peeked<'a, T> {
    A(&'a T),
    B(&'a T),
}

/// Walks two set iterators side by side, in order, pairing equal values.
pub struct MergeIter<'a, T> {
    a: Iter<'a, T>,
    b: Iter<'a, T>,
    peeked: Option<Peeked<'a, T>>,
}

impl<'a, T: KeyOrd> MergeIter<'a, T> {
    /// The values left on the first side, in order.
    pub closed spec fn a_rest(&self) -> Seq<T> {
        match self.peeked {
            Some(Peeked::A(x)) => seq![*x] + self.a.rest(),
            _ => self.a.rest(),
        }
    }

    /// The values left on the second side, in order.
    pub closed spec fn b_rest(&self) -> Seq<T> {
        match self.peeked {
            Some(Peeked::B(x)) => seq![*x] + self.b.rest(),
            _ => self.b.rest(),
        }
    }

    pub closed spec fn wf(&self) -> bool {
        &&& self.a.wf()
        &&& self.b.wf()
        &&& self.a_rest().len() <= usize::MAX
        &&& self.b_rest().len() <= usize::MAX
    }

    pub fn new(a: Iter<'a, T>, b: Iter<'a, T>) -> (r: Self)
        requires
            a.wf(),
            b.wf(),
        ensures
            r.wf(),
            r.a_rest() == a.rest(),
            r.b_rest() == b.rest(),
    {
        let la = a.len();
        let lb = b.len();
        proof {
            assert(la as int == a.rest().len() && lb as int == b.rest().len());
        }
        MergeIter { a, b, peeked: None }
    }

    /// Takes the least value left on either side: from both sides when
    /// they hold it both.
    pub fn nexts(&mut self) -> (r: (Option<&'a T>, Option<&'a T>))
        requires
            old(self).wf(),
        ensures
            final(self).wf(),
            ({
                let a = old(self).a_rest();
                let b = old(self).b_rest();
                &&& r.0 is Some <==> a.len() > 0 && (b.len() == 0 || !b[0].less(a[0]))
                &&& r.1 is Some <==> b.len() > 0 && (a.len() == 0 || !a[0].less(b[0]))
                &&& r.0 is Some ==> *r.0.unwrap() == a[0] && final(self).a_rest() == a.drop_first()
                &&& r.0 is None ==> final(self).a_rest() == a
                &&& r.1 is Some ==> *r.1.unwrap() == b[0] && final(self).b_rest() == b.drop_first()
                &&& r.1 is None ==> final(self).b_rest() == b
            }),
    {
        let ghost a0 = self.a_rest();
        let ghost b0 = self.b_rest();
        let (a_next, b_next) = match self.peeked.take() {
            Some(Peeked::A(x)) => {
                proof {
                    assert(a0.drop_first() =~= self.a.rest());
                }
                (Some(x), self.b.next())
            },
            Some(Peeked::B(x)) => {
                proof {
                    assert(b0.drop_first() =~= self.b.rest());
                }
                (self.a.next(), Some(x))
            },
            None => (self.a.next(), self.b.next()),
        };
        match (a_next, b_next) {
            (Some(x), Some(y)) => {
                match x.compare(y) {
                    Ordering::Less => {
                        self.peeked = Some(Peeked::B(y));
                        proof {
                            assert(seq![*y] + self.b.rest() =~= b0);
                            lemma_less_asym(*x, *y);
                        }
                        (Some(x), None)
                    },
                    Ordering::Greater => {
                        self.peeked = Some(Peeked::A(x));
                        proof {
                            assert(seq![*x] + self.a.rest() =~= a0);
                            lemma_less_asym(*y, *x);
                        }
                        (None, Some(y))
                    },
                    Ordering::Equal => {
                        proof {
                            T::lemma_irreflexive(*x);
                        }
                        (Some(x), Some(y))
                    },
                }
            },
            (a_next, b_next) => (a_next, b_next),
        }
    }

    /// How many values each side has left.
    pub fn lens(&self) -> (r: (usize, usize))
        requires
            self.wf(),
        ensures
            r.0 == self.a_rest().len(),
            r.1 == self.b_rest().len(),
    {
        let (a_incr, b_incr): (usize, usize) = match self.peeked {
            Some(Peeked::A(_)) => (1, 0),
            Some(Peeked::B(_)) => (0, 1),
            None => (0, 0),
        };
        (self.a.len() + a_incr, self.b.len() + b_incr)
    }
}

/// The values of a set operation, computed in order and handed out one by one.
pub struct Listed<'a, T> {
    items: Vec<&'a T>,
    index: usize,
}

impl<'a, T> Listed<'a, T> {
    /// The values not yet yielded, in order.
    pub closed spec fn rest(&self) -> Seq<T> {
        self.items@.subrange(self.index as int, self.items@.len() as int).map_values(|r: &T| *r)
    }

    pub closed spec fn wf(&self) -> bool {
        self.index <= self.items@.len()
    }

    fn from_vec(items: Vec<&'a T>) -> (r: Self)
        ensures
            r.wf(),
            r.rest() == items@.map_values(|x: &T| *x),
    {
        let r = Listed { items, index: 0 };
        proof {
            assert(r.rest() =~= r.items@.map_values(|x: &T| *x));
        }
        r
    }

    /// Yields the least value not yet yielded.
    pub fn next(&mut self) -> (r: Option<&'a T>)
        requires
            old(self).wf(),
        ensures
            final(self).wf(),
            old(self).rest().len() == 0 ==> r is None && final(self).rest() == old(self).rest(),
            old(self).rest().len() > 0 ==> r is Some && *r.unwrap() == old(self).rest()[0] && final(self).rest()
                == old(self).rest().drop_first(),
    {
        if self.index < self.items.len() {
            let r = self.items[self.index];
            self.index = self.index + 1;
            proof {
                assert(self.rest() =~= old(self).rest().drop_first());
            }
            Some(r)
        } else {
            None
        }
    }
}

/// The values of a set that are not in another, in ascending order.
pub struct Difference<'a, T> {
    inner: Listed<'a, T>,
}

/// The values in exactly one of two sets, in ascending order.
pub struct SymmetricDifference<'a, T> {
    inner: Listed<'a, T>,
}

/// The values in both of two sets, in ascending order.
pub struct Intersection<'a, T> {
    inner: Listed<'a, T>,
}

/// The values in either of two sets, in ascending order.
pub struct Union<'a, T> {
    inner: Listed<'a, T>,
}

impl<'a, T> Difference<'a, T> {
    pub closed spec fn rest(&self) -> Seq<T> {
        self.inner.rest()
    }

    pub closed spec fn wf(&self) -> bool {
        self.inner.wf()
    }

    pub fn next(&mut self) -> (r: Option<&'a T>)
        requires
            old(self).wf(),
        ensures
            final(self).wf(),
            old(self).rest().len() == 0 ==> r is None && final(self).rest() == old(self).rest(),
            old(self).rest().len() > 0 ==> r is Some && *r.unwrap() == old(self).rest()[0] && final(self).rest()
                == old(self).rest().drop_first(),
    {
        self.inner.next()
    }
}

impl<'a, T> SymmetricDifference<'a, T> {
    pub closed spec fn rest(&self) -> Seq<T> {
        self.inner.rest()
    }

    pub closed spec fn wf(&self) -> bool {
        self.inner.wf()
    }

    pub fn next(&mut self) -> (r: Option<&'a T>)
        requires
            old(self).wf(),
        ensures
            final(self).wf(),
            old(self).rest().len() == 0 ==> r is None && final(self).rest() == old(self).rest(),
            old(self).rest().len() > 0 ==> r is Some && *r.unwrap() == old(self).rest()[0] && final(self).rest()
                == old(self).rest().drop_first(),
    {
        self.inner.next()
    }
}

impl<'a, T> Intersection<'a, T> {
    pub closed spec fn rest(&self) -> Seq<T> {
        self.inner.rest()
    }

    pub closed spec fn wf(&self) -> bool {
        self.inner.wf()
    }

    pub fn next(&mut self) -> (r: Option<&'a T>)
        requires
            old(self).wf(),
        ensures
            final(self).wf(),
            old(self).rest().len() == 0 ==> r is None && final(self).rest() == old(self).rest(),
            old(self).rest().len() > 0 ==> r is Some && *r.unwrap() == old(self).rest()[0] && final(self).rest()
                == old(self).rest().drop_first(),
    {
        self.inner.next()
    }
}

impl<'a, T> Union<'a, T> {
    pub closed spec fn rest(&self) -> Seq<T> {
        self.inner.rest()
    }

    pub closed spec fn wf(&self) -> bool {
        self.inner.wf()
    }

    pub fn next(&mut self) -> (r: Option<&'a T>)
        requires
            old(self).wf(),
        ensures
            final(self).wf(),
            old(self).rest().len() == 0 ==> r is None && final(self).rest() == old(self).rest(),
            old(self).rest().len() > 0 ==> r is Some && *r.unwrap() == old(self).rest()[0] && final(self).rest()
                == old(self).rest().drop_first(),
    {
        self.inner.next()
    }
}

impl<T: KeyOrd> RbTreeSet<T> {
    /// The values of this set, in order, for which membership in `other`
    /// equals `wanted`; found by looking each one up in `other`.
    fn probe(&self, other: &RbTreeSet<T>, wanted: bool) -> (r: Vec<&T>)
        requires
            self.wf(),
            other.wf(),
        ensures
            r@.map_values(|x: &T| *x) == self@.filter(|x: T| other@.contains(x) == wanted),
    {
        let ghost s = self@;
        let ghost p = |x: T| other@.contains(x) == wanted;
        let mut it = self.iter();
        let mut out: Vec<&T> = Vec::new();
        proof {
            assert(s.subrange(0, 0) =~= Seq::<T>::empty());
            assert(Seq::<T>::empty().filter(p) =~= Seq::<T>::empty());
            assert(out@.map_values(|x: &T| *x) =~= Seq::<T>::empty());
        }
        loop
            invariant
                it.wf(),
                self.wf(),
                other.wf(),
                s == self@,
                p == (|x: T| other@.contains(x) == wanted),
                it.rest().len() <= s.len(),
                it.rest() == s.subrange(s.len() - it.rest().len(), s.len() as int),
                out@.map_values(|x: &T| *x) == s.subrange(0, s.len() - it.rest().len()).filter(p),
            decreases it.rest().len(),
        {
            let ghost i = s.len() - it.rest().len();
            let ghost before = it.rest();
            match it.next() {
                None => {
                    proof {
                        assert(s.subrange(0, s.len() as int) =~= s);
                    }
                    return out;
                },
                Some(x) => {
                    proof {
                        assert(before[0] == s[i]);
                        assert(s.subrange(0, i + 1) =~= s.subrange(0, i).push(s[i]));
                        s.subrange(0, i).lemma_filter_push(s[i], p);
                        assert(it.rest() =~= s.subrange(i + 1, s.len() as int));
                    }
                    if other.contains(x) == wanted {
                        out.push(x);
                        proof {
                            assert(out@.map_values(|x: &T| *x) =~= s.subrange(0, i + 1).filter(p));
                        }
                    }
                },
            }
        }
    }

    /// The values in this set but not in `other`, in ascending order.
    pub fn difference<'a>(&'a self, other: &'a RbTreeSet<T>) -> (r: Difference<'a, T>)
        requires
            self.wf(),
            other.wf(),
        ensures
            r.wf(),
            r.rest() == self@.filter(|x: T| other@.contains(x) == false),
    {
        Difference { inner: Listed::from_vec(self.probe(other, false)) }
    }

    /// The values in both this set and `other`, in ascending order.
    pub fn intersection<'a>(&'a self, other: &'a RbTreeSet<T>) -> (r: Intersection<'a, T>)
        requires
            self.wf(),
            other.wf(),
        ensures
            r.wf(),
            r.rest() == self@.filter(|x: T| other@.contains(x) == true),
    {
        Intersection { inner: Listed::from_vec(self.probe(other, true)) }
    }

    /// The values in this set or in `other`, in ascending order.
    pub fn union<'a>(&'a self, other: &'a RbTreeSet<T>) -> (r: Union<'a, T>)
        requires
            self.wf(),
            other.wf(),
        ensures
            r.wf(),
            sorted(r.rest()),
            r.rest().to_set() == self@.to_set().union(other@.to_set()),
    {
        let ghost a0 = self@;
        let ghost b0 = other@;
        let mut m = MergeIter::new(self.iter(), other.iter());
        let mut out: Vec<&'a T> = Vec::new();
        proof {
            assert(out@.map_values(|x: &T| *x) + union_of(m.a_rest(), m.b_rest()) =~= union_of(a0, b0));
        }
        loop
            invariant
                m.wf(),
                self.wf(),
                other.wf(),
                a0 == self@,
                b0 == other@,
                out@.map_values(|x: &T| *x) + union_of(m.a_rest(), m.b_rest()) == union_of(a0, b0),
            decreases m.a_rest().len() + m.b_rest().len(),
        {
            let ghost a = m.a_rest();
            let ghost b = m.b_rest();
            let ghost before = out@.map_values(|x: &T| *x);
            match m.nexts() {
                (None, None) => {
                    proof {
                        if a.len() > 0 && b.len() > 0 && a[0].less(b[0]) {
                            lemma_less_asym(a[0], b[0]);
                        }
                        assert(a.len() == 0 && b.len() == 0);
                        assert(union_of(a, b) =~= Seq::<T>::empty());
                        assert(before + union_of(a, b) =~= before);
                        assert(before =~= union_of(a0, b0));
                    }
                    proof {
                        self.lemma_sorted();
                        other.lemma_sorted();
                        lemma_union_of(a0, b0);
                    }
                    return Union { inner: Listed::from_vec(out) };
                },
                (Some(x), _) => {
                    out.push(x);
                    proof {
                        if b.len() > 0 && !a[0].less(b[0]) && !b[0].less(a[0]) {
                            T::lemma_total(a[0], b[0]);
                        }
                        assert(out@.map_values(|x: &T| *x) =~= before.push(*x));
                        assert(before + union_of(a, b) =~= before.push(*x) + union_of(m.a_rest(), m.b_rest()));
                    }
                },
                (None, Some(y)) => {
                    out.push(y);
                    proof {
                        assert(out@.map_values(|x: &T| *x) =~= before.push(*y));
                        assert(before + union_of(a, b) =~= before.push(*y) + union_of(m.a_rest(), m.b_rest()));
                    }
                },
            }
        }
    }

    /// The values in exactly one of this set and `other`, in ascending order.
    pub fn symmetric_difference<'a>(&'a self, other: &'a RbTreeSet<T>) -> (r: SymmetricDifference<'a, T>)
        requires
            self.wf(),
            other.wf(),
        ensures
            r.wf(),
            sorted(r.rest()),
            r.rest().to_set() == self@.to_set().difference(other@.to_set()).union(
                other@.to_set().difference(self@.to_set()),
            ),
    {
        let ghost a0 = self@;
        let ghost b0 = other@;
        let mut m = MergeIter::new(self.iter(), other.iter());
        let mut out: Vec<&'a T> = Vec::new();
        proof {
            assert(out@.map_values(|x: &T| *x) + sym_diff_of(m.a_rest(), m.b_rest()) =~= sym_diff_of(a0, b0));
        }
        loop
            invariant
                m.wf(),
                self.wf(),
                other.wf(),
                a0 == self@,
                b0 == other@,
                out@.map_values(|x: &T| *x) + sym_diff_of(m.a_rest(), m.b_rest()) == sym_diff_of(a0, b0),
            decreases m.a_rest().len() + m.b_rest().len(),
        {
            let ghost a = m.a_rest();
            let ghost b = m.b_rest();
            let ghost before = out@.map_values(|x: &T| *x);
            match m.nexts() {
                (None, None) => {
                    proof {
                        if a.len() > 0 && b.len() > 0 && a[0].less(b[0]) {
                            lemma_less_asym(a[0], b[0]);
                        }
                        assert(a.len() == 0 && b.len() == 0);
                        assert(sym_diff_of(a, b) =~= Seq::<T>::empty());
                        assert(before + sym_diff_of(a, b) =~= before);
                        assert(before =~= sym_diff_of(a0, b0));
                        self.lemma_sorted();
                        other.lemma_sorted();
                        lemma_sym_diff_of(a0, b0);
                    }
                    return SymmetricDifference { inner: Listed::from_vec(out) };
                },
                (Some(x), Some(_)) => {
                    proof {
                        T::lemma_total(a[0], b[0]);
                        assert(before + sym_diff_of(a, b) =~= before + sym_diff_of(m.a_rest(), m.b_rest()));
                    }
                },
                (Some(x), None) => {
                    out.push(x);
                    proof {
                        assert(out@.map_values(|x: &T| *x) =~= before.push(*x));
                        assert(before + sym_diff_of(a, b) =~= before.push(*x) + sym_diff_of(m.a_rest(), m.b_rest()));
                    }
                },
                (None, Some(y)) => {
                    out.push(y);
                    proof {
                        assert(out@.map_values(|x: &T| *x) =~= before.push(*y));
                        assert(before + sym_diff_of(a, b) =~= before.push(*y) + sym_diff_of(m.a_rest(), m.b_rest()));
                    }
                },
            }
        }
    }

    /// Whether the two sets share no value.
    pub fn is_disjoint(&self, other: &RbTreeSet<T>) -> (r: bool)
        requires
            self.wf(),
            other.wf(),
        ensures
            r == (forall|x: T| !(self@.contains(x) && other@.contains(x))),
    {
        let mut common = self.intersection(other);
        let r = common.next().is_none();
        proof {
            let p = |x: T| other@.contains(x) == true;
            if !r {
                let f = self@.filter(p);
                assert(f.contains(f[0]));
                self@.lemma_filter_contains_rev(p, f[0]);
                self@.filter_lemma(p);
            } else {
                assert forall|x: T| !(self@.contains(x) && other@.contains(x)) by {
                    if self@.contains(x) && other@.contains(x) {
                        let i = choose|i: int| 0 <= i < self@.len() && self@[i] == x;
                        self@.lemma_filter_contains(p, i);
                    }
                }
            }
        }
        r
    }

    /// Whether every value of this set is in `other`.
    pub fn is_subset(&self, other: &RbTreeSet<T>) -> (r: bool)
        requires
            self.wf(),
            other.wf(),
        ensures
            r == (forall|x: T| self@.contains(x) ==> other@.contains(x)),
    {
        let mut missing = self.difference(other);
        let r = missing.next().is_none();
        proof {
            let p = |x: T| other@.contains(x) == false;
            if !r {
                let f = self@.filter(p);
                assert(f.contains(f[0]));
                self@.lemma_filter_contains_rev(p, f[0]);
                self@.filter_lemma(p);
            } else {
                assert forall|x: T| self@.contains(x) implies other@.contains(x) by {
                    if !other@.contains(x) {
                        let i = choose|i: int| 0 <= i < self@.len() && self@[i] == x;
                        self@.lemma_filter_contains(p, i);
                    }
                }
            }
        }
        r
    }

    /// Whether every value of `other` is in this set.
    pub fn is_superset(&self, other: &RbTreeSet<T>) -> (r: bool)
        requires
            self.wf(),
            other.wf(),
        ensures
            r == (forall|x: T| other@.contains(x) ==> self@.contains(x)),
    {
        other.is_subset(self)
    }
}

} // verus!
