//! Removing, in key order, the entries a predicate picks.
use crate::map::RbTreeMap;
use crate::node::NodeRef;
use crate::order::KeyOrd;
use vstd::prelude::*;

verus! {

/// The entries of `s` whose mark equals `keep`, in order.
pub open spec fn select<A>(s: Seq<A>, marks: Seq<bool>, keep: bool) -> Seq<A>
    decreases s.len(),
{
    if s.len() == 0 || marks.len() == 0 {
        Seq::empty()
    } else {
        let r = select(s.drop_last(), marks.drop_last(), keep);
        if marks.last() == keep {
            r.push(s.last())
        } else {
            r
        }
    }
}

/// Taking one more entry and its mark extends the selection by that entry
/// when the mark matches.
pub proof fn lemma_select_push<A>(s: Seq<A>, marks: Seq<bool>, e: A, b: bool, keep: bool)
    requires
        s.len() == marks.len(),
    ensures
        select(s.push(e), marks.push(b), keep) == (if b == keep {
            select(s, marks, keep).push(e)
        } else {
            select(s, marks, keep)
        }),
{
    assert(s.push(e).drop_last() =~= s);
    assert(marks.push(b).drop_last() =~= marks);
}

/// A drain filter whose predicate always answers `false` yields nothing and
/// leaves the map as it was: with every mark false, nothing is selected for
/// removal and everything is kept.
pub proof fn lemma_select_none<A>(s: Seq<A>, marks: Seq<bool>)
    requires
        s.len() == marks.len(),
        forall|i: int| 0 <= i < marks.len() ==> !#[trigger] marks[i],
    ensures
        select(s, marks, true) == Seq::<A>::empty(),
        select(s, marks, false) == s,
    decreases s.len(),
{
    if s.len() > 0 {
        lemma_select_none(s.drop_last(), marks.drop_last());
        assert(!marks[marks.len() - 1]);
        assert(s.drop_last().push(s.last()) =~= s);
    }
}

/// A drain filter whose predicate always answers `true` yields every entry
/// once, in ascending key order, and leaves the map empty: with every mark
/// true, everything is selected for removal and nothing is kept.
pub proof fn lemma_select_all<A>(s: Seq<A>, marks: Seq<bool>)
    requires
        s.len() == marks.len(),
        forall|i: int| 0 <= i < marks.len() ==> #[trigger] marks[i],
    ensures
        select(s, marks, true) == s,
        select(s, marks, false) == Seq::<A>::empty(),
    decreases s.len(),
{
    if s.len() > 0 {
        lemma_select_all(s.drop_last(), marks.drop_last());
        assert(marks[marks.len() - 1]);
        assert(s.drop_last().push(s.last()) =~= s);
    }
}

/// Selecting entries and then taking their keys is taking keys and then selecting.
pub proof fn lemma_select_keys<K, V>(s: Seq<(K, V)>, marks: Seq<bool>, keep: bool)
    requires
        s.len() == marks.len(),
    ensures
        crate::order::keys_of(select(s, marks, keep)) == select(crate::order::keys_of(s), marks, keep),
    decreases s.len(),
{
    if s.len() > 0 {
        lemma_select_keys(s.drop_last(), marks.drop_last(), keep);
        assert(crate::order::keys_of(s).drop_last() =~= crate::order::keys_of(s.drop_last()));
        let r = select(s.drop_last(), marks.drop_last(), keep);
        assert(crate::order::keys_of(r.push(s.last())) =~= crate::order::keys_of(r).push(s.last().0));
    }
}

/// The entries a drain filter removed, yielded in ascending key order.
pub struct DrainFilter<K, V> {
    /// The removed entries, greatest key first.
    pending: Vec<(K, V)>,
}

impl<K, V> DrainFilter<K, V> {
    /// The entries not yet yielded, in order.
    pub closed spec fn rest(&self) -> Seq<(K, V)> {
        self.pending@.reverse()
    }

    /// Yields the removed entry with the least key not yet yielded.
    pub fn next(&mut self) -> (r: Option<(K, V)>)
        ensures
            old(self).rest().len() == 0 ==> r is None && final(self).rest() == old(self).rest(),
            old(self).rest().len() > 0 ==> r == Some(old(self).rest()[0]) && final(self).rest() == old(
                self,
            ).rest().drop_first(),
    {
        let r = self.pending.pop();
        proof {
            if old(self).pending@.len() > 0 {
                assert(self.pending@ == old(self).pending@.drop_last());
                assert forall|j: int| 0 <= j < self.rest().len() implies self.rest()[j] == old(self).rest().drop_first()[j] by {
                }
                assert(self.rest() =~= old(self).rest().drop_first());
            }
        }
        r
    }

    /// The number of removed entries not yet yielded.
    pub fn len(&self) -> (r: usize)
        ensures
            r == self.rest().len(),
    {
        self.pending.len()
    }

    /// Whether every removed entry has been yielded.
    pub fn is_empty(&self) -> (r: bool)
        ensures
            r == (self.rest().len() == 0),
    {
        self.pending.len() == 0
    }
}

impl<K: KeyOrd, V> RbTreeMap<K, V> {
    /// Visits the entries in ascending key order, asks `pred` of each, and
    /// removes those for which it answers `true`; they are handed out, in
    /// the same order, by the returned value. Every entry is asked exactly
    /// once, whatever the caller does with the result.
    pub fn drain_filter<F: Fn(&K, &V) -> bool>(&mut self, pred: F) -> (r: DrainFilter<K, V>)
        requires
            old(self).wf(),
            forall|k: K, v: V| #[trigger] pred.requires((&k, &v)),
        ensures
            final(self).wf(),
            exists|marks: Seq<bool>|
                {
                    &&& marks.len() == old(self)@.len()
                    &&& forall|i: int|
                        0 <= i < marks.len() ==> pred.ensures((&old(self)@[i].0, &old(self)@[i].1), #[trigger] marks[i])
                    &&& r.rest() == select(old(self)@, marks, true)
                    &&& final(self)@ == select(old(self)@, marks, false)
                },
    {
        let ghost e0 = self@;
        let ghost mut marks: Seq<bool> = Seq::empty();
        let mut drained: Vec<(K, V)> = Vec::new();
        let mut cur: Option<NodeRef> = self.first_node();
        let mut i: usize = 0;
        let n = self.len();
        proof {
            assert(e0.subrange(0, 0) =~= Seq::<(K, V)>::empty());
            assert(e0.subrange(0, e0.len() as int) =~= e0);
            assert(select(Seq::<(K, V)>::empty(), marks, false) =~= Seq::<(K, V)>::empty());
            assert(Seq::<(K, V)>::empty() + e0 =~= e0);
        }
        while i < n
            invariant
                self.wf(),
                e0 == old(self)@,
                n == e0.len(),
                0 <= i <= n,
                marks.len() == i,
                forall|j: int| 0 <= j < i ==> pred.ensures((&e0[j].0, &e0[j].1), #[trigger] marks[j]),
                drained@ == select(e0.subrange(0, i as int), marks, true),
                self@ == select(e0.subrange(0, i as int), marks, false) + e0.subrange(i as int, n as int),
                i < n ==> cur is Some && self.node_at(cur.unwrap(), select(e0.subrange(0, i as int), marks, false).len() as int),
                i == n ==> cur is None,
                forall|k: K, v: V| #[trigger] pred.requires((&k, &v)),
            decreases n - i,
        {
            let x = cur.unwrap();
            let ghost kept = select(e0.subrange(0, i as int), marks, false);
            let ghost q = kept.len() as int;
            proof {
                assert(self@[q] == e0[i as int]);
            }
            let (b, next) = self.ask_and_step(x, &pred);
            proof {
                lemma_select_push(e0.subrange(0, i as int), marks, e0[i as int], b, true);
                lemma_select_push(e0.subrange(0, i as int), marks, e0[i as int], b, false);
                assert(e0.subrange(0, i as int).push(e0[i as int]) =~= e0.subrange(0, i + 1));
                marks = marks.push(b);
            }
            if b {
                let (e, after) = self.remove_node_at(x, next, Ghost(q));
                drained.push(e);
                cur = after;
                proof {
                    assert(self@ =~= select(e0.subrange(0, i + 1), marks, false) + e0.subrange(i + 1, n as int));
                }
            } else {
                cur = next;
                proof {
                    assert(self@ =~= select(e0.subrange(0, i + 1), marks, false) + e0.subrange(i + 1, n as int));
                }
            }
            i = i + 1;
        }
        proof {
            assert(e0.subrange(0, n as int) =~= e0);
            assert(e0.subrange(n as int, n as int) =~= Seq::<(K, V)>::empty());
            assert(select(e0.subrange(0, n as int), marks, false) + e0.subrange(n as int, n as int) =~= select(e0, marks, false));
            assert(self@ =~= select(e0, marks, false));
        }
        let mut pending: Vec<(K, V)> = Vec::new();
        let ghost d = drained@;
        while drained.len() > 0
            invariant
                d == drained@ + pending@.reverse(),
            decreases drained.len(),
        {
            let ghost before = drained@;
            match drained.pop() {
                Some(e) => {
                    pending.push(e);
                    proof {
                        assert(before == drained@.push(e));
                        assert(pending@.reverse() =~= seq![e] + pending@.drop_last().reverse());
                        assert(d =~= drained@ + pending@.reverse());
                    }
                },
                None => {},
            }
        }
        proof {
            assert(drained@ =~= Seq::<(K, V)>::empty());
            assert(d =~= pending@.reverse());
        }
        DrainFilter { pending }
    }

    /// Keeps only the entries for which `f` answers `true`.
    pub fn retain<F: Fn(&K, &V) -> bool>(&mut self, f: F)
        requires
            old(self).wf(),
            forall|k: K, v: V| #[trigger] f.requires((&k, &v)),
        ensures
            final(self).wf(),
            exists|marks: Seq<bool>|
                {
                    &&& marks.len() == old(self)@.len()
                    &&& forall|i: int|
                        0 <= i < marks.len() ==> f.ensures((&old(self)@[i].0, &old(self)@[i].1), #[trigger] marks[i])
                    &&& final(self)@ == select(old(self)@, marks, true)
                },
    {
        let ghost e0 = self@;
        let fr = &f;
        let reject = move |k: &K, v: &V| -> (b: bool)
            requires
                fr.requires((k, v)),
            ensures
                fr.ensures((k, v), !b),
            { !fr(k, v) };
        let _ = self.drain_filter(reject);
        proof {
            let marks = choose|marks: Seq<bool>|
                {
                    &&& marks.len() == e0.len()
                    &&& forall|i: int| 0 <= i < marks.len() ==> reject.ensures((&e0[i].0, &e0[i].1), #[trigger] marks[i])
                    &&& self@ == select(e0, marks, false)
                };
            let flipped = Seq::new(marks.len(), |i: int| !marks[i]);
            assert forall|i: int| 0 <= i < flipped.len() implies f.ensures((&e0[i].0, &e0[i].1), #[trigger] flipped[i]) by {
                assert(reject.ensures((&e0[i].0, &e0[i].1), marks[i]));
            }
            lemma_select_flip(e0, marks);
        }
    }
}

/// Selecting with the marks flipped swaps what is taken and what is kept.
pub proof fn lemma_select_flip<A>(s: Seq<A>, marks: Seq<bool>)
    requires
        s.len() == marks.len(),
    ensures
        select(s, Seq::new(marks.len(), |i: int| !marks[i]), true) == select(s, marks, false),
    decreases s.len(),
{
    let f = Seq::new(marks.len(), |i: int| !marks[i]);
    if s.len() > 0 {
        lemma_select_flip(s.drop_last(), marks.drop_last());
        assert(f.drop_last() =~= Seq::new(marks.drop_last().len(), |i: int| !marks.drop_last()[i]));
    }
}

} // verus!
