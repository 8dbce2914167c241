//! The ordered set: a map whose values carry nothing.
use crate::cursor::{Bound, in_bounds, lemma_keys_in_bounds};
use crate::drain::{DrainFilter, select};
use crate::map::{RbTreeMap, Keys};
use crate::order::{KeyOrd, as_map, has_key, keys_of, lemma_keys_dom, lemma_keys_sorted, sorted};
use vstd::prelude::*;

verus! {

/// A set based on a red-black tree, ordered by value.
pub struct RbTreeSet<T> {
    map: RbTreeMap<T, ()>,
}

impl<T> View for RbTreeSet<T> {
    type V = Seq<T>;

    /// The values in ascending order.
    closed spec fn view(&self) -> Seq<T> {
        keys_of(self.map@)
    }
}

impl<T: KeyOrd> RbTreeSet<T> {
    pub closed spec fn wf(&self) -> bool {
        self.map.wf()
    }

    /// A well-formed set lists its values in strictly ascending order.
    pub proof fn lemma_sorted(&self)
        requires
            self.wf(),
        ensures
            sorted(self@),
    {
        self.map.lemma_sorted();
        lemma_keys_sorted(self.map@);
    }

    /// Creates an empty set.
    pub fn new() -> (r: Self)
        ensures
            r.wf(),
            r@ == Seq::<T>::empty(),
    {
        let r = RbTreeSet { map: RbTreeMap::new() };
        proof {
            assert(r@ =~= Seq::<T>::empty());
        }
        r
    }

    /// The number of values.
    pub fn len(&self) -> (r: usize)
        requires
            self.wf(),
        ensures
            r == self@.len(),
    {
        self.map.len()
    }

    /// Whether the set holds no value.
    pub fn is_empty(&self) -> (r: bool)
        requires
            self.wf(),
        ensures
            r == (self@.len() == 0),
    {
        self.map.is_empty()
    }

    /// Removes every value.
    pub fn clear(&mut self)
        ensures
            final(self).wf(),
            final(self)@ == Seq::<T>::empty(),
    {
        self.map.clear();
        proof {
            assert(self@ =~= Seq::<T>::empty());
        }
    }

    /// Whether `value` is in the set.
    pub fn contains(&self, value: &T) -> (r: bool)
        requires
            self.wf(),
        ensures
            r == self@.contains(*value),
    {
        proof {
            lemma_keys_dom(self.map@);
        }
        self.map.contains_key(value)
    }

    /// The stored value equal to `value`.
    pub fn get(&self, value: &T) -> (r: Option<&T>)
        requires
            self.wf(),
        ensures
            r is Some <==> self@.contains(*value),
            r is Some ==> *r.unwrap() == *value,
    {
        proof {
            lemma_keys_dom(self.map@);
        }
        match self.map.get_key_value(value) {
            Some((k, _)) => Some(k),
            None => None,
        }
    }

    /// Adds `value`; returns whether it was absent.
    pub fn insert(&mut self, value: T) -> (r: bool)
        requires
            old(self).wf(),
            old(self)@.len() < usize::MAX,
        ensures
            final(self).wf(),
            r == !old(self)@.contains(value),
            final(self)@.to_set() == old(self)@.to_set().insert(value),
    {
        proof {
            lemma_keys_dom(self.map@);
        }
        let r = self.map.insert(value, ());
        proof {
            lemma_keys_dom(self.map@);
            assert(self@.to_set() =~= old(self)@.to_set().insert(value));
        }
        r.is_none()
    }

    /// Adds `value`, replacing an equal one; returns the replaced value.
    pub fn replace(&mut self, value: T) -> (r: Option<T>)
        requires
            old(self).wf(),
            old(self)@.len() < usize::MAX,
        ensures
            final(self).wf(),
            r == (if old(self)@.contains(value) { Some(value) } else { None::<T> }),
            final(self)@.to_set() == old(self)@.to_set().insert(value),
    {
        proof {
            lemma_keys_dom(self.map@);
        }
        let r = self.map.insert(value, ());
        proof {
            lemma_keys_dom(self.map@);
            assert(self@.to_set() =~= old(self)@.to_set().insert(value));
        }
        match r {
            Some((k, _)) => Some(k),
            None => None,
        }
    }

    /// Removes `value`; returns whether it was present.
    pub fn remove(&mut self, value: &T) -> (r: bool)
        requires
            old(self).wf(),
        ensures
            final(self).wf(),
            r == old(self)@.contains(*value),
            final(self)@.to_set() == old(self)@.to_set().remove(*value),
    {
        self.take(value).is_some()
    }

    /// Removes and returns the stored value equal to `value`.
    pub fn take(&mut self, value: &T) -> (r: Option<T>)
        requires
            old(self).wf(),
        ensures
            final(self).wf(),
            r == (if old(self)@.contains(*value) { Some(*value) } else { None::<T> }),
            final(self)@.to_set() == old(self)@.to_set().remove(*value),
    {
        proof {
            lemma_keys_dom(self.map@);
        }
        let r = self.map.remove_entry(value);
        proof {
            lemma_keys_dom(self.map@);
            assert(self@.to_set() =~= old(self)@.to_set().remove(*value));
        }
        match r {
            Some((k, _)) => Some(k),
            None => None,
        }
    }

    /// The least value.
    pub fn first(&self) -> (r: Option<&T>)
        requires
            self.wf(),
        ensures
            r is None <==> self@.len() == 0,
            r is Some ==> *r.unwrap() == self@[0],
    {
        match self.map.first() {
            Some((k, _)) => Some(k),
            None => None,
        }
    }

    /// The greatest value.
    pub fn last(&self) -> (r: Option<&T>)
        requires
            self.wf(),
        ensures
            r is None <==> self@.len() == 0,
            r is Some ==> *r.unwrap() == self@.last(),
    {
        match self.map.last() {
            Some((k, _)) => Some(k),
            None => None,
        }
    }

    /// Removes and returns the least value.
    pub fn pop_first(&mut self) -> (r: Option<T>)
        requires
            old(self).wf(),
        ensures
            final(self).wf(),
            old(self)@.len() == 0 ==> r is None && final(self)@ == old(self)@,
            old(self)@.len() > 0 ==> r == Some(old(self)@[0]) && final(self)@ == old(self)@.drop_first(),
    {
        let r = self.map.pop_first();
        proof {
            assert(self@ =~= old(self)@.drop_first() || old(self)@.len() == 0);
        }
        match r {
            Some((k, _)) => Some(k),
            None => None,
        }
    }

    /// Removes and returns the greatest value.
    pub fn pop_last(&mut self) -> (r: Option<T>)
        requires
            old(self).wf(),
        ensures
            final(self).wf(),
            old(self)@.len() == 0 ==> r is None && final(self)@ == old(self)@,
            old(self)@.len() > 0 ==> r == Some(old(self)@.last()) && final(self)@ == old(self)@.drop_last(),
    {
        let r = self.map.pop_last();
        proof {
            assert(self@ =~= old(self)@.drop_last() || old(self)@.len() == 0);
        }
        match r {
            Some((k, _)) => Some(k),
            None => None,
        }
    }

    /// Iterates over the values in ascending order.
    pub fn iter(&self) -> (r: Iter<'_, T>)
        requires
            self.wf(),
        ensures
            r.wf(),
            r.rest() == self@,
    {
        Iter { keys: self.map.keys() }
    }

    /// Iterates in ascending order over the values between the two bounds.
    pub fn range(&self, lower: Bound<T>, upper: Bound<T>) -> (r: Range<'_, T>)
        requires
            self.wf(),
        ensures
            r.wf(),
            r.rest() == self@.filter(|x: T| in_bounds(x, lower, upper)),
    {
        let r = Range { inner: self.map.range(lower, upper) };
        proof {
            lemma_keys_in_bounds(self.map@, lower, upper);
        }
        r
    }

    /// Removes the values `pred` picks, visiting them in ascending order;
    /// the removed values are handed out in that order.
    pub fn drain_filter<F: Fn(&T) -> bool>(&mut self, pred: F) -> (r: SetDrainFilter<T>)
        requires
            old(self).wf(),
            forall|v: T| #[trigger] pred.requires((&v,)),
        ensures
            final(self).wf(),
            exists|marks: Seq<bool>|
                {
                    &&& marks.len() == old(self)@.len()
                    &&& forall|i: int| 0 <= i < marks.len() ==> pred.ensures((&old(self)@[i],), #[trigger] marks[i])
                    &&& r.rest() == select(old(self)@, marks, true)
                    &&& final(self)@ == select(old(self)@, marks, false)
                },
    {
        let pr = &pred;
        let on_entry = move |k: &T, _v: &()| -> (b: bool)
            requires
                pr.requires((k,)),
            ensures
                pr.ensures((k,), b),
            { pr(k) };
        let ghost m0 = self.map@;
        let inner = self.map.drain_filter(on_entry);
        proof {
            let marks = choose|marks: Seq<bool>|
                {
                    &&& marks.len() == m0.len()
                    &&& forall|i: int| 0 <= i < marks.len() ==> on_entry.ensures((&m0[i].0, &m0[i].1), #[trigger] marks[i])
                    &&& inner.rest() == select(m0, marks, true)
                    &&& self.map@ == select(m0, marks, false)
                };
            assert forall|i: int| 0 <= i < marks.len() implies pred.ensures((&old(self)@[i],), #[trigger] marks[i]) by {
                assert(on_entry.ensures((&m0[i].0, &m0[i].1), marks[i]));
                assert(old(self)@[i] == m0[i].0);
            }
            crate::drain::lemma_select_keys(m0, marks, true);
            crate::drain::lemma_select_keys(m0, marks, false);
        }
        SetDrainFilter { inner }
    }
}

impl<T: KeyOrd> Default for RbTreeSet<T> {
    /// An empty set.
    fn default() -> (r: Self)
        ensures
            r.wf(),
            r@ == Seq::<T>::empty(),
    {
        RbTreeSet::new()
    }
}

/// Borrowing iterator over the values of a set.
pub struct Iter<'a, T> {
    keys: Keys<'a, T, ()>,
}

impl<'a, T: KeyOrd> Iter<'a, T> {
    /// The values not yet yielded, in order.
    pub closed spec fn rest(&self) -> Seq<T> {
        keys_of(self.keys.rest())
    }

    pub closed spec fn wf(&self) -> bool {
        self.keys.wf()
    }

    /// Yields the least value not yet yielded.
    pub fn next(&mut self) -> (r: Option<&'a T>)
        requires
            old(self).wf(),
        ensures
            final(self).wf(),
            old(self).rest().len() == 0 ==> r is None && final(self).rest() == old(self).rest(),
            old(self).rest().len() > 0 ==> r is Some && *r.unwrap() == old(self).rest()[0] && final(self).rest()
                == old(self).rest().drop_first(),
    {
        let r = self.keys.next();
        proof {
            assert(self.rest() =~= old(self).rest().drop_first() || old(self).rest().len() == 0);
        }
        r
    }

    /// Yields the greatest value not yet yielded.
    pub fn next_back(&mut self) -> (r: Option<&'a T>)
        requires
            old(self).wf(),
        ensures
            final(self).wf(),
            old(self).rest().len() == 0 ==> r is None && final(self).rest() == old(self).rest(),
            old(self).rest().len() > 0 ==> r is Some && *r.unwrap() == old(self).rest().last() && final(self).rest()
                == old(self).rest().drop_last(),
    {
        let r = self.keys.next_back();
        proof {
            assert(self.rest() =~= old(self).rest().drop_last() || old(self).rest().len() == 0);
        }
        r
    }

    /// The number of values not yet yielded.
    pub fn len(&self) -> (r: usize)
        requires
            self.wf(),
        ensures
            r == self.rest().len(),
    {
        self.keys.len()
    }
}

/// Borrowing iterator over the values of a set within a range.
pub struct Range<'a, T> {
    inner: crate::map::Range<'a, T, ()>,
}

impl<'a, T: KeyOrd> Range<'a, T> {
    /// The values not yet yielded, in order.
    pub closed spec fn rest(&self) -> Seq<T> {
        keys_of(self.inner.rest())
    }

    pub closed spec fn wf(&self) -> bool {
        self.inner.wf()
    }

    /// Yields the least value not yet yielded.
    pub fn next(&mut self) -> (r: Option<&'a T>)
        requires
            old(self).wf(),
        ensures
            final(self).wf(),
            old(self).rest().len() == 0 ==> r is None && final(self).rest() == old(self).rest(),
            old(self).rest().len() > 0 ==> r is Some && *r.unwrap() == old(self).rest()[0] && final(self).rest()
                == old(self).rest().drop_first(),
    {
        let r = self.inner.next();
        proof {
            assert(self.rest() =~= old(self).rest().drop_first() || old(self).rest().len() == 0);
        }
        match r {
            Some((k, _)) => Some(k),
            None => None,
        }
    }

    /// Yields the greatest value not yet yielded.
    pub fn next_back(&mut self) -> (r: Option<&'a T>)
        requires
            old(self).wf(),
        ensures
            final(self).wf(),
            old(self).rest().len() == 0 ==> r is None && final(self).rest() == old(self).rest(),
            old(self).rest().len() > 0 ==> r is Some && *r.unwrap() == old(self).rest().last() && final(self).rest()
                == old(self).rest().drop_last(),
    {
        let r = self.inner.next_back();
        proof {
            assert(self.rest() =~= old(self).rest().drop_last() || old(self).rest().len() == 0);
        }
        match r {
            Some((k, _)) => Some(k),
            None => None,
        }
    }
}

/// The values a set's drain filter removed, yielded in ascending order.
pub struct SetDrainFilter<T> {
    inner: DrainFilter<T, ()>,
}

impl<T> SetDrainFilter<T> {
    /// The values not yet yielded, in order.
    pub closed spec fn rest(&self) -> Seq<T> {
        keys_of(self.inner.rest())
    }

    /// Yields the least removed value not yet yielded.
    pub fn next(&mut self) -> (r: Option<T>)
        ensures
            old(self).rest().len() == 0 ==> r is None && final(self).rest() == old(self).rest(),
            old(self).rest().len() > 0 ==> r == Some(old(self).rest()[0]) && final(self).rest() == old(
                self,
            ).rest().drop_first(),
    {
        let r = self.inner.next();
        proof {
            assert(self.rest() =~= old(self).rest().drop_first() || old(self).rest().len() == 0);
        }
        match r {
            Some((k, _)) => Some(k),
            None => None,
        }
    }
}

} // verus!
