//! The ordered map.
use crate::cursor::{Bound, RefLeafRange, in_bounds};
use crate::node::{NodeRef, Root};
use crate::order::{KeyOrd, as_map, has_key, lemma_map_index, lemma_map_insert, lemma_map_remove, sorted_entries};
use crate::tree::unshift_pos;
use vstd::prelude::*;

verus! {

/// A map based on a red-black tree, ordered by key.
pub struct RbTreeMap<K, V> {
    root: Root<K, V>,
}

/// The name the tree was first published under.
pub type RedBlackTree<K, V> = RbTreeMap<K, V>;

impl<K, V> View for RbTreeMap<K, V> {
    type V = Seq<(K, V)>;

    /// The entries in ascending key order.
    closed spec fn view(&self) -> Seq<(K, V)> {
        self.root.entries()
    }
}

impl<K: KeyOrd, V> RbTreeMap<K, V> {
    /// The tree is well linked and its keys ascend.
    pub closed spec fn wf(&self) -> bool {
        self.root.inv()
    }

    /// A well-formed map lists its entries in strictly ascending key order,
    /// which is the order in which `iter` yields them.
    pub proof fn lemma_sorted(&self)
        requires
            self.wf(),
        ensures
            sorted_entries(self@),
    {
    }

    /// The height of the tree that holds the entries.
    pub closed spec fn height(&self) -> nat {
        self.root.tree_height()
    }

    /// A map of `n` entries is held in a tree at most `2·log₂(n + 1)` high:
    /// two to the power of its height is at most `(n + 1)²`.
    pub proof fn lemma_height(&self)
        requires
            self.wf(),
        ensures
            crate::height::exp2(self.height()) <= (self@.len() + 1) * (self@.len() + 1),
    {
        self.root.lemma_height_bound();
    }

    /// Creates an empty map.
    pub fn new() -> (r: Self)
        ensures
            r.wf(),
            r@ == Seq::<(K, V)>::empty(),
    {
        RbTreeMap { root: Root::new() }
    }

    /// Removes all entries.
    pub fn clear(&mut self)
        ensures
            final(self).wf(),
            final(self)@ == Seq::<(K, V)>::empty(),
    {
        *self = RbTreeMap::new();
    }

    /// Whether the map holds no entry.
    pub fn is_empty(&self) -> (r: bool)
        requires
            self.wf(),
        ensures
            r == (self@.len() == 0),
    {
        self.root.is_empty()
    }

    /// The number of entries.
    pub fn len(&self) -> (r: usize)
        requires
            self.wf(),
        ensures
            r == self@.len(),
    {
        self.root.len()
    }

    /// Inserts a key-value pair. For a key already present the value is
    /// replaced and the given key is returned with the former value.
    pub fn insert(&mut self, key: K, value: V) -> (r: Option<(K, V)>)
        requires
            old(self).wf(),
            old(self)@.len() < usize::MAX,
        ensures
            final(self).wf(),
            as_map(final(self)@) == as_map(old(self)@).insert(key, value),
            r == (if has_key(old(self)@, key) {
                Some((key, as_map(old(self)@)[key]))
            } else {
                None::<(K, V)>
            }),
            final(self)@.len() == old(self)@.len() + (if has_key(old(self)@, key) { 0int } else { 1 }),
    {
        match self.root.insert_node(key, value) {
            Ok(_) => None,
            Err(kv) => Some(kv),
        }
    }

    /// Removes a key, returning its value if it was present.
    pub fn remove(&mut self, key: &K) -> (r: Option<V>)
        requires
            old(self).wf(),
        ensures
            final(self).wf(),
            as_map(final(self)@) == as_map(old(self)@).remove(*key),
            r == (if has_key(old(self)@, *key) {
                Some(as_map(old(self)@)[*key])
            } else {
                None::<V>
            }),
    {
        match self.remove_entry(key) {
            Some((_, v)) => Some(v),
            None => None,
        }
    }

    /// Removes a key, returning the stored key and its value if it was present.
    pub fn remove_entry(&mut self, key: &K) -> (r: Option<(K, V)>)
        requires
            old(self).wf(),
        ensures
            final(self).wf(),
            as_map(final(self)@) == as_map(old(self)@).remove(*key),
            r == (if has_key(old(self)@, *key) {
                Some((*key, as_map(old(self)@)[*key]))
            } else {
                None::<(K, V)>
            }),
            final(self)@.len() == old(self)@.len() - (if has_key(old(self)@, *key) { 1int } else { 0 }),
    {
        self.root.remove_node(key)
    }

    /// The node holding `key`, if any.
    fn find(&self, key: &K) -> (r: Option<NodeRef>)
        requires
            self.wf(),
        ensures
            r is Some <==> has_key(self@, *key),
            r is Some ==> self.root.valid(r.unwrap()) && self.root.keys@[r.unwrap().id()] == *key
                && self.root.vals@[r.unwrap().id()] == as_map(self@)[*key],
    {
        match self.root.search(key) {
            Some(Ok(x)) => {
                proof {
                    self.root.lemma_found_position(x);
                    lemma_map_index(self@, self.root.pos@[x.id()]);
                }
                Some(x)
            },
            Some(Err((p, side))) => {
                proof {
                    self.root.lemma_brackets_absent(*key, self.root.gap(p, side));
                    self.root.lemma_absent(*key);
                }
                None
            },
            None => None,
        }
    }

    /// `x` is the node at in-order position `j`.
    pub closed spec fn node_at(&self, x: NodeRef, j: int) -> bool {
        &&& self.root.valid(x)
        &&& self.root.pos@[x.id()] == j
        &&& 0 <= j < self@.len()
    }

    /// The node with the least key.
    pub(crate) fn first_node(&self) -> (r: Option<NodeRef>)
        requires
            self.wf(),
        ensures
            r is Some <==> self@.len() > 0,
            r is Some ==> self.node_at(r.unwrap(), 0),
    {
        match self.root.inner() {
            None => None,
            Some(root) => {
                proof {
                    assert(self.root.node_ok(root.id()));
                }
                Some(root.min_child(&self.root))
            },
        }
    }

    /// Asks `pred` about the entry of node `x`, at position `j`, and finds
    /// the node after it.
    pub(crate) fn ask_and_step<F: Fn(&K, &V) -> bool>(&self, x: NodeRef, pred: &F) -> (r: (bool, Option<NodeRef>))
        requires
            self.wf(),
            exists|j: int| self.node_at(x, j),
            forall|k: K, v: V| #[trigger] pred.requires((&k, &v)),
        ensures
            forall|j: int|
                #[trigger] self.node_at(x, j) ==> {
                    &&& pred.ensures((&self@[j].0, &self@[j].1), r.0)
                    &&& r.1 is Some <==> j + 1 < self@.len()
                    &&& r.1 is Some ==> self.node_at(r.1.unwrap(), j + 1)
                },
    {
        proof {
            self.root.lemma_found_position(x);
        }
        let b = pred(x.key(&self.root), x.value(&self.root));
        let next = x.next_node(&self.root);
        (b, next)
    }

    /// Removes the entry of node `x`, at position `j`, whose successor is
    /// `next`; returns it with the successor's new handle.
    pub(crate) fn remove_node_at(&mut self, x: NodeRef, next: Option<NodeRef>, j: Ghost<int>) -> (r: ((K, V), Option<NodeRef>))
        requires
            old(self).wf(),
            old(self).node_at(x, j@),
            next is Some ==> old(self).node_at(next.unwrap(), j@ + 1),
            next is None ==> j@ + 1 == old(self)@.len(),
        ensures
            final(self).wf(),
            final(self)@ == old(self)@.remove(j@),
            r.0 == old(self)@[j@],
            r.1 is Some <==> j@ < final(self)@.len(),
            r.1 is Some ==> final(self).node_at(r.1.unwrap(), j@),
    {
        self.root.remove_at(x, next)
    }

    /// The value stored under `key`.
    pub fn get(&self, key: &K) -> (r: Option<&V>)
        requires
            self.wf(),
        ensures
            r is Some <==> has_key(self@, *key),
            r is Some ==> *r.unwrap() == as_map(self@)[*key],
    {
        match self.find(key) {
            Some(x) => Some(x.value(&self.root)),
            None => None,
        }
    }

    /// The value stored under `key`, to change in place.
    pub fn get_mut(&mut self, key: &K) -> (r: Option<&mut V>)
        requires
            old(self).wf(),
        ensures
            r is Some <==> has_key(old(self)@, *key),
            match r {
                Some(m) => {
                    &&& *m == as_map(old(self)@)[*key]
                    &&& final(self).wf()
                    &&& final(self)@ == old(self)@.update(
                        crate::order::key_index(old(self)@, *key),
                        (*key, *final(m)),
                    )
                },
                None => *final(self) == *old(self),
            },
    {
        match self.find(key) {
            Some(x) => {
                let ghost j = self.root.pos@[x.id()];
                proof {
                    self.root.lemma_found_position(x);
                    lemma_map_index(self@, j);
                }
                Some(self.root.value_mut(x))
            },
            None => None,
        }
    }

    /// The stored key and value for `key`.
    pub fn get_key_value(&self, key: &K) -> (r: Option<(&K, &V)>)
        requires
            self.wf(),
        ensures
            r is Some <==> has_key(self@, *key),
            r is Some ==> *r.unwrap().0 == *key && *r.unwrap().1 == as_map(self@)[*key],
    {
        match self.find(key) {
            Some(x) => Some(x.key_value(&self.root)),
            None => None,
        }
    }

    /// Whether `key` is present.
    pub fn contains_key(&self, key: &K) -> (r: bool)
        requires
            self.wf(),
        ensures
            r == has_key(self@, *key),
    {
        self.find(key).is_some()
    }

    /// The entry with the least key.
    pub fn first(&self) -> (r: Option<(&K, &V)>)
        requires
            self.wf(),
        ensures
            r is None <==> self@.len() == 0,
            r is Some ==> (*r.unwrap().0, *r.unwrap().1) == self@[0],
    {
        match self.root.inner() {
            None => None,
            Some(root) => {
                proof {
                    assert(self.root.node_ok(root.id()));
                }
                let m = root.min_child(&self.root);
                proof {
                    self.root.lemma_found_position(m);
                }
                Some(m.key_value(&self.root))
            },
        }
    }

    /// The entry with the greatest key.
    pub fn last(&self) -> (r: Option<(&K, &V)>)
        requires
            self.wf(),
        ensures
            r is None <==> self@.len() == 0,
            r is Some ==> (*r.unwrap().0, *r.unwrap().1) == self@.last(),
    {
        match self.root.inner() {
            None => None,
            Some(root) => {
                proof {
                    assert(self.root.node_ok(root.id()));
                }
                let m = root.max_child(&self.root);
                proof {
                    self.root.lemma_found_position(m);
                }
                Some(m.key_value(&self.root))
            },
        }
    }

    /// The entry with the least key, its value to change in place.
    pub fn first_mut(&mut self) -> (r: Option<(&K, &mut V)>)
        requires
            old(self).wf(),
        ensures
            r is None <==> old(self)@.len() == 0,
            match r {
                Some((k, m)) => {
                    &&& (*k, *m) == old(self)@[0]
                    &&& final(self).wf()
                    &&& final(self)@ == old(self)@.update(0, (*k, *final(m)))
                },
                None => *final(self) == *old(self),
            },
    {
        match self.root.inner() {
            None => None,
            Some(root) => {
                proof {
                    assert(self.root.node_ok(root.id()));
                }
                let x = root.min_child(&self.root);
                proof {
                    self.root.lemma_found_position(x);
                }
                Some(self.root.key_value_mut(x))
            },
        }
    }

    /// The entry with the greatest key, its value to change in place.
    pub fn last_mut(&mut self) -> (r: Option<(&K, &mut V)>)
        requires
            old(self).wf(),
        ensures
            r is None <==> old(self)@.len() == 0,
            match r {
                Some((k, m)) => {
                    &&& (*k, *m) == old(self)@.last()
                    &&& final(self).wf()
                    &&& final(self)@ == old(self)@.update(old(self)@.len() - 1, (*k, *final(m)))
                },
                None => *final(self) == *old(self),
            },
    {
        match self.root.inner() {
            None => None,
            Some(root) => {
                proof {
                    assert(self.root.node_ok(root.id()));
                }
                let x = root.max_child(&self.root);
                proof {
                    self.root.lemma_found_position(x);
                }
                Some(self.root.key_value_mut(x))
            },
        }
    }

    /// Removes and returns the entry with the least key.
    pub fn pop_first(&mut self) -> (r: Option<(K, V)>)
        requires
            old(self).wf(),
        ensures
            final(self).wf(),
            old(self)@.len() == 0 ==> r is None && final(self)@ == old(self)@,
            old(self)@.len() > 0 ==> r == Some(old(self)@[0]) && final(self)@ == old(self)@.drop_first(),
    {
        match self.root.inner() {
            None => None,
            Some(root) => {
                proof {
                    assert(self.root.node_ok(root.id()));
                }
                let m = root.min_child(&self.root);
                let (e, _) = self.root.remove_at(m, None);
                proof {
                    assert(old(self)@.remove(0) =~= old(self)@.drop_first());
                }
                Some(e)
            },
        }
    }

    /// Removes and returns the entry with the greatest key.
    pub fn pop_last(&mut self) -> (r: Option<(K, V)>)
        requires
            old(self).wf(),
        ensures
            final(self).wf(),
            old(self)@.len() == 0 ==> r is None && final(self)@ == old(self)@,
            old(self)@.len() > 0 ==> r == Some(old(self)@.last()) && final(self)@ == old(self)@.drop_last(),
    {
        match self.root.inner() {
            None => None,
            Some(root) => {
                proof {
                    assert(self.root.node_ok(root.id()));
                }
                let m = root.max_child(&self.root);
                let (e, _) = self.root.remove_at(m, None);
                proof {
                    assert(old(self)@.remove(old(self)@.len() - 1) =~= old(self)@.drop_last());
                }
                Some(e)
            },
        }
    }

    /// Moves every entry of `other` into this map; on equal keys the entry
    /// of `other` wins. `other` is left empty.
    pub fn append(&mut self, other: &mut Self)
        requires
            old(self).wf(),
            old(other).wf(),
            old(self)@.len() + old(other)@.len() < usize::MAX,
        ensures
            final(self).wf(),
            final(other).wf(),
            final(other)@ == Seq::<(K, V)>::empty(),
            as_map(final(self)@) == as_map(old(self)@).union_prefer_right(as_map(old(other)@)),
    {
        if other.is_empty() {
            proof {
                assert(as_map(old(other)@) =~= Map::<K, V>::empty());
                assert(as_map(old(self)@).union_prefer_right(as_map(old(other)@)) =~= as_map(old(self)@));
                assert(old(other)@ =~= Seq::<(K, V)>::empty());
            }
            return;
        }
        if self.is_empty() {
            std::mem::swap(self, other);
            proof {
                assert(as_map(old(self)@) =~= Map::<K, V>::empty());
                assert(as_map(old(self)@).union_prefer_right(as_map(old(other)@)) =~= as_map(old(other)@));
                assert(old(self)@ =~= Seq::<(K, V)>::empty());
            }
            return;
        }
        let ghost s = old(other)@;
        let ghost a = as_map(old(self)@);
        proof {
            old(other).lemma_sorted();
            assert(s.subrange(0, 0) =~= Seq::<(K, V)>::empty());
            assert(as_map(s.subrange(0, 0)) =~= Map::<K, V>::empty());
            assert(a.union_prefer_right(Map::<K, V>::empty()) =~= a);
            assert(s.subrange(0, s.len() as int) =~= s);
        }
        loop
            invariant
                self.wf(),
                other.wf(),
                s == old(other)@,
                a == as_map(old(self)@),
                sorted_entries(s),
                other@.len() <= s.len(),
                other@ == s.subrange(s.len() - other@.len(), s.len() as int),
                as_map(self@) == a.union_prefer_right(as_map(s.subrange(0, s.len() - other@.len()))),
                self@.len() + other@.len() < usize::MAX,
            decreases other@.len(),
        {
            let ghost i = s.len() - other@.len();
            let ghost o = other@;
            match other.pop_first() {
                None => {
                    proof {
                        assert(i == s.len());
                        assert(s.subrange(0, s.len() as int) =~= s);
                        assert(other@ =~= Seq::<(K, V)>::empty());
                        assert(as_map(self@) == a.union_prefer_right(as_map(s)));
                    }
                    return;
                },
                Some((k, v)) => {
                    proof {
                        assert(o.len() > 0);
                        assert(o == s.subrange(i, s.len() as int));
                        assert(o[0] == s.subrange(i, s.len() as int)[0]);
                        assert(o[0] == s[i]);
                        assert(s[i] == (k, v));
                        let p = s.subrange(0, i);
                        assert(p.insert(i, (k, v)) =~= s.subrange(0, i + 1));
                        assert(sorted_entries(s.subrange(0, i + 1)));
                        lemma_map_insert(p, i, k, v);
                        assert(other@ =~= s.subrange(i + 1, s.len() as int));
                        assert(a.union_prefer_right(as_map(p)).insert(k, v) =~= a.union_prefer_right(
                            as_map(p).insert(k, v),
                        ));
                    }
                    self.insert(k, v);
                },
            }
        }
    }

    /// Iterates over the entries in ascending key order.
    pub fn iter(&self) -> (r: Iter<'_, K, V>)
        requires
            self.wf(),
        ensures
            r.wf(),
            r.rest() == self@,
    {
        let range = RefLeafRange::all(&self.root);
        proof {
            assert(self.root.entries().subrange(0, self.root.size()) =~= self@);
            assert(self.root.entries().subrange(0, 0) =~= self@.subrange(0, 0));
        }
        Iter { tree: &self.root, range, length: self.root.len() }
    }

    /// Iterates over the keys in ascending order.
    pub fn keys(&self) -> (r: Keys<'_, K, V>)
        requires
            self.wf(),
        ensures
            r.wf(),
            r.rest() == self@,
    {
        Keys { inner: self.iter() }
    }

    /// Iterates over the values in ascending order of their keys.
    pub fn values(&self) -> (r: Values<'_, K, V>)
        requires
            self.wf(),
        ensures
            r.wf(),
            r.rest() == self@,
    {
        Values { inner: self.iter() }
    }

    /// Iterates in ascending order over the entries whose keys lie between
    /// the two bounds.
    pub fn range(&self, lower: Bound<K>, upper: Bound<K>) -> (r: Range<'_, K, V>)
        requires
            self.wf(),
        ensures
            r.wf(),
            r.rest() == self@.filter(|e: (K, V)| in_bounds(e.0, lower, upper)),
    {
        let range = RefLeafRange::range(&self.root, &lower, &upper);
        proof {
            let (a, b) = range.window(&self.root);
            let s = self@;
            let pred = |e: (K, V)| in_bounds(e.0, lower, upper);
            assert forall|j: int| 0 <= j < s.len() implies ((a <= j < b) <==> pred(#[trigger] s[j])) by {
                assert(s[j].0 == self.root.key_at(j));
            }
            crate::order::lemma_filter_window(s, pred, a, b);
        }
        Range { tree: &self.root, range }
    }

    /// Consumes the map, yielding its entries in ascending key order.
    pub fn into_iter(self) -> (r: IntoIter<K, V>)
        requires
            self.wf(),
        ensures
            r.wf(),
            r.rest() == self@,
    {
        IntoIter { range: DyingLeafRange::new(self) }
    }

    /// Consumes the map, yielding its keys in ascending order.
    pub fn into_keys(self) -> (r: IntoKeys<K, V>)
        requires
            self.wf(),
        ensures
            r.wf(),
            r.rest() == self@,
    {
        IntoKeys { inner: self.into_iter() }
    }

    /// Consumes the map, yielding its values in ascending order of their keys.
    pub fn into_values(self) -> (r: IntoValues<K, V>)
        requires
            self.wf(),
        ensures
            r.wf(),
            r.rest() == self@,
    {
        IntoValues { inner: self.into_iter() }
    }
}

impl<K: KeyOrd, V> Default for RbTreeMap<K, V> {
    /// An empty map.
    fn default() -> (r: Self)
        ensures
            r.wf(),
            r@ == Seq::<(K, V)>::empty(),
    {
        RbTreeMap::new()
    }
}

/// Turning a map into its owning iterator and collecting that back into a
/// fresh map gives a map with the same entries.
pub proof fn lemma_into_iter_collect<K: KeyOrd, V>(m: &RbTreeMap<K, V>, it: &IntoIter<K, V>, back: &RbTreeMap<K, V>)
    requires
        m.wf(),
        it.rest() == m@,
        back@ == it.rest(),
    ensures
        back@ == m@,
{
}

/// Borrowing iterator over the entries of a map.
pub struct Iter<'a, K, V> {
    tree: &'a Root<K, V>,
    range: RefLeafRange,
    length: usize,
}

impl<'a, K: KeyOrd, V> Iter<'a, K, V> {
    /// The entries not yet yielded, in order.
    pub closed spec fn rest(&self) -> Seq<(K, V)> {
        self.range.rest(self.tree)
    }

    pub closed spec fn wf(&self) -> bool {
        &&& self.tree.inv()
        &&& self.range.wf(self.tree)
        &&& self.length == self.range.window(self.tree).1 - self.range.window(self.tree).0
        &&& 0 <= self.range.window(self.tree).0 <= self.range.window(self.tree).1 <= self.tree.size()
    }

    /// Yields the entry with the least key not yet yielded.
    pub fn next(&mut self) -> (r: Option<(&'a K, &'a V)>)
        requires
            old(self).wf(),
        ensures
            final(self).wf(),
            old(self).rest().len() == 0 ==> r is None && final(self).rest() == old(self).rest(),
            old(self).rest().len() > 0 ==> r is Some && (*r.unwrap().0, *r.unwrap().1) == old(self).rest()[0]
                && final(self).rest() == old(self).rest().drop_first(),
    {
        let tree: &'a Root<K, V> = self.tree;
        match self.range.cut_left(tree) {
            Some(x) => {
                self.length = self.length - 1;
                proof {
                    tree.lemma_found_position(x);
                    assert(self.rest() =~= old(self).rest().drop_first());
                }
                Some(x.key_value(tree))
            },
            None => None,
        }
    }

    /// Yields the entry with the greatest key not yet yielded.
    pub fn next_back(&mut self) -> (r: Option<(&'a K, &'a V)>)
        requires
            old(self).wf(),
        ensures
            final(self).wf(),
            old(self).rest().len() == 0 ==> r is None && final(self).rest() == old(self).rest(),
            old(self).rest().len() > 0 ==> r is Some && (*r.unwrap().0, *r.unwrap().1) == old(self).rest().last()
                && final(self).rest() == old(self).rest().drop_last(),
    {
        let tree: &'a Root<K, V> = self.tree;
        match self.range.cut_right(tree) {
            Some(x) => {
                self.length = self.length - 1;
                proof {
                    tree.lemma_found_position(x);
                    assert(self.rest() =~= old(self).rest().drop_last());
                }
                Some(x.key_value(tree))
            },
            None => None,
        }
    }

    /// The number of entries not yet yielded.
    pub fn len(&self) -> (r: usize)
        requires
            self.wf(),
        ensures
            r == self.rest().len(),
    {
        self.length
    }
}

/// Borrowing iterator over the keys of a map.
pub struct Keys<'a, K, V> {
    inner: Iter<'a, K, V>,
}

impl<'a, K: KeyOrd, V> Keys<'a, K, V> {
    /// The entries whose keys are not yet yielded, in order.
    pub closed spec fn rest(&self) -> Seq<(K, V)> {
        self.inner.rest()
    }

    pub closed spec fn wf(&self) -> bool {
        self.inner.wf()
    }

    /// Yields the least key not yet yielded.
    pub fn next(&mut self) -> (r: Option<&'a K>)
        requires
            old(self).wf(),
        ensures
            final(self).wf(),
            old(self).rest().len() == 0 ==> r is None && final(self).rest() == old(self).rest(),
            old(self).rest().len() > 0 ==> r is Some && *r.unwrap() == old(self).rest()[0].0 && final(self).rest()
                == old(self).rest().drop_first(),
    {
        match self.inner.next() {
            Some((k, _)) => Some(k),
            None => None,
        }
    }

    /// Yields the greatest key not yet yielded.
    pub fn next_back(&mut self) -> (r: Option<&'a K>)
        requires
            old(self).wf(),
        ensures
            final(self).wf(),
            old(self).rest().len() == 0 ==> r is None && final(self).rest() == old(self).rest(),
            old(self).rest().len() > 0 ==> r is Some && *r.unwrap() == old(self).rest().last().0 && final(self).rest()
                == old(self).rest().drop_last(),
    {
        match self.inner.next_back() {
            Some((k, _)) => Some(k),
            None => None,
        }
    }

    /// The number of keys not yet yielded.
    pub fn len(&self) -> (r: usize)
        requires
            self.wf(),
        ensures
            r == self.rest().len(),
    {
        self.inner.len()
    }
}

/// Borrowing iterator over the values of a map.
pub struct Values<'a, K, V> {
    inner: Iter<'a, K, V>,
}

impl<'a, K: KeyOrd, V> Values<'a, K, V> {
    /// The entries whose values are not yet yielded, in order.
    pub closed spec fn rest(&self) -> Seq<(K, V)> {
        self.inner.rest()
    }

    pub closed spec fn wf(&self) -> bool {
        self.inner.wf()
    }

    /// Yields the value of the least key not yet visited.
    pub fn next(&mut self) -> (r: Option<&'a V>)
        requires
            old(self).wf(),
        ensures
            final(self).wf(),
            old(self).rest().len() == 0 ==> r is None && final(self).rest() == old(self).rest(),
            old(self).rest().len() > 0 ==> r is Some && *r.unwrap() == old(self).rest()[0].1 && final(self).rest()
                == old(self).rest().drop_first(),
    {
        match self.inner.next() {
            Some((_, v)) => Some(v),
            None => None,
        }
    }

    /// Yields the value of the greatest key not yet visited.
    pub fn next_back(&mut self) -> (r: Option<&'a V>)
        requires
            old(self).wf(),
        ensures
            final(self).wf(),
            old(self).rest().len() == 0 ==> r is None && final(self).rest() == old(self).rest(),
            old(self).rest().len() > 0 ==> r is Some && *r.unwrap() == old(self).rest().last().1 && final(self).rest()
                == old(self).rest().drop_last(),
    {
        match self.inner.next_back() {
            Some((_, v)) => Some(v),
            None => None,
        }
    }

    /// The number of values not yet yielded.
    pub fn len(&self) -> (r: usize)
        requires
            self.wf(),
        ensures
            r == self.rest().len(),
    {
        self.inner.len()
    }
}

/// Borrowing iterator over the entries of a map whose keys lie in a range.
pub struct Range<'a, K, V> {
    tree: &'a Root<K, V>,
    range: RefLeafRange,
}

impl<'a, K: KeyOrd, V> Range<'a, K, V> {
    /// The entries not yet yielded, in order.
    pub closed spec fn rest(&self) -> Seq<(K, V)> {
        self.range.rest(self.tree)
    }

    pub closed spec fn wf(&self) -> bool {
        &&& self.tree.inv()
        &&& self.range.wf(self.tree)
        &&& 0 <= self.range.window(self.tree).0 <= self.range.window(self.tree).1 <= self.tree.size()
    }

    /// Yields the entry with the least key not yet yielded.
    pub fn next(&mut self) -> (r: Option<(&'a K, &'a V)>)
        requires
            old(self).wf(),
        ensures
            final(self).wf(),
            old(self).rest().len() == 0 ==> r is None && final(self).rest() == old(self).rest(),
            old(self).rest().len() > 0 ==> r is Some && (*r.unwrap().0, *r.unwrap().1) == old(self).rest()[0]
                && final(self).rest() == old(self).rest().drop_first(),
    {
        let tree: &'a Root<K, V> = self.tree;
        match self.range.cut_left(tree) {
            Some(x) => {
                proof {
                    tree.lemma_found_position(x);
                    assert(self.rest() =~= old(self).rest().drop_first());
                }
                Some(x.key_value(tree))
            },
            None => None,
        }
    }

    /// Yields the entry with the greatest key not yet yielded.
    pub fn next_back(&mut self) -> (r: Option<(&'a K, &'a V)>)
        requires
            old(self).wf(),
        ensures
            final(self).wf(),
            old(self).rest().len() == 0 ==> r is None && final(self).rest() == old(self).rest(),
            old(self).rest().len() > 0 ==> r is Some && (*r.unwrap().0, *r.unwrap().1) == old(self).rest().last()
                && final(self).rest() == old(self).rest().drop_last(),
    {
        let tree: &'a Root<K, V> = self.tree;
        match self.range.cut_right(tree) {
            Some(x) => {
                proof {
                    tree.lemma_found_position(x);
                    assert(self.rest() =~= old(self).rest().drop_last());
                }
                Some(x.key_value(tree))
            },
            None => None,
        }
    }
}

/// The consuming traversal: it owns the tree and hands out, one entry at a
/// time, the entry with the least or the greatest key left, taking its node
/// out of the tree.
pub struct DyingLeafRange<K, V> {
    map: RbTreeMap<K, V>,
}

impl<K: KeyOrd, V> DyingLeafRange<K, V> {
    /// The entries left, in order.
    pub closed spec fn rest(&self) -> Seq<(K, V)> {
        self.map@
    }

    pub closed spec fn wf(&self) -> bool {
        self.map.wf()
    }

    /// Takes over the whole tree.
    pub fn new(tree: RbTreeMap<K, V>) -> (r: Self)
        requires
            tree.wf(),
        ensures
            r.wf(),
            r.rest() == tree@,
    {
        DyingLeafRange { map: tree }
    }

    /// Takes out the entry with the least key left.
    pub fn cut_left(&mut self) -> (r: Option<(K, V)>)
        requires
            old(self).wf(),
        ensures
            final(self).wf(),
            old(self).rest().len() == 0 ==> r is None && final(self).rest() == old(self).rest(),
            old(self).rest().len() > 0 ==> r == Some(old(self).rest()[0]) && final(self).rest() == old(
                self,
            ).rest().drop_first(),
    {
        self.map.pop_first()
    }

    /// Takes out the entry with the greatest key left.
    pub fn cut_right(&mut self) -> (r: Option<(K, V)>)
        requires
            old(self).wf(),
        ensures
            final(self).wf(),
            old(self).rest().len() == 0 ==> r is None && final(self).rest() == old(self).rest(),
            old(self).rest().len() > 0 ==> r == Some(old(self).rest().last()) && final(self).rest() == old(
                self,
            ).rest().drop_last(),
    {
        self.map.pop_last()
    }

    /// The number of entries left.
    pub fn len(&self) -> (r: usize)
        requires
            self.wf(),
        ensures
            r == self.rest().len(),
    {
        self.map.len()
    }

    /// A well-formed range lists its entries in ascending key order.
    pub proof fn lemma_sorted(&self)
        requires
            self.wf(),
        ensures
            sorted_entries(self.rest()),
    {
        self.map.lemma_sorted();
    }
}

/// Owning iterator over the entries of a map.
pub struct IntoIter<K, V> {
    range: DyingLeafRange<K, V>,
}

impl<K: KeyOrd, V> IntoIter<K, V> {
    /// The entries not yet yielded, in order.
    pub closed spec fn rest(&self) -> Seq<(K, V)> {
        self.range.rest()
    }

    pub closed spec fn wf(&self) -> bool {
        self.range.wf()
    }

    /// Yields the entry with the least key left.
    pub fn next(&mut self) -> (r: Option<(K, V)>)
        requires
            old(self).wf(),
        ensures
            final(self).wf(),
            old(self).rest().len() == 0 ==> r is None && final(self).rest() == old(self).rest(),
            old(self).rest().len() > 0 ==> r == Some(old(self).rest()[0]) && final(self).rest() == old(
                self,
            ).rest().drop_first(),
    {
        self.range.cut_left()
    }

    /// Yields the entry with the greatest key left.
    pub fn next_back(&mut self) -> (r: Option<(K, V)>)
        requires
            old(self).wf(),
        ensures
            final(self).wf(),
            old(self).rest().len() == 0 ==> r is None && final(self).rest() == old(self).rest(),
            old(self).rest().len() > 0 ==> r == Some(old(self).rest().last()) && final(self).rest() == old(
                self,
            ).rest().drop_last(),
    {
        self.range.cut_right()
    }

    /// The number of entries left.
    pub fn len(&self) -> (r: usize)
        requires
            self.wf(),
        ensures
            r == self.rest().len(),
    {
        self.range.len()
    }

    /// Inserts every entry left, in order, into a fresh map. As the entries
    /// come in ascending key order, the fresh map holds exactly them.
    pub fn collect_map(self) -> (r: RbTreeMap<K, V>)
        requires
            self.wf(),
        ensures
            r.wf(),
            r@ == self.rest(),
    {
        let ghost s = self.rest();
        let mut it = self;
        let total = it.len();
        let mut out = RbTreeMap::new();
        proof {
            it.range.lemma_sorted();
            assert(s.subrange(0, 0) =~= out@);
        }
        loop
            invariant
                it.wf(),
                out.wf(),
                sorted_entries(s),
                s == self.rest(),
                s.len() == total,
                it.rest().len() <= s.len(),
                it.rest() == s.subrange(s.len() - it.rest().len(), s.len() as int),
                out@ == s.subrange(0, s.len() - it.rest().len()),
            decreases it.rest().len(),
        {
            let ghost i = s.len() - it.rest().len();
            let ghost before = it.rest();
            match it.next() {
                None => {
                    proof {
                        assert(s.subrange(0, s.len() as int) =~= s);
                    }
                    return out;
                },
                Some((k, v)) => {
                    proof {
                        assert(before[0] == s[i]);
                        let p = s.subrange(0, i);
                        assert(p.insert(i, (k, v)) =~= s.subrange(0, i + 1));
                        assert(sorted_entries(s.subrange(0, i + 1)));
                        lemma_map_insert(p, i, k, v);
                        assert(it.rest() =~= s.subrange(i + 1, s.len() as int));
                    }
                    out.insert(k, v);
                    proof {
                        out.lemma_sorted();
                        crate::order::lemma_sorted_map_eq(out@, s.subrange(0, i + 1));
                    }
                },
            }
        }
    }
}

/// Owning iterator over the keys of a map.
pub struct IntoKeys<K, V> {
    inner: IntoIter<K, V>,
}

impl<K: KeyOrd, V> IntoKeys<K, V> {
    /// The entries whose keys are not yet yielded, in order.
    pub closed spec fn rest(&self) -> Seq<(K, V)> {
        self.inner.rest()
    }

    pub closed spec fn wf(&self) -> bool {
        self.inner.wf()
    }

    /// Yields the least key left.
    pub fn next(&mut self) -> (r: Option<K>)
        requires
            old(self).wf(),
        ensures
            final(self).wf(),
            old(self).rest().len() == 0 ==> r is None && final(self).rest() == old(self).rest(),
            old(self).rest().len() > 0 ==> r == Some(old(self).rest()[0].0) && final(self).rest() == old(
                self,
            ).rest().drop_first(),
    {
        match self.inner.next() {
            Some((k, _)) => Some(k),
            None => None,
        }
    }

    /// Yields the greatest key left.
    pub fn next_back(&mut self) -> (r: Option<K>)
        requires
            old(self).wf(),
        ensures
            final(self).wf(),
            old(self).rest().len() == 0 ==> r is None && final(self).rest() == old(self).rest(),
            old(self).rest().len() > 0 ==> r == Some(old(self).rest().last().0) && final(self).rest() == old(
                self,
            ).rest().drop_last(),
    {
        match self.inner.next_back() {
            Some((k, _)) => Some(k),
            None => None,
        }
    }
}

/// Owning iterator over the values of a map.
pub struct IntoValues<K, V> {
    inner: IntoIter<K, V>,
}

impl<K: KeyOrd, V> IntoValues<K, V> {
    /// The entries whose values are not yet yielded, in order.
    pub closed spec fn rest(&self) -> Seq<(K, V)> {
        self.inner.rest()
    }

    pub closed spec fn wf(&self) -> bool {
        self.inner.wf()
    }

    /// Yields the value of the least key left.
    pub fn next(&mut self) -> (r: Option<V>)
        requires
            old(self).wf(),
        ensures
            final(self).wf(),
            old(self).rest().len() == 0 ==> r is None && final(self).rest() == old(self).rest(),
            old(self).rest().len() > 0 ==> r == Some(old(self).rest()[0].1) && final(self).rest() == old(
                self,
            ).rest().drop_first(),
    {
        match self.inner.next() {
            Some((_, v)) => Some(v),
            None => None,
        }
    }

    /// Yields the value of the greatest key left.
    pub fn next_back(&mut self) -> (r: Option<V>)
        requires
            old(self).wf(),
        ensures
            final(self).wf(),
            old(self).rest().len() == 0 ==> r is None && final(self).rest() == old(self).rest(),
            old(self).rest().len() > 0 ==> r == Some(old(self).rest().last().1) && final(self).rest() == old(
                self,
            ).rest().drop_last(),
    {
        match self.inner.next_back() {
            Some((_, v)) => Some(v),
            None => None,
        }
    }
}

} // verus!
