//! Total orders on keys, and facts about sequences sorted by them.
use std::cmp::Ordering;
use vstd::prelude::*;

verus! {

/// A key type with a strict total order that agrees with `==`.
pub trait KeyOrd: Sized {
    /// `self` comes strictly before `other`.
    spec fn less(self, other: Self) -> bool;

    proof fn lemma_irreflexive(x: Self)
        ensures
            !x.less(x),
    ;

    proof fn lemma_transitive(x: Self, y: Self, z: Self)
        requires
            x.less(y),
            y.less(z),
        ensures
            x.less(z),
    ;

    proof fn lemma_total(x: Self, y: Self)
        ensures
            x.less(y) || x == y || y.less(x),
    ;

    /// Three-way comparison agreeing with `less`.
    fn compare(&self, other: &Self) -> (o: Ordering)
        ensures
            (o == Ordering::Less) == self.less(*other),
            (o == Ordering::Equal) == (*self == *other),
            (o == Ordering::Greater) == other.less(*self),
    ;
}

/// Keys strictly ascending.
pub open spec fn sorted<K: KeyOrd>(s: Seq<K>) -> bool {
    forall|i: int, j: int| 0 <= i < j < s.len() ==> (#[trigger] s[i]).less(#[trigger] s[j])
}

/// The keys of a sequence of entries.
pub open spec fn keys_of<K, V>(s: Seq<(K, V)>) -> Seq<K> {
    s.map_values(|e: (K, V)| e.0)
}

/// Entries strictly ascending by key.
pub open spec fn sorted_entries<K: KeyOrd, V>(s: Seq<(K, V)>) -> bool {
    forall|i: int, j: int| 0 <= i < j < s.len() ==> (#[trigger] s[i]).0.less((#[trigger] s[j]).0)
}

/// Some entry of `s` has key `k`.
pub open spec fn has_key<K, V>(s: Seq<(K, V)>, k: K) -> bool {
    exists|i: int| 0 <= i < s.len() && (#[trigger] s[i]).0 == k
}


/// The index of an entry with key `k`.
pub open spec fn key_index<K, V>(s: Seq<(K, V)>, k: K) -> int {
    choose|i: int| 0 <= i < s.len() && (#[trigger] s[i]).0 == k
}

/// The map that a sequence of entries with distinct keys stands for.
pub open spec fn as_map<K, V>(s: Seq<(K, V)>) -> Map<K, V> {
    Map::new(|k: K| has_key(s, k), |k: K| s[key_index(s, k)].1)
}

/// Each entry of a sorted sequence is found in its map.
pub proof fn lemma_map_index<K: KeyOrd, V>(s: Seq<(K, V)>, j: int)
    requires
        sorted_entries(s),
        0 <= j < s.len(),
    ensures
        as_map(s).contains_key(s[j].0),
        as_map(s)[s[j].0] == s[j].1,
        key_index(s, s[j].0) == j,
{
    assert(has_key(s, s[j].0));
    let i = key_index(s, s[j].0);
    lemma_sorted_unique(s, i, j);
}

/// Inserting an entry whose key is new at its sorted place inserts it into the map.
pub proof fn lemma_map_insert<K: KeyOrd, V>(s: Seq<(K, V)>, g: int, k: K, v: V)
    requires
        0 <= g <= s.len(),
        sorted_entries(s.insert(g, (k, v))),
    ensures
        sorted_entries(s),
        !has_key(s, k),
        as_map(s.insert(g, (k, v))) == as_map(s).insert(k, v),
{
    let t = s.insert(g, (k, v));
    assert forall|i: int, j: int| 0 <= i < j < s.len() implies (#[trigger] s[i]).0.less((#[trigger] s[j]).0) by {
        let i2 = if i < g { i } else { i + 1 };
        let j2 = if j < g { j } else { j + 1 };
        assert(t[i2] == s[i] && t[j2] == s[j]);
    }
    if has_key(s, k) {
        let i = choose|i: int| 0 <= i < s.len() && (#[trigger] s[i]).0 == k;
        let i2 = if i < g { i } else { i + 1 };
        assert(t[i2] == s[i]);
        lemma_sorted_unique(t, i2, g);
    }
    let m = as_map(s).insert(k, v);
    assert forall|x: K| #[trigger] as_map(t).contains_key(x) <==> m.contains_key(x) by {
        if has_key(t, x) {
            let i = choose|i: int| 0 <= i < t.len() && (#[trigger] t[i]).0 == x;
            if i < g {
                assert(s[i] == t[i]);
            } else if i > g {
                assert(s[i - 1] == t[i]);
            }
        }
        if has_key(s, x) {
            let i = choose|i: int| 0 <= i < s.len() && (#[trigger] s[i]).0 == x;
            let i2 = if i < g { i } else { i + 1 };
            assert(t[i2] == s[i]);
        }
        if x == k {
            assert(t[g].0 == k);
        }
    }
    assert forall|x: K| #[trigger] as_map(t).contains_key(x) implies as_map(t)[x] == m[x] by {
        let i = key_index(t, x);
        lemma_map_index(t, i);
        if x != k {
            let i1 = if i < g { i } else { i - 1 };
            assert(s[i1] == t[i]);
            lemma_map_index(s, i1);
        } else {
            lemma_sorted_unique(t, i, g);
        }
    }
    assert(as_map(t) =~= m);
}

/// Replacing the value of an entry replaces it in the map.
pub proof fn lemma_map_update<K: KeyOrd, V>(s: Seq<(K, V)>, j: int, v: V)
    requires
        sorted_entries(s),
        0 <= j < s.len(),
    ensures
        sorted_entries(s.update(j, (s[j].0, v))),
        as_map(s.update(j, (s[j].0, v))) == as_map(s).insert(s[j].0, v),
{
    let k = s[j].0;
    let t = s.update(j, (k, v));
    assert forall|i: int, i2: int| 0 <= i < i2 < t.len() implies (#[trigger] t[i]).0.less((#[trigger] t[i2]).0) by {
        assert(t[i].0 == s[i].0 && t[i2].0 == s[i2].0);
    }
    let m = as_map(s).insert(k, v);
    assert forall|x: K| #[trigger] as_map(t).contains_key(x) <==> m.contains_key(x) by {
        if has_key(t, x) {
            let i = choose|i: int| 0 <= i < t.len() && (#[trigger] t[i]).0 == x;
            assert(s[i].0 == x);
        }
        if has_key(s, x) {
            let i = choose|i: int| 0 <= i < s.len() && (#[trigger] s[i]).0 == x;
            assert(t[i].0 == x);
        }
        if x == k {
            assert(t[j].0 == k);
        }
    }
    assert forall|x: K| #[trigger] as_map(t).contains_key(x) implies as_map(t)[x] == m[x] by {
        let i = key_index(t, x);
        lemma_map_index(t, i);
        if x == k {
            lemma_sorted_unique(t, i, j);
        } else {
            lemma_map_index(s, i);
        }
    }
    assert(as_map(t) =~= m);
}

/// Removing an entry removes its key from the map.
pub proof fn lemma_map_remove<K: KeyOrd, V>(s: Seq<(K, V)>, j: int)
    requires
        sorted_entries(s),
        0 <= j < s.len(),
    ensures
        sorted_entries(s.remove(j)),
        as_map(s.remove(j)) == as_map(s).remove(s[j].0),
{
    let k = s[j].0;
    let t = s.remove(j);
    assert forall|i: int, i2: int| 0 <= i < i2 < t.len() implies (#[trigger] t[i]).0.less((#[trigger] t[i2]).0) by {
        let a = if i < j { i } else { i + 1 };
        let b = if i2 < j { i2 } else { i2 + 1 };
        assert(t[i] == s[a] && t[i2] == s[b]);
    }
    let m = as_map(s).remove(k);
    assert forall|x: K| #[trigger] as_map(t).contains_key(x) <==> m.contains_key(x) by {
        if has_key(t, x) {
            let i = choose|i: int| 0 <= i < t.len() && (#[trigger] t[i]).0 == x;
            let a = if i < j { i } else { i + 1 };
            assert(t[i] == s[a]);
            if x == k {
                lemma_sorted_unique(s, a, j);
            }
        }
        if has_key(s, x) && x != k {
            let i = choose|i: int| 0 <= i < s.len() && (#[trigger] s[i]).0 == x;
            let i1 = if i < j { i } else { i - 1 };
            assert(t[i1] == s[i]);
        }
    }
    assert forall|x: K| #[trigger] as_map(t).contains_key(x) implies as_map(t)[x] == m[x] by {
        let i = key_index(t, x);
        lemma_map_index(t, i);
        let a = if i < j { i } else { i + 1 };
        assert(t[i] == s[a]);
        lemma_map_index(s, a);
    }
    assert(as_map(t) =~= m);
}


/// The entries of a sorted sequence that satisfy a predicate holding on
/// exactly the positions of a window are that window.
pub proof fn lemma_filter_window<T>(s: Seq<T>, pred: spec_fn(T) -> bool, a: int, b: int)
    requires
        0 <= a <= b <= s.len(),
        forall|j: int| 0 <= j < s.len() ==> ((a <= j < b) <==> pred(#[trigger] s[j])),
    ensures
        s.subrange(a, b) == s.filter(pred),
    decreases s.len(),
{
    if s.len() == 0 {
        assert(s.filter(pred) =~= Seq::<T>::empty());
        assert(s.subrange(a, b) =~= Seq::<T>::empty());
    } else {
        let t = s.drop_last();
        assert forall|j: int| 0 <= j < t.len() implies ((a <= j < (if b == s.len() { b - 1 } else { b })) <==> pred(#[trigger] t[j])) by {
            assert(t[j] == s[j]);
        }
        if b == s.len() && a < b {
            lemma_filter_window(t, pred, a, b - 1);
            assert(s.filter(pred) == t.filter(pred).push(s.last())) by {
                reveal(Seq::filter);
                assert(s.drop_last() == t);
            }
            assert(s.subrange(a, b) =~= t.subrange(a, b - 1).push(s.last()));
        } else {
            let b2 = if b == s.len() { b - 1 } else { b };
            let a2 = if a > b2 { b2 } else { a };
            if b == s.len() {
                assert(!pred(s[s.len() - 1]));
            } else {
                assert(!pred(s[s.len() - 1]));
            }
            lemma_filter_window(t, pred, a2, b2);
            assert(s.filter(pred) == t.filter(pred)) by {
                reveal(Seq::filter);
                assert(s.drop_last() == t);
            }
            assert(s.subrange(a, b) =~= t.subrange(a2, b2));
        }
    }
}


/// The keys of a sequence of entries form the domain of its map.
pub proof fn lemma_keys_dom<K, V>(s: Seq<(K, V)>)
    ensures
        keys_of(s).to_set() == as_map(s).dom(),
        keys_of(s).len() == s.len(),
        forall|k: K| #[trigger] keys_of(s).contains(k) <==> has_key(s, k),
{
    assert forall|k: K| #[trigger] keys_of(s).contains(k) <==> has_key(s, k) by {
        if keys_of(s).contains(k) {
            let i = choose|i: int| 0 <= i < keys_of(s).len() && keys_of(s)[i] == k;
            assert(s[i].0 == k);
        }
        if has_key(s, k) {
            let i = choose|i: int| 0 <= i < s.len() && (#[trigger] s[i]).0 == k;
            assert(keys_of(s)[i] == k);
        }
    }
    assert(keys_of(s).to_set() =~= as_map(s).dom());
}

/// The keys of sorted entries ascend.
pub proof fn lemma_keys_sorted<K: KeyOrd, V>(s: Seq<(K, V)>)
    requires
        sorted_entries(s),
    ensures
        sorted(keys_of(s)),
{
    assert forall|i: int, j: int| 0 <= i < j < keys_of(s).len() implies (#[trigger] keys_of(s)[i]).less(
        #[trigger] keys_of(s)[j],
    ) by {
        assert(keys_of(s)[i] == s[i].0 && keys_of(s)[j] == s[j].0);
    }
}



/// A sorted sequence of entries is determined by the map it stands for.
pub proof fn lemma_sorted_map_eq<K: KeyOrd, V>(s: Seq<(K, V)>, t: Seq<(K, V)>)
    requires
        sorted_entries(s),
        sorted_entries(t),
        as_map(s) == as_map(t),
    ensures
        s == t,
    decreases s.len(),
{
    if s.len() == 0 {
        if t.len() > 0 {
            lemma_map_index(t, 0);
            assert(!has_key(s, t[0].0));
        }
        assert(s =~= t);
    } else {
        lemma_map_index(s, 0);
        let k = s[0].0;
        assert(has_key(t, k));
        let j = key_index(t, k);
        lemma_map_index(t, j);
        if j > 0 {
            lemma_map_index(t, 0);
            assert(has_key(s, t[0].0));
            let i = key_index(s, t[0].0);
            lemma_map_index(s, i);
            if i == 0 {
                K::lemma_irreflexive(k);
            } else {
                lemma_less_asym(t[0].0, k);
            }
        }
        assert(t[0] == s[0]);
        lemma_map_remove(s, 0);
        lemma_map_remove(t, 0);
        lemma_sorted_map_eq(s.remove(0), t.remove(0));
        assert(s =~= seq![s[0]] + s.remove(0));
        assert(t =~= seq![t[0]] + t.remove(0));
    }
}

/// Inserting a key that was absent and then removing it gives back the
/// same entries: the same keys, in the same order, with the same values.
pub proof fn lemma_insert_then_remove<K: KeyOrd, V>(
    before: Seq<(K, V)>,
    k: K,
    v: V,
    inserted: Seq<(K, V)>,
    removed: Seq<(K, V)>,
)
    requires
        sorted_entries(before),
        sorted_entries(inserted),
        sorted_entries(removed),
        !has_key(before, k),
        as_map(inserted) == as_map(before).insert(k, v),
        as_map(removed) == as_map(inserted).remove(k),
    ensures
        removed == before,
{
    assert(!as_map(before).dom().contains(k));
    assert(as_map(before).insert(k, v).remove(k) =~= as_map(before));
    lemma_sorted_map_eq(removed, before);
}


/// Entries with the same keys in the same order as sorted entries are sorted,
/// whatever their values.
pub proof fn lemma_sorted_same_keys<K: KeyOrd, V>(s: Seq<(K, V)>)
    requires
        sorted_entries(s),
    ensures
        forall|t: Seq<(K, V)>|
            #![trigger sorted_entries(t)]
            t.len() == s.len() && (forall|i: int| 0 <= i < t.len() ==> t[i].0 == s[i].0) ==> sorted_entries(t),
{
    assert forall|t: Seq<(K, V)>|
        t.len() == s.len() && (forall|i: int| 0 <= i < t.len() ==> t[i].0 == s[i].0) implies #[trigger] sorted_entries(
        t,
    ) by {
        assert forall|i: int, j: int| 0 <= i < j < t.len() implies (#[trigger] t[i]).0.less((#[trigger] t[j]).0) by {
            assert(t[i].0 == s[i].0 && t[j].0 == s[j].0);
        }
    }
}

pub proof fn lemma_less_asym<K: KeyOrd>(x: K, y: K)
    requires
        x.less(y),
    ensures
        !y.less(x),
        x != y,
{
    K::lemma_irreflexive(x);
    if y.less(x) {
        K::lemma_transitive(x, y, x);
    }
}

/// In a sorted sequence, an index is found by its key.
pub proof fn lemma_sorted_unique<K: KeyOrd, V>(s: Seq<(K, V)>, i: int, j: int)
    requires
        sorted_entries(s),
        0 <= i < s.len(),
        0 <= j < s.len(),
        s[i].0 == s[j].0,
    ensures
        i == j,
{
    if i < j {
        K::lemma_irreflexive(s[i].0);
    } else if j < i {
        K::lemma_irreflexive(s[i].0);
    }
}

impl KeyOrd for u8 {
    open spec fn less(self, other: Self) -> bool { self < other }
    proof fn lemma_irreflexive(x: Self) {}
    proof fn lemma_transitive(x: Self, y: Self, z: Self) {}
    proof fn lemma_total(x: Self, y: Self) {}
    fn compare(&self, other: &Self) -> (o: Ordering) {
        if *self < *other { Ordering::Less } else if *self == *other { Ordering::Equal } else { Ordering::Greater }
    }
}

impl KeyOrd for u16 {
    open spec fn less(self, other: Self) -> bool { self < other }
    proof fn lemma_irreflexive(x: Self) {}
    proof fn lemma_transitive(x: Self, y: Self, z: Self) {}
    proof fn lemma_total(x: Self, y: Self) {}
    fn compare(&self, other: &Self) -> (o: Ordering) {
        if *self < *other { Ordering::Less } else if *self == *other { Ordering::Equal } else { Ordering::Greater }
    }
}

impl KeyOrd for u32 {
    open spec fn less(self, other: Self) -> bool { self < other }
    proof fn lemma_irreflexive(x: Self) {}
    proof fn lemma_transitive(x: Self, y: Self, z: Self) {}
    proof fn lemma_total(x: Self, y: Self) {}
    fn compare(&self, other: &Self) -> (o: Ordering) {
        if *self < *other { Ordering::Less } else if *self == *other { Ordering::Equal } else { Ordering::Greater }
    }
}

impl KeyOrd for u64 {
    open spec fn less(self, other: Self) -> bool { self < other }
    proof fn lemma_irreflexive(x: Self) {}
    proof fn lemma_transitive(x: Self, y: Self, z: Self) {}
    proof fn lemma_total(x: Self, y: Self) {}
    fn compare(&self, other: &Self) -> (o: Ordering) {
        if *self < *other { Ordering::Less } else if *self == *other { Ordering::Equal } else { Ordering::Greater }
    }
}

impl KeyOrd for usize {
    open spec fn less(self, other: Self) -> bool { self < other }
    proof fn lemma_irreflexive(x: Self) {}
    proof fn lemma_transitive(x: Self, y: Self, z: Self) {}
    proof fn lemma_total(x: Self, y: Self) {}
    fn compare(&self, other: &Self) -> (o: Ordering) {
        if *self < *other { Ordering::Less } else if *self == *other { Ordering::Equal } else { Ordering::Greater }
    }
}

impl KeyOrd for i8 {
    open spec fn less(self, other: Self) -> bool { self < other }
    proof fn lemma_irreflexive(x: Self) {}
    proof fn lemma_transitive(x: Self, y: Self, z: Self) {}
    proof fn lemma_total(x: Self, y: Self) {}
    fn compare(&self, other: &Self) -> (o: Ordering) {
        if *self < *other { Ordering::Less } else if *self == *other { Ordering::Equal } else { Ordering::Greater }
    }
}

impl KeyOrd for i16 {
    open spec fn less(self, other: Self) -> bool { self < other }
    proof fn lemma_irreflexive(x: Self) {}
    proof fn lemma_transitive(x: Self, y: Self, z: Self) {}
    proof fn lemma_total(x: Self, y: Self) {}
    fn compare(&self, other: &Self) -> (o: Ordering) {
        if *self < *other { Ordering::Less } else if *self == *other { Ordering::Equal } else { Ordering::Greater }
    }
}

impl KeyOrd for i32 {
    open spec fn less(self, other: Self) -> bool { self < other }
    proof fn lemma_irreflexive(x: Self) {}
    proof fn lemma_transitive(x: Self, y: Self, z: Self) {}
    proof fn lemma_total(x: Self, y: Self) {}
    fn compare(&self, other: &Self) -> (o: Ordering) {
        if *self < *other { Ordering::Less } else if *self == *other { Ordering::Equal } else { Ordering::Greater }
    }
}

impl KeyOrd for i64 {
    open spec fn less(self, other: Self) -> bool { self < other }
    proof fn lemma_irreflexive(x: Self) {}
    proof fn lemma_transitive(x: Self, y: Self, z: Self) {}
    proof fn lemma_total(x: Self, y: Self) {}
    fn compare(&self, other: &Self) -> (o: Ordering) {
        if *self < *other { Ordering::Less } else if *self == *other { Ordering::Equal } else { Ordering::Greater }
    }
}

} // verus!
