use rb_tree::cursor::Bound;
use rb_tree::RbTreeMap;
use rb_tree::RbTreeSet;
use rb_tree::RedBlackTree;

#[test]
fn simple() {
    let mut tree = RedBlackTree::new();
    tree.insert(1, 'a');
    tree.insert(4, 'b');
    tree.insert(2, 'c');
    tree.insert(3, 'd');
    tree.insert(5, 'e');

    assert_eq!(tree.remove(&0), None);
    assert_eq!(tree.remove(&1), Some('a'));
    assert_eq!(tree.remove(&2), Some('c'));
    assert_eq!(tree.remove(&3), Some('d'));
    assert_eq!(tree.remove(&4), Some('b'));
    assert_eq!(tree.remove(&5), Some('e'));
    assert_eq!(tree.remove(&6), None);
}

#[test]
fn retain() {
    let mut tree = RedBlackTree::new();
    tree.insert(1, ());
    tree.insert(4, ());
    tree.insert(2, ());
    tree.insert(3, ());
    tree.insert(5, ());

    tree.retain(|k, _| k % 2 == 0);
    assert_eq!(tree.remove(&1), None);
    assert_eq!(tree.remove(&2), Some(()));
    assert_eq!(tree.remove(&3), None);
    assert_eq!(tree.remove(&4), Some(()));
    assert_eq!(tree.remove(&5), None);
}

fn entries<K: rb_tree::order::KeyOrd + Copy, V: Copy>(map: &RbTreeMap<K, V>) -> Vec<(K, V)> {
    let mut out = Vec::new();
    let mut it = map.iter();
    while let Some((k, v)) = it.next() {
        out.push((*k, *v));
    }
    out
}

fn scenario_one() -> RbTreeMap<i32, char> {
    let mut map = RbTreeMap::new();
    map.insert(1, 'a');
    map.insert(4, 'b');
    map.insert(2, 'c');
    map.insert(3, 'd');
    map.insert(5, 'e');
    map
}

#[test]
fn insert_orders_entries() {
    let map = scenario_one();
    assert_eq!(entries(&map), vec![(1, 'a'), (2, 'c'), (3, 'd'), (4, 'b'), (5, 'e')]);
    assert_eq!(map.len(), 5);
}

#[test]
fn remove_returns_stored_values() {
    let mut map = scenario_one();
    assert_eq!(map.remove(&1), Some('a'));
    assert_eq!(map.remove(&2), Some('c'));
    assert_eq!(map.remove(&3), Some('d'));
    assert_eq!(map.remove(&4), Some('b'));
    assert_eq!(map.remove(&5), Some('e'));
    assert!(map.is_empty());
}

#[test]
fn drain_filter_even_keys() {
    let mut map = RbTreeMap::new();
    for i in 0..8 {
        map.insert(i, i);
    }
    let mut drained = Vec::new();
    let mut d = map.drain_filter(|k, _| k % 2 == 0);
    while let Some(e) = d.next() {
        drained.push(e);
    }
    assert_eq!(drained, vec![(0, 0), (2, 2), (4, 4), (6, 6)]);
    assert_eq!(entries(&map), vec![(1, 1), (3, 3), (5, 5), (7, 7)]);
}

fn range_keys(map: &RbTreeMap<i32, ()>, lower: Bound<i32>, upper: Bound<i32>) -> Vec<i32> {
    let mut out = Vec::new();
    let mut r = map.range(lower, upper);
    while let Some((k, _)) = r.next() {
        out.push(*k);
    }
    out
}

#[test]
fn range_bounds() {
    let mut map = RbTreeMap::new();
    map.insert(3, ());
    map.insert(5, ());
    map.insert(8, ());
    assert_eq!(range_keys(&map, Bound::Included(4), Bound::Included(8)), vec![5, 8]);
    assert_eq!(range_keys(&map, Bound::Included(4), Bound::Unbounded), vec![5, 8]);
    assert_eq!(range_keys(&map, Bound::Unbounded, Bound::Included(5)), vec![3, 5]);
    assert_eq!(range_keys(&map, Bound::Excluded(3), Bound::Excluded(8)), vec![5]);
    assert_eq!(range_keys(&map, Bound::Included(6), Bound::Included(7)), Vec::<i32>::new());
    assert_eq!(range_keys(&map, Bound::Included(8), Bound::Included(3)), Vec::<i32>::new());
}

#[test]
fn insert_duplicate_key() {
    let mut map = RbTreeMap::new();
    assert_eq!(map.insert(37, "a"), None);
    assert_eq!(map.insert(37, "b"), Some((37, "a")));
    assert_eq!(map.insert(37, "c"), Some((37, "b")));
    assert_eq!(map.get(&37), Some(&"c"));
    assert_eq!(map.len(), 1);
}

#[test]
fn insert_then_remove_restores_map() {
    let mut map = scenario_one();
    let before = entries(&map);
    assert_eq!(map.insert(10, 'z'), None);
    assert_eq!(map.remove(&10), Some('z'));
    assert_eq!(entries(&map), before);
}

#[test]
fn into_iter_collects_back() {
    let map = scenario_one();
    let before = entries(&map);
    let mut fresh = RbTreeMap::new();
    let mut it = map.into_iter();
    assert_eq!(it.len(), 5);
    while let Some((k, v)) = it.next() {
        fresh.insert(k, v);
    }
    assert_eq!(entries(&fresh), before);
}

#[test]
fn collect_map_rebuilds_equal_map() {
    let map = scenario_one();
    let before = entries(&map);
    let back = map.into_iter().collect_map();
    assert_eq!(entries(&back), before);
    assert_eq!(back.len(), 5);
}

#[test]
fn drain_filter_none_and_all() {
    let mut map = scenario_one();
    let before = entries(&map);
    let mut d = map.drain_filter(|_, _| false);
    assert_eq!(d.next(), None);
    assert_eq!(entries(&map), before);
    let mut d = map.drain_filter(|_, _| true);
    let mut drained = Vec::new();
    while let Some(e) = d.next() {
        drained.push(e);
    }
    assert_eq!(drained, before);
    assert!(map.is_empty());
}

#[test]
fn first_last_and_pops() {
    let mut map = scenario_one();
    assert_eq!(map.first(), Some((&1, &'a')));
    assert_eq!(map.last(), Some((&5, &'e')));
    assert_eq!(map.pop_first(), Some((1, 'a')));
    assert_eq!(map.pop_last(), Some((5, 'e')));
    assert_eq!(entries(&map), vec![(2, 'c'), (3, 'd'), (4, 'b')]);
    let mut empty: RbTreeMap<i32, char> = RbTreeMap::new();
    assert_eq!(empty.first(), None);
    assert_eq!(empty.pop_first(), None);
    assert_eq!(empty.pop_last(), None);
}

#[test]
fn iterate_from_both_ends() {
    let map = scenario_one();
    let mut it = map.iter();
    assert_eq!(it.next(), Some((&1, &'a')));
    assert_eq!(it.next_back(), Some((&5, &'e')));
    assert_eq!(it.len(), 3);
    assert_eq!(it.next_back(), Some((&4, &'b')));
    assert_eq!(it.next(), Some((&2, &'c')));
    assert_eq!(it.next(), Some((&3, &'d')));
    assert_eq!(it.next(), None);
    assert_eq!(it.next_back(), None);
}

#[test]
fn keys_and_values() {
    let map = scenario_one();
    let mut keys = map.keys();
    let mut ks = Vec::new();
    while let Some(k) = keys.next() {
        ks.push(*k);
    }
    assert_eq!(ks, vec![1, 2, 3, 4, 5]);
    let mut values = map.values();
    let mut vs = Vec::new();
    while let Some(v) = values.next_back() {
        vs.push(*v);
    }
    assert_eq!(vs, vec!['e', 'b', 'd', 'c', 'a']);
}

#[test]
fn append_moves_entries() {
    let mut a = RbTreeMap::new();
    a.insert(1, "a");
    a.insert(2, "b");
    a.insert(3, "c");
    let mut b = RbTreeMap::new();
    b.insert(3, "d");
    b.insert(4, "e");
    b.insert(5, "f");
    a.append(&mut b);
    assert_eq!(a.len(), 5);
    assert_eq!(b.len(), 0);
    let mut out = Vec::new();
    let mut it = a.into_iter();
    while let Some(e) = it.next() {
        out.push(e);
    }
    assert_eq!(out, vec![(1, "a"), (2, "b"), (3, "d"), (4, "e"), (5, "f")]);
}

#[test]
fn many_inserts_and_removes() {
    let mut map = RbTreeMap::new();
    let mut x: u64 = 12345;
    let mut present = vec![false; 512];
    for _ in 0..5000 {
        x = x.wrapping_mul(6364136223846793005).wrapping_add(1442695040888963407);
        let k = ((x >> 33) % 512) as u64;
        if (x >> 20) % 3 == 0 {
            let r = map.remove(&k);
            assert_eq!(r.is_some(), present[k as usize]);
            if let Some(v) = r {
                assert_eq!(v, k * 2);
            }
            present[k as usize] = false;
        } else {
            let r = map.insert(k, k * 2);
            assert_eq!(r.is_some(), present[k as usize]);
            present[k as usize] = true;
        }
        assert_eq!(map.len(), present.iter().filter(|p| **p).count());
    }
    let expected: Vec<u64> = (0..512u64).filter(|k| present[*k as usize]).collect();
    let mut got = Vec::new();
    let mut it = map.keys();
    while let Some(k) = it.next() {
        got.push(*k);
    }
    assert_eq!(got, expected);
}

#[test]
fn set_basics() {
    let mut s = RbTreeSet::new();
    assert!(s.insert(3));
    assert!(s.insert(1));
    assert!(!s.insert(3));
    assert!(s.contains(&1));
    assert!(!s.contains(&2));
    assert_eq!(s.first(), Some(&1));
    assert_eq!(s.last(), Some(&3));
    assert_eq!(s.replace(3), Some(3));
    assert_eq!(s.take(&1), Some(1));
    assert!(!s.remove(&1));
    assert_eq!(s.len(), 1);
    assert_eq!(s.pop_last(), Some(3));
    assert!(s.is_empty());
}

fn set_of(values: &[i32]) -> RbTreeSet<i32> {
    let mut s = RbTreeSet::new();
    for v in values {
        s.insert(*v);
    }
    s
}

#[test]
fn set_operations() {
    let a = set_of(&[1, 2]);
    let b = set_of(&[2, 3]);

    let mut d = a.difference(&b);
    let mut got = Vec::new();
    while let Some(v) = d.next() {
        got.push(*v);
    }
    assert_eq!(got, vec![1]);

    let mut i = a.intersection(&b);
    let mut got = Vec::new();
    while let Some(v) = i.next() {
        got.push(*v);
    }
    assert_eq!(got, vec![2]);

    let mut u = a.union(&b);
    let mut got = Vec::new();
    while let Some(v) = u.next() {
        got.push(*v);
    }
    assert_eq!(got, vec![1, 2, 3]);

    let mut s = a.symmetric_difference(&b);
    let mut got = Vec::new();
    while let Some(v) = s.next() {
        got.push(*v);
    }
    assert_eq!(got, vec![1, 3]);

    assert!(!a.is_disjoint(&b));
    assert!(a.is_subset(&set_of(&[1, 2, 3])));
    assert!(!a.is_subset(&b));
    assert!(set_of(&[1, 2, 3]).is_superset(&a));
    assert!(a.is_disjoint(&set_of(&[5, 7])));
}

#[test]
fn set_operations_with_empty_side() {
    let a = set_of(&[4, 9]);
    let e = set_of(&[]);
    let mut u = a.union(&e);
    assert_eq!(u.next(), Some(&4));
    assert_eq!(u.next(), Some(&9));
    assert_eq!(u.next(), None);
    let mut d = e.difference(&a);
    assert_eq!(d.next(), None);
    assert!(e.is_subset(&a));
    assert!(e.is_disjoint(&a));
}

#[test]
fn set_range_and_drain() {
    let mut s = set_of(&[3, 5, 8, 10]);
    let mut r = s.range(Bound::Excluded(3), Bound::Included(8));
    assert_eq!(r.next(), Some(&5));
    assert_eq!(r.next_back(), Some(&8));
    assert_eq!(r.next(), None);
    let mut d = s.drain_filter(|v| *v > 4);
    assert_eq!(d.next(), Some(5));
    assert_eq!(d.next(), Some(8));
    assert_eq!(d.next(), Some(10));
    assert_eq!(d.next(), None);
    let mut it = s.iter();
    assert_eq!(it.next(), Some(&3));
    assert_eq!(it.next(), None);
}

#[test]
fn merge_iter_pairs_equal_values() {
    let a = set_of(&[1, 3, 5]);
    let b = set_of(&[3, 4]);
    let mut m = rb_tree::set_ops::MergeIter::new(a.iter(), b.iter());
    assert_eq!(m.lens(), (3, 2));
    assert_eq!(m.nexts(), (Some(&1), None));
    assert_eq!(m.nexts(), (Some(&3), Some(&3)));
    assert_eq!(m.nexts(), (None, Some(&4)));
    assert_eq!(m.lens(), (1, 0));
    assert_eq!(m.nexts(), (Some(&5), None));
    assert_eq!(m.nexts(), (None, None));
}

#[test]
fn change_values_in_place() {
    let mut map = scenario_one();
    if let Some(v) = map.get_mut(&3) {
        *v = 'x';
    }
    assert_eq!(map.get_mut(&9), None);
    if let Some((k, v)) = map.first_mut() {
        assert_eq!(*k, 1);
        *v = 'f';
    }
    if let Some((k, v)) = map.last_mut() {
        assert_eq!(*k, 5);
        *v = 'l';
    }
    assert_eq!(entries(&map), vec![(1, 'f'), (2, 'c'), (3, 'x'), (4, 'b'), (5, 'l')]);
    let mut empty: RbTreeMap<i32, char> = RbTreeMap::new();
    assert!(empty.first_mut().is_none());
    assert!(empty.last_mut().is_none());
}

#[test]
fn lookups_and_clear() {
    let mut map = scenario_one();
    assert_eq!(map.get(&4), Some(&'b'));
    assert_eq!(map.get(&6), None);
    assert_eq!(map.get_key_value(&2), Some((&2, &'c')));
    assert!(map.contains_key(&5));
    assert!(!map.contains_key(&0));
    assert_eq!(map.remove_entry(&2), Some((2, 'c')));
    assert_eq!(map.remove_entry(&2), None);
    map.clear();
    assert!(map.is_empty());
    assert_eq!(map.len(), 0);
}

#[test]
fn descending_inserts_stay_ordered() {
    let mut map = RbTreeMap::new();
    for k in (0..200u32).rev() {
        map.insert(k, k + 1);
    }
    for k in (0..200u32).step_by(3) {
        assert_eq!(map.remove(&k), Some(k + 1));
    }
    let mut it = map.iter();
    let mut prev: Option<u32> = None;
    let mut count = 0;
    while let Some((k, v)) = it.next() {
        assert_eq!(*v, *k + 1);
        if let Some(p) = prev {
            assert!(p < *k);
        }
        prev = Some(*k);
        count += 1;
    }
    assert_eq!(count, map.len());
    assert_eq!(count, 200 - 67);
}

#[test]
fn default_is_empty() {
    let map: RbTreeMap<u8, u8> = Default::default();
    assert!(map.is_empty());
    let set: RbTreeSet<u8> = Default::default();
    assert_eq!(set.len(), 0);
}
