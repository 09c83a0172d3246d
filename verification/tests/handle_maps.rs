use handle_collections::{DenseHandleMap, Handle, Handle32, HandleMap, HandleRange, SideHandleMap};

#[derive(Debug, Hash)]
struct Entity;

type Key = Handle32<Entity>;

#[test]
fn handle32_round_trips_its_index() {
    let k = Key::new(0);
    assert_eq!(k.index(), 0);
    let k = Key::new(41);
    assert_eq!(k.index(), 41);
    let k = Key::new(u32::MAX as usize - 1);
    assert_eq!(k.index(), u32::MAX as usize - 1);
    assert_eq!(Key::new(7), Key::new(7));
    assert_ne!(Key::new(7), Key::new(8));
    assert_eq!(std::mem::size_of::<Key>(), 4);
}

#[test]
fn handle_map_add_then_get() {
    let mut map: HandleMap<Key, &str> = HandleMap::new();
    assert!(map.is_empty());
    let a = map.add("a");
    let b = map.add("b");
    assert_eq!(a.index(), 0);
    assert_eq!(b.index(), 1);
    assert_eq!(map.get(a), Some(&"a"));
    assert_eq!(map.get(b), Some(&"b"));
    assert_eq!(map.get(Key::new(2)), None);
    assert_eq!(map.len(), 2);
    assert!(map.contains_key(b));
    assert!(!map.contains_key(Key::new(2)));
    assert!(!map.is_empty());
}

#[test]
fn handle_map_writes() {
    let mut map: HandleMap<Key, i32> = HandleMap::with_capacity(4);
    let a = map.add(1);
    let b = map.add(2);
    *map.get_mut(a).unwrap() = 10;
    *map.index_mut(b) += 5;
    assert_eq!(*map.index(a), 10);
    assert_eq!(*map.index(b), 7);
    assert!(map.get_mut(Key::new(9)).is_none());
    for v in map.values_mut() {
        *v += 1;
    }
    let values: Vec<i32> = map.values().copied().collect();
    assert_eq!(values, vec![11, 8]);
    map.clear();
    assert_eq!(map.len(), 0);
}

#[test]
fn handle_map_iterators() {
    let mut map: HandleMap<Key, char> = HandleMap::default();
    map.add('x');
    map.add('y');
    map.add('z');
    let keys: Vec<usize> = map.keys().iter().map(|k| k.index()).collect();
    assert_eq!(keys, vec![0, 1, 2]);

    let mut it = map.iter();
    let mut seen = Vec::new();
    while let Some((k, v)) = it.next() {
        seen.push((k.index(), *v));
    }
    assert_eq!(seen, vec![(0, 'x'), (1, 'y'), (2, 'z')]);

    let mut it = map.iter_mut();
    while let Some((k, v)) = it.next() {
        if k.index() == 1 {
            *v = 'Y';
        }
    }
    assert_eq!(map.get(Key::new(1)), Some(&'Y'));

    let mut it = map.into_iter();
    let mut owned = Vec::new();
    while let Some((k, v)) = it.next() {
        owned.push((k.index(), v));
    }
    assert_eq!(owned, vec![(0, 'x'), (1, 'Y'), (2, 'z')]);
    assert!(it.next().is_none());
}

#[test]
fn dense_map_basics() {
    let mut map: DenseHandleMap<Key, u8> = DenseHandleMap::new();
    assert_eq!(map.next_key().index(), 0);
    let a = map.add(5);
    assert_eq!(map.next_key().index(), 1);
    let b = map.add(6);
    assert!(map.is_valid(a) && map.is_valid(b));
    assert!(!map.is_valid(Key::new(2)));
    assert_eq!(map.count(), 2);
    assert_eq!(map.get(b), Some(&6));
    assert_eq!(map.get(Key::new(3)), None);
    *map.index_mut(a) = 9;
    assert_eq!(*map.index(a), 9);
    let pairs: Vec<(usize, u8)> = map.iter_enumerated().into_iter().map(|(k, v)| (k.index(), *v)).collect();
    assert_eq!(pairs, vec![(0, 9), (1, 6)]);
    let keys: Vec<usize> = map.keys().iter().map(|k| k.index()).collect();
    assert_eq!(keys, vec![0, 1]);
    for v in map.values_mut() {
        *v *= 2;
    }
    assert_eq!(map.values().copied().collect::<Vec<_>>(), vec![18, 12]);
    map.clear();
    assert!(map.is_empty());
    let map: DenseHandleMap<Key, u8> = Default::default();
    assert_eq!(map.count(), 0);
}

#[test]
fn side_map_gaps_stay_absent() {
    let mut map: SideHandleMap<Key, &str> = SideHandleMap::new();
    assert_eq!(map.add(Key::new(3), "three"), None);
    assert_eq!(map.count(), 4);
    assert_eq!(map.get(Key::new(0)), None);
    assert_eq!(map.get(Key::new(2)), None);
    assert_eq!(map.get(Key::new(3)), Some(&"three"));
    assert_eq!(map.get(Key::new(10)), None);
    assert_eq!(map.add(Key::new(3), "THREE"), Some("three"));
    assert_eq!(map.add(Key::new(1), "one"), None);
    assert_eq!(map.count(), 4);
    let keys: Vec<usize> = map.keys().iter().map(|k| k.index()).collect();
    assert_eq!(keys, vec![1, 3]);
    let values: Vec<&str> = map.values().into_iter().copied().collect();
    assert_eq!(values, vec!["one", "THREE"]);
}

#[test]
fn side_map_remove_resize_and_iterate() {
    let mut map: SideHandleMap<Key, i64> = SideHandleMap::with_capacity(8);
    map.add(Key::new(0), 1);
    map.add(Key::new(2), 3);
    map.add(Key::new(5), 6);
    assert_eq!(map.remove(Key::new(2)), Some(3));
    assert_eq!(map.remove(Key::new(2)), None);
    assert_eq!(map.remove(Key::new(9)), None);
    *map.index_mut(Key::new(5)) += 10;
    assert_eq!(*map.index(Key::new(5)), 16);
    if let Some(v) = map.get_mut(Key::new(0)) {
        *v = -1;
    }
    for v in map.values_mut() {
        *v *= 2;
    }
    let mut it = map.iter();
    let mut seen = Vec::new();
    while let Some((k, v)) = it.next() {
        seen.push((k.index(), *v));
    }
    assert_eq!(seen, vec![(0, -2), (5, 32)]);

    let mut it = map.iter_mut();
    while let Some((_, v)) = it.next() {
        *v += 1;
    }
    assert_eq!(map.get(Key::new(0)), Some(&-1));

    map.resize(2);
    assert_eq!(map.count(), 2);
    assert_eq!(map.get(Key::new(5)), None);
    map.resize(6);
    assert_eq!(map.count(), 6);
    assert_eq!(map.get(Key::new(5)), None);
    assert_eq!(map.get(Key::new(0)), Some(&-1));

    let mut it = map.into_iter();
    let mut owned = Vec::new();
    while let Some((k, v)) = it.next() {
        owned.push((k.index(), v));
    }
    assert_eq!(owned, vec![(0, -1)]);
}

#[test]
fn side_map_clear() {
    let mut map: SideHandleMap<Key, u8> = Default::default();
    assert!(map.is_empty());
    map.add(Key::new(1), 1);
    assert!(!map.is_empty());
    map.clear();
    assert!(map.is_empty());
    assert_eq!(map.get(Key::new(1)), None);
}

#[test]
fn handle_range_walks_both_ends() {
    let mut range: HandleRange<Key> = HandleRange::new(Key::new(3)..Key::new(7));
    assert!(!range.is_empty());
    assert_eq!(range.start().index(), 3);
    assert_eq!(range.end().index(), 7);
    assert_eq!(range.len(), 4);
    assert_eq!(range.size_hint(), (4, Some(4)));
    let copy = range;
    assert!(copy == range);
    assert_eq!(range.next().map(|k| k.index()), Some(3));
    assert_eq!(range.next_back().map(|k| k.index()), Some(6));
    assert!(copy != range);
    assert_eq!(range.next().map(|k| k.index()), Some(4));
    assert_eq!(range.next().map(|k| k.index()), Some(5));
    assert!(range.next().is_none());
    assert!(range.next_back().is_none());
    assert!(range.is_empty());
    let empty: HandleRange<Key> = HandleRange::new(Key::new(2)..Key::new(2));
    assert!(empty.is_empty());
    assert_eq!(empty.clone().len(), 0);
}

#[test]
fn side_map_walk_matches_keys_and_values() {
    let mut map: SideHandleMap<Key, &str> = SideHandleMap::new();
    map.add(Key::new(4), "four");
    map.add(Key::new(1), "one");
    map.add(Key::new(6), "six");
    map.remove(Key::new(4));
    map.add(Key::new(3), "three");
    let keys: Vec<usize> = map.keys().iter().map(|k| k.index()).collect();
    let values: Vec<&str> = map.values().into_iter().copied().collect();
    assert_eq!(keys, vec![1, 3, 6]);
    assert_eq!(values, vec!["one", "three", "six"]);
    let mut it = map.iter();
    let mut seen_keys = Vec::new();
    let mut seen_values = Vec::new();
    while let Some((k, v)) = it.next() {
        seen_keys.push(k.index());
        seen_values.push(*v);
    }
    assert_eq!(seen_keys, keys);
    assert_eq!(seen_values, values);
    assert!(it.next().is_none());
    assert!(it.next().is_none());
}

#[test]
fn handle_map_walk_matches_keys_and_values() {
    let mut map: HandleMap<Key, u16> = HandleMap::new();
    for v in [10u16, 20, 30, 40] {
        map.add(v);
    }
    let keys: Vec<usize> = map.keys().iter().map(|k| k.index()).collect();
    let values: Vec<u16> = map.values().copied().collect();
    let mut it = map.iter();
    let mut seen = Vec::new();
    while let Some((k, v)) = it.next() {
        seen.push((k.index(), *v));
    }
    assert_eq!(seen.len(), map.len());
    assert_eq!(seen.iter().map(|p| p.0).collect::<Vec<_>>(), keys);
    assert_eq!(seen.iter().map(|p| p.1).collect::<Vec<_>>(), values);
    assert!(it.next().is_none());
    assert!(it.next().is_none());
}

#[test]
fn handle_range_walk_keeps_its_end() {
    let mut range: HandleRange<Key> = HandleRange::new(Key::new(10)..Key::new(14));
    let end = range.end().index();
    let mut handed = Vec::new();
    for k in 0..6 {
        assert_eq!(range.end().index(), end);
        assert_eq!(range.len(), 4usize.saturating_sub(k));
        assert_eq!(range.size_hint(), (4usize.saturating_sub(k), Some(4usize.saturating_sub(k))));
        assert_eq!(range.is_empty(), k >= 4);
        if let Some(h) = range.next() {
            handed.push(h.index());
        }
    }
    assert_eq!(handed, vec![10, 11, 12, 13]);
    assert!(range.next().is_none());
}

#[test]
fn handle_map_from_iter_and_extend() {
    let mut map: HandleMap<Key, char> = HandleMap::from_iter(vec!['a', 'b']);
    assert_eq!(map.len(), 2);
    assert_eq!(map.get(Key::new(1)), Some(&'b'));
    map.extend(vec!['c', 'd']);
    assert_eq!(map.len(), 4);
    assert_eq!(map.get(Key::new(0)), Some(&'a'));
    assert_eq!(map.get(Key::new(3)), Some(&'d'));
    let k = map.add('e');
    assert_eq!(k.index(), 4);
    map.extend(Vec::new());
    assert_eq!(map.len(), 5);
}
