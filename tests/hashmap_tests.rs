use luster_table::hashmap::{HashMap, MIN_CAPACITY};

#[test]
fn make_hashmap() {
    let _map = HashMap::<isize, isize>::default();
}

#[test]
fn insert_one() {
    let mut map = HashMap::default();
    map.insert(1isize, 4isize);
}

#[test]
fn iterate() {
    let mut map = HashMap::default();
    map.insert(1isize, 4isize);
    map.insert(2, 3);
    let mut items: Vec<_> = map.into_items();
    items.sort();
    assert_eq!(&items[..], &[(1, 4), (2, 3)]);
}

#[test]
fn resize() {
    let mut map = HashMap::default();
    for i in 0..50 {
        map.insert(i, i * i);
    }
    let mut items: Vec<_> = map.into_items();
    items.sort();
    assert_eq!(items.len(), 50);
}

#[test]
fn sequential_keys_survive_every_resize() {
    let mut map: HashMap<isize, isize> = HashMap::new();
    for i in 0..50 {
        assert_eq!(map.insert(i, i * 10), None);
    }
    assert_eq!(map.len(), 50);
    for i in 0..50 {
        assert_eq!(map.get(&i), Some(&(i * 10)));
    }
    let mut items = map.into_items();
    items.sort();
    let expected: Vec<(isize, isize)> = (0..50).map(|i| (i, i * 10)).collect();
    assert_eq!(items, expected);
}

#[test]
fn capacity_is_power_of_two_above_load() {
    let mut map: HashMap<isize, isize> = HashMap::new();
    assert_eq!(map.capacity(), MIN_CAPACITY);
    for i in 0..100 {
        map.insert(i, i);
        let cap = map.capacity();
        assert!(cap.is_power_of_two());
        assert!(cap >= MIN_CAPACITY);
        assert!(map.len() * 4 <= cap * 3);
    }
    assert_eq!(map.capacity(), 256);
}

#[test]
fn grows_when_three_quarters_full() {
    let mut map: HashMap<isize, isize> = HashMap::new();
    for i in 0..6 {
        map.insert(i, i);
    }
    assert_eq!(map.capacity(), 8);
    assert!(!map.has_spare_capacity());
    map.insert(6, 6);
    assert_eq!(map.capacity(), 16);
}

#[test]
fn insert_replaces_and_keeps_len() {
    let mut map: HashMap<isize, isize> = HashMap::new();
    assert_eq!(map.insert(7, 1), None);
    assert_eq!(map.insert(7, 2), Some(1));
    assert_eq!(map.len(), 1);
    assert_eq!(map.get(&7), Some(&2));
}

#[test]
fn remove_then_get_is_none() {
    let mut map: HashMap<isize, isize> = HashMap::new();
    map.insert(3, 30);
    map.insert(4, 40);
    assert_eq!(map.remove(&3), Some(30));
    assert_eq!(map.remove(&3), None);
    assert_eq!(map.get(&3), None);
    assert!(!map.contains_key(&3));
    assert!(map.contains_key(&4));
    assert_eq!(map.len(), 1);
    assert!(!map.is_empty());
    map.remove(&4);
    assert!(map.is_empty());
}

#[test]
fn interleaved_inserts_and_removes_count_live_keys() {
    let mut map: HashMap<isize, isize> = HashMap::new();
    for round in 0..5 {
        for i in 0..40 {
            map.insert(i, i + round);
        }
        for i in (0..40).filter(|i| i % 3 == 0) {
            map.remove(&i);
        }
    }
    assert_eq!(map.len(), 26);
    for i in 0..40 {
        if i % 3 == 0 {
            assert_eq!(map.get(&i), None);
        } else {
            assert_eq!(map.get(&i), Some(&(i + 4)));
        }
    }
    let cap = map.capacity();
    for i in 0..40 {
        map.remove(&i);
    }
    assert_eq!(map.capacity(), cap);
    assert_eq!(map.len(), 0);
}

#[test]
fn lookups_pass_over_tombstones() {
    let mut map: HashMap<isize, isize> = HashMap::new();
    for i in 0..5 {
        map.insert(i * 8, i);
    }
    map.remove(&0);
    map.remove(&16);
    assert_eq!(map.get(&32), Some(&4));
    assert_eq!(map.insert(32, 9), Some(4));
    assert_eq!(map.len(), 3);
    map.insert(0, 1);
    assert_eq!(map.get(&0), Some(&1));
    assert_eq!(map.len(), 4);
}

#[test]
fn keys_lists_each_key_once() {
    let mut map: HashMap<isize, isize> = HashMap::new();
    for i in 0..20 {
        map.insert(i, -i);
    }
    map.remove(&5);
    let mut keys = map.keys();
    keys.sort();
    let expected: Vec<isize> = (0..20).filter(|i| *i != 5).collect();
    assert_eq!(keys, expected);
}

#[test]
fn retain_drops_rejected_pairs() {
    let mut map: HashMap<isize, isize> = HashMap::new();
    for i in 0..30 {
        map.insert(i, i * 2);
    }
    let cap = map.capacity();
    map.retain(|k, v| k % 2 == 0 && *v < 40);
    assert_eq!(map.len(), 10);
    assert_eq!(map.capacity(), cap);
    for i in 0..30 {
        let kept = i % 2 == 0 && i * 2 < 40;
        assert_eq!(map.contains_key(&i), kept);
    }
}

#[test]
fn reserve_makes_room() {
    let mut map: HashMap<isize, isize> = HashMap::new();
    for i in 0..6 {
        map.insert(i, i);
    }
    assert!(!map.has_spare_capacity());
    map.reserve(6);
    assert_eq!(map.capacity(), 16);
    assert!(map.has_spare_capacity());
    for i in 0..6 {
        assert_eq!(map.get(&i), Some(&i));
    }
    map.reserve(0);
    assert_eq!(map.capacity(), 16);
}

#[test]
fn iter_walks_every_pair() {
    let mut map: HashMap<isize, isize> = HashMap::new();
    map.insert(1, 4);
    map.insert(2, 3);
    map.insert(9, 0);
    map.remove(&9);
    let mut it = map.iter();
    let mut seen = Vec::new();
    while let Some((k, v)) = it.next() {
        seen.push((*k, *v));
    }
    seen.sort();
    assert_eq!(seen, vec![(1, 4), (2, 3)]);
    assert!(it.next().is_none());
}

#[test]
fn drain_and_reinsert_gives_same_pairs() {
    let mut map: HashMap<isize, isize> = HashMap::new();
    for i in 0..25 {
        map.insert(i * 7, i);
    }
    map.remove(&14);
    let items = map.into_items();
    let mut fresh: HashMap<isize, isize> = HashMap::new();
    for (k, v) in items.iter() {
        fresh.insert(*k, *v);
    }
    assert_eq!(fresh.len(), 24);
    for i in 0..25 {
        if i == 2 {
            assert_eq!(fresh.get(&14), None);
        } else {
            assert_eq!(fresh.get(&(i * 7)), Some(&i));
        }
    }
}
