use compact_vecmap::VecMap;

#[test]
fn other_keys_are_stable() {
    let mut map = VecMap::new();
    map.insert(1, 100);
    map.insert(2, 200);
    map.insert(1, 101);
    assert_eq!(map.get(2), Some(&200));
    map.remove(1);
    assert_eq!(map.get(2), Some(&200));
    assert!(map.contains_key(2));
    *map.get_mut(2).unwrap() = 201;
    assert!(!map.contains_key(1));
}

#[test]
fn contains_key_agrees_with_get() {
    let mut map = VecMap::new();
    for k in [0usize, 3, 17, 40] {
        map.insert(k, k);
    }
    map.remove(3);
    for k in 0..50usize {
        assert_eq!(map.contains_key(k), map.get(k).is_some());
    }
}

#[test]
fn iter_is_strictly_ascending() {
    let mut map = VecMap::new();
    for k in [8usize, 2, 30, 5, 1] {
        map.insert(k, ());
    }
    let keys: Vec<usize> = map.iter().into_iter().map(|e| e.0).collect();
    assert_eq!(keys, vec![1, 2, 5, 8, 30]);
    assert_eq!(map.keys(), keys);
}

#[test]
fn drain_yields_len_items() {
    let mut map = VecMap::new();
    for k in [3usize, 1, 4, 15, 9] {
        map.insert(k, k * 2);
    }
    let n = map.len();
    let drained = map.drain();
    assert_eq!(drained.len(), n);
    assert_eq!(map.len(), 0);
}

#[test]
fn split_then_append_restores() {
    let mut map = VecMap::new();
    for k in [0usize, 2, 5, 6, 11] {
        map.insert(k, k as u32 + 1);
    }
    let before = map.iter().into_iter().map(|(k, v)| (k, *v)).collect::<Vec<_>>();
    let mut high = map.split_off(5);
    assert_eq!(map.keys(), vec![0, 2]);
    assert_eq!(high.keys(), vec![5, 6, 11]);
    map.append(&mut high);
    let after = map.iter().into_iter().map(|(k, v)| (k, *v)).collect::<Vec<_>>();
    assert_eq!(before, after);
    assert!(high.is_empty());
}

#[test]
fn sequential_adds_capacity_is_next_power_of_two() {
    let mut map = VecMap::new();
    let expected = [1usize, 2, 4, 4, 8, 8, 8, 8, 16, 16, 16, 16, 16, 16, 16, 16, 32];
    for (i, cap) in expected.iter().enumerate() {
        assert_eq!(map.add(i), i);
        assert_eq!(map.capacity(), *cap);
    }
}

#[test]
fn scenario_insert_three_keys() {
    let mut map = VecMap::new();
    map.insert(0, "v0");
    map.insert(1, "v1");
    map.insert(5, "v5");
    assert_eq!(map.iter(), vec![(0, &"v0"), (1, &"v1"), (5, &"v5")]);
}
