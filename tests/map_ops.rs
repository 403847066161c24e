use compact_vecmap::VecMap;

#[test]
fn new_map_is_empty() {
    let map: VecMap<u8> = VecMap::new();
    assert_eq!(map.len(), 0);
    assert!(map.is_empty());
    assert_eq!(map.capacity(), 0);
    assert_eq!(map.get(0), None);
    assert!(!map.contains_key(0));
    assert!(map.keys().is_empty());
    let d: VecMap<u8> = VecMap::default();
    assert_eq!(d.capacity(), 0);
}

#[test]
fn with_capacity_sets_capacity() {
    let map: VecMap<u8> = VecMap::with_capacity(7);
    assert_eq!(map.capacity(), 7);
    assert!(map.is_empty());
}

#[test]
fn insert_replaces_and_returns_old() {
    let mut map = VecMap::new();
    assert_eq!(map.insert(4, 'a'), None);
    assert_eq!(map.insert(4, 'b'), Some('a'));
    assert_eq!(map.get(4), Some(&'b'));
    assert_eq!(map.len(), 1);
}

#[test]
fn remove_free_key_is_none() {
    let mut map: VecMap<u32> = VecMap::new();
    assert_eq!(map.remove(3), None);
    map.insert(3, 30);
    assert_eq!(map.remove(3), Some(30));
    assert_eq!(map.remove(3), None);
    assert!(map.is_empty());
}

#[test]
fn add_reuses_smallest_free_key() {
    let mut map = VecMap::new();
    assert_eq!(map.add(10), 0);
    assert_eq!(map.add(11), 1);
    assert_eq!(map.add(12), 2);
    assert_eq!(map.add(13), 3);
    map.remove(2);
    map.remove(1);
    assert_eq!(map.add(20), 1);
    assert_eq!(map.add(21), 2);
    assert_eq!(map.add(22), 4);
    assert_eq!(map.keys(), vec![0, 1, 2, 3, 4]);
}

#[test]
fn add_after_far_insert_fills_gap() {
    let mut map = VecMap::new();
    map.insert(5, 'x');
    assert_eq!(map.add('a'), 0);
    assert_eq!(map.add('b'), 1);
    assert_eq!(map.keys(), vec![0, 1, 5]);
}

#[test]
fn get_mut_changes_only_that_key() {
    let mut map = VecMap::new();
    map.insert(1, 10);
    map.insert(2, 20);
    *map.get_mut(1).unwrap() += 5;
    assert_eq!(map.get(1), Some(&15));
    assert_eq!(map.get(2), Some(&20));
    assert!(map.get_mut(7).is_none());
}

#[test]
fn iter_mut_sees_keys() {
    let mut map = VecMap::new();
    map.insert(2, 1);
    map.insert(7, 1);
    map.iter_mut(|k, v| v + k as i64);
    assert_eq!(map.iter(), vec![(2, &3), (7, &8)]);
}

#[test]
fn growth_policy_steps() {
    let mut map = VecMap::new();
    map.insert(2, ());
    assert_eq!(map.capacity(), 3);
    map.insert(1, ());
    assert_eq!(map.capacity(), 3);
    map.insert(3, ());
    assert_eq!(map.capacity(), 6);
    map.insert(5, ());
    assert_eq!(map.capacity(), 6);
    map.insert(20, ());
    assert_eq!(map.capacity(), 21);
    map.insert(21, ());
    assert_eq!(map.capacity(), 42);
}

#[test]
fn reserve_len_grows_amortized() {
    let mut map: VecMap<u8> = VecMap::with_capacity(4);
    map.reserve_len(3);
    assert_eq!(map.capacity(), 4);
    map.reserve_len(5);
    assert_eq!(map.capacity(), 8);
    map.reserve_len(20);
    assert_eq!(map.capacity(), 20);
}

#[test]
fn reserve_len_exact_grows_exactly() {
    let mut map = VecMap::new();
    map.insert(1, 1u8);
    map.reserve_len_exact(1);
    assert_eq!(map.capacity(), 2);
    map.reserve_len_exact(5);
    assert_eq!(map.capacity(), 5);
    assert_eq!(map.iter(), vec![(1, &1u8)]);
}

#[test]
fn append_moves_and_overwrites() {
    let mut a = VecMap::new();
    a.insert(0, "a0");
    a.insert(3, "a3");
    let mut b = VecMap::new();
    b.insert(3, "b3");
    b.insert(6, "b6");
    a.append(&mut b);
    assert_eq!(a.iter(), vec![(0, &"a0"), (3, &"b3"), (6, &"b6")]);
    assert!(b.is_empty());
    assert_eq!(b.keys(), Vec::<usize>::new());
}

#[test]
fn split_off_at_zero_and_past_end() {
    let mut map = VecMap::new();
    map.insert(1, 'a');
    map.insert(4, 'b');
    let all = map.split_off(0);
    assert!(map.is_empty());
    assert_eq!(all.keys(), vec![1, 4]);
    let mut all = all;
    let none = all.split_off(100);
    assert!(none.is_empty());
    assert_eq!(all.keys(), vec![1, 4]);
}

#[test]
fn drain_yields_ascending_pairs() {
    let mut map = VecMap::new();
    map.insert(9, 'c');
    map.insert(0, 'a');
    map.insert(4, 'b');
    assert_eq!(map.drain(), vec![(0, 'a'), (4, 'b'), (9, 'c')]);
    assert!(map.is_empty());
    assert_eq!(map.get(4), None);
    assert_eq!(map.add('z'), 0);
}

#[test]
fn from_entries_later_pair_wins() {
    let map = VecMap::from_entries(vec![(4, 'a'), (1, 'b'), (4, 'c')]);
    assert_eq!(map.iter(), vec![(1, &'b'), (4, &'c')]);
    assert_eq!(map.len(), 2);
    assert_eq!(map.capacity(), 6);
}

#[test]
fn extend_inserts_in_order() {
    let mut map = VecMap::new();
    map.insert(2, 20);
    map.extend(vec![(0, 1), (2, 21), (9, 90)]);
    assert_eq!(map.iter(), vec![(0, &1), (2, &21), (9, &90)]);
    map.extend(Vec::new());
    assert_eq!(map.len(), 3);
}
