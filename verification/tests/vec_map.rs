use cfh::vec_map::VecMap;

#[test]
fn new_map_is_empty() {
    let map: VecMap<u128, u8> = VecMap::new();
    assert_eq!(map.len(), 0);
    assert!(map.is_empty());
    assert!(!map.contains_key(&1));
    assert_eq!(map.get(&1), None);
    assert_eq!(map.position(&1), None);
}

#[test]
fn insert_keeps_insertion_order() {
    let mut map: VecMap<u128, u8> = VecMap::new();
    map.insert(30, 3);
    map.insert(10, 1);
    map.insert(20, 2);
    assert_eq!(map.len(), 3);
    assert_eq!(map.inner, vec![(30, 3), (10, 1), (20, 2)]);
    assert_eq!(map.keys(), vec![&30, &10, &20]);
    assert_eq!(map.values(), vec![&3, &1, &2]);
    assert_eq!(map.position(&10), Some(1));
}

#[test]
fn insert_replaces_the_value_in_place() {
    let mut map: VecMap<u128, u8> = VecMap::new();
    map.insert(1, 10);
    map.insert(2, 20);
    map.insert(1, 11);
    assert_eq!(map.inner, vec![(1, 11), (2, 20)]);
    assert_eq!(map.get(&1), Some(&11));
}

#[test]
fn remove_returns_the_value_and_closes_the_gap() {
    let mut map: VecMap<u128, u8> = VecMap::new();
    map.insert(1, 10);
    map.insert(2, 20);
    map.insert(3, 30);
    assert_eq!(map.remove(&2), Some(20));
    assert_eq!(map.inner, vec![(1, 10), (3, 30)]);
    assert_eq!(map.remove(&2), None);
    assert_eq!(map.inner, vec![(1, 10), (3, 30)]);
    assert!(!map.contains_key(&2));
    assert!(map.contains_key(&3));
}

#[test]
fn get_mut_changes_the_value_in_place() {
    let mut map: VecMap<u128, u8> = VecMap::new();
    map.insert(1, 10);
    map.insert(2, 20);
    match map.get_mut(&2) {
        Some(value) => *value = 21,
        None => panic!("key 2 is in the map"),
    }
    assert!(map.get_mut(&9).is_none());
    assert_eq!(map.inner, vec![(1, 10), (2, 21)]);
}

#[test]
fn values_mut_reaches_each_value_by_position() {
    let mut map: VecMap<u128, u8> = VecMap::new();
    map.insert(1, 10);
    map.insert(2, 20);
    *map.values_mut(0) += 1;
    *map.values_mut(1) += 2;
    assert_eq!(map.inner, vec![(1, 11), (2, 22)]);
}

#[test]
fn first_entry_wins_where_a_key_is_held_twice() {
    let map: VecMap<u128, u8> = VecMap { inner: vec![(1, 10), (1, 11)] };
    assert_eq!(map.get(&1), Some(&10));
    assert_eq!(map.position(&1), Some(0));
}
