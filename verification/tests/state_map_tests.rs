use simple_mcmc::state_map::StateMap;

#[test]
fn new_map_is_empty() {
    let map: StateMap<u64> = StateMap::new();
    assert_eq!(map.len(), 0);
    assert!(map.as_slice().is_empty());
    assert!(!map.contains_key(&'a'));
    assert_eq!(map.get(&'a'), None);
}

#[test]
fn insert_keeps_keys_in_increasing_order() {
    let mut map: StateMap<u64> = StateMap::new();
    map.insert('c', 3);
    map.insert('a', 1);
    map.insert('d', 4);
    map.insert('b', 2);
    assert_eq!(map.as_slice(), &[('a', 1), ('b', 2), ('c', 3), ('d', 4)]);
    assert_eq!(map.len(), 4);
}

#[test]
fn insert_replaces_the_value_of_a_key() {
    let mut map: StateMap<u64> = StateMap::new();
    map.insert('b', 2);
    map.insert('a', 1);
    map.insert('b', 20);
    assert_eq!(map.as_slice(), &[('a', 1), ('b', 20)]);
    assert_eq!(map.get(&'b'), Some(&20));
    assert_eq!(map.get(&'a'), Some(&1));
    assert_eq!(map.get(&'c'), None);
}

#[test]
fn contains_key_tells_the_keys_apart() {
    let mut map: StateMap<i64> = StateMap::new();
    map.insert('x', -1);
    assert!(map.contains_key(&'x'));
    assert!(!map.contains_key(&'w'));
    assert!(!map.contains_key(&'y'));
}

#[test]
fn remove_takes_one_entry_out() {
    let mut map: StateMap<u64> = StateMap::new();
    map.insert('a', 1);
    map.insert('b', 2);
    map.insert('c', 3);
    assert_eq!(map.remove(&'b'), Some(2));
    assert_eq!(map.as_slice(), &[('a', 1), ('c', 3)]);
    assert_eq!(map.remove(&'b'), None);
    assert_eq!(map.remove(&'z'), None);
    assert_eq!(map.as_slice(), &[('a', 1), ('c', 3)]);
    assert_eq!(map.remove(&'a'), Some(1));
    assert_eq!(map.remove(&'c'), Some(3));
    assert_eq!(map.len(), 0);
}

#[test]
fn the_order_of_insertions_does_not_show() {
    let mut first: StateMap<u64> = StateMap::new();
    let mut second: StateMap<u64> = StateMap::new();
    for (key, value) in [('a', 1), ('b', 2), ('c', 3)] {
        first.insert(key, value);
    }
    for (key, value) in [('c', 3), ('b', 9), ('a', 1), ('b', 2)] {
        second.insert(key, value);
    }
    assert_eq!(first.as_slice(), second.as_slice());
}
