use dt::LinkedHashMap;

#[test]
fn basic_crud_opeartions() {
    let mut map = LinkedHashMap::new();
    assert_eq!(map.len(), 0);
    assert!(map.is_empty());

    // create
    map.insert("foo", 42);
    assert_eq!(map.get(&"foo"), Some(&42));
    assert_eq!(map.len(), 1);
    assert!(!map.is_empty());

    // update
    map.insert("foo", 43);
    assert_eq!(map.get(&"foo"), Some(&43));
    assert_eq!(map.len(), 1);
    assert!(!map.is_empty());

    // remove
    assert_eq!(map.remove(&"foo"), Some(43));
    assert_eq!(map.len(), 0);
    assert!(map.is_empty());

    // non-existent key
    assert_eq!(map.get(&"foo"), None);
    assert_eq!(map.remove(&"foo"), None);
    assert_eq!(map.len(), 0);
    assert!(map.is_empty());
}

#[test]
fn overwrite_then_remove_example() {
    let mut map = LinkedHashMap::new();
    assert_eq!(map.insert("a", 1), None);
    assert_eq!(map.insert("b", 2), None);
    assert_eq!(map.insert("a", 3), Some(1));
    assert_eq!(map.get(&"a"), Some(&3));
    assert_eq!(map.get(&"b"), Some(&2));
    assert_eq!(map.len(), 2);
    assert_eq!(map.remove(&"a"), Some(3));
    assert_eq!(map.get(&"a"), None);
    assert_eq!(map.len(), 1);
}

#[test]
fn lookups_on_a_map_without_buckets() {
    let map: LinkedHashMap<u64, u64> = LinkedHashMap::new();
    assert_eq!(map.get(&1), None);
    assert!(!map.contains_key(&1));
    let mut m2: LinkedHashMap<u64, u64> = LinkedHashMap::default();
    assert_eq!(m2.remove(&1), None);
    assert!(m2.is_empty());
}

#[test]
fn insert_reports_previous_value() {
    let mut map = LinkedHashMap::new();
    assert_eq!(map.insert(37, "a"), None);
    assert!(!map.is_empty());
    map.insert(37, "b");
    assert_eq!(map.insert(37, "c"), Some("b"));
    assert_eq!(map.get(&37), Some(&"c"));
    assert_eq!(map.len(), 1);
}

#[test]
fn contains_key_follows_inserts_and_removes() {
    let mut map = LinkedHashMap::new();
    map.insert(1u32, 10);
    assert!(map.contains_key(&1));
    assert!(!map.contains_key(&2));
    map.remove(&1);
    assert!(!map.contains_key(&1));
}

#[test]
fn entries_survive_many_growths() {
    let mut map = LinkedHashMap::new();
    for i in 0..500u64 {
        assert_eq!(map.insert(i, i * 2), None);
        assert_eq!(map.len(), (i + 1) as usize);
    }
    for i in 0..500u64 {
        assert_eq!(map.get(&i), Some(&(i * 2)));
    }
    for i in (0..500u64).step_by(2) {
        assert_eq!(map.remove(&i), Some(i * 2));
    }
    assert_eq!(map.len(), 250);
    for i in 0..500u64 {
        let expected = if i % 2 == 0 { None } else { Some(i * 2) };
        assert_eq!(map.get(&i).copied(), expected);
    }
}

#[test]
fn latest_write_wins_over_a_sequence() {
    let mut map = LinkedHashMap::new();
    map.insert(5i32, 1);
    map.insert(6i32, 2);
    map.remove(&5);
    map.insert(5, 3);
    map.insert(6, 4);
    map.remove(&6);
    map.insert(7, 5);
    assert_eq!(map.get(&5), Some(&3));
    assert_eq!(map.get(&6), None);
    assert_eq!(map.get(&7), Some(&5));
    assert_eq!(map.len(), 2);
}

#[test]
fn string_and_usize_keys() {
    let mut map = LinkedHashMap::new();
    map.insert(String::from("Norway"), 100);
    map.insert(String::from("Denmark"), 50);
    map.insert(String::from("Iceland"), 10);
    assert_eq!(map.get(&String::from("Denmark")), Some(&50));
    assert!(!map.contains_key(&String::from("Sweden")));
    assert_eq!(map.insert(String::from("Norway"), 101), Some(100));
    assert_eq!(map.len(), 3);

    let mut by_index = LinkedHashMap::new();
    by_index.insert(3usize, 'c');
    by_index.insert(usize::MAX, 'z');
    assert_eq!(by_index.get(&usize::MAX), Some(&'z'));
    assert_eq!(by_index.get(&3), Some(&'c'));
}

#[test]
fn equal_strings_from_different_sources_are_one_key() {
    let owned = String::from("ab");
    let mut map = LinkedHashMap::new();
    map.insert("ab", 1);
    assert_eq!(map.get(&owned.as_str()), Some(&1));
    assert_eq!(map.insert(&owned[..], 2), Some(1));
    assert_eq!(map.len(), 1);
}
