use containers::hashmap::START_CAPACITY;
use containers::HashMap;
use containers::HashSet;

#[test]
fn hashmap_test_basics() {
    let mut map: HashMap<String, i32> = HashMap::new();

    assert_eq!(map.capacity(), 0);
    assert!(map.is_empty());

    map.insert(String::from("foo"), 1);
    map.insert(String::from("bar"), 2);
    map.insert(String::from("baz"), 3);

    assert_eq!(map.len(), 3);

    assert_eq!(map.get(&String::from("foo")), Some(&1));
    assert_eq!(map.get(&String::from("bar")), Some(&2));
    assert_eq!(map.get(&String::from("baz")), Some(&3));

    assert_eq!(map.remove(&String::from("foo")), Some(1));
    assert_eq!(map.remove(&String::from("bar")), Some(2));
    assert_eq!(map.remove(&String::from("baz")), Some(3));

    assert!(map.is_empty());
}

#[test]
fn test_growth() {
    let mut map: HashMap<u64, u64> = HashMap::new();
    for i in 0..1000 {
        map.insert(i, i * 2);
    }
    assert_ne!(map.capacity(), START_CAPACITY);
    // growth only doubles, so the capacity stays a power of two past the start
    assert!(map.capacity() > START_CAPACITY);
    assert!(map.capacity().is_power_of_two());
}

#[test]
fn hashset_test_basics() {
    let mut set: HashSet<i32> = HashSet::new();
    for i in 0..1000 {
        set.insert(i);
    }
    for i in 0..1000 {
        assert!(set.contains(&i), "{i}");
    }
    for i in 1000..2000 {
        assert!(!set.contains(&i), "{i}");
    }
}

#[test]
fn test_map_uniqueness() {
    // The size is the number of distinct keys: reinserting an existing key
    // hands back the previous pair and does not grow the map.
    let mut map: HashMap<u64, i32> = HashMap::new();
    assert_eq!(map.insert(5, 50), None);
    assert_eq!(map.insert(6, 60), None);
    assert_eq!(map.len(), 2);
    assert_eq!(map.insert(5, 55), Some((5, 50)));
    assert_eq!(map.len(), 2);
    assert_eq!(map.get(&5), Some(&55));
}

#[test]
fn test_map_lookup_latest() {
    // A key not removed maps to the most recently inserted value for it,
    // and other keys are unaffected.
    let mut map: HashMap<String, i32> = HashMap::new();
    map.insert(String::from("k"), 1);
    map.insert(String::from("other"), 7);
    map.insert(String::from("k"), 2);
    map.insert(String::from("k"), 3);
    assert_eq!(map.get(&String::from("k")), Some(&3));
    assert_eq!(map.get(&String::from("other")), Some(&7));
    assert_eq!(map.get(&String::from("absent")), None);
    assert!(!map.contains_key(&String::from("absent")));
    assert!(map.contains_key(&String::from("k")));
}

#[test]
fn test_map_remove_scenario() {
    // insert foo→1, bar→2, baz→3, then remove foo: the size is 2, foo is
    // absent, bar still maps to 2.
    let mut map: HashMap<String, i32> = HashMap::new();
    map.insert(String::from("foo"), 1);
    map.insert(String::from("bar"), 2);
    map.insert(String::from("baz"), 3);
    assert_eq!(map.remove(&String::from("foo")), Some(1));
    assert_eq!(map.len(), 2);
    assert_eq!(map.get(&String::from("foo")), None);
    assert_eq!(map.get(&String::from("bar")), Some(&2));
}

#[test]
fn test_map_growth_keeps_entries() {
    // Growing past the starting bucket array keeps every entry retrievable.
    let mut map: HashMap<u64, u64> = HashMap::new();
    for i in 0..200 {
        map.insert(i, i + 1000);
    }
    assert!(map.capacity() > START_CAPACITY);
    assert_eq!(map.len(), 200);
    for i in 0..200 {
        assert_eq!(map.get(&i), Some(&(i + 1000)));
    }
}

#[test]
fn test_map_remove_entry_absent() {
    let mut map: HashMap<u64, i32> = HashMap::new();
    assert_eq!(map.remove_entry(&1), None);
    map.insert(1, 10);
    assert_eq!(map.remove_entry(&2), None);
    assert_eq!(map.remove_entry(&1), Some((1, 10)));
    assert_eq!(map.remove_entry(&1), None);
}

#[test]
fn test_set_insert_remove() {
    let mut set: HashSet<String> = HashSet::new();
    assert!(set.is_empty());
    assert_eq!(set.insert(String::from("a")), None);
    assert_eq!(set.insert(String::from("b")), None);
    assert_eq!(set.insert(String::from("a")), Some(String::from("a")));
    assert_eq!(set.len(), 2);
    assert_eq!(set.remove(&String::from("a")), Some(String::from("a")));
    assert_eq!(set.remove(&String::from("a")), None);
    assert_eq!(set.len(), 1);
    assert!(set.contains(&String::from("b")));
    assert!(!set.contains(&String::from("a")));
}

#[test]
fn test_string_keys_hash_by_content() {
    // Two separately built but equal strings are one key to the map; this
    // would fail if hashing depended on anything but the key's bytes.
    let mut map: HashMap<String, i32> = HashMap::new();
    let mut key = String::from("he");
    key.push_str("llo");
    map.insert(key, 1);
    assert_eq!(map.get(&String::from("hello")), Some(&1));
    assert_eq!(map.insert(String::from("hello"), 2), Some((String::from("hello"), 1)));
    assert_eq!(map.len(), 1);
}

#[test]
fn test_map_get_mut() {
    let mut map: HashMap<String, i32> = HashMap::new();
    map.insert(String::from("a"), 1);
    map.insert(String::from("b"), 2);
    match map.get_mut(&String::from("a")) {
        Some(v) => *v += 100,
        None => panic!("expected a value"),
    }
    assert_eq!(map.get(&String::from("a")), Some(&101));
    assert_eq!(map.get(&String::from("b")), Some(&2));
    assert!(map.get_mut(&String::from("c")).is_none());
    assert_eq!(map.len(), 2);
}

#[test]
fn test_map_iter_keys_values() {
    let mut map: HashMap<u64, i32> = HashMap::new();
    for i in 0..20 {
        map.insert(i, (i as i32) * 3);
    }
    let pairs = map.iter();
    assert_eq!(pairs.len(), 20);
    let mut seen = std::vec::Vec::new();
    for i in 0..pairs.len() {
        let (k, v) = *pairs.get(i);
        assert_eq!(*v, (*k as i32) * 3);
        seen.push(*k);
    }
    seen.sort();
    assert_eq!(seen, (0..20).collect::<std::vec::Vec<u64>>());

    let keys = map.keys();
    assert_eq!(keys.len(), 20);
    let mut seen = std::vec::Vec::new();
    for i in 0..keys.len() {
        seen.push(**keys.get(i));
    }
    seen.sort();
    assert_eq!(seen, (0..20).collect::<std::vec::Vec<u64>>());

    let values = map.values();
    assert_eq!(values.len(), 20);
    let mut seen = std::vec::Vec::new();
    for i in 0..values.len() {
        seen.push(**values.get(i));
    }
    seen.sort();
    assert_eq!(seen, (0..20).map(|i| i * 3).collect::<std::vec::Vec<i32>>());
}

#[test]
fn test_set_iter() {
    let mut set: HashSet<i32> = HashSet::new();
    for i in [3, 1, 4, 1, 5] {
        set.insert(i);
    }
    let members = set.iter();
    assert_eq!(members.len(), 4);
    let mut seen = std::vec::Vec::new();
    for i in 0..members.len() {
        seen.push(**members.get(i));
    }
    seen.sort();
    assert_eq!(seen, vec![1, 3, 4, 5]);
}

#[test]
fn test_container_defaults() {
    let map: HashMap<u64, i32> = Default::default();
    assert!(map.is_empty());
    assert_eq!(map.capacity(), 0);
    let set: HashSet<u64> = Default::default();
    assert!(set.is_empty());
    let v: containers::Vec<i32> = Default::default();
    assert!(v.is_empty());
    assert_eq!(v.cap(), 0);
}
