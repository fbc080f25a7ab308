use chainmap::HashMap;

#[test]
fn insert_test() {
    let mut map = HashMap::new();
    assert!(map.is_empty());
    assert_eq!(map.len(), 0);
    map.insert("a", 10);
    assert_eq!(map.get(&"a"), Some(&10));
    assert!(!map.is_empty());
    assert_eq!(map.len(), 1);
    assert!(map.contains_key(&"a"));
    assert_eq!(map.remove(&"a"), Some(10));
    assert_eq!(map.len(), 0);
    assert!(map.is_empty());

    assert_eq!(map.get(&"a"), None);
}

#[test]
fn iter_test() {
    let mut map = HashMap::new();
    assert!(map.is_empty());
    map.insert("a", 10);
    map.insert("b", 20);
    map.insert("c", 30);
    map.insert("d", 40);
    assert!(!map.is_empty());
    assert_eq!(map.len(), 4);

    let mut it = map.into_iter();
    while let Some((k, v)) = it.next() {
        match k {
            "a" => assert_eq!(v, 10),
            "b" => assert_eq!(v, 20),
            "c" => assert_eq!(v, 30),
            "d" => assert_eq!(v, 40),
            _ => unreachable!(),
        }
    }
}

#[test]
fn overwrite_keeps_len() {
    let mut map = HashMap::new();
    assert_eq!(map.insert("k", 1), None);
    assert_eq!(map.len(), 1);
    assert_eq!(map.insert("k", 2), Some(1));
    assert_eq!(map.get(&"k"), Some(&2));
    assert_eq!(map.len(), 1);
}

#[test]
fn remove_then_absent() {
    let mut map = HashMap::new();
    map.insert("x", 7);
    map.insert("y", 8);
    assert_eq!(map.remove(&"x"), Some(7));
    assert_eq!(map.get(&"x"), None);
    assert!(!map.contains_key(&"x"));
    assert_eq!(map.remove(&"x"), None);
    assert_eq!(map.len(), 1);
    map.insert("x", 9);
    assert!(map.contains_key(&"x"));
    assert_eq!(map.get(&"x"), Some(&9));
}

#[test]
fn entry_scenario() {
    let mut map = HashMap::new();
    map.insert("a", 1);
    map.insert("b", 2);
    map.insert("c", 3);
    assert_eq!(map.len(), 3);
    assert_eq!(map.get(&"b"), Some(&2));
    assert_eq!(map.remove(&"a"), Some(1));
    assert_eq!(map.len(), 2);
    assert_eq!(map.get(&"a"), None);

    let e = map.entry("b");
    let e = e.and_modify(&mut map, |v| v + 10);
    let r = *e.or_insert(&mut map, 0);
    assert_eq!(r, 12);
    assert_eq!(map.get(&"b"), Some(&12));
    assert_eq!(map.len(), 2);

    let e = map.entry("z");
    let r = *e.or_insert(&mut map, 99);
    assert_eq!(r, 99);
    assert_eq!(map.len(), 3);
    assert_eq!(map.get(&"z"), Some(&99));
}

#[test]
fn or_insert_with_runs_once_per_vacant_key() {
    let calls = std::cell::Cell::new(0);
    let mut map = HashMap::new();

    let e = map.entry("fresh");
    let r = *e.or_insert_with(&mut map, || {
        calls.set(calls.get() + 1);
        41
    });
    assert_eq!(r, 41);
    assert_eq!(calls.get(), 1);

    let e = map.entry("fresh");
    let r = *e.or_insert_with(&mut map, || {
        calls.set(calls.get() + 1);
        55
    });
    assert_eq!(r, 41);
    assert_eq!(calls.get(), 1);
    assert_eq!(map.len(), 1);
}

#[test]
fn and_modify_skips_vacant_keys() {
    let calls = std::cell::Cell::new(0);
    let mut map: HashMap<&str, i32> = HashMap::new();
    map.insert("seen", 5);

    let e = map.entry("unseen");
    let e = e.and_modify(&mut map, |v| {
        calls.set(calls.get() + 1);
        v
    });
    assert_eq!(calls.get(), 0);
    let r = *e.or_insert(&mut map, 30);
    assert_eq!(r, 30);

    let e = map.entry("seen");
    let e = e.and_modify(&mut map, |v| {
        calls.set(calls.get() + 1);
        v * 2
    });
    assert_eq!(calls.get(), 1);
    let r = *e.or_insert(&mut map, 0);
    assert_eq!(r, 10);
    assert_eq!(map.len(), 2);
}

#[test]
fn or_default_inserts_zero() {
    let mut map: HashMap<&str, i32> = HashMap::new();
    let e = map.entry("n");
    let r = *e.or_default(&mut map);
    assert_eq!(r, 0);
    assert_eq!(map.get(&"n"), Some(&0));

    map.insert("m", 3);
    let e = map.entry("m");
    let r = *e.or_default(&mut map);
    assert_eq!(r, 3);
    assert_eq!(map.len(), 2);
}

#[test]
fn growth_keeps_all_keys() {
    let mut map = HashMap::new();
    let keys: Vec<String> = (0..100).map(|i| format!("key{}", i)).collect();
    for (i, k) in keys.iter().enumerate() {
        map.insert(k.as_str(), i as i32);
        assert_eq!(map.len(), i + 1);
    }
    assert_eq!(map.len(), 100);
    for (i, k) in keys.iter().enumerate() {
        assert_eq!(map.get(&k.as_str()), Some(&(i as i32)));
    }
}

#[test]
fn len_counts_distinct_keys() {
    let mut map = HashMap::new();
    map.insert("a", 1);
    map.insert("b", 2);
    map.insert("a", 3);
    map.insert("c", 4);
    map.insert("b", 5);
    assert_eq!(map.len(), 3);
    assert_eq!(map.get(&"a"), Some(&3));
    assert_eq!(map.get(&"b"), Some(&5));
    assert_eq!(map.get(&"c"), Some(&4));
}

#[test]
fn borrowing_iteration_is_complete() {
    let mut map = HashMap::new();
    map.insert("p", 1);
    map.insert("q", 2);
    map.insert("r", 3);

    let mut seen: Vec<(&str, i32)> = Vec::new();
    let mut it = map.iter();
    while let Some((k, v)) = it.next() {
        seen.push((*k, *v));
    }
    assert_eq!(seen.len(), 3);
    for (k, v) in &seen {
        assert_eq!(map.get(k), Some(v));
    }
    // restartable: a second borrowing pass sees the same number of pairs
    let mut count = 0;
    let mut it = map.iter();
    while let Some(_) = it.next() {
        count += 1;
    }
    assert_eq!(count, 3);
}

#[test]
fn from_vec_later_duplicates_win() {
    let pairs = vec![("a", 1), ("b", 2), ("a", 3)];
    let map = HashMap::from_vec(pairs);
    assert_eq!(map.len(), 2);
    assert_eq!(map.get(&"a"), Some(&3));
    assert_eq!(map.get(&"b"), Some(&2));
}

#[test]
fn index_yields_present_value() {
    let mut map = HashMap::new();
    map.insert("here", 12);
    assert_eq!(*map.index(&"here"), 12);
}

#[test]
fn clone_copies_all_pairs() {
    let mut map = HashMap::new();
    map.insert("a", 1);
    map.insert("b", 2);
    let copy = map.clone();
    map.insert("a", 100);
    map.insert("c", 3);
    assert_eq!(copy.len(), 2);
    assert_eq!(copy.get(&"a"), Some(&1));
    assert_eq!(copy.get(&"b"), Some(&2));
    assert_eq!(copy.get(&"c"), None);
}

#[test]
fn integer_keys_work() {
    let mut map: HashMap<u64, String> = HashMap::new();
    for i in 0..50u64 {
        map.insert(i, format!("v{}", i));
    }
    assert_eq!(map.len(), 50);
    for i in 0..50u64 {
        assert_eq!(map.get(&i), Some(&format!("v{}", i)));
    }
    assert_eq!(map.remove(&7), Some(String::from("v7")));
    assert_eq!(map.get(&7), None);
    assert_eq!(map.len(), 49);
}

#[test]
fn equal_content_keys_are_one_key() {
    let mut map = HashMap::new();
    let owned = String::from("dyn");
    map.insert(owned.as_str(), 1);
    // a second "dyn" with a different address finds the same slot
    let probe = format!("{}{}", "dy", "n");
    assert!(map.contains_key(&probe.as_str()));
    assert_eq!(map.insert(probe.as_str(), 2), Some(1));
    assert_eq!(map.len(), 1);
}

#[test]
fn lookup_on_empty_container_is_absent() {
    let map: HashMap<&str, i32> = HashMap::new();
    assert_eq!(map.get(&"anything"), None);
    assert!(!map.contains_key(&"anything"));
    let mut map2: HashMap<&str, i32> = HashMap::new();
    assert_eq!(map2.remove(&"anything"), None);
}

#[test]
fn or_insert_reference_writes_back() {
    let mut map = HashMap::new();
    map.insert("k", 1);
    let e = map.entry("k");
    let r = e.or_insert(&mut map, 0);
    assert_eq!(*r, 1);
    *r = 55;
    assert_eq!(map.get(&"k"), Some(&55));
    assert_eq!(map.len(), 1);

    let e = map.entry("fresh");
    let r = e.or_insert(&mut map, 7);
    *r = 8;
    assert_eq!(map.get(&"fresh"), Some(&8));
    assert_eq!(map.len(), 2);
}

#[test]
fn string_keys_work() {
    let mut map: HashMap<String, i32> = HashMap::new();
    map.insert(String::from("alpha"), 1);
    map.insert(String::from("beta"), 2);
    assert_eq!(map.len(), 2);
    assert_eq!(map.get(&String::from("alpha")), Some(&1));
    assert_eq!(map.insert(String::from("alpha"), 9), Some(1));
    assert_eq!(map.len(), 2);
    assert_eq!(map.remove(&String::from("beta")), Some(2));
    assert_eq!(map.get(&String::from("beta")), None);
}

#[test]
fn lookup_owned_keys_by_borrowed_form() {
    let mut map: HashMap<String, i32> = HashMap::new();
    map.insert(String::from("alpha"), 1);
    map.insert(String::from("beta"), 2);
    // query with &str: no owned String is built for the lookup
    assert_eq!(map.get(&"alpha"), Some(&1));
    assert!(map.contains_key(&"beta"));
    assert_eq!(*map.index(&"alpha"), 1);
    assert_eq!(map.remove(&"beta"), Some(2));
    assert_eq!(map.get(&"beta"), None);
    assert_eq!(map.len(), 1);
}

#[test]
fn consuming_iteration_yields_each_pair_once() {
    let mut map = HashMap::new();
    map.insert("a", 10);
    map.insert("b", 20);
    map.insert("c", 30);
    map.insert("d", 40);

    let mut seen: Vec<(&str, i32)> = Vec::new();
    let mut it = map.into_iter();
    while let Some(kv) = it.next() {
        assert!(!seen.iter().any(|(k, _)| *k == kv.0));
        seen.push(kv);
    }
    assert!(it.next().is_none());
    assert_eq!(seen.len(), 4);
    for expected in [("a", 10), ("b", 20), ("c", 30), ("d", 40)] {
        assert!(seen.contains(&expected));
    }
}
