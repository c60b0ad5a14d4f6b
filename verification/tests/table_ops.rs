use chainmap::HashMap;

#[test]
fn insert_get_delete() {
    let mut map: HashMap<String, i32> = HashMap::new();
    assert_eq!(map.is_empty(), true);
    map.insert("A".to_string(), 1);
    assert_eq!(map.is_empty(), false);
    assert_eq!(map.contains_key(&"A".to_string()), true);
    assert_eq!(map.len(), 1);
    assert_eq!(map.get(&"A".to_string()), Some(&1));
    assert_eq!(map.delete(&"A".to_string()), Some(1));
    assert_eq!(map.get(&"A".to_string()), None);
}

#[test]
fn iteration() {
    let mut map: HashMap<String, i32> = HashMap::new();
    map.insert("A".to_string(), 1);
    map.insert("B".to_string(), 2);
    map.insert("C".to_string(), 3);
    map.insert("D".to_string(), 4);
    let mut it = map.iter();
    let mut count: usize = 0;
    while let Some(_) = it.next() {
        count += 1;
    }
    assert_eq!(count, 4);
    let mut it = map.iter();
    while let Some((k, v)) = it.next() {
        match k.as_str() {
            "A" => assert_eq!(*v, 1),
            "B" => assert_eq!(*v, 2),
            "C" => assert_eq!(*v, 3),
            "D" => assert_eq!(*v, 4),
            _ => (),
        };
    }
}

#[test]
fn round_trip_last_insert_wins() {
    let mut map: HashMap<String, i32> = HashMap::new();
    map.insert("x".to_string(), 10);
    map.insert("y".to_string(), 20);
    map.insert("x".to_string(), 30);
    map.insert("z".to_string(), 40);
    assert_eq!(map.get(&"x".to_string()), Some(&30));
    assert_eq!(map.get(&"y".to_string()), Some(&20));
    assert_eq!(map.get(&"z".to_string()), Some(&40));
}

#[test]
fn replacement_returns_previous_and_keeps_len() {
    let mut map: HashMap<String, i32> = HashMap::new();
    assert_eq!(map.insert("k".to_string(), 1), None);
    assert_eq!(map.len(), 1);
    assert_eq!(map.insert("k".to_string(), 2), Some(1));
    assert_eq!(map.len(), 1);
    assert_eq!(map.get(&"k".to_string()), Some(&2));
}

#[test]
fn deletion_removes_and_decrements_len() {
    let mut map: HashMap<String, i32> = HashMap::new();
    map.insert("a".to_string(), 1);
    map.insert("b".to_string(), 2);
    assert_eq!(map.len(), 2);
    assert_eq!(map.delete(&"a".to_string()), Some(1));
    assert_eq!(map.get(&"a".to_string()), None);
    assert_eq!(map.contains_key(&"a".to_string()), false);
    assert_eq!(map.len(), 1);
    assert_eq!(map.get(&"b".to_string()), Some(&2));
}

#[test]
fn delete_absent_is_noop() {
    let mut map: HashMap<String, i32> = HashMap::new();
    map.insert("a".to_string(), 1);
    assert_eq!(map.delete(&"missing".to_string()), None);
    assert_eq!(map.len(), 1);
    assert_eq!(map.get(&"a".to_string()), Some(&1));
}

#[test]
fn empty_table_lookups_return_absent() {
    let mut map: HashMap<String, i32> = HashMap::new();
    assert_eq!(map.get(&"X".to_string()), None);
    assert_eq!(map.contains_key(&"X".to_string()), false);
    assert_eq!(map.delete(&"X".to_string()), None);
    assert_eq!(map.len(), 0);
    assert_eq!(map.is_empty(), true);
}

#[test]
fn iterator_count_matches_len_after_mixed_operations() {
    let mut map: HashMap<String, i32> = HashMap::new();
    for i in 0..50 {
        map.insert(format!("key{}", i), i);
    }
    for i in 0..20 {
        map.delete(&format!("key{}", i * 2));
    }
    map.insert("key3".to_string(), -3);
    let mut it = map.iter();
    let mut count: usize = 0;
    while let Some(_) = it.next() {
        count += 1;
    }
    assert_eq!(count, map.len());
}

#[test]
fn iteration_yields_each_pair_once() {
    let mut map: HashMap<String, i32> = HashMap::new();
    map.insert("A".to_string(), 1);
    map.insert("B".to_string(), 2);
    map.insert("C".to_string(), 3);
    map.insert("D".to_string(), 4);
    assert_eq!(map.len(), 4);
    let mut seen: Vec<(String, i32)> = Vec::new();
    let mut it = map.iter();
    while let Some((k, v)) = it.next() {
        assert!(!seen.iter().any(|(sk, _)| sk == k));
        seen.push((k.clone(), *v));
    }
    assert_eq!(seen.len(), 4);
    for (k, v) in &seen {
        match k.as_str() {
            "A" => assert_eq!(*v, 1),
            "B" => assert_eq!(*v, 2),
            "C" => assert_eq!(*v, 3),
            "D" => assert_eq!(*v, 4),
            other => panic!("unexpected key {}", other),
        }
    }
    assert_eq!(map.delete(&"A".to_string()), Some(1));
    assert_eq!(map.get(&"A".to_string()), None);
    assert_eq!(map.len(), 3);
}

#[test]
fn explicit_resize_keeps_every_entry() {
    let mut map: HashMap<String, i32> = HashMap::new();
    for i in 0..10 {
        map.insert(format!("entry{}", i), i);
    }
    let before = map.len();
    map.resize();
    map.resize();
    assert_eq!(map.len(), before);
    for i in 0..10 {
        assert_eq!(map.get(&format!("entry{}", i)), Some(&i));
    }
}

#[test]
fn thousand_distinct_string_keys() {
    let mut map: HashMap<String, u32> = HashMap::new();
    for i in 0..1000u32 {
        map.insert(format!("k{}", i), i);
    }
    assert_eq!(map.len(), 1000);
    for i in 0..1000u32 {
        assert_eq!(map.get(&format!("k{}", i)), Some(&i));
    }
}

#[test]
fn integer_keys_work_too() {
    let mut map: HashMap<u64, String> = HashMap::new();
    for i in 0..200u64 {
        map.insert(i * 7, format!("v{}", i));
    }
    assert_eq!(map.len(), 200);
    for i in 0..200u64 {
        assert_eq!(map.get(&(i * 7)), Some(&format!("v{}", i)));
        assert!(map.contains_key(&(i * 7)));
    }
    assert!(!map.contains_key(&1));
    assert_eq!(map.delete(&0), Some("v0".to_string()));
    assert_eq!(map.len(), 199);
}

#[test]
fn exhausted_iterator_yields_nothing_forever() {
    let mut map: HashMap<String, i32> = HashMap::new();
    map.insert("only".to_string(), 7);
    let mut it = map.iter();
    assert!(it.next().is_some());
    assert!(it.next().is_none());
    assert!(it.next().is_none());
    assert!(it.next().is_none());
}

#[test]
fn iterator_over_empty_table_yields_nothing() {
    let map: HashMap<String, i32> = HashMap::new();
    let mut it = map.iter();
    assert!(it.next().is_none());
}
