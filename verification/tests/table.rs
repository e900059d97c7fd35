use hashmap::HashMap;

#[test]
fn test_sanity() {
    let mut h = HashMap::new();
    assert_eq!(h.len(), 0);
    assert!(h.empty());

    h.insert("Hi!".to_string(), 23);
    assert_eq!(h.len(), 1);
    assert!(!h.empty());
    assert_eq!(h.get(&"Hi!".to_string()), Some(&23));

    assert_eq!(h.remove(&"Hi!".to_string()), Some(23));
    assert_eq!(h.len(), 0);
    assert!(h.empty());
    assert_eq!(h.get(&"Hi!".to_string()), None);
}

#[test]
fn len_counts_inserts_minus_successful_removes() {
    let mut h = HashMap::new();
    assert_eq!(h.len(), 0);
    h.insert("x".to_string(), 1);
    h.insert("y".to_string(), 2);
    h.insert("x".to_string(), 3);
    assert_eq!(h.len(), 3);
    assert_eq!(h.remove(&"z".to_string()), None);
    assert_eq!(h.len(), 3);
    assert_eq!(h.remove(&"x".to_string()), Some(1));
    assert_eq!(h.len(), 2);
    assert_eq!(h.remove(&"x".to_string()), Some(3));
    assert_eq!(h.remove(&"x".to_string()), None);
    assert_eq!(h.len(), 1);
    assert_eq!(h.remove(&"y".to_string()), Some(2));
    assert_eq!(h.len(), 0);
}

#[test]
fn empty_iff_len_zero() {
    let mut h = HashMap::new();
    assert!(h.empty());
    assert_eq!(h.len(), 0);
    h.insert(0u8, 7u8);
    assert!(!h.empty());
    assert_eq!(h.len(), 1);
    assert_eq!(h.remove(&0), Some(7));
    assert!(h.empty());
    assert_eq!(h.len(), 0);
}

#[test]
fn get_returns_first_inserted_match() {
    let mut h = HashMap::new();
    h.insert(7u32, "first");
    h.insert(7u32, "second");
    assert_eq!(h.get(&7), Some(&"first"));
    h.insert(8u32, "other");
    assert_eq!(h.get(&8), Some(&"other"));
    assert_eq!(h.get(&9), None);
}

#[test]
fn insert_twice_remove_once_keeps_one() {
    let mut h = HashMap::new();
    h.insert(5i64, 50);
    h.insert(5i64, 51);
    let before = h.len();
    assert_eq!(h.remove(&5), Some(50));
    assert_eq!(h.len(), before - 1);
    assert_eq!(h.get(&5), Some(&51));
}

#[test]
fn empty_table_finds_nothing() {
    let mut h: HashMap<String, u8> = HashMap::new();
    assert_eq!(h.get(&"anything".to_string()), None);
    assert_eq!(h.remove(&"anything".to_string()), None);
    assert_eq!(h.get(&"".to_string()), None);
    assert_eq!(h.remove(&"".to_string()), None);
    assert!(h.empty());
}

#[test]
fn insert_then_remove_round_trip() {
    let mut h = HashMap::new();
    h.insert(1u64, 100u64);
    h.insert(2, 200);
    let before = h.len();
    h.insert(3, 300);
    assert_eq!(h.remove(&3), Some(300));
    assert_eq!(h.len(), before);
    assert_eq!(h.get(&3), None);
    assert_eq!(h.get(&1), Some(&100));
    assert_eq!(h.get(&2), Some(&200));
}

#[test]
fn thousand_distinct_keys_all_found() {
    let mut h = HashMap::new();
    for i in 0usize..1000 {
        h.insert(i, i * 3);
    }
    assert_eq!(h.len(), 1000);
    for i in 0usize..1000 {
        assert_eq!(h.get(&i), Some(&(i * 3)));
    }
}

#[test]
fn duplicate_key_removes_in_insertion_order() {
    let mut h = HashMap::new();
    h.insert("a".to_string(), 1);
    h.insert("a".to_string(), 2);
    assert_eq!(h.len(), 2);
    assert_eq!(h.remove(&"a".to_string()), Some(1));
    assert_eq!(h.len(), 1);
    assert_eq!(h.remove(&"a".to_string()), Some(2));
    assert_eq!(h.len(), 0);
    assert_eq!(h.get(&"a".to_string()), None);
}

#[test]
fn default_is_empty() {
    let h: HashMap<u32, u32> = HashMap::default();
    assert!(h.empty());
    assert_eq!(h.len(), 0);
}
