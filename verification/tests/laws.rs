use hashmap::HashMap;

#[test]
fn scenario_insert_overwrite_remove() {
    let mut t = HashMap::new();
    assert_eq!(t.insert("a", 1), None);
    assert_eq!(t.insert("b", 2), None);
    assert_eq!(t.insert("a", 3), Some(1));
    assert_eq!(t.len(), 2);
    assert_eq!(t.get("a"), Some(&3));
    assert_eq!(t.get("b"), Some(&2));
    assert_eq!(t.remove("b"), Some(2));
    assert_eq!(t.len(), 1);
    assert_eq!(t.get("b"), None);
}

#[test]
fn round_trip_survives_other_keys() {
    let mut t: HashMap<u64, &str> = HashMap::new();
    t.insert(7, "seven");
    for k in 100..200u64 {
        t.insert(k, "other");
    }
    for k in 100..150u64 {
        assert_eq!(t.remove(&k), Some("other"));
    }
    assert_eq!(t.get(&7), Some(&"seven"));
    t.insert(7, "again");
    assert_eq!(t.get(&7), Some(&"again"));
    t.remove(&7);
    assert_eq!(t.get(&7), None);
}

#[test]
fn overwrite_returns_previous_and_keeps_count() {
    let mut t: HashMap<String, i32> = HashMap::new();
    assert_eq!(t.insert("k".to_string(), 1), None);
    let before = t.len();
    assert_eq!(t.insert("k".to_string(), 2), Some(1));
    assert_eq!(t.len(), before);
    assert_eq!(t.get("k"), Some(&2));
}

#[test]
fn removal_of_present_key() {
    let mut t: HashMap<u64, u64> = HashMap::new();
    for k in 0..10u64 {
        t.insert(k, k * k);
    }
    assert_eq!(t.len(), 10);
    assert_eq!(t.remove(&4), Some(16));
    assert_eq!(t.len(), 9);
    assert_eq!(t.get(&4), None);
    assert!(!t.contains_key(&4));
    for k in (0..10u64).filter(|k| *k != 4) {
        assert_eq!(t.get(&k), Some(&(k * k)));
    }
}

#[test]
fn removal_of_absent_key() {
    let mut t: HashMap<u64, u64> = HashMap::new();
    for k in 0..10u64 {
        t.insert(k, k);
    }
    assert_eq!(t.remove(&99), None);
    assert_eq!(t.len(), 10);
    assert_eq!(t.remove(&3), Some(3));
    assert_eq!(t.remove(&3), None);
    assert_eq!(t.len(), 9);
}

#[test]
fn length_counts_distinct_live_keys() {
    let mut t: HashMap<u64, u64> = HashMap::new();
    assert_eq!(t.len(), 0);
    assert!(t.is_empty());
    for round in 0..3u64 {
        for k in 0..50u64 {
            t.insert(k, round);
        }
    }
    assert_eq!(t.len(), 50);
    for k in 0..20u64 {
        t.remove(&k);
        t.remove(&k);
    }
    assert_eq!(t.len(), 30);
    assert!(!t.is_empty());
    for k in 20..50u64 {
        t.remove(&k);
    }
    assert_eq!(t.len(), 0);
    assert!(t.is_empty());
    t.insert(1, 1);
    assert_eq!(t.len(), 1);
}

#[test]
fn growth_keeps_every_key_at_every_step() {
    let mut t: HashMap<u64, u64> = HashMap::new();
    for k in 0..1000u64 {
        assert_eq!(t.insert(k, k + 1), None);
        assert_eq!(t.len() as u64, k + 1);
        for seen in 0..=k {
            assert_eq!(t.get(&seen), Some(&(seen + 1)));
        }
        assert_eq!(t.get(&(k + 1)), None);
    }
}

#[test]
fn growth_keeps_string_keys() {
    let mut t: HashMap<String, usize> = HashMap::new();
    for i in 0..300usize {
        t.insert(format!("key{}", i), i);
    }
    assert_eq!(t.len(), 300);
    for i in 0..300usize {
        assert_eq!(t.get(format!("key{}", i).as_str()), Some(&i));
    }
}

#[test]
fn borrowed_lookup_matches_owned_lookup() {
    let mut t: HashMap<String, i32> = HashMap::new();
    t.insert("alpha".to_string(), 1);
    t.insert("beta".to_string(), 2);
    let owned = "alpha".to_string();
    assert_eq!(t.get(&owned), t.get("alpha"));
    assert_eq!(t.get("alpha"), Some(&1));
    assert_eq!(t.contains_key(&owned), t.contains_key("alpha"));
    assert!(t.contains_key("alpha"));
    let missing = "gamma".to_string();
    assert_eq!(t.get(&missing), t.get("gamma"));
    assert_eq!(t.get("gamma"), None);
    assert!(!t.contains_key("gamma"));

    let mut by_owned: HashMap<String, i32> = HashMap::new();
    let mut by_form: HashMap<String, i32> = HashMap::new();
    by_owned.insert("alpha".to_string(), 1);
    by_form.insert("alpha".to_string(), 1);
    assert_eq!(by_owned.remove(&owned), by_form.remove("alpha"));
    assert_eq!(by_owned.len(), by_form.len());
    assert_eq!(by_form.get("alpha"), None);
}

#[test]
fn borrowed_lookup_on_borrowed_keys() {
    let mut t: HashMap<&str, i32> = HashMap::new();
    t.insert("alpha", 1);
    let text = String::from("alpha");
    assert_eq!(t.get(text.as_str()), Some(&1));
    assert_eq!(t.get(&"alpha"), Some(&1));
    assert_eq!(t.remove(text.as_str()), Some(1));
    assert_eq!(t.get(&"alpha"), None);
}
