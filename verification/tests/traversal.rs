use hashmap::HashMap;
use std::collections::BTreeMap;

fn keys_in_order(t: &HashMap<u64, u64>) -> Vec<u64> {
    let mut keys = Vec::new();
    let mut cursor = t.into_iter();
    while let Some((key, _)) = cursor.next() {
        keys.push(*key);
    }
    keys
}

#[test]
fn traversal_of_empty_table_ends_at_once() {
    let t: HashMap<u64, u64> = HashMap::new();
    let mut cursor = t.into_iter();
    assert!(cursor.next().is_none());
    assert!(cursor.next().is_none());
}

#[test]
fn traversal_stays_at_end() {
    let mut t: HashMap<u64, u64> = HashMap::new();
    t.insert(1, 10);
    let mut cursor = t.into_iter();
    assert_eq!(cursor.next(), Some((&1, &10)));
    assert_eq!(cursor.next(), None);
    assert_eq!(cursor.next(), None);
}

#[test]
fn traversal_meets_each_entry_once() {
    let mut t: HashMap<u64, u64> = HashMap::new();
    let mut expected = BTreeMap::new();
    for k in 0..500u64 {
        t.insert(k * 7919, k);
        expected.insert(k * 7919, k);
    }
    for k in 0..500u64 {
        if k % 3 == 0 {
            t.remove(&(k * 7919));
            expected.remove(&(k * 7919));
        }
    }
    for k in 0..100u64 {
        t.insert(k * 7919, k + 1);
        expected.insert(k * 7919, k + 1);
    }
    let mut met = BTreeMap::new();
    let mut count = 0;
    let mut cursor = t.into_iter();
    while let Some((key, value)) = cursor.next() {
        assert_eq!(met.insert(*key, *value), None);
        count += 1;
    }
    assert_eq!(count, t.len());
    assert_eq!(met, expected);
}

#[test]
fn traversal_follows_buckets_then_chains() {
    let mut t: HashMap<u64, u64> = HashMap::new();
    for k in 1..=10u64 {
        t.insert(k, k * 10);
    }
    assert_eq!(keys_in_order(&t), vec![9, 4, 2, 10, 6, 1, 3, 8, 7, 5]);
}

#[test]
fn table_grows_when_more_than_three_quarters_full() {
    let expected: Vec<Vec<u64>> = vec![
        vec![0],
        vec![0, 1],
        vec![0, 1, 2],
        vec![0, 1, 2, 3],
        vec![1, 4, 3, 0, 2],
        vec![1, 4, 3, 5, 0, 2],
        vec![6, 1, 4, 3, 5, 0, 2],
        vec![4, 0, 2, 6, 1, 3, 7, 5],
    ];
    let mut t: HashMap<u64, u64> = HashMap::new();
    for k in 0..8u64 {
        t.insert(k, k * 100);
        assert_eq!(keys_in_order(&t), expected[k as usize]);
    }
}

#[test]
fn removal_moves_last_entry_of_chain_into_place() {
    let mut t: HashMap<u64, u64> = HashMap::new();
    for k in 9..=20u64 {
        t.insert(k, k);
    }
    assert_eq!(keys_in_order(&t), vec![9, 14, 19, 16, 18, 15, 17, 20, 10, 12, 11, 13]);
    assert_eq!(t.remove(&15), Some(15));
    assert_eq!(keys_in_order(&t), vec![9, 14, 19, 16, 18, 20, 17, 10, 12, 11, 13]);
}

#[test]
fn removal_keeps_the_buckets() {
    let mut t: HashMap<u64, u64> = HashMap::new();
    for k in 1..=10u64 {
        t.insert(k, k);
    }
    for k in 2..=10u64 {
        t.remove(&k);
    }
    assert_eq!(keys_in_order(&t), vec![1]);
    for k in 2..=10u64 {
        t.insert(k, k);
    }
    assert_eq!(keys_in_order(&t), vec![9, 4, 2, 10, 6, 1, 3, 8, 7, 5]);
}

#[test]
fn overwrite_keeps_the_place() {
    let mut t: HashMap<&str, i32> = HashMap::new();
    for (i, key) in ["a", "b", "c", "d", "e", "f"].into_iter().enumerate() {
        t.insert(key, i as i32);
    }
    assert_eq!(t.insert("a", 100), Some(0));
    let mut met = Vec::new();
    let mut cursor = t.into_iter();
    while let Some((key, value)) = cursor.next() {
        met.push((*key, *value));
    }
    assert_eq!(met, vec![("f", 5), ("b", 1), ("e", 4), ("a", 100), ("c", 2), ("d", 3)]);
}
