use hashmap::key::hash_bytes;
use hashmap::key::hash_str;
use hashmap::key::str_eq;
use hashmap::Equivalent;
use hashmap::HashMap;
use hashmap::Key;
use std::collections::hash_map::DefaultHasher;
use std::hash::Hash;
use std::hash::Hasher;

fn std_hash<T: Hash + ?Sized>(value: &T) -> u64 {
    let mut hasher = DefaultHasher::new();
    value.hash(&mut hasher);
    hasher.finish()
}

#[test]
fn hash_of_bytes_is_the_unseeded_digest() {
    assert_eq!(hash_bytes(&[]), 15130871412783076140);
    assert_eq!(hash_bytes(b"abc"), 13851880170939887858);
}

#[test]
fn hash_of_string_is_that_of_its_utf8_bytes_and_end() {
    assert_eq!(hash_str(""), 3476900567878811119);
    assert_eq!(hash_str("abc"), 17224545590736200989);
    assert_eq!(hash_str("abc"), hash_bytes(&[97, 98, 99, 255]));
    assert_eq!(hash_str("h\u{e9}llo"), 16660529101961148543);
    assert_eq!(hash_str("h\u{e9}llo"), hash_bytes(&[104, 195, 169, 108, 108, 111, 255]));
    assert_eq!("key0".to_string().hash_code(), 17768706060086501131);
    assert_eq!("key0".hash_code(), 17768706060086501131);
    assert_eq!(Equivalent::<String>::lookup_hash("key0"), 17768706060086501131);
}

#[test]
fn strings_hash_as_under_the_standard_trait() {
    for text in ["", "a", "abc", "key0", "h\u{e9}llo", "meaning of life"] {
        assert_eq!(hash_str(text), std_hash(text));
        assert_eq!(text.to_string().hash_code(), std_hash(&text.to_string()));
        assert_eq!(text.hash_code(), std_hash(&text));
    }
}

#[test]
fn integers_hash_as_their_low_first_bytes_under_the_standard_trait() {
    for k in [0u64, 1, 42, 255, 256, 0x0102030405060708, u64::MAX] {
        assert_eq!(k.hash_code(), std_hash(&u64::from_ne_bytes(k.to_le_bytes())));
    }
}

#[test]
fn hash_of_integer_is_that_of_its_bytes_low_first() {
    assert_eq!(0u64.hash_code(), 13646096770106105413);
    assert_eq!(1u64.hash_code(), 2206609067086327257);
    assert_eq!(42u64.hash_code(), 8880661182590738257);
    assert_eq!(42u64.hash_code(), hash_bytes(&[42, 0, 0, 0, 0, 0, 0, 0]));
}

#[test]
fn hash_is_the_same_each_time() {
    for k in 0..100u64 {
        assert_eq!(k.hash_code(), k.hash_code());
    }
    assert_eq!(hash_str("again"), hash_str("again"));
}

#[test]
fn string_equality_is_by_characters() {
    assert!(str_eq("", ""));
    assert!(str_eq("abc", "abc"));
    assert!(!str_eq("abc", "abd"));
    assert!(!str_eq("abc", "ab"));
    assert!(!str_eq("ab", "abc"));
    assert!(str_eq("h\u{e9}llo", "h\u{e9}llo"));
    assert!(!str_eq("h\u{e9}llo", "hello"));
}

#[test]
fn key_equality_and_equivalence_agree() {
    assert!(5u64.same_key(&5));
    assert!(!5u64.same_key(&6));
    assert!("a".to_string().same_key(&"a".to_string()));
    assert!(!"a".to_string().same_key(&"b".to_string()));
    assert!("a".same_key(&"a"));
    assert!("a".equivalent(&"a".to_string()));
    assert!(!"a".equivalent(&"b".to_string()));
    assert!(Equivalent::<&str>::equivalent("a", &"a"));
    assert!(5u64.equivalent(&5u64));
    assert_eq!(Equivalent::<u64>::lookup_hash(&5u64), 5u64.hash_code());
}

#[test]
fn lookups_in_a_table_without_buckets() {
    let mut t: HashMap<u64, u64> = HashMap::new();
    assert_eq!(t.get(&1), None);
    assert!(!t.contains_key(&1));
    assert_eq!(t.remove(&1), None);
    assert_eq!(t.len(), 0);
    assert!(t.is_empty());
}

#[test]
fn empty_string_and_long_keys() {
    let mut t: HashMap<String, u8> = HashMap::new();
    t.insert(String::new(), 1);
    let long = "x".repeat(10_000);
    t.insert(long.clone(), 2);
    assert_eq!(t.get(""), Some(&1));
    assert_eq!(t.get(long.as_str()), Some(&2));
    assert_eq!(t.len(), 2);
}

struct Opaque(u8);

#[test]
fn values_need_no_capabilities() {
    let mut t: HashMap<u64, Opaque> = HashMap::new();
    assert!(t.insert(1, Opaque(1)).is_none());
    let previous = t.insert(1, Opaque(2));
    assert_eq!(previous.map(|v| v.0), Some(1));
    assert_eq!(t.remove(&1).map(|v| v.0), Some(2));
}
