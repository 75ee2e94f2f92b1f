use hashmap::HashMap;

#[test]
fn insert() {
    let mut hashmap = HashMap::new();
    hashmap.insert("meaning of life", 42);
}

#[test]
fn get() {
    let mut hashmap = HashMap::new();
    hashmap.insert("key", "val");
    let v = hashmap.get(&"key");
    assert_eq!(v, Some(&"val"));
}

#[test]
fn remove() {
    let mut hashmap = HashMap::new();
    hashmap.insert("meaning of life", 42);
    hashmap.remove(&"meaning of life");
    assert_eq!(hashmap.get(&"meaning of life"), None);
}
