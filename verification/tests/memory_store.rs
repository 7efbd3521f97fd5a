use kvlog::store::memory::KeyValueStore;

#[test]
fn memory_store_basic_operations() {
    let mut store = KeyValueStore::new("default.json");
    assert_eq!(store.file_path, "default.json".to_string());
    assert_eq!(store.insert(b"k".to_vec(), b"v1".to_vec()), None);
    assert_eq!(store.get(&b"k".to_vec()), Some(&b"v1".to_vec()));
    assert_eq!(
        store.insert(b"k".to_vec(), b"v2".to_vec()),
        Some(b"v1".to_vec())
    );
    assert_eq!(store.get(&b"k".to_vec()), Some(&b"v2".to_vec()));
    assert_eq!(store.remove(&b"k".to_vec()), Some(b"v2".to_vec()));
    assert_eq!(store.get(&b"k".to_vec()), None);
    assert_eq!(store.remove(&b"k".to_vec()), None);
}

#[test]
fn memory_store_keeps_keys_apart() {
    let mut store = KeyValueStore::new("test.json");
    store.insert(b"key1".to_vec(), b"42".to_vec());
    store.insert(b"key2".to_vec(), b"100".to_vec());
    assert_eq!(store.get(&b"key1".to_vec()), Some(&b"42".to_vec()));
    assert_eq!(store.get(&b"key2".to_vec()), Some(&b"100".to_vec()));
    assert_eq!(store.remove(&b"key1".to_vec()), Some(b"42".to_vec()));
    assert_eq!(store.get(&b"key2".to_vec()), Some(&b"100".to_vec()));
}
