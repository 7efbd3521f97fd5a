use kvlog::storage::hashmap::HashMapBackend;
use kvlog::storage::kvstore::{KeyValueStore, StoreError};
use kvlog::storage::log_storage::SimpleLogBackend;

#[test]
fn facade_over_log_engine() {
    let mut store: KeyValueStore<SimpleLogBackend> = KeyValueStore::new(Vec::new());
    assert_eq!(store.insert(b"k".to_vec(), b"v".to_vec()), Ok(None));
    assert_eq!(store.get(&b"k".to_vec()), Some(b"v".to_vec()));
    assert_eq!(store.remove(&b"k".to_vec()), Some(b"v".to_vec()));
    assert_eq!(store.get(&b"k".to_vec()), None);
    assert_eq!(store.flush(), Ok(()));
}

#[test]
fn facade_over_log_engine_replays_content() {
    let mut store: KeyValueStore<SimpleLogBackend> =
        KeyValueStore::new(b"a\t1\nb\t2\na\t__DELETED__\n".to_vec());
    assert_eq!(store.get(&b"a".to_vec()), None);
    assert_eq!(store.get(&b"b".to_vec()), Some(b"2".to_vec()));
    assert_eq!(
        store.insert(b"b".to_vec(), b"3".to_vec()),
        Ok(Some(b"2".to_vec()))
    );
    assert_eq!(store.get(&b"b".to_vec()), Some(b"3".to_vec()));
}

#[test]
fn facade_over_hashmap_engine() {
    let mut store: KeyValueStore<HashMapBackend> = KeyValueStore::new(Vec::new());
    assert_eq!(store.insert(b"key1".to_vec(), b"42".to_vec()), Ok(None));
    assert_eq!(store.insert(b"key2".to_vec(), b"100".to_vec()), Ok(None));
    assert_eq!(store.get(&b"key1".to_vec()), Some(b"42".to_vec()));
    assert_eq!(store.get(&b"key2".to_vec()), Some(b"100".to_vec()));
    assert_eq!(
        store.insert(b"key1".to_vec(), b"43".to_vec()),
        Ok(Some(b"42".to_vec()))
    );
    assert_eq!(store.remove(&b"key1".to_vec()), Some(b"43".to_vec()));
    assert_eq!(store.get(&b"key1".to_vec()), None);
    assert_eq!(store.flush(), Ok(()));
}

#[test]
fn hashmap_engine_rejects_what_the_log_engine_rejects() {
    let mut store: KeyValueStore<HashMapBackend> = KeyValueStore::new(Vec::new());
    assert_eq!(
        store.insert(b"bad\tkey".to_vec(), b"v".to_vec()),
        Err(StoreError::InvalidKey)
    );
    assert_eq!(
        store.insert(b"k".to_vec(), b"__DELETED__".to_vec()),
        Err(StoreError::InvalidValue)
    );
}

#[test]
fn hashmap_engine_starts_empty_whatever_the_content() {
    let store: KeyValueStore<HashMapBackend> = KeyValueStore::new(b"a\t1\n".to_vec());
    assert_eq!(store.get(&b"a".to_vec()), None);
}
