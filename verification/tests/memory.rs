use kvs::memory::KvStore;

#[test]
fn memory_get_of_an_unknown_key_is_none() {
    let mut store = KvStore::new();
    assert_eq!(store.get("a".to_string()), None);
}

#[test]
fn memory_set_then_get() {
    let mut store = KvStore::new();
    store.set("a".to_string(), "1".to_string());
    assert_eq!(store.get("a".to_string()), Some("1".to_string()));
    assert_eq!(store.get("a".to_string()), Some("1".to_string()));
    assert_eq!(store.get("b".to_string()), None);
}

#[test]
fn memory_set_overwrites() {
    let mut store = KvStore::new();
    store.set("a".to_string(), "1".to_string());
    store.set("a".to_string(), "2".to_string());
    assert_eq!(store.get("a".to_string()), Some("2".to_string()));
}

#[test]
fn memory_remove_returns_the_old_value() {
    let mut store = KvStore::new();
    store.set("a".to_string(), "1".to_string());
    assert_eq!(store.remove("b".to_string()), None);
    assert_eq!(store.remove("a".to_string()), Some("1".to_string()));
    assert_eq!(store.get("a".to_string()), None);
    assert_eq!(store.remove("a".to_string()), None);
}
