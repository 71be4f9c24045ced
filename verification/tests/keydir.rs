use kvs::keydir::{compare_bytes, KeyDir, KeyOrder, Pointer};

fn at(generation: u64, offset: usize, length: usize) -> Pointer {
    Pointer { generation, offset, length }
}

#[test]
fn compare_bytes_orders_lexicographically() {
    assert_eq!(compare_bytes(b"", b""), KeyOrder::Same);
    assert_eq!(compare_bytes(b"", b"a"), KeyOrder::Before);
    assert_eq!(compare_bytes(b"a", b""), KeyOrder::After);
    assert_eq!(compare_bytes(b"abc", b"abc"), KeyOrder::Same);
    assert_eq!(compare_bytes(b"abc", b"abd"), KeyOrder::Before);
    assert_eq!(compare_bytes(b"abd", b"abc"), KeyOrder::After);
    assert_eq!(compare_bytes(b"ab", b"abc"), KeyOrder::Before);
    assert_eq!(compare_bytes(b"b", b"abc"), KeyOrder::After);
    assert_eq!(compare_bytes(&[0xff], &[0x00, 0xff]), KeyOrder::After);
}

#[test]
fn new_directory_is_empty() {
    let dir = KeyDir::new();
    assert_eq!(dir.len(), 0);
    assert_eq!(dir.get("a"), None);
    assert!(!dir.contains_key("a"));
}

#[test]
fn put_then_get() {
    let mut dir = KeyDir::new();
    dir.put("a".to_string(), at(0, 0, 11));
    assert_eq!(dir.get("a"), Some(at(0, 0, 11)));
    assert_eq!(dir.get("b"), None);
    assert!(dir.contains_key("a"));
    assert_eq!(dir.len(), 1);
}

#[test]
fn put_overwrites_the_pointer() {
    let mut dir = KeyDir::new();
    dir.put("a".to_string(), at(0, 0, 11));
    dir.put("a".to_string(), at(0, 11, 12));
    assert_eq!(dir.get("a"), Some(at(0, 11, 12)));
    assert_eq!(dir.len(), 1);
}

#[test]
fn remove_says_whether_the_key_was_there() {
    let mut dir = KeyDir::new();
    dir.put("a".to_string(), at(0, 0, 11));
    assert!(!dir.remove("b"));
    assert_eq!(dir.len(), 1);
    assert!(dir.remove("a"));
    assert_eq!(dir.len(), 0);
    assert_eq!(dir.get("a"), None);
    assert!(!dir.remove("a"));
}

#[test]
fn entries_come_in_key_order() {
    let mut dir = KeyDir::new();
    let keys = ["pear", "apple", "fig", "", "zebra", "apples", "Apple"];
    for (i, key) in keys.iter().enumerate() {
        dir.put(key.to_string(), at(1, i * 10, 10));
    }
    assert_eq!(dir.len(), keys.len());
    let mut sorted: Vec<&str> = keys.to_vec();
    sorted.sort();
    for (i, key) in sorted.iter().enumerate() {
        assert_eq!(dir.key_at(i), key);
        assert_eq!(dir.get(key), Some(dir.pointer_at(i)));
    }
    for (i, key) in keys.iter().enumerate() {
        assert_eq!(dir.get(key), Some(at(1, i * 10, 10)));
    }
}

#[test]
fn many_keys_survive_puts_and_removes() {
    let mut dir = KeyDir::new();
    for i in 0..200usize {
        dir.put(format!("key{}", (i * 37) % 200), at(0, i, 1));
    }
    assert_eq!(dir.len(), 200);
    for i in 0..200usize {
        if i % 2 == 0 {
            assert!(dir.remove(&format!("key{}", i)));
        }
    }
    assert_eq!(dir.len(), 100);
    for i in 0..200usize {
        assert_eq!(dir.contains_key(&format!("key{}", i)), i % 2 == 1);
    }
    for i in 1..dir.len() {
        assert!(dir.key_at(i - 1) < dir.key_at(i));
    }
}
