use kvstore::Store;

#[test]
fn test_set_and_get() {
    let mut store = Store::new();
    store.set("key", "value");
    assert_eq!(store.get("key"), Some(&"value".to_string()));
}

#[test]
fn test_delete() {
    let mut store = Store::new();
    store.set("key", "value");
    assert!(store.delete("key"));
    assert!(store.get("key").is_none());
}

#[test]
fn test_new_store_is_empty() {
    let store = Store::new();
    assert!(store.is_empty());
    assert_eq!(store.len(), 0);
}

#[test]
fn test_default_is_empty() {
    let store = Store::default();
    assert!(store.is_empty());
    assert_eq!(store.len(), 0);
}

#[test]
fn test_delete_missing_returns_false() {
    let mut store = Store::new();
    assert!(!store.delete("missing"));
}

#[test]
fn test_delete_returns_prior_membership() {
    let mut store = Store::new();
    store.set("a", "1");
    assert!(store.contains("a"));
    assert!(store.delete("a"));
    assert!(!store.contains("a"));
    assert!(!store.delete("a"));
}

#[test]
fn test_set_overwrites() {
    let mut store = Store::new();
    store.set("k", "first");
    store.set("k", "second");
    assert_eq!(store.get("k"), Some(&"second".to_string()));
    assert_eq!(store.len(), 1);
}

#[test]
fn test_set_idempotent() {
    let mut store = Store::new();
    store.set("k", "v");
    store.set("k", "v");
    assert_eq!(store.get("k"), Some(&"v".to_string()));
    assert_eq!(store.len(), 1);
}

#[test]
fn test_len_counts_distinct_keys() {
    let mut store = Store::new();
    store.set("a", "1");
    store.set("b", "2");
    store.set("c", "3");
    assert_eq!(store.len(), 3);
    assert!(store.delete("b"));
    assert_eq!(store.len(), 2);
    assert_eq!(store.get("a"), Some(&"1".to_string()));
    assert!(store.get("b").is_none());
    assert_eq!(store.get("c"), Some(&"3".to_string()));
}

#[test]
fn test_is_empty_agrees_with_len() {
    let mut store = Store::new();
    assert_eq!(store.is_empty(), store.len() == 0);
    store.set("a", "1");
    assert_eq!(store.is_empty(), store.len() == 0);
    store.set("b", "2");
    assert_eq!(store.is_empty(), store.len() == 0);
    store.delete("a");
    assert_eq!(store.is_empty(), store.len() == 0);
    store.delete("b");
    assert_eq!(store.is_empty(), store.len() == 0);
    assert!(store.is_empty());
}

#[test]
fn test_contains_missing_key() {
    let store = Store::new();
    assert!(!store.contains("anything"));
}

#[test]
fn test_empty_key_and_value() {
    let mut store = Store::new();
    store.set("", "");
    assert!(store.contains(""));
    assert_eq!(store.get(""), Some(&"".to_string()));
    assert_eq!(store.len(), 1);
    assert!(store.delete(""));
    assert!(store.is_empty());
}
