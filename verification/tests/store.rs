use redis_lite::data_store::DataStore;
use std::collections::VecDeque;

fn b(s: &str) -> Vec<u8> {
    s.as_bytes().to_vec()
}

fn list(items: &[&str]) -> VecDeque<Vec<u8>> {
    items.iter().map(|s| b(s)).collect()
}

#[test]
fn get_after_set_without_expiry() {
    let mut store = DataStore::new();
    assert_eq!(store.set(b("k"), b("v"), None, 10), None);
    assert_eq!(store.get(b"k", 10), Some(b("v")));
    assert_eq!(store.get(b"k", u64::MAX), Some(b("v")));
}

#[test]
fn set_returns_previous_value() {
    let mut store = DataStore::new();
    store.set(b("k"), b("one"), None, 0);
    assert_eq!(store.set(b("k"), b("two"), None, 0), Some(b("one")));
    assert_eq!(store.get(b"k", 0), Some(b("two")));
}

#[test]
fn set_returns_previous_value_even_when_expired() {
    let mut store = DataStore::new();
    store.set(b("k"), b("old"), Some(5), 0);
    assert_eq!(store.set(b("k"), b("new"), None, 100), Some(b("old")));
}

#[test]
fn value_expires_at_its_deadline() {
    let mut store = DataStore::new();
    store.set(b("k"), b("v"), Some(100), 1000);
    assert_eq!(store.get(b"k", 1099), Some(b("v")));
    assert_eq!(store.get(b"k", 1100), None);
    assert_eq!(store.get(b"k", 0), None);
}

#[test]
fn deadline_past_the_clock_never_expires() {
    let mut store = DataStore::new();
    store.set(b("k"), b("v"), Some(u64::MAX), 1);
    assert_eq!(store.get(b"k", u64::MAX), Some(b("v")));
}

#[test]
fn missing_key_reads_none() {
    let mut store = DataStore::new();
    store.set(b("a"), b("1"), None, 0);
    assert_eq!(store.get(b"b", 0), None);
}

#[test]
fn set_leaves_other_keys() {
    let mut store = DataStore::new();
    store.set(b("a"), b("1"), None, 0);
    store.set(b("b"), b("2"), None, 0);
    store.set(b("a"), b("3"), None, 0);
    assert_eq!(store.get(b"b", 0), Some(b("2")));
    assert_eq!(store.get(b"a", 0), Some(b("3")));
}

#[test]
fn rpush_appends_and_returns_length() {
    let mut store = DataStore::new();
    assert_eq!(store.rpush(b("l"), list(&["a", "b"])), 2);
    assert_eq!(store.rpush(b("l"), list(&["c"])), 3);
    assert_eq!(store.lrange(b"l", 0, -1), Some(vec![b("a"), b("b"), b("c")]));
}

#[test]
fn lrange_indices() {
    let mut store = DataStore::new();
    store.rpush(b("l"), list(&["a", "b", "c", "d", "e"]));
    assert_eq!(store.lrange(b"l", 0, 1), Some(vec![b("a"), b("b")]));
    assert_eq!(store.lrange(b"l", 2, 10), Some(vec![b("c"), b("d"), b("e")]));
    assert_eq!(store.lrange(b"l", -2, -1), Some(vec![b("d"), b("e")]));
    assert_eq!(store.lrange(b"l", -100, 0), Some(vec![b("a")]));
    assert_eq!(store.lrange(b"l", 3, 1), Some(vec![]));
    assert_eq!(store.lrange(b"l", 5, 9), Some(vec![]));
    assert_eq!(store.lrange(b"missing", 0, -1), None);
}

#[test]
fn lists_and_strings_are_separate() {
    let mut store = DataStore::new();
    store.rpush(b("k"), list(&["x"]));
    assert_eq!(store.get(b"k", 0), None);
    store.set(b("k"), b("v"), None, 0);
    assert_eq!(store.lrange(b"k", 0, -1), Some(vec![b("x")]));
}
