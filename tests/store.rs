use bytes::Bytes;
use redis_starter_rust::store::{Store, Table};
use std::time::{Duration, Instant};

fn b(s: &str) -> Bytes {
    Bytes::copy_from_slice(s.as_bytes())
}

#[test]
fn table_expiry() {
    let mut t = Table::new();
    t.set(b("k"), b("v"), Some(1000), 5000);
    assert_eq!(t.get(&b("k"), 5000), Some(b("v")));
    assert_eq!(t.get(&b("k"), 5999), Some(b("v")));
    assert_eq!(t.get(&b("k"), 6000), None);
    assert_eq!(t.get(&b("k"), 6001), None);
    assert_eq!(t.get(&b("k"), 5000), None);
}

#[test]
fn table_overwrite_clears_expiry() {
    let mut t = Table::new();
    t.set(b("k"), b("v1"), Some(10), 0);
    t.set(b("k"), b("v2"), None, 5);
    assert_eq!(t.get(&b("k"), u64::MAX), Some(b("v2")));
}

#[test]
fn table_keys_are_independent() {
    let mut t = Table::new();
    t.set(b("a"), b("1"), Some(1), 0);
    t.set(b("b"), b("2"), None, 0);
    t.set(b("c"), b("3"), Some(100), 0);
    assert_eq!(t.get(&b("a"), 50), None);
    assert_eq!(t.get(&b("b"), 50), Some(b("2")));
    assert_eq!(t.get(&b("c"), 50), Some(b("3")));
    assert_eq!(t.get(&b("missing"), 50), None);
    t.set(b("a"), b("again"), None, 60);
    assert_eq!(t.get(&b("a"), 61), Some(b("again")));
}

#[test]
fn table_ttl_saturates() {
    let mut t = Table::new();
    t.set(b("k"), b("v"), Some(u64::MAX), 10);
    assert_eq!(t.get(&b("k"), u64::MAX - 1), Some(b("v")));
}

#[test]
fn store_expiry_with_real_clock() {
    let store = Store::new();
    store.set(b("k"), b("v"), Some(1000));
    assert_eq!(store.get(&b("k")), Some(b("v")));
    let start = Instant::now();
    while start.elapsed() < Duration::from_millis(1100) {
        std::hint::spin_loop();
    }
    assert_eq!(store.get(&b("k")), None);
    assert_eq!(store.get(&b("k")), None);
}

#[test]
fn store_overwrite_without_ttl() {
    let store = Store::new();
    store.set(b("k"), b("v1"), Some(1));
    store.set(b("k"), b("v2"), None);
    let start = Instant::now();
    while start.elapsed() < Duration::from_millis(20) {
        std::hint::spin_loop();
    }
    assert_eq!(store.get(&b("k")), Some(b("v2")));
    assert_eq!(store.get(&b("unknown")), None);
}
