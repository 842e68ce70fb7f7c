use redis_lite::state::{RedisState, ValueState};

#[test]
fn no_expiry_value_stays() {
    let v = ValueState::no_expiry("bar".to_string());
    assert_eq!(v.expiry, None);
    assert_eq!(v.value_after_expiry_at(0), Some(&"bar".to_string()));
    assert_eq!(v.value_after_expiry_at(u128::MAX), Some(&"bar".to_string()));
    assert_eq!(v.value_after_expiry(), Some(&"bar".to_string()));
}

#[test]
fn expiry_is_now_plus_ttl() {
    let v = ValueState::with_expiry_at("bar".to_string(), 50, 1000);
    assert_eq!(v.expiry, Some(1050));
    assert_eq!(v.value_after_expiry_at(1000), Some(&"bar".to_string()));
    assert_eq!(v.value_after_expiry_at(1050), Some(&"bar".to_string()));
    assert_eq!(v.value_after_expiry_at(1051), None);
}

#[test]
fn expiry_is_held_at_the_largest_instant() {
    let v = ValueState::with_expiry_at("bar".to_string(), u128::MAX, 7);
    assert_eq!(v.expiry, Some(u128::MAX));
    assert_eq!(v.value_after_expiry_at(u128::MAX), Some(&"bar".to_string()));
}

#[test]
fn expiry_from_the_clock() {
    let v = ValueState::with_expiry("bar".to_string(), 3_600_000);
    assert!(v.expiry.unwrap() >= 3_600_000);
    assert_eq!(v.value_after_expiry(), Some(&"bar".to_string()));
    let gone = ValueState::with_expiry_at("bar".to_string(), 0, 0);
    assert_eq!(gone.value_after_expiry(), None);
}

#[test]
fn store_insert_and_get() {
    let mut s = RedisState::new();
    assert!(s.get(&"k".to_string()).is_none());
    s.insert("k".to_string(), ValueState::no_expiry("a".to_string()));
    s.insert("j".to_string(), ValueState::no_expiry("b".to_string()));
    s.insert("k".to_string(), ValueState::no_expiry("c".to_string()));
    assert_eq!(s.get(&"k".to_string()).unwrap().value, "c");
    assert_eq!(s.get(&"j".to_string()).unwrap().value, "b");
}

#[test]
fn store_expiry_after_ttl() {
    let mut s = RedisState::new();
    s.set_at("k".to_string(), "v".to_string(), Some(50), 1000);
    assert_eq!(s.get_at(&"k".to_string(), 1000), Some("v".to_string()));
    assert_eq!(s.get_at(&"k".to_string(), 1050), Some("v".to_string()));
    assert_eq!(s.get_at(&"k".to_string(), 1051), None);
    assert!(s.get(&"k".to_string()).is_some());
}

#[test]
fn store_no_expiry_persists() {
    let mut s = RedisState::new();
    s.set_at("k".to_string(), "v".to_string(), None, 1000);
    s.set_at("other".to_string(), "w".to_string(), Some(1), 1000);
    assert_eq!(s.get_at(&"k".to_string(), u128::MAX), Some("v".to_string()));
    s.set_at("k".to_string(), "new".to_string(), None, 2000);
    assert_eq!(s.get_at(&"k".to_string(), 2000), Some("new".to_string()));
}

#[test]
fn overwrite_replaces_expiry() {
    let mut s = RedisState::new();
    s.set_at("k".to_string(), "v".to_string(), Some(10), 0);
    s.set_at("k".to_string(), "w".to_string(), None, 5);
    assert_eq!(s.get_at(&"k".to_string(), 1_000_000), Some("w".to_string()));
}
