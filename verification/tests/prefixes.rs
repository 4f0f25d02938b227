use mock_store::MockStore;
use substreams::scalar::BigInt;

fn big(n: i64) -> BigInt {
    BigInt::from(n)
}

fn filled() -> MockStore {
    let mut store = MockStore::new();
    store.add(1, "user:1", big(1));
    store.add(2, "user:1", big(2));
    store.add(1, "user:2", big(20));
    store.add(1, "pool:1", big(300));
    store.add(3, "pool:1", big(1));
    store.add(1, "use", big(4000));
    store.add(1, "u", big(50000));
    store
}

#[test]
fn delete_prefix_removes_the_keys_that_start_with_it() {
    let mut store = filled();
    store.delete_prefix(9, &"user:".to_string());
    assert_eq!(store.get_last("user:1"), None);
    assert_eq!(store.get_first("user:1"), None);
    assert_eq!(store.get_at(1, "user:1"), None);
    assert!(!store.has_last("user:1"));
    assert_eq!(store.get_last("user:2"), None);
    assert!(!store.has_at(1, "user:2"));
}

#[test]
fn delete_prefix_leaves_the_other_histories_untouched() {
    let mut store = filled();
    store.delete_prefix(9, &"user:".to_string());
    assert_eq!(store.get_first("pool:1"), Some(big(300)));
    assert_eq!(store.get_at(1, "pool:1"), Some(big(300)));
    assert_eq!(store.get_at(3, "pool:1"), Some(big(301)));
    assert_eq!(store.get_last("pool:1"), Some(big(301)));
    assert_eq!(store.get_last("use"), Some(big(4000)));
    assert_eq!(store.get_last("u"), Some(big(50000)));
}

#[test]
fn delete_prefix_without_a_match_changes_nothing() {
    let mut store = filled();
    store.delete_prefix(0, &"block:".to_string());
    store.delete_prefix(0, &"user:10".to_string());
    store.delete_prefix(0, &"User".to_string());
    assert_eq!(store.get_first("user:1"), Some(big(1)));
    assert_eq!(store.get_last("user:1"), Some(big(3)));
    assert_eq!(store.get_last("user:2"), Some(big(20)));
    assert_eq!(store.get_last("pool:1"), Some(big(301)));
    assert_eq!(store.get_last("use"), Some(big(4000)));
    assert_eq!(store.get_last("u"), Some(big(50000)));
}

#[test]
fn delete_prefix_on_an_empty_store_is_fine() {
    let mut store = MockStore::new();
    store.delete_prefix(0, &"a".to_string());
    store.delete_prefix(0, &String::new());
    assert_eq!(store.get_last("a"), None);
}

#[test]
fn delete_prefix_ignores_the_ordinal() {
    for ord in [i64::MIN, -1, 0, 1, 2, i64::MAX] {
        let mut store = filled();
        store.delete_prefix(ord, &"pool".to_string());
        assert_eq!(store.get_last("pool:1"), None);
        assert_eq!(store.get_at(3, "pool:1"), None);
        assert_eq!(store.get_last("user:1"), Some(big(3)));
    }
}

#[test]
fn delete_prefix_with_a_whole_key_removes_that_key() {
    let mut store = filled();
    store.delete_prefix(0, &"use".to_string());
    assert_eq!(store.get_last("use"), None);
    assert_eq!(store.get_last("user:1"), None);
    assert_eq!(store.get_last("user:2"), None);
    assert_eq!(store.get_last("u"), Some(big(50000)));
    assert_eq!(store.get_last("pool:1"), Some(big(301)));
}

#[test]
fn delete_prefix_with_the_empty_prefix_removes_everything() {
    let mut store = filled();
    store.delete_prefix(0, &String::new());
    for key in ["user:1", "user:2", "pool:1", "use", "u"] {
        assert_eq!(store.get_last(key), None);
        assert!(!store.has_first(key));
    }
}

#[test]
fn delete_prefix_compares_characters() {
    let mut store = MockStore::new();
    store.set(1, "\u{e9}t\u{e9}", &big(1));
    store.set(1, "\u{e8}re", &big(2));
    store.set(1, "e\u{301}t\u{e9}", &big(3));
    store.delete_prefix(0, &"\u{e9}".to_string());
    assert_eq!(store.get_last("\u{e9}t\u{e9}"), None);
    assert_eq!(store.get_last("\u{e8}re"), Some(big(2)));
    assert_eq!(store.get_last("e\u{301}t\u{e9}"), Some(big(3)));
}

#[test]
fn a_deleted_key_starts_anew() {
    let mut store = filled();
    store.delete_prefix(0, &"user:1".to_string());
    store.add(7, "user:1", big(5));
    assert_eq!(store.get_first("user:1"), Some(big(5)));
    assert_eq!(store.get_last("user:1"), Some(big(5)));
    assert_eq!(store.get_at(1, "user:1"), None);
    store.set_if_not_exists(8, "user:1", &big(6));
    assert_eq!(store.get_last("user:1"), Some(big(5)));
}

#[test]
fn delete_prefix_removes_many_keys_in_one_call() {
    let mut store = MockStore::new();
    for i in 0..50u64 {
        store.add(i, &format!("a:{}", i), BigInt::from(i));
        store.add(i, &format!("b:{}", i), BigInt::from(i + 1000));
    }
    store.delete_prefix(0, &"a:".to_string());
    for i in 0..50u64 {
        assert_eq!(store.get_last(&format!("a:{}", i)), None);
        assert_eq!(store.get_last(&format!("b:{}", i)), Some(BigInt::from(i + 1000)));
        assert_eq!(store.get_at(i, &format!("b:{}", i)), Some(BigInt::from(i + 1000)));
    }
}
