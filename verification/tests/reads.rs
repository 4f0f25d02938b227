use mock_store::MockStore;
use substreams::scalar::BigInt;

fn big(n: i64) -> BigInt {
    BigInt::from(n)
}

#[test]
fn new_store_has_nothing() {
    let store = MockStore::new();
    assert_eq!(store.get_first("a"), None);
    assert_eq!(store.get_last("a"), None);
    assert_eq!(store.get_at(0, "a"), None);
    assert_eq!(store.get_at(7, "a"), None);
    assert!(!store.has_first("a"));
    assert!(!store.has_last("a"));
    assert!(!store.has_at(0, "a"));
    assert!(!store.has_at(7, "a"));
}

#[test]
fn key_never_written_stays_absent_after_other_writes() {
    let mut store = MockStore::new();
    store.set(1, "a", &big(1));
    store.add(2, "b", big(2));
    store.sum(3, "c", big(3));
    store.append(4, "d", big(4));
    store.set_if_not_exists(5, "e", &big(5));
    assert_eq!(store.get_first("z"), None);
    assert_eq!(store.get_last("z"), None);
    assert_eq!(store.get_at(1, "z"), None);
    assert!(!store.has_first("z"));
    assert!(!store.has_last("z"));
    assert!(!store.has_at(1, "z"));
    assert_eq!(store.get_last(""), None);
    assert_eq!(store.get_last("A"), None);
    assert_eq!(store.get_last("ab"), None);
}

#[test]
fn get_at_without_a_version_at_the_ordinal_is_none() {
    let mut store = MockStore::new();
    store.set(3, "a", &big(30));
    assert_eq!(store.get_at(2, "a"), None);
    assert_eq!(store.get_at(4, "a"), None);
    assert_eq!(store.get_at(0, "a"), None);
    assert_eq!(store.get_at(u64::MAX, "a"), None);
    assert!(!store.has_at(2, "a"));
    assert!(!store.has_at(4, "a"));
    assert_eq!(store.get_at(3, "a"), Some(big(30)));
    assert!(store.has_at(3, "a"));
}

#[test]
fn get_at_takes_the_oldest_version_of_an_ordinal() {
    let mut store = MockStore::new();
    store.add(5, "a", big(1));
    store.add(5, "a", big(2));
    store.add(6, "a", big(4));
    assert_eq!(store.get_at(5, "a"), Some(big(1)));
    assert_eq!(store.get_at(6, "a"), Some(big(7)));
    assert_eq!(store.get_first("a"), Some(big(1)));
    assert_eq!(store.get_last("a"), Some(big(7)));
}

#[test]
fn first_and_last_follow_the_history() {
    let mut store = MockStore::new();
    store.add(1, "k", big(5));
    assert_eq!(store.get_first("k"), Some(big(5)));
    assert_eq!(store.get_last("k"), Some(big(5)));
    store.add(2, "k", big(-8));
    assert_eq!(store.get_first("k"), Some(big(5)));
    assert_eq!(store.get_last("k"), Some(big(-3)));
    store.add(9, "k", big(3));
    assert_eq!(store.get_first("k"), Some(big(5)));
    assert_eq!(store.get_last("k"), Some(big(0)));
    assert_eq!(store.get_at(2, "k"), Some(big(-3)));
    assert!(store.has_first("k"));
    assert!(store.has_last("k"));
}

#[test]
fn get_last_repeated_gives_the_same_value() {
    let mut store = MockStore::new();
    store.add(1, "a", big(4));
    store.add(2, "a", big(6));
    let first = store.get_last("a");
    let second = store.get_last("a");
    let third = store.get_last("a");
    assert_eq!(first, Some(big(10)));
    assert_eq!(first, second);
    assert_eq!(second, third);
    assert_eq!(store.get_last("missing"), store.get_last("missing"));
    assert_eq!(store.get_first("a"), Some(big(4)));
}

#[test]
fn reading_leaves_the_store_as_it_was() {
    let mut store = MockStore::new();
    store.add(1, "a", big(4));
    let read = store.get_last("a");
    store.add(2, "a", big(1));
    assert_eq!(read, Some(big(4)));
    assert_eq!(store.get_last("a"), Some(big(5)));
    assert_eq!(store.get_at(1, "a"), Some(big(4)));
}

#[test]
fn keys_are_compared_whole_and_by_character() {
    let mut store = MockStore::new();
    store.set(1, "", &big(1));
    store.set(1, "a", &big(2));
    store.set(1, "ab", &big(3));
    store.set(1, "\u{e9}t\u{e9}", &big(4));
    store.set(1, "e\u{301}", &big(5));
    assert_eq!(store.get_last(""), Some(big(1)));
    assert_eq!(store.get_last("a"), Some(big(2)));
    assert_eq!(store.get_last("ab"), Some(big(3)));
    assert_eq!(store.get_last("\u{e9}t\u{e9}"), Some(big(4)));
    assert_eq!(store.get_last("e\u{301}"), Some(big(5)));
    assert_eq!(store.get_last("\u{e9}"), None);
    assert_eq!(store.get_last("b"), None);
}

#[test]
fn scenario_set_then_add() {
    let mut store = MockStore::new();
    store.set(1, "a", &big(10));
    store.add(5, "a", big(3));
    assert_eq!(store.get_at(1, "a"), Some(big(10)));
    assert_eq!(store.get_last("a"), Some(big(13)));
    assert!(store.has_at(5, "a"));
    assert!(!store.has_at(2, "a"));
}
