use mock_store::bignum::BigDecimalVal;
use mock_store::bignum::BigIntVal;
use mock_store::store::MockStore;
use mock_store::traits::EncodingError;

#[test]
fn set_replaces() {
    let mut store = MockStore::new();
    store.set(1, "key", &String::from("a"));
    store.set(2, "key", &String::from("b"));
    let last: Option<String> = store.get_last("key").unwrap();
    assert_eq!(last, Some(String::from("b")));
    let at1: Option<String> = store.get_at(1, "key").unwrap();
    assert_eq!(at1, Some(String::from("a")));
    let at2: Option<String> = store.get_at(2, "key").unwrap();
    assert_eq!(at2, Some(String::from("b")));
}

#[test]
fn set_if_not_exists_idempotent() {
    let mut store = MockStore::new();
    store.set_if_not_exists(1, "key", &String::from("a"));
    store.set_if_not_exists(2, "key", &String::from("b"));
    let last: Option<String> = store.get_last("key").unwrap();
    assert_eq!(last, Some(String::from("a")));
}

#[test]
fn add_accumulates() {
    let mut store = MockStore::new();
    store.add(1, "key", &5i64).unwrap();
    store.add(2, "key", &7i64).unwrap();
    let last: Option<i64> = store.get_last("key").unwrap();
    assert_eq!(last, Some(12));
}

#[test]
fn add_without_prior_stores_value() {
    let mut store = MockStore::new();
    store.add(1, "key", &5i64).unwrap();
    let last: Option<i64> = store.get_last("key").unwrap();
    assert_eq!(last, Some(5));
}

#[test]
fn add_aborts_on_corrupt_prior() {
    let mut store = MockStore::new();
    store.set(1, "key", &String::from("not a number"));
    let r = store.add(2, "key", &5i64);
    assert_eq!(r, Err(EncodingError::ParseFailure));
    // The store is unchanged: the corrupt value is still the last one.
    let last: Option<String> = store.get_last("key").unwrap();
    assert_eq!(last, Some(String::from("not a number")));
}

#[test]
fn max_keeps_running_maximum() {
    let mut store = MockStore::new();
    for (ord, v) in [(1u64, 3i64), (2, -1), (3, 7), (4, 5)] {
        store.max(ord, "key", &v).unwrap();
    }
    let last: Option<i64> = store.get_last("key").unwrap();
    assert_eq!(last, Some(7));
}

#[test]
fn max_of_negative_values_is_zero() {
    let mut store = MockStore::new();
    store.max(1, "key", &-5i64).unwrap();
    store.max(2, "key", &-3i64).unwrap();
    let last: Option<i64> = store.get_last("key").unwrap();
    assert_eq!(last, Some(0));
}

#[test]
fn min_keeps_running_minimum() {
    let mut store = MockStore::new();
    for (ord, v) in [(1u64, 3i64), (2, -2), (3, 4)] {
        store.min(ord, "key", &v).unwrap();
    }
    let last: Option<i64> = store.get_last("key").unwrap();
    assert_eq!(last, Some(-2));
}

#[test]
fn min_of_positive_values_is_zero() {
    let mut store = MockStore::new();
    store.min(1, "key", &4i64).unwrap();
    let last: Option<i64> = store.get_last("key").unwrap();
    assert_eq!(last, Some(0));
}

#[test]
fn prefix_delete() {
    let mut store = MockStore::new();
    store.set(1, "ns:a", &String::from("1"));
    store.set(1, "ns:b", &String::from("2"));
    store.set(1, "other:c", &String::from("3"));
    store.delete_prefix(0, &String::from("ns:"));
    assert!(!store.has_last("ns:a"));
    assert!(!store.has_last("ns:b"));
    assert!(store.has_last("other:c"));
    let kept: Option<String> = store.get_last("other:c").unwrap();
    assert_eq!(kept, Some(String::from("3")));
}

#[test]
fn ordinal_existence() {
    let mut store = MockStore::new();
    store.set(1, "key", &String::from("a"));
    store.set(5, "key", &String::from("b"));
    assert!(store.has_at(1, "key"));
    assert!(store.has_at(5, "key"));
    assert!(!store.has_at(2, "key"));
    assert!(!store.has_at(3, "key"));
    assert!(!store.has_at(6, "key"));
    assert!(!store.has_at(1, "other"));
}

#[test]
fn has_last_and_first_do_not_decode() {
    let mut store = MockStore::new();
    assert!(!store.has_last("key"));
    assert!(!store.has_first("key"));
    store.set(1, "key", &String::from("a"));
    assert!(store.has_last("key"));
    assert!(store.has_first("key"));
}

#[test]
fn get_first_sees_earliest_value() {
    let mut store = MockStore::new();
    store.add(1, "key", &10i64).unwrap();
    store.add(2, "key", &20i64).unwrap();
    let first: Option<i64> = store.get_first("key").unwrap();
    assert_eq!(first, Some(10));
    let last: Option<i64> = store.get_last("key").unwrap();
    assert_eq!(last, Some(30));
}

#[test]
fn set_many_and_set_if_not_exists_many() {
    let mut store = MockStore::new();
    let keys = vec![String::from("a"), String::from("b")];
    store.set_many(1, &keys, &String::from("x"));
    let a: Option<String> = store.get_last("a").unwrap();
    let b: Option<String> = store.get_last("b").unwrap();
    assert_eq!(a, Some(String::from("x")));
    assert_eq!(b, Some(String::from("x")));
    let keys2 = vec![String::from("b"), String::from("c")];
    store.set_if_not_exists_many(2, &keys2, &String::from("y"));
    let b: Option<String> = store.get_last("b").unwrap();
    let c: Option<String> = store.get_last("c").unwrap();
    assert_eq!(b, Some(String::from("x")));
    assert_eq!(c, Some(String::from("y")));
}

#[test]
fn add_many_accumulates_per_key() {
    let mut store = MockStore::new();
    let keys = vec![String::from("a"), String::from("b")];
    store.add_many(1, &keys, &2i64).unwrap();
    store.add_many(2, &keys, &3i64).unwrap();
    let a: Option<i64> = store.get_last("a").unwrap();
    let b: Option<i64> = store.get_last("b").unwrap();
    assert_eq!(a, Some(5));
    assert_eq!(b, Some(5));
}

#[test]
fn bigint_add_beyond_machine_range() {
    let mut store = MockStore::new();
    let v1 = BigIntVal::new("99999999999999999999").unwrap();
    let v2 = BigIntVal::new("1").unwrap();
    store.add(1, "key", &v1).unwrap();
    store.add(2, "key", &v2).unwrap();
    let last: Option<BigIntVal> = store.get_last("key").unwrap();
    assert_eq!(last.unwrap().text(), "100000000000000000000");
}

#[test]
fn bigint_max_orders_by_value() {
    let mut store = MockStore::new();
    let small = BigIntVal::new("99").unwrap();
    let big = BigIntVal::new("100").unwrap();
    store.max(1, "key", &small).unwrap();
    store.max(2, "key", &big).unwrap();
    let last: Option<BigIntVal> = store.get_last("key").unwrap();
    // Numeric order, not byte order: "100" beats "99".
    assert_eq!(last.unwrap().text(), "100");
}

#[test]
fn bigdecimal_add_aligns_scales() {
    let mut store = MockStore::new();
    let a = BigDecimalVal::new("1.5").unwrap();
    let b = BigDecimalVal::new("2.25").unwrap();
    store.add(1, "key", &a).unwrap();
    store.add(2, "key", &b).unwrap();
    let last: Option<BigDecimalVal> = store.get_last("key").unwrap();
    assert_eq!(last.unwrap().text(), "3.75");
}

#[test]
fn bigdecimal_add_keeps_larger_scale() {
    let mut store = MockStore::new();
    let a = BigDecimalVal::new("1.5").unwrap();
    store.add(1, "key", &a).unwrap();
    store.add(2, "key", &a).unwrap();
    let last: Option<BigDecimalVal> = store.get_last("key").unwrap();
    assert_eq!(last.unwrap().text(), "3.0");
}

#[test]
fn bigdecimal_min_structural_comparison() {
    let mut store = MockStore::new();
    let a = BigDecimalVal::new("10.5").unwrap();
    let b = BigDecimalVal::new("9.75").unwrap();
    store.min(1, "key", &a).unwrap();
    store.min(2, "key", &b).unwrap();
    // min against the implicit zero: both are positive, so zero stays.
    let last: Option<BigDecimalVal> = store.get_last("key").unwrap();
    assert_eq!(last.unwrap().text(), "0");
}

#[test]
fn bigdecimal_max_equal_values_unchanged() {
    let mut store = MockStore::new();
    let a = BigDecimalVal::new("1.50").unwrap();
    let b = BigDecimalVal::new("1.5").unwrap();
    store.max(1, "key", &a).unwrap();
    store.max(2, "key", &b).unwrap();
    // Equal numeric values: the stored representation stays the first.
    let last: Option<BigDecimalVal> = store.get_last("key").unwrap();
    assert_eq!(last.unwrap().text(), "1.50");
    assert!(!store.has_at(2, "key"));
}
