use mock_store::array::split_array;
use mock_store::array::MockArrayStore;
use mock_store::store::MockStore;
use mock_store::traits::EncodingError;

#[test]
fn append_accumulates_with_delimiter() {
    let mut store = MockArrayStore::new();
    store.append(1, "key", "x");
    store.append(2, "key", "y");
    let last = store.get_last("key").unwrap();
    assert_eq!(last, Some(vec![String::from("x"), String::from("y")]));
}

#[test]
fn append_keeps_single_growing_entry() {
    let mut store = MockArrayStore::new();
    store.append(1, "key", "x");
    store.append(2, "key", "y");
    // The buffer is one entry whose ordinal advanced to the last append.
    assert!(store.has_at(2, "key"));
    assert!(!store.has_at(1, "key"));
    let at2 = store.get_at(2, "key").unwrap();
    assert_eq!(at2, Some(vec![String::from("x"), String::from("y")]));
}

#[test]
fn append_empty_item_yields_no_array() {
    let mut store = MockArrayStore::new();
    store.append(1, "key", "");
    // The buffer holds only a delimiter; decoding finds no elements.
    let last = store.get_last("key").unwrap();
    assert_eq!(last, None);
    // But the key itself exists.
    assert!(store.has_last("key"));
}

#[test]
fn mock_store_append_all_behaves_like_repeated_append() {
    let mut store = MockStore::new();
    let items = vec![String::from("a"), String::from("b"), String::from("c")];
    store.append_all(3, "key", &items);
    let raw: Option<String> = store.get_last("key").unwrap();
    assert_eq!(raw, Some(String::from("a;b;c;")));
}

#[test]
fn split_array_basic() {
    let r = split_array(b"x;y;".to_vec()).unwrap();
    assert_eq!(r, Some(vec![String::from("x"), String::from("y")]));
}

#[test]
fn split_array_drops_empty_chunks() {
    let r = split_array(b"a;;b".to_vec()).unwrap();
    assert_eq!(r, Some(vec![String::from("a"), String::from("b")]));
}

#[test]
fn split_array_empty_is_absent() {
    assert_eq!(split_array(Vec::new()).unwrap(), None);
    assert_eq!(split_array(b";;;".to_vec()).unwrap(), None);
}

#[test]
fn split_array_invalid_utf8() {
    let r = split_array(vec![b'a', b';', 0xff, 0xfe]);
    assert_eq!(r, Err(EncodingError::InvalidUtf8));
}

#[test]
fn array_store_get_first_of_running_buffer() {
    let mut store = MockArrayStore::new();
    store.append(1, "key", "one");
    store.append(2, "key", "two");
    // A single running buffer: first and last entry coincide.
    let first = store.get_first("key").unwrap();
    assert_eq!(first, Some(vec![String::from("one"), String::from("two")]));
    assert!(store.has_first("key"));
    assert!(!store.has_first("other"));
}
