use mock_store::delta::record_delete;
use mock_store::delta::record_write;
use mock_store::delta::Operation;
use mock_store::table::VersionedTable;

#[test]
fn record_write_create_and_update() {
    let d = record_write(1, String::from("key"), None, b"new".to_vec());
    assert_eq!(d.operation, Operation::Create);
    assert_eq!(d.ordinal, 1);
    assert_eq!(d.key, "key");
    assert_eq!(d.old_value, None);
    assert_eq!(d.new_value, Some(b"new".to_vec()));

    let d = record_write(2, String::from("key"), Some(b"old".to_vec()), b"new".to_vec());
    assert_eq!(d.operation, Operation::Update);
    assert_eq!(d.old_value, Some(b"old".to_vec()));
}

#[test]
fn record_delete_carries_last_bytes() {
    let d = record_delete(3, String::from("key"), b"last".to_vec());
    assert_eq!(d.operation, Operation::Delete);
    assert_eq!(d.ordinal, 3);
    assert_eq!(d.old_value, Some(b"last".to_vec()));
    assert_eq!(d.new_value, None);
}

#[test]
fn table_point_last_first_lookups() {
    let mut t = VersionedTable::new();
    t.append(1, "k", b"a".to_vec());
    t.append(2, "k", b"b".to_vec());
    assert_eq!(t.get_at(1, "k"), Some(b"a".to_vec()));
    assert_eq!(t.get_at(2, "k"), Some(b"b".to_vec()));
    assert_eq!(t.get_at(3, "k"), None);
    assert_eq!(t.get_first("k"), Some(b"a".to_vec()));
    assert_eq!(t.get_last("k"), Some(b"b".to_vec()));
    assert_eq!(t.last_ordinal("k"), Some(2));
    assert!(t.has_at(1, "k"));
    assert!(!t.has_at(4, "k"));
    assert!(t.has_key("k"));
    assert!(!t.has_key("missing"));
}

#[test]
fn replace_or_create_wipes_history() {
    let mut t = VersionedTable::new();
    t.append(1, "k", b"a".to_vec());
    t.append(2, "k", b"b".to_vec());
    t.replace_or_create(3, "k", b"c".to_vec());
    assert_eq!(t.get_at(1, "k"), None);
    assert_eq!(t.get_at(2, "k"), None);
    assert_eq!(t.get_first("k"), Some(b"c".to_vec()));
    assert_eq!(t.get_last("k"), Some(b"c".to_vec()));
}

#[test]
fn delete_prefix_reports_one_delta_per_removed_key() {
    let mut t = VersionedTable::new();
    t.append(1, "ns:a", b"1".to_vec());
    t.append(2, "ns:a", b"2".to_vec());
    t.append(1, "ns:b", b"3".to_vec());
    t.append(1, "other", b"4".to_vec());
    let deltas = t.delete_prefix("ns:");
    assert_eq!(deltas.len(), 2);
    assert_eq!(deltas[0].operation, Operation::Delete);
    assert_eq!(deltas[0].key, "ns:a");
    assert_eq!(deltas[0].ordinal, 2);
    assert_eq!(deltas[0].old_value, Some(b"2".to_vec()));
    assert_eq!(deltas[0].new_value, None);
    assert_eq!(deltas[1].key, "ns:b");
    assert_eq!(deltas[1].old_value, Some(b"3".to_vec()));
    assert!(!t.has_key("ns:a"));
    assert!(!t.has_key("ns:b"));
    assert!(t.has_key("other"));
}

#[test]
fn extend_first_grows_the_buffer() {
    let mut t = VersionedTable::new();
    t.extend_first(1, "k", b"x;".to_vec());
    t.extend_first(2, "k", b"y;".to_vec());
    assert_eq!(t.get_last("k"), Some(b"x;y;".to_vec()));
    assert_eq!(t.last_ordinal("k"), Some(2));
}
