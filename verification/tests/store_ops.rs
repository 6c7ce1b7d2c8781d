use ttl_store::store::{Action, Record, Store};

#[test]
fn get_never_written_is_absent() {
    let mut s = Store::new();
    let r = s.get(&"missing".to_string(), 123);
    assert_eq!(r.value, None);
    assert!(r.action.is_none());
}

#[test]
fn set_then_immediate_get_returns_value() {
    let mut s = Store::new();
    s.set("k".to_string(), "v".to_string(), 60, 500);
    let r = s.get(&"k".to_string(), 500);
    assert_eq!(r.value, Some("v".to_string()));
}

#[test]
fn set_twice_last_write_wins() {
    let mut s = Store::new();
    s.set("k".to_string(), "v1".to_string(), 5, 0);
    s.set("k".to_string(), "v2".to_string(), 100, 0);

    // The value is the second one, and the record is live at t=50: the
    // effective expiry comes from the second ttl, not the first.
    let r = s.get(&"k".to_string(), 50);
    assert_eq!(r.value, Some("v2".to_string()));

    // A single record stands for the key: sweeping far in the future
    // removes exactly one row.
    let out = s.sweep_expired(u32::MAX);
    assert_eq!(out.removed, 1);
}

#[test]
fn set_reports_insert_then_update() {
    let mut s = Store::new();
    let first = s.set("k".to_string(), "v1".to_string(), 10, 0);
    assert!(matches!(first, Action::Insert { .. }));
    let second = s.set("k".to_string(), "v2".to_string(), 10, 3);
    match second {
        Action::Update { key, value, expiry } => {
            assert_eq!(key, "k".to_string());
            assert_eq!(value, "v2".to_string());
            assert_eq!(expiry, 13);
        }
        _ => panic!("second set must update in place"),
    }
}

#[test]
fn expired_get_returns_absent_and_deletes() {
    let mut s = Store::new();
    s.set("k".to_string(), "v".to_string(), 10, 100);
    let r = s.get(&"k".to_string(), 111);
    assert_eq!(r.value, None);
    match r.action {
        Some(Action::Delete { key }) => assert_eq!(key, "k".to_string()),
        _ => panic!("an expired read must delete the record"),
    }
    assert!(!s.has_record(&"k".to_string()));
}

#[test]
fn live_get_leaves_record_in_place() {
    let mut s = Store::new();
    s.set("k".to_string(), "v".to_string(), 10, 100);
    let r = s.get(&"k".to_string(), 105);
    assert_eq!(r.value, Some("v".to_string()));
    assert!(r.action.is_none());
    assert!(s.has_record(&"k".to_string()));
}

#[test]
fn remove_missing_key_is_a_noop() {
    let mut s = Store::new();
    s.set("other".to_string(), "v".to_string(), 10, 0);
    let r = s.remove(&"missing".to_string());
    assert!(r.is_none());
    assert!(s.has_record(&"other".to_string()));
}

#[test]
fn remove_deletes_the_record() {
    let mut s = Store::new();
    s.set("k".to_string(), "v".to_string(), 10, 0);
    let r = s.remove(&"k".to_string());
    match r {
        Some(Action::Delete { key }) => assert_eq!(key, "k".to_string()),
        _ => panic!("removing a present key must delete it"),
    }
    assert!(!s.has_record(&"k".to_string()));
}

#[test]
fn sweep_removes_expired_keeps_live_and_is_idempotent() {
    let mut s = Store::new();
    s.set("dead1".to_string(), "a".to_string(), 1, 0);
    s.set("dead2".to_string(), "b".to_string(), 2, 0);
    s.set("live".to_string(), "c".to_string(), 1000, 0);

    let out = s.sweep_expired(50);
    assert!(matches!(out.action, Action::DeleteExpiredAt { cutoff: 50 }));
    assert_eq!(out.removed, 2);
    assert!(!s.has_record(&"dead1".to_string()));
    assert!(!s.has_record(&"dead2".to_string()));
    assert_eq!(s.get(&"live".to_string(), 50).value, Some("c".to_string()));

    // Running the sweep again at the same instant deletes zero rows.
    let again = s.sweep_expired(50);
    assert_eq!(again.removed, 0);
    assert!(s.has_record(&"live".to_string()));
}

#[test]
fn stored_empty_string_is_not_absent() {
    let mut s = Store::new();
    s.set("k".to_string(), "".to_string(), 10, 0);
    let r = s.get(&"k".to_string(), 5);
    assert_eq!(r.value, Some("".to_string()));
}

#[test]
fn expiry_comparison_is_strict() {
    let mut s = Store::new();
    s.set("k".to_string(), "v".to_string(), 10, 0);
    // At exactly the expiry instant the record is still live: expiry < now
    // does not hold at now == expiry.
    assert_eq!(s.get(&"k".to_string(), 10).value, Some("v".to_string()));
    assert_eq!(s.get(&"k".to_string(), 11).value, None);
}

#[test]
fn zero_ttl_expires_one_second_later() {
    let mut s = Store::new();
    s.set("k".to_string(), "v".to_string(), 0, 100);
    assert_eq!(s.get(&"k".to_string(), 100).value, Some("v".to_string()));
    assert_eq!(s.get(&"k".to_string(), 101).value, None);
}

#[test]
fn from_records_loads_the_table() {
    let records = vec![
        Record { key: "a".to_string(), value: "1".to_string(), expiry: Some(10) },
        Record { key: "b".to_string(), value: "2".to_string(), expiry: Some(20) },
    ];
    let mut s = Store::from_records(records).expect("unique keys must load");
    assert_eq!(s.get(&"a".to_string(), 5).value, Some("1".to_string()));
    assert_eq!(s.get(&"b".to_string(), 5).value, Some("2".to_string()));
}

#[test]
fn from_records_rejects_duplicate_keys() {
    let records = vec![
        Record { key: "a".to_string(), value: "1".to_string(), expiry: Some(10) },
        Record { key: "a".to_string(), value: "2".to_string(), expiry: Some(20) },
    ];
    assert!(Store::from_records(records).is_none());
}

#[test]
fn record_without_expiry_counts_as_expired() {
    let records = vec![
        Record { key: "legacy".to_string(), value: "v".to_string(), expiry: None },
    ];
    let mut s = Store::from_records(records).expect("unique keys must load");
    // Treated as already expired: the read is absent and deletes the record.
    let r = s.get(&"legacy".to_string(), 0);
    assert_eq!(r.value, None);
    assert!(matches!(r.action, Some(Action::Delete { .. })));
    assert!(!s.has_record(&"legacy".to_string()));
}

#[test]
fn record_without_expiry_is_swept() {
    let records = vec![
        Record { key: "legacy".to_string(), value: "v".to_string(), expiry: None },
    ];
    let mut s = Store::from_records(records).expect("unique keys must load");
    let out = s.sweep_expired(0);
    assert_eq!(out.removed, 1);
    assert!(!s.has_record(&"legacy".to_string()));
}
