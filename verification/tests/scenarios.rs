use ttl_store::store::Store;

#[test]
fn ttl_lifecycle_scenario() {
    // Set("a","1",10) at t=1000 gives expiry 1010.
    let mut s = Store::new();
    s.set("a".to_string(), "1".to_string(), 10, 1000);

    // Get("a") at t=1005 returns "1".
    let r = s.get(&"a".to_string(), 1005);
    assert_eq!(r.value, Some("1".to_string()));

    // Get("a") at t=1011 is absent, and the record is physically gone.
    let r = s.get(&"a".to_string(), 1011);
    assert_eq!(r.value, None);
    assert!(!s.has_record(&"a".to_string()));

    // Set("a","2",5) at t=1020 gives expiry 1025; Get("a") at t=1024 is "2".
    s.set("a".to_string(), "2".to_string(), 5, 1020);
    let r = s.get(&"a".to_string(), 1024);
    assert_eq!(r.value, Some("2".to_string()));
}

#[test]
fn sweep_scenario() {
    // Set("b","x",100) and Set("c","y",1) at t=0; a sweep at t=50 removes
    // "c" (expiry 1 < 50) but not "b" (expiry 100 >= 50).
    let mut s = Store::new();
    s.set("b".to_string(), "x".to_string(), 100, 0);
    s.set("c".to_string(), "y".to_string(), 1, 0);

    let out = s.sweep_expired(50);
    assert_eq!(out.removed, 1);
    assert!(!s.has_record(&"c".to_string()));
    assert!(s.has_record(&"b".to_string()));
    let r = s.get(&"b".to_string(), 50);
    assert_eq!(r.value, Some("x".to_string()));
}
