use redust::db::{new_db, DataType, DbValue};

fn key(s: &str) -> Vec<u8> {
    s.as_bytes().to_vec()
}

#[test]
fn test_db_operations() {
    let mut db = new_db();

    // SET
    db.put(key("key"), DbValue::new_string(b"value".to_vec()));

    // GET
    match db.lookup(&key("key")).map(|v| &v.data) {
        Some(DataType::String(bs)) => assert_eq!(bs, &b"value".to_vec()),
        _ => panic!("Expected string"),
    }

    // DEL
    db.delete(&key("key"));

    // GET after del
    assert!(db.lookup(&key("key")).is_none());
}

#[test]
fn test_expiry() {
    let mut db = new_db();
    let mut val = DbValue::new_string(b"value".to_vec());
    let now: u64 = 5_000_000_000;
    val.expiry = Some(now - 1_000_000_000); // Expired
    db.put(key("key"), val);

    // GET should return null and remove
    assert!(db.get(&key("key"), now).is_none());
    assert!(db.lookup(&key("key")).is_none());
}

#[test]
fn is_expired_only_after_deadline() {
    let mut v = DbValue::new_string(b"x".to_vec());
    assert!(!v.is_expired(u64::MAX));
    v.expiry = Some(10);
    assert!(!v.is_expired(10));
    assert!(v.is_expired(11));
}

#[test]
fn list_entries_are_kept_as_given() {
    let mut db = new_db();
    db.put(key("l"), DbValue::new_list(vec![b"a".to_vec(), b"b".to_vec()]));
    match db.get(&key("l"), 0) {
        Some(DataType::List(items)) => assert_eq!(items, vec![b"a".to_vec(), b"b".to_vec()]),
        other => panic!("unexpected {:?}", other),
    }
}

#[test]
fn put_overwrites_and_delete_counts() {
    let mut db = new_db();
    db.put(key("k"), DbValue::new_string(b"1".to_vec()));
    db.put(key("k"), DbValue::new_string(b"2".to_vec()));
    db.put(key("other"), DbValue::new_string(b"3".to_vec()));
    match db.get(&key("k"), 0) {
        Some(DataType::String(b)) => assert_eq!(b, b"2".to_vec()),
        other => panic!("unexpected {:?}", other),
    }
    assert_eq!(db.delete(&key("k")), 1);
    assert_eq!(db.delete(&key("k")), 0);
    assert!(db.lookup(&key("other")).is_some());
}

#[test]
fn expire_keys_removes_only_expired_listed_keys() {
    let mut db = new_db();
    let mut dead = DbValue::new_string(b"d".to_vec());
    dead.expiry = Some(1);
    db.put(key("dead"), dead);
    let mut dead2 = DbValue::new_string(b"d".to_vec());
    dead2.expiry = Some(1);
    db.put(key("dead2"), dead2);
    let mut live = DbValue::new_string(b"l".to_vec());
    live.expiry = Some(100);
    db.put(key("live"), live);
    db.expire_keys(&vec![key("dead"), key("live"), key("missing")], 50);
    assert!(db.lookup(&key("dead")).is_none());
    assert!(db.lookup(&key("dead2")).is_some());
    assert!(db.lookup(&key("live")).is_some());
}

#[test]
fn sample_expire_looks_at_most_n_keys() {
    let mut db = new_db();
    for i in 0..30 {
        let mut v = DbValue::new_string(b"x".to_vec());
        v.expiry = Some(0);
        db.put(format!("k{}", i).into_bytes(), v);
    }
    db.sample_expire(20, 1);
    let left = (0..30).filter(|i| db.lookup(&format!("k{}", i).into_bytes()).is_some()).count();
    assert_eq!(left, 10);
    db.sample_expire(20, 1);
    let left = (0..30).filter(|i| db.lookup(&format!("k{}", i).into_bytes()).is_some()).count();
    assert_eq!(left, 0);
}

#[test]
fn sample_expire_keeps_live_keys() {
    let mut db = new_db();
    for i in 0..5 {
        db.put(format!("k{}", i).into_bytes(), DbValue::new_string(b"x".to_vec()));
    }
    db.sample_expire(20, 1_000);
    for i in 0..5 {
        assert!(db.lookup(&format!("k{}", i).into_bytes()).is_some());
    }
}

#[test]
fn retain_delivered_keeps_order() {
    let mut subs = vec![1, 2, 3, 4];
    redust::db::retain_delivered(&mut subs, &vec![true, false, true, false]);
    assert_eq!(subs, vec![1, 3]);
}

#[test]
fn one_round_on_a_small_keyspace_clears_every_expired_entry() {
    let mut db = new_db();
    for i in 0..20 {
        let mut v = DbValue::new_string(b"x".to_vec());
        v.expiry = Some(if i % 2 == 0 { 5 } else { 500 });
        db.put(format!("k{}", i).into_bytes(), v);
    }
    db.sample_expire(20, 100);
    for i in 0..20 {
        let present = db.lookup(&format!("k{}", i).into_bytes()).is_some();
        assert_eq!(present, i % 2 == 1);
    }
}
