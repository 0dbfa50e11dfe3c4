use rustcache::db::Database;

fn keys(ks: &[&str]) -> Vec<String> {
    ks.iter().map(|k| k.to_string()).collect()
}

#[test]
fn set_then_get() {
    let mut db = Database::new();
    db.set("foo".to_string(), b"bar".to_vec(), None, 0);
    assert_eq!(db.get("foo", 5), Some(b"bar".to_vec()));
    assert_eq!(db.get("missing", 5), None);
}

#[test]
fn keys_are_case_sensitive() {
    let mut db = Database::new();
    db.set("Key".to_string(), b"v".to_vec(), None, 0);
    assert_eq!(db.get("key", 0), None);
}

#[test]
fn ttl_counts_down_and_expires_at_the_deadline() {
    let mut db = Database::new();
    db.set("k".to_string(), b"v".to_vec(), Some(10_000), 1_000);
    assert_eq!(db.ttl_seconds("k", 1_000), 10);
    assert_eq!(db.ttl_seconds("k", 1_001), 9);
    assert_eq!(db.ttl_seconds("k", 10_999), 0);
    assert_eq!(db.get("k", 10_999), Some(b"v".to_vec()));
    assert_eq!(db.ttl_seconds("k", 11_000), -2);
    assert_eq!(db.get("k", 11_000), None);
    assert_eq!(db.exists_keys(&keys(&["k"]), 11_000), 0);
}

#[test]
fn zero_ttl_expires_at_once() {
    let mut db = Database::new();
    db.set("foo".to_string(), b"bar".to_vec(), Some(0), 50);
    assert_eq!(db.get("foo", 50), None);
}

#[test]
fn set_without_ttl_clears_deadline() {
    let mut db = Database::new();
    db.set("k".to_string(), b"1".to_vec(), Some(1_000), 0);
    db.set("k".to_string(), b"2".to_vec(), None, 0);
    assert_eq!(db.ttl_seconds("k", 5_000), -1);
    assert_eq!(db.get("k", 5_000), Some(b"2".to_vec()));
}

#[test]
fn del_counts_live_keys_once() {
    let mut db = Database::new();
    db.set("a".to_string(), b"1".to_vec(), None, 0);
    assert_eq!(db.del(&keys(&["a", "b", "a"]), 0), 1);
    assert_eq!(db.get("a", 0), None);
}

#[test]
fn del_twice_then_absent() {
    let mut db = Database::new();
    db.set("k".to_string(), b"v".to_vec(), None, 0);
    assert_eq!(db.del(&keys(&["k"]), 0), 1);
    assert_eq!(db.del(&keys(&["k"]), 0), 0);
    assert_eq!(db.del(&keys(&["never"]), 0), 0);
}

#[test]
fn del_does_not_count_expired_keys() {
    let mut db = Database::new();
    db.set("k".to_string(), b"v".to_vec(), Some(100), 0);
    assert_eq!(db.del(&keys(&["k"]), 100), 0);
}

#[test]
fn exists_counts_duplicates() {
    let mut db = Database::new();
    db.set("a".to_string(), b"1".to_vec(), None, 0);
    assert_eq!(db.exists_keys(&keys(&["a", "a", "b"]), 0), 2);
}

#[test]
fn incr_from_absent_and_saturating() {
    let mut db = Database::new();
    assert_eq!(db.incr_by("c".to_string(), 1, 0), Ok(1));
    assert_eq!(db.incr_by("c".to_string(), 1, 0), Ok(2));
    assert_eq!(db.get("c", 0), Some(b"2".to_vec()));
    db.set("big".to_string(), b"9223372036854775806".to_vec(), None, 0);
    assert_eq!(db.incr_by("big".to_string(), 5, 0), Ok(i64::MAX));
    db.set("small".to_string(), b"-9223372036854775807".to_vec(), None, 0);
    assert_eq!(db.incr_by("small".to_string(), -5, 0), Ok(i64::MIN));
    assert_eq!(db.get("small", 0), Some(b"-9223372036854775808".to_vec()));
}

#[test]
fn incr_rejects_non_integers() {
    let mut db = Database::new();
    db.set("s".to_string(), b"notanumber".to_vec(), None, 0);
    assert_eq!(db.incr_by("s".to_string(), 1, 0), Err("value is not an integer or out of range".to_string()));
    assert_eq!(db.get("s", 0), Some(b"notanumber".to_vec()));
    db.set("h".to_string(), vec![0xff], None, 0);
    assert!(db.incr_by("h".to_string(), 1, 0).is_err());
}

#[test]
fn incr_keeps_the_deadline() {
    let mut db = Database::new();
    db.set("c".to_string(), b"5".to_vec(), Some(3_000), 0);
    assert_eq!(db.incr_by("c".to_string(), 1, 0), Ok(6));
    assert_eq!(db.ttl_seconds("c", 0), 3);
}

#[test]
fn incr_on_expired_key_starts_over() {
    let mut db = Database::new();
    db.set("c".to_string(), b"5".to_vec(), Some(10), 0);
    assert_eq!(db.incr_by("c".to_string(), 1, 10), Ok(1));
    assert_eq!(db.ttl_seconds("c", 10), -1);
}

#[test]
fn repeated_increments_add_up() {
    let mut db = Database::new();
    for t in 0..100u64 {
        db.incr_by("n".to_string(), 1, t).unwrap();
    }
    assert_eq!(db.get("n", 100), Some(b"100".to_vec()));
}

#[test]
fn expire_and_persist() {
    let mut db = Database::new();
    assert!(!db.expire_seconds("missing", 10, 0));
    assert_eq!(db.ttl_seconds("missing", 0), -2);
    db.set("k".to_string(), b"v".to_vec(), None, 0);
    assert!(db.expire_seconds("k", 10, 0));
    assert_eq!(db.ttl_seconds("k", 0), 10);
    assert!(db.persist("k", 0));
    assert_eq!(db.ttl_seconds("k", 100_000), -1);
    assert!(db.expire_seconds("k", -1, 0));
    assert_eq!(db.get("k", 0), None);
    assert!(!db.persist("k", 0));
}

#[test]
fn expire_with_huge_seconds_never_overflows() {
    let mut db = Database::new();
    db.set("k".to_string(), b"v".to_vec(), None, 5);
    assert!(db.expire_seconds("k", i64::MAX, 5));
    assert_eq!(db.get("k", u64::MAX - 1), Some(b"v".to_vec()));
}

#[test]
fn flush_empties_everything() {
    let mut db = Database::new();
    db.set("a".to_string(), b"1".to_vec(), Some(5), 0);
    db.set("b".to_string(), b"2".to_vec(), None, 0);
    db.flushdb();
    assert_eq!(db.exists_keys(&keys(&["a", "b"]), 0), 0);
}

#[test]
fn sweep_removes_only_expired_keys() {
    let mut db = Database::new();
    db.set("old".to_string(), b"1".to_vec(), Some(10), 0);
    db.set("young".to_string(), b"2".to_vec(), Some(1_000), 0);
    db.set("forever".to_string(), b"3".to_vec(), None, 0);
    db.remove_expired(10);
    assert_eq!(db.ttl_seconds("young", 10), 0);
    db.remove_expired(10);
    assert_eq!(db.exists_keys(&keys(&["old", "young", "forever"]), 10), 2);
}
