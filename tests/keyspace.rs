use redis_lite::keyspace::Keyspace;

#[test]
fn missing_key_is_absent() {
    let mut ks = Keyspace::new();
    assert_eq!(ks.get(b"nope", 0), None);
    ks.set(b"a".to_vec(), b"1".to_vec(), None, 0);
    assert_eq!(ks.get(b"b", 0), None);
}

#[test]
fn set_then_get_with_control_bytes() {
    let mut ks = Keyspace::new();
    let key = b"\r\n\x00key".to_vec();
    let value = b"\x00\x01\r\n\xff".to_vec();
    ks.set(key.clone(), value.clone(), None, 10);
    assert_eq!(ks.get(&key, 10), Some(value));
    assert_eq!(ks.get(&key, u64::MAX), Some(b"\x00\x01\r\n\xff".to_vec()));
}

#[test]
fn set_replaces_value() {
    let mut ks = Keyspace::new();
    ks.set(b"k".to_vec(), b"old".to_vec(), Some(5), 0);
    ks.set(b"k".to_vec(), b"new".to_vec(), None, 0);
    assert_eq!(ks.get(b"k", 100), Some(b"new".to_vec()));
    assert_eq!(ks.keys().len(), 1);
}

#[test]
fn ttl_expires_at_deadline_and_removes() {
    let mut ks = Keyspace::new();
    ks.set(b"k".to_vec(), b"v".to_vec(), Some(50), 1000);
    assert_eq!(ks.get(b"k", 1049), Some(b"v".to_vec()));
    assert_eq!(ks.keys(), vec![b"k".to_vec()]);
    assert_eq!(ks.get(b"k", 1050), None);
    assert!(ks.keys().is_empty());
    assert!(!ks.contains_key(b"k"));
}

#[test]
fn keys_lists_expired_until_touched() {
    let mut ks = Keyspace::new();
    ks.set(b"a".to_vec(), b"1".to_vec(), Some(1), 0);
    ks.set(b"b".to_vec(), b"2".to_vec(), None, 0);
    let mut keys = ks.keys();
    keys.sort();
    assert_eq!(keys, vec![b"a".to_vec(), b"b".to_vec()]);
    assert_eq!(ks.get(b"a", 5), None);
    assert_eq!(ks.keys(), vec![b"b".to_vec()]);
}

#[test]
fn ttl_saturates() {
    let mut ks = Keyspace::new();
    ks.set(b"k".to_vec(), b"v".to_vec(), Some(u64::MAX), 10);
    assert_eq!(ks.get(b"k", u64::MAX - 1), Some(b"v".to_vec()));
}
