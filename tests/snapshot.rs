use redis_lite::rdb::{decode_snapshot, load_snapshot, read_string, SnapshotEntry};

fn header() -> Vec<u8> {
    let mut b = b"REDIS0011".to_vec();
    b.extend_from_slice(b"\xfa\x09redis-ver\x057.2.0");
    b.extend_from_slice(&[0xfe, 0x00, 0xfb, 0x03, 0x01]);
    b
}

fn record(b: &mut Vec<u8>, expiry: Option<u64>, key: &[u8], value: &[u8]) {
    if let Some(t) = expiry {
        b.push(0xfc);
        b.extend_from_slice(&t.to_le_bytes());
    }
    b.push(0x00);
    b.push(key.len() as u8);
    b.extend_from_slice(key);
    b.push(value.len() as u8);
    b.extend_from_slice(value);
}

fn triples(v: &[SnapshotEntry]) -> Vec<(Vec<u8>, Vec<u8>, Option<u64>)> {
    v.iter().map(|e| (e.key.clone(), e.value.clone(), e.expires_at)).collect()
}

#[test]
fn decodes_records_with_and_without_expiry() {
    let mut b = header();
    record(&mut b, None, b"foo", b"bar");
    record(&mut b, Some(1_713_824_559_637), b"baz", b"qux");
    b.push(0xff);
    b.extend_from_slice(&[0u8; 8]);
    assert_eq!(
        triples(&decode_snapshot(&b)),
        vec![
            (b"foo".to_vec(), b"bar".to_vec(), None),
            (b"baz".to_vec(), b"qux".to_vec(), Some(1_713_824_559_637)),
        ]
    );
}

#[test]
fn corrupt_record_keeps_earlier_ones() {
    let mut b = header();
    record(&mut b, None, b"a", b"1");
    record(&mut b, None, b"b", b"2");
    b.extend_from_slice(&[0x00, 0x05, b'x']);
    assert_eq!(
        triples(&decode_snapshot(&b)),
        vec![(b"a".to_vec(), b"1".to_vec(), None), (b"b".to_vec(), b"2".to_vec(), None)]
    );
    let mut c = header();
    record(&mut c, None, b"a", b"1");
    c.extend_from_slice(&[0x00, 0xc0, 0x01]);
    assert_eq!(triples(&decode_snapshot(&c)), vec![(b"a".to_vec(), b"1".to_vec(), None)]);
}

#[test]
fn wide_sizes_are_read() {
    let mut b = header();
    let value = vec![b'v'; 300];
    b.push(0x00);
    b.push(0x01);
    b.push(b'k');
    b.extend_from_slice(&[0x41, 0x2c]);
    b.extend_from_slice(&value);
    b.push(0x00);
    b.extend_from_slice(&[0x80, 0x00, 0x00, 0x00, 0x02]);
    b.extend_from_slice(b"k2");
    b.push(0x00);
    assert_eq!(
        triples(&decode_snapshot(&b)),
        vec![(b"k".to_vec(), value, None), (b"k2".to_vec(), Vec::new(), None)]
    );
}

#[test]
fn bad_header_or_no_database_yields_nothing() {
    let mut b = b"RADIS0011".to_vec();
    b.extend_from_slice(&[0xfe, 0x00]);
    record(&mut b, None, b"a", b"1");
    assert!(decode_snapshot(&b).is_empty());
    assert!(decode_snapshot(b"").is_empty());
    assert!(decode_snapshot(b"REDIS0011\xfa\x01a\x01b\xff").is_empty());
}

#[test]
fn load_skips_expired_records() {
    let mut b = header();
    record(&mut b, Some(500), b"old", b"1");
    record(&mut b, Some(5_000), b"new", b"2");
    record(&mut b, None, b"forever", b"3");
    b.push(0xff);
    let mut ks = load_snapshot(&b, 1_000);
    assert_eq!(ks.get(b"old", 1_000), None);
    assert!(!ks.contains_key(b"old"));
    assert_eq!(ks.get(b"new", 1_000), Some(b"2".to_vec()));
    assert_eq!(ks.get(b"forever", 1_000), Some(b"3".to_vec()));
    assert_eq!(ks.keys().len(), 2);
}

#[test]
fn read_string_bounds() {
    assert_eq!(read_string(b"hello", 1, 3), Some((b"ell".to_vec(), 4)));
    assert_eq!(read_string(b"hello", 5, 0), Some((Vec::new(), 5)));
    assert_eq!(read_string(b"hello", 3, 3), None);
    assert_eq!(read_string(b"hello", 9, 0), None);
}

#[test]
fn decodes_without_resize_hint() {
    let mut b = b"REDIS0009".to_vec();
    b.extend_from_slice(&[0xfe, 0x01]);
    record(&mut b, Some(7), b"x", b"y");
    b.push(0xff);
    assert_eq!(triples(&decode_snapshot(&b)), vec![(b"x".to_vec(), b"y".to_vec(), Some(7))]);
}
