use redis_lite::bytes::{parse_int, parse_uint};
use redis_lite::command::RedisCommand;
use redis_lite::resp::{decode_request, encode_array_exec, Decoded, Response};

fn items(words: &[&[u8]]) -> Vec<Vec<u8>> {
    words.iter().map(|w| w.to_vec()).collect()
}

fn complete(buf: &[u8]) -> (Vec<Vec<u8>>, usize) {
    match decode_request(buf) {
        Decoded::Complete { items, consumed } => (items, consumed),
        Decoded::Incomplete => panic!("incomplete"),
        Decoded::Malformed => panic!("malformed"),
    }
}

#[test]
fn decodes_ping_request() {
    let (it, n) = complete(b"*1\r\n$4\r\nPING\r\n");
    assert_eq!(it, items(&[b"PING"]));
    assert_eq!(n, 14);
}

#[test]
fn decode_stops_after_first_request() {
    let buf = b"*2\r\n$3\r\nGET\r\n$3\r\nfoo\r\n*1\r\n$4\r\nPING\r\n";
    let (it, n) = complete(buf);
    assert_eq!(it, items(&[b"GET", b"foo"]));
    assert_eq!(n, 22);
}

#[test]
fn truncated_request_is_incomplete() {
    for buf in [&b""[..], b"*", b"*2", b"*2\r", b"*2\r\n$3\r\nGET\r\n", b"*2\r\n$3\r\nGET\r\n$3\r\nfo"] {
        assert!(matches!(decode_request(buf), Decoded::Incomplete), "{:?}", buf);
    }
}

#[test]
fn garbage_is_malformed() {
    for buf in [&b"PING\r\n"[..], b"*x\r\n", b"*1\r\n+OK\r\n", b"*1\r\n$4\r\nPINGxx", b"*01\r\n$4\r\nPING\r\n"] {
        assert!(matches!(decode_request(buf), Decoded::Malformed), "{:?}", buf);
    }
}

#[test]
fn binary_values_round_trip() {
    let values = items(&[b"SET", b"k\r\n", b"", b"\x00\xff*$\r\n"]);
    let mut encoded = encode_array_exec(&values);
    let len = encoded.len();
    encoded.extend_from_slice(b"*1\r\n");
    let (it, n) = complete(&encoded);
    assert_eq!(it, values);
    assert_eq!(n, len);
}

#[test]
fn bulk_reply_round_trips_through_request_framing() {
    let payload = b"caf\xc3\xa9\r\n".to_vec();
    let bulk = Response::Bulk(payload.clone()).encode();
    assert_eq!(bulk, b"$7\r\ncaf\xc3\xa9\r\n\r\n".to_vec());
    let mut buf = b"*1\r\n".to_vec();
    buf.extend_from_slice(&bulk);
    let (it, _) = complete(&buf);
    assert_eq!(it, vec![payload]);
}

#[test]
fn empty_bulk_round_trips() {
    let bulk = Response::Bulk(Vec::new()).encode();
    assert_eq!(bulk, b"$0\r\n\r\n".to_vec());
    let mut buf = b"*1\r\n".to_vec();
    buf.extend_from_slice(&bulk);
    assert_eq!(complete(&buf).0, vec![Vec::<u8>::new()]);
}

#[test]
fn encodes_each_reply_form() {
    assert_eq!(Response::Simple(b"OK".to_vec()).encode(), b"+OK\r\n".to_vec());
    assert_eq!(
        Response::Error { kind: b"ERR".to_vec(), message: b"bad".to_vec() }.encode(),
        b"-ERR bad\r\n".to_vec()
    );
    assert_eq!(Response::Null.encode(), b"$-1\r\n".to_vec());
    assert_eq!(
        Response::Array(items(&[b"a", b"bc"])).encode(),
        b"*2\r\n$1\r\na\r\n$2\r\nbc\r\n".to_vec()
    );
    assert_eq!(Response::Array(Vec::new()).encode(), b"*0\r\n".to_vec());
}

#[test]
fn parses_numbers() {
    assert_eq!(parse_uint(b"0"), Some(0));
    assert_eq!(parse_uint(b"50"), Some(50));
    assert_eq!(parse_uint(b"999999999999999999"), Some(999_999_999_999_999_999));
    assert_eq!(parse_uint(b"18446744073709551615"), Some(u64::MAX));
    assert_eq!(parse_uint(b"18446744073709551616"), None);
    assert_eq!(parse_uint(b"99999999999999999999999"), None);
    assert_eq!(parse_uint(b"050"), Some(50));
    assert_eq!(parse_uint(b""), None);
    assert_eq!(parse_uint(b"5x"), None);
    assert_eq!(parse_int(b"-1"), Some(-1));
    assert_eq!(parse_int(b"42"), Some(42));
    assert_eq!(parse_int(b"-"), None);
    assert_eq!(parse_int(b"-9223372036854775808"), Some(i64::MIN));
    assert_eq!(parse_int(b"9223372036854775807"), Some(i64::MAX));
    assert_eq!(parse_int(b"9223372036854775808"), None);
    assert_eq!(parse_int(b"-9223372036854775809"), None);
    assert_eq!(parse_int(b"--1"), None);
}

#[test]
fn commands_ignore_case() {
    assert!(matches!(RedisCommand::from_items(&items(&[b"pInG"])), RedisCommand::Ping));
    assert!(matches!(RedisCommand::from_items(&items(&[b"echo", b"hi"])), RedisCommand::Echo(m) if m == b"hi"));
    assert!(matches!(RedisCommand::from_items(&items(&[b"info"])), RedisCommand::Info));
}

#[test]
fn set_with_px_reads_milliseconds() {
    match RedisCommand::from_items(&items(&[b"SET", b"foo", b"bar", b"px", b"50"])) {
        RedisCommand::SetKey { key, value, expiry } => {
            assert_eq!(key, b"foo");
            assert_eq!(value, b"bar");
            assert_eq!(expiry, Some(50));
        }
        _ => panic!("not a SET"),
    }
    match RedisCommand::from_items(&items(&[b"SET", b"foo", b"bar"])) {
        RedisCommand::SetKey { expiry, .. } => assert_eq!(expiry, None),
        _ => panic!("not a SET"),
    }
}

#[test]
fn malformed_px_is_unrecognized() {
    let c = RedisCommand::from_items(&items(&[b"SET", b"foo", b"bar", b"PX", b"soon"]));
    assert!(matches!(c, RedisCommand::Unrecognized));
    let c = RedisCommand::from_items(&items(&[b"SET", b"foo", b"bar", b"EX", b"5"]));
    assert!(matches!(c, RedisCommand::Unrecognized));
}

#[test]
fn other_commands_map() {
    assert!(matches!(RedisCommand::from_items(&items(&[b"GET", b"k"])), RedisCommand::Get(k) if k == b"k"));
    assert!(matches!(RedisCommand::from_items(&items(&[b"config", b"get", b"dir"])), RedisCommand::ConfigGet(p) if p == b"dir"));
    assert!(matches!(RedisCommand::from_items(&items(&[b"KEYS", b"*"])), RedisCommand::Keys(p) if p == b"*"));
    assert!(matches!(
        RedisCommand::from_items(&items(&[b"REPLCONF", b"capa", b"psync2"])),
        RedisCommand::ReplConf(a) if a == items(&[b"capa", b"psync2"])
    ));
    match RedisCommand::from_items(&items(&[b"PSYNC", b"?", b"-1"])) {
        RedisCommand::Psync { replication_id, offset } => {
            assert_eq!(replication_id, b"?");
            assert_eq!(offset, -1);
        }
        _ => panic!("not a PSYNC"),
    }
    assert!(matches!(RedisCommand::from_items(&items(&[b"PING", b"x"])), RedisCommand::Unrecognized));
    assert!(matches!(RedisCommand::from_items(&items(&[b"FLUSHALL"])), RedisCommand::Unrecognized));
    assert!(matches!(RedisCommand::from_items(&Vec::new()), RedisCommand::Unrecognized));
}

#[test]
fn parses_command_from_str() {
    let c: RedisCommand = "*2\r\n$4\r\nECHO\r\n$3\r\nhey\r\n".parse().unwrap();
    assert!(matches!(c, RedisCommand::Echo(m) if m == b"hey"));
    let c: RedisCommand = "hello".parse().unwrap();
    assert!(matches!(c, RedisCommand::Unrecognized));
    assert!("*1\r\n$4\r\nPI".parse::<RedisCommand>().is_err());
    let c: RedisCommand = "*1\r\n$4\r\nPING\r\n*1\r\n$4\r\nPING\r\n".parse().unwrap();
    assert!(matches!(c, RedisCommand::Unrecognized));
    let c: RedisCommand = "*1\r\n$4\r\nPING\r\n".parse().unwrap();
    assert!(matches!(c, RedisCommand::Ping));
    assert!(matches!(RedisCommand::from_request(b"*1\r\n$4\r\nping\r\n"), Some(RedisCommand::Ping)));
}

#[test]
fn px_accepts_any_u64() {
    let c = RedisCommand::from_items(&items(&[b"SET", b"k", b"v", b"PX", b"18446744073709551615"]));
    assert!(matches!(c, RedisCommand::SetKey { expiry: Some(u64::MAX), .. }));
    let c = RedisCommand::from_items(&items(&[b"SET", b"k", b"v", b"PX", b"18446744073709551616"]));
    assert!(matches!(c, RedisCommand::Unrecognized));
    let c = RedisCommand::from_items(&items(&[b"SET", b"k", b"v", b"px", b"-5"]));
    assert!(matches!(c, RedisCommand::Unrecognized));
}

#[test]
fn long_lengths_are_incomplete_not_malformed() {
    assert!(matches!(decode_request(b"*1\r\n$123456789012345678901\r\nab"), Decoded::Incomplete));
    assert!(matches!(decode_request(b"*123456789012345678901\r\n$1\r\na\r\n"), Decoded::Incomplete));
    assert!(matches!(decode_request(b"*123456789012345678901\r\n+"), Decoded::Malformed));
}
