use redis_lite::config::{ReplicationInfo, ServerConfig};
use redis_lite::handler::handle_command;
use redis_lite::keyspace::Keyspace;

const REPLID: &[u8] = b"8371b4fb1155b71f4a04d3e1bc3e18c4a990aeeb";

fn config() -> ServerConfig {
    ServerConfig { dir: None, dbfilename: None, port: 6379, replica_of: None }
}

fn repl() -> ReplicationInfo {
    ReplicationInfo { replication_id: REPLID.to_vec(), offset: 0 }
}

fn send(ks: &mut Keyspace, cfg: &ServerConfig, req: &[u8], now: u64) -> Vec<u8> {
    let (reply, used) = handle_command(req, ks, cfg, &repl(), now).expect("a whole request");
    assert_eq!(used, req.len());
    reply
}

#[test]
fn ping_replies_pong() {
    let mut ks = Keyspace::new();
    assert_eq!(send(&mut ks, &config(), b"*1\r\n$4\r\nPING\r\n", 0), b"+PONG\r\n".to_vec());
}

#[test]
fn set_then_get_over_the_wire() {
    let mut ks = Keyspace::new();
    let cfg = config();
    assert_eq!(send(&mut ks, &cfg, b"*3\r\n$3\r\nSET\r\n$3\r\nfoo\r\n$3\r\nbar\r\n", 0), b"+OK\r\n".to_vec());
    assert_eq!(send(&mut ks, &cfg, b"*2\r\n$3\r\nGET\r\n$3\r\nfoo\r\n", 0), b"$3\r\nbar\r\n".to_vec());
}

#[test]
fn px_expiry_over_the_wire() {
    let mut ks = Keyspace::new();
    let cfg = config();
    let set = b"*5\r\n$3\r\nSET\r\n$3\r\nfoo\r\n$3\r\nbar\r\n$2\r\nPX\r\n$2\r\n50\r\n";
    assert_eq!(send(&mut ks, &cfg, set, 1_000), b"+OK\r\n".to_vec());
    assert_eq!(send(&mut ks, &cfg, b"*2\r\n$3\r\nGET\r\n$3\r\nfoo\r\n", 1_010), b"$3\r\nbar\r\n".to_vec());
    assert_eq!(send(&mut ks, &cfg, b"*2\r\n$3\r\nGET\r\n$3\r\nfoo\r\n", 1_100), b"$-1\r\n".to_vec());
}

#[test]
fn config_get_dir_unset_is_error() {
    let mut ks = Keyspace::new();
    let reply = send(&mut ks, &config(), b"*3\r\n$6\r\nCONFIG\r\n$3\r\nGET\r\n$3\r\ndir\r\n", 0);
    assert_eq!(reply, b"-ERR dir not configured\r\n".to_vec());
}

#[test]
fn config_get_values() {
    let mut ks = Keyspace::new();
    let cfg = ServerConfig {
        dir: Some(b"/tmp/data".to_vec()),
        dbfilename: Some(b"dump.rdb".to_vec()),
        port: 6379,
        replica_of: None,
    };
    assert_eq!(
        send(&mut ks, &cfg, b"*3\r\n$6\r\nCONFIG\r\n$3\r\nGET\r\n$3\r\ndir\r\n", 0),
        b"*2\r\n$3\r\ndir\r\n$9\r\n/tmp/data\r\n".to_vec()
    );
    assert_eq!(
        send(&mut ks, &cfg, b"*3\r\n$6\r\nconfig\r\n$3\r\nget\r\n$10\r\ndbfilename\r\n", 0),
        b"*2\r\n$10\r\ndbfilename\r\n$8\r\ndump.rdb\r\n".to_vec()
    );
    assert_eq!(
        send(&mut ks, &cfg, b"*3\r\n$6\r\nCONFIG\r\n$3\r\nGET\r\n$4\r\nport\r\n", 0),
        b"-ERR unknown parameter\r\n".to_vec()
    );
    assert_eq!(
        send(&mut ks, &config(), b"*3\r\n$6\r\nCONFIG\r\n$3\r\nGET\r\n$10\r\ndbfilename\r\n", 0),
        b"-ERR dbfilename not configured\r\n".to_vec()
    );
}

#[test]
fn echo_counts_bytes() {
    let mut ks = Keyspace::new();
    let reply = send(&mut ks, &config(), b"*2\r\n$4\r\nECHO\r\n$5\r\nh\xc3\xa9y!\r\n", 0);
    assert_eq!(reply, b"$5\r\nh\xc3\xa9y!\r\n".to_vec());
}

#[test]
fn keys_star_lists_every_key() {
    let mut ks = Keyspace::new();
    let cfg = config();
    send(&mut ks, &cfg, b"*3\r\n$3\r\nSET\r\n$1\r\na\r\n$1\r\n1\r\n", 0);
    send(&mut ks, &cfg, b"*3\r\n$3\r\nSET\r\n$1\r\nb\r\n$1\r\n2\r\n", 0);
    let reply = send(&mut ks, &cfg, b"*2\r\n$4\r\nKEYS\r\n$1\r\n*\r\n", 0);
    assert!(
        reply == b"*2\r\n$1\r\na\r\n$1\r\nb\r\n".to_vec() || reply == b"*2\r\n$1\r\nb\r\n$1\r\na\r\n".to_vec()
    );
    assert_eq!(send(&mut ks, &cfg, b"*2\r\n$4\r\nKEYS\r\n$1\r\nb\r\n", 0), b"*1\r\n$1\r\nb\r\n".to_vec());
    assert_eq!(send(&mut ks, &cfg, b"*2\r\n$4\r\nKEYS\r\n$1\r\nz\r\n", 0), b"*0\r\n".to_vec());
}

#[test]
fn info_reports_role() {
    let mut ks = Keyspace::new();
    let reply = send(&mut ks, &config(), b"*1\r\n$4\r\nINFO\r\n", 0);
    let mut text = b"role:master\r\nmaster_replid:".to_vec();
    text.extend_from_slice(REPLID);
    text.extend_from_slice(b"\r\nmaster_repl_offset:0");
    let mut expected = format!("${}\r\n", text.len()).into_bytes();
    expected.extend_from_slice(&text);
    expected.extend_from_slice(b"\r\n");
    assert_eq!(reply, expected);
    let replica = ServerConfig { replica_of: Some((b"localhost".to_vec(), 6379)), ..config() };
    assert_eq!(send(&mut ks, &replica, b"*1\r\n$4\r\nINFO\r\n", 0), b"$10\r\nrole:slave\r\n".to_vec());
}

#[test]
fn replconf_and_psync() {
    let mut ks = Keyspace::new();
    let cfg = config();
    let replconf = b"*3\r\n$8\r\nREPLCONF\r\n$14\r\nlistening-port\r\n$4\r\n6380\r\n";
    assert_eq!(send(&mut ks, &cfg, replconf, 0), b"+OK\r\n".to_vec());
    let reply = send(&mut ks, &cfg, b"*3\r\n$5\r\nPSYNC\r\n$1\r\n?\r\n$2\r\n-1\r\n", 0);
    let mut expected = b"+FULLRESYNC ".to_vec();
    expected.extend_from_slice(REPLID);
    expected.extend_from_slice(b" 0\r\n");
    assert_eq!(reply, expected);
}

#[test]
fn unknown_and_malformed_requests() {
    let mut ks = Keyspace::new();
    let cfg = config();
    assert_eq!(send(&mut ks, &cfg, b"*1\r\n$8\r\nFLUSHALL\r\n", 0), b"-ERR unknown command\r\n".to_vec());
    assert_eq!(send(&mut ks, &cfg, b"PING\r\n", 0), b"-ERR unknown command\r\n".to_vec());
    assert_eq!(handle_command(b"*1\r\n$4\r\nPI", &mut ks, &cfg, &repl(), 0), None);
}

#[test]
fn pipelined_requests_are_taken_one_at_a_time() {
    let mut ks = Keyspace::new();
    let cfg = config();
    let buf = b"*1\r\n$4\r\nPING\r\n*2\r\n$4\r\nECHO\r\n$1\r\nx\r\n";
    let (reply, used) = handle_command(buf, &mut ks, &cfg, &repl(), 0).unwrap();
    assert_eq!(reply, b"+PONG\r\n".to_vec());
    assert_eq!(used, 14);
    let (reply, used) = handle_command(&buf[used..], &mut ks, &cfg, &repl(), 0).unwrap();
    assert_eq!(reply, b"$1\r\nx\r\n".to_vec());
    assert_eq!(used, buf.len() - 14);
}
