use redis_lite::handshake::{Handshake, HandshakeFailure, HandshakeState};

#[test]
fn handshake_reaches_established() {
    let mut h = Handshake::new(6380);
    assert_eq!(h.begin(), Some(b"*1\r\n$4\r\nPING\r\n".to_vec()));
    assert_eq!(h.state, HandshakeState::AwaitPong);
    assert_eq!(
        h.on_reply(Some(b"+PONG\r\n")),
        Some(b"*3\r\n$8\r\nREPLCONF\r\n$14\r\nlistening-port\r\n$4\r\n6380\r\n".to_vec())
    );
    assert_eq!(
        h.on_reply(Some(b"+OK\r\n")),
        Some(b"*3\r\n$8\r\nREPLCONF\r\n$4\r\ncapa\r\n$6\r\npsync2\r\n".to_vec())
    );
    assert_eq!(h.on_reply(Some(b"+OK\r\n")), Some(b"*3\r\n$5\r\nPSYNC\r\n$1\r\n?\r\n$2\r\n-1\r\n".to_vec()));
    assert_eq!(h.on_reply(Some(b"+FULLRESYNC abc 0\r\n")), None);
    assert_eq!(h.state, HandshakeState::Established);
}

#[test]
fn handshake_fails_on_error_reply_without_psync() {
    let mut h = Handshake::new(6380);
    h.begin();
    assert!(h.on_reply(Some(b"+PONG\r\n")).is_some());
    assert_eq!(h.on_reply(Some(b"-ERR\r\n")), None);
    assert_eq!(h.state, HandshakeState::Failed(HandshakeFailure::ListeningPort));
    assert_eq!(h.on_reply(Some(b"+OK\r\n")), None);
    assert_eq!(h.state, HandshakeState::Failed(HandshakeFailure::ListeningPort));
}

#[test]
fn handshake_fails_on_wrong_pong_or_closed_connection() {
    let mut h = Handshake::new(1);
    h.begin();
    h.on_reply(Some(b"+PONG"));
    assert_eq!(h.state, HandshakeState::Failed(HandshakeFailure::Ping));
    let mut h = Handshake::new(1);
    h.begin();
    h.on_reply(None);
    assert_eq!(h.state, HandshakeState::Failed(HandshakeFailure::Disconnected));
    assert_eq!(h.begin(), None);
}

#[test]
fn handshake_rejects_bad_resync() {
    let mut h = Handshake::new(7000);
    h.begin();
    h.on_reply(Some(b"+PONG\r\n"));
    h.on_reply(Some(b"+OK\r\n"));
    h.on_reply(Some(b"+OK\r\n"));
    assert_eq!(h.on_reply(Some(b"+CONTINUE\r\n")), None);
    assert_eq!(h.state, HandshakeState::Failed(HandshakeFailure::Psync));
}
