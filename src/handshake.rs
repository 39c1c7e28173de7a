//! The replica side of the replication handshake, as a state machine: the
//! caller sends what it is given, reads the primary's reply, and hands the
//! reply back (or `None` when the connection closed or failed).
//!
//! Steps: `PING` expecting `+PONG`; `REPLCONF listening-port <port>`
//! expecting `+OK`; `REPLCONF capa psync2` expecting `+OK`; `PSYNC ? -1`
//! expecting a line that begins with `+FULLRESYNC`. Any other reply ends the
//! handshake as failed.

use vstd::prelude::*;
use crate::bytes::{append_decimal, bytes_eq, decimal};
use crate::resp::{crlf, encode_array, encode_array_exec, views};
use crate::text::{ascii, lit};

verus! {

/// The step at which a handshake failed.
#[derive(PartialEq, Eq, Structural, Clone, Copy, Debug)]
pub enum HandshakeFailure {
    /// The reply to `PING` was not `+PONG`.
    Ping,
    /// The reply to `REPLCONF listening-port` was not `+OK`.
    ListeningPort,
    /// The reply to `REPLCONF capa` was not `+OK`.
    Capabilities,
    /// The reply to `PSYNC` did not begin with `+FULLRESYNC`.
    Psync,
    /// The connection closed or failed while a reply was awaited.
    Disconnected,
}

#[derive(PartialEq, Eq, Structural, Clone, Copy, Debug)]
pub enum HandshakeState {
    Init,
    AwaitPong,
    AwaitReplconfPortAck,
    AwaitReplconfCapaAck,
    AwaitFullResync,
    Established,
    Failed(HandshakeFailure),
}

pub open spec fn ping_request() -> Seq<u8> {
    encode_array(seq![ascii("PING"@)])
}

pub open spec fn listening_port_request(port: u16) -> Seq<u8> {
    encode_array(seq![ascii("REPLCONF"@), ascii("listening-port"@), decimal(port as nat)])
}

pub open spec fn capa_request() -> Seq<u8> {
    encode_array(seq![ascii("REPLCONF"@), ascii("capa"@), ascii("psync2"@)])
}

pub open spec fn psync_request() -> Seq<u8> {
    encode_array(seq![ascii("PSYNC"@), ascii("?"@), ascii("-1"@)])
}

pub open spec fn is_fullresync(reply: Seq<u8>) -> bool {
    reply.len() >= 11 && reply.subrange(0, 11) == ascii("+FULLRESYNC"@)
}

/// The state after `reply` arrives in `state`; `None` stands for a closed or
/// failed connection.
pub open spec fn next_state(state: HandshakeState, reply: Option<Seq<u8>>) -> HandshakeState {
    match state {
        HandshakeState::AwaitPong => match reply {
            Some(b) => if b == seq![43u8] + ascii("PONG"@) + crlf() {
                HandshakeState::AwaitReplconfPortAck
            } else {
                HandshakeState::Failed(HandshakeFailure::Ping)
            },
            None => HandshakeState::Failed(HandshakeFailure::Disconnected),
        },
        HandshakeState::AwaitReplconfPortAck => match reply {
            Some(b) => if b == seq![43u8] + ascii("OK"@) + crlf() {
                HandshakeState::AwaitReplconfCapaAck
            } else {
                HandshakeState::Failed(HandshakeFailure::ListeningPort)
            },
            None => HandshakeState::Failed(HandshakeFailure::Disconnected),
        },
        HandshakeState::AwaitReplconfCapaAck => match reply {
            Some(b) => if b == seq![43u8] + ascii("OK"@) + crlf() {
                HandshakeState::AwaitFullResync
            } else {
                HandshakeState::Failed(HandshakeFailure::Capabilities)
            },
            None => HandshakeState::Failed(HandshakeFailure::Disconnected),
        },
        HandshakeState::AwaitFullResync => match reply {
            Some(b) => if is_fullresync(b) {
                HandshakeState::Established
            } else {
                HandshakeState::Failed(HandshakeFailure::Psync)
            },
            None => HandshakeState::Failed(HandshakeFailure::Disconnected),
        },
        _ => state,
    }
}

/// What is sent on entering `state`, if anything.
pub open spec fn request_on_entry(state: HandshakeState, port: u16) -> Option<Seq<u8>> {
    match state {
        HandshakeState::AwaitPong => Some(ping_request()),
        HandshakeState::AwaitReplconfPortAck => Some(listening_port_request(port)),
        HandshakeState::AwaitReplconfCapaAck => Some(capa_request()),
        HandshakeState::AwaitFullResync => Some(psync_request()),
        _ => None,
    }
}

/// One handshake attempt of a replica whose own port is `own_port`.
pub struct Handshake {
    pub state: HandshakeState,
    pub own_port: u16,
}

fn request(words: Vec<Vec<u8>>) -> (r: Vec<u8>)
    ensures
        r@ == encode_array(views(words@)),
{
    encode_array_exec(&words)
}

impl Handshake {
    pub fn new(own_port: u16) -> (r: Handshake)
        ensures
            r.state == HandshakeState::Init,
            r.own_port == own_port,
    {
        Handshake { state: HandshakeState::Init, own_port }
    }

    /// The request to send on entering `state`, if any.
    fn request_for(state: HandshakeState, port: u16) -> (r: Option<Vec<u8>>)
        ensures
            match request_on_entry(state, port) {
                Some(b) => r is Some && r.unwrap()@ == b,
                None => r.is_none(),
            },
    {
        proof {
            reveal_strlit("PING");
            reveal_strlit("REPLCONF");
            reveal_strlit("listening-port");
            reveal_strlit("capa");
            reveal_strlit("psync2");
            reveal_strlit("PSYNC");
            reveal_strlit("?");
            reveal_strlit("-1");
        }
        match state {
            HandshakeState::AwaitPong => {
                let w = vec![lit("PING")];
                assert(views(w@) =~= seq![ascii("PING"@)]);
                Some(request(w))
            },
            HandshakeState::AwaitReplconfPortAck => {
                let mut p: Vec<u8> = Vec::new();
                append_decimal(&mut p, port as u64);
                assert(p@ =~= decimal(port as nat));
                let w = vec![lit("REPLCONF"), lit("listening-port"), p];
                assert(views(w@) =~= seq![ascii("REPLCONF"@), ascii("listening-port"@), decimal(port as nat)]);
                Some(request(w))
            },
            HandshakeState::AwaitReplconfCapaAck => {
                let w = vec![lit("REPLCONF"), lit("capa"), lit("psync2")];
                assert(views(w@) =~= seq![ascii("REPLCONF"@), ascii("capa"@), ascii("psync2"@)]);
                Some(request(w))
            },
            HandshakeState::AwaitFullResync => {
                let w = vec![lit("PSYNC"), lit("?"), lit("-1")];
                assert(views(w@) =~= seq![ascii("PSYNC"@), ascii("?"@), ascii("-1"@)]);
                Some(request(w))
            },
            _ => None,
        }
    }

    /// Starts the handshake: moves from `Init` to awaiting `+PONG` and
    /// returns the `PING` request to send. In any other state it does nothing.
    pub fn begin(&mut self) -> (r: Option<Vec<u8>>)
        ensures
            final(self).own_port == old(self).own_port,
            old(self).state == HandshakeState::Init ==> final(self).state
                == HandshakeState::AwaitPong && r is Some && r.unwrap()@ == ping_request(),
            old(self).state != HandshakeState::Init ==> final(self).state == old(self).state
                && r.is_none(),
    {
        if self.state == HandshakeState::Init {
            self.state = HandshakeState::AwaitPong;
            Self::request_for(HandshakeState::AwaitPong, self.own_port)
        } else {
            None
        }
    }

    /// Takes the primary's reply (`None` when the connection closed or
    /// failed) and returns the next request to send, if any.
    pub fn on_reply(&mut self, reply: Option<&[u8]>) -> (r: Option<Vec<u8>>)
        ensures
            final(self).own_port == old(self).own_port,
            final(self).state == next_state(
                old(self).state,
                match reply {
                    Some(b) => Some(b@),
                    None => None,
                },
            ),
            final(self).state != old(self).state ==> match request_on_entry(
                final(self).state,
                old(self).own_port,
            ) {
                Some(b) => r is Some && r.unwrap()@ == b,
                None => r.is_none(),
            },
            final(self).state == old(self).state ==> r.is_none(),
    {
        proof {
            reveal_strlit("+PONG\r\n");
            reveal_strlit("+OK\r\n");
            reveal_strlit("+FULLRESYNC");
            reveal_strlit("PONG");
            reveal_strlit("OK");
        }
        let next = match self.state {
            HandshakeState::AwaitPong => match reply {
                Some(b) => if bytes_eq(b, lit("+PONG\r\n").as_slice()) {
                    HandshakeState::AwaitReplconfPortAck
                } else {
                    HandshakeState::Failed(HandshakeFailure::Ping)
                },
                None => HandshakeState::Failed(HandshakeFailure::Disconnected),
            },
            HandshakeState::AwaitReplconfPortAck => match reply {
                Some(b) => if bytes_eq(b, lit("+OK\r\n").as_slice()) {
                    HandshakeState::AwaitReplconfCapaAck
                } else {
                    HandshakeState::Failed(HandshakeFailure::ListeningPort)
                },
                None => HandshakeState::Failed(HandshakeFailure::Disconnected),
            },
            HandshakeState::AwaitReplconfCapaAck => match reply {
                Some(b) => if bytes_eq(b, lit("+OK\r\n").as_slice()) {
                    HandshakeState::AwaitFullResync
                } else {
                    HandshakeState::Failed(HandshakeFailure::Capabilities)
                },
                None => HandshakeState::Failed(HandshakeFailure::Disconnected),
            },
            HandshakeState::AwaitFullResync => match reply {
                Some(b) => if b.len() >= 11 && bytes_eq(
                    vstd::slice::slice_subrange(b, 0, 11),
                    lit("+FULLRESYNC").as_slice(),
                ) {
                    HandshakeState::Established
                } else {
                    HandshakeState::Failed(HandshakeFailure::Psync)
                },
                None => HandshakeState::Failed(HandshakeFailure::Disconnected),
            },
            other => other,
        };
        proof {
            assert(ascii("+PONG\r\n"@) =~= seq![43u8] + ascii("PONG"@) + crlf());
            assert(ascii("+OK\r\n"@) =~= seq![43u8] + ascii("OK"@) + crlf());
        }
        if next == self.state {
            return None;
        }
        self.state = next;
        Self::request_for(next, self.own_port)
    }
}

} // verus!
