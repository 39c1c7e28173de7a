//! Commands: what a decoded request asks for.

use vstd::prelude::*;
use crate::bytes::{bytes_eq_ignore_case, eq_ignore_case, int_value, parse_int, parse_uint, uint_value};
use crate::resp::{decode_request, parse_request, views, Decoded, Parsed};

verus! {

/// A request, as the dispatcher sees it.
pub enum RedisCommand {
    Ping,
    Echo(Vec<u8>),
    /// Store `value` under `key`; `expiry` is a time to live in milliseconds.
    SetKey { key: Vec<u8>, value: Vec<u8>, expiry: Option<u64> },
    Get(Vec<u8>),
    ConfigGet(Vec<u8>),
    Keys(Vec<u8>),
    Info,
    ReplConf(Vec<Vec<u8>>),
    Psync { replication_id: Vec<u8>, offset: i64 },
    Unrecognized,
}

/// The mathematical form of a command: byte strings as sequences.
pub enum CommandView {
    Ping,
    Echo(Seq<u8>),
    SetKey { key: Seq<u8>, value: Seq<u8>, expiry: Option<u64> },
    Get(Seq<u8>),
    ConfigGet(Seq<u8>),
    Keys(Seq<u8>),
    Info,
    ReplConf(Seq<Seq<u8>>),
    Psync { replication_id: Seq<u8>, offset: i64 },
    Unrecognized,
}

impl View for RedisCommand {
    type V = CommandView;

    open spec fn view(&self) -> CommandView {
        match self {
            RedisCommand::Ping => CommandView::Ping,
            RedisCommand::Echo(m) => CommandView::Echo(m@),
            RedisCommand::SetKey { key, value, expiry } => CommandView::SetKey {
                key: key@,
                value: value@,
                expiry: *expiry,
            },
            RedisCommand::Get(k) => CommandView::Get(k@),
            RedisCommand::ConfigGet(p) => CommandView::ConfigGet(p@),
            RedisCommand::Keys(p) => CommandView::Keys(p@),
            RedisCommand::Info => CommandView::Info,
            RedisCommand::ReplConf(args) => CommandView::ReplConf(views(args@)),
            RedisCommand::Psync { replication_id, offset } => CommandView::Psync {
                replication_id: replication_id@,
                offset: *offset,
            },
            RedisCommand::Unrecognized => CommandView::Unrecognized,
        }
    }
}

pub open spec fn word_ping() -> Seq<u8> {
    seq![80u8, 73, 78, 71]
}

pub open spec fn word_echo() -> Seq<u8> {
    seq![69u8, 67, 72, 79]
}

pub open spec fn word_set() -> Seq<u8> {
    seq![83u8, 69, 84]
}

pub open spec fn word_get() -> Seq<u8> {
    seq![71u8, 69, 84]
}

pub open spec fn word_px() -> Seq<u8> {
    seq![80u8, 88]
}

pub open spec fn word_config() -> Seq<u8> {
    seq![67u8, 79, 78, 70, 73, 71]
}

pub open spec fn word_keys() -> Seq<u8> {
    seq![75u8, 69, 89, 83]
}

pub open spec fn word_info() -> Seq<u8> {
    seq![73u8, 78, 70, 79]
}

pub open spec fn word_replconf() -> Seq<u8> {
    seq![82u8, 69, 80, 76, 67, 79, 78, 70]
}

pub open spec fn word_psync() -> Seq<u8> {
    seq![80u8, 83, 89, 78, 67]
}

/// The command that a request's elements name. The first element is the
/// command name, compared without regard to ASCII case; the rest are its
/// arguments. Anything else is `Unrecognized`.
pub open spec fn command_of(items: Seq<Seq<u8>>) -> CommandView {
    if items.len() == 0 {
        CommandView::Unrecognized
    } else {
        let name = items[0];
        let n = items.len() - 1;
        if eq_ignore_case(name, word_ping()) && n == 0 {
            CommandView::Ping
        } else if eq_ignore_case(name, word_echo()) && n == 1 {
            CommandView::Echo(items[1])
        } else if eq_ignore_case(name, word_set()) && n == 2 {
            CommandView::SetKey { key: items[1], value: items[2], expiry: None }
        } else if eq_ignore_case(name, word_set()) && n == 4 && eq_ignore_case(items[3], word_px()) {
            match uint_value(items[4]) {
                Some(ms) => CommandView::SetKey { key: items[1], value: items[2], expiry: Some(ms as u64) },
                None => CommandView::Unrecognized,
            }
        } else if eq_ignore_case(name, word_get()) && n == 1 {
            CommandView::Get(items[1])
        } else if eq_ignore_case(name, word_config()) && n == 2 && eq_ignore_case(items[1], word_get()) {
            CommandView::ConfigGet(items[2])
        } else if eq_ignore_case(name, word_keys()) && n == 1 {
            CommandView::Keys(items[1])
        } else if eq_ignore_case(name, word_info()) && n == 0 {
            CommandView::Info
        } else if eq_ignore_case(name, word_replconf()) {
            CommandView::ReplConf(items.drop_first())
        } else if eq_ignore_case(name, word_psync()) && n == 2 {
            match int_value(items[2]) {
                Some(off) => CommandView::Psync { replication_id: items[1], offset: off as i64 },
                None => CommandView::Unrecognized,
            }
        } else {
            CommandView::Unrecognized
        }
    }
}

fn copy_bytes(b: &Vec<u8>) -> (r: Vec<u8>)
    ensures
        r@ == b@,
{
    vstd::slice::slice_to_vec(b.as_slice())
}

impl RedisCommand {
    /// The command that a decoded request's elements name.
    pub fn from_items(items: &Vec<Vec<u8>>) -> (r: RedisCommand)
        ensures
            r@ == command_of(views(items@)),
    {
        let ghost v = views(items@);
        let len = items.len();
        if len == 0 {
            return RedisCommand::Unrecognized;
        }
        proof {
            assert forall|i: int| 0 <= i < len implies v[i] == (#[trigger] items@[i])@ by {}
        }
        let name = items[0].as_slice();
        let n = len - 1;
        if n == 0 && bytes_eq_ignore_case(name, vec![80u8, 73, 78, 71].as_slice()) {
            return RedisCommand::Ping;
        }
        if n == 1 && bytes_eq_ignore_case(name, vec![69u8, 67, 72, 79].as_slice()) {
            return RedisCommand::Echo(copy_bytes(&items[1]));
        }
        let is_set = bytes_eq_ignore_case(name, vec![83u8, 69, 84].as_slice());
        if is_set && n == 2 {
            return RedisCommand::SetKey {
                key: copy_bytes(&items[1]),
                value: copy_bytes(&items[2]),
                expiry: None,
            };
        }
        if is_set && n == 4 && bytes_eq_ignore_case(items[3].as_slice(), vec![80u8, 88].as_slice()) {
            return match parse_uint(items[4].as_slice()) {
                Some(ms) => RedisCommand::SetKey {
                    key: copy_bytes(&items[1]),
                    value: copy_bytes(&items[2]),
                    expiry: Some(ms),
                },
                None => RedisCommand::Unrecognized,
            };
        }
        let get_word = vec![71u8, 69, 84];
        if n == 1 && bytes_eq_ignore_case(name, get_word.as_slice()) {
            return RedisCommand::Get(copy_bytes(&items[1]));
        }
        if n == 2 && bytes_eq_ignore_case(name, vec![67u8, 79, 78, 70, 73, 71].as_slice())
            && bytes_eq_ignore_case(items[1].as_slice(), get_word.as_slice()) {
            return RedisCommand::ConfigGet(copy_bytes(&items[2]));
        }
        if n == 1 && bytes_eq_ignore_case(name, vec![75u8, 69, 89, 83].as_slice()) {
            return RedisCommand::Keys(copy_bytes(&items[1]));
        }
        if n == 0 && bytes_eq_ignore_case(name, vec![73u8, 78, 70, 79].as_slice()) {
            return RedisCommand::Info;
        }
        if bytes_eq_ignore_case(name, vec![82u8, 69, 80, 76, 67, 79, 78, 70].as_slice()) {
            let mut args: Vec<Vec<u8>> = Vec::new();
            let mut i: usize = 1;
            while i < len
                invariant
                    1 <= i <= len,
                    len == items@.len(),
                    v == views(items@),
                    views(args@) =~= v.subrange(1, i as int),
                    forall|j: int| 0 <= j < len ==> v[j] == (#[trigger] items@[j])@,
                decreases len - i,
            {
                let a = copy_bytes(&items[i]);
                proof {
                    assert(views(args@.push(a)) =~= views(args@).push(a@));
                }
                args.push(a);
                i = i + 1;
                assert(views(args@) =~= v.subrange(1, i as int));
            }
            assert(v.subrange(1, len as int) =~= v.drop_first());
            return RedisCommand::ReplConf(args);
        }
        if n == 2 && bytes_eq_ignore_case(name, vec![80u8, 83, 89, 78, 67].as_slice()) {
            return match parse_int(items[2].as_slice()) {
                Some(off) => RedisCommand::Psync {
                    replication_id: copy_bytes(&items[1]),
                    offset: off,
                },
                None => RedisCommand::Unrecognized,
            };
        }
        RedisCommand::Unrecognized
    }
}

impl RedisCommand {
    /// The command in the request at the start of `buf`: `None` while the
    /// request is incomplete, `Unrecognized` when `buf` cannot start one.
    pub fn from_request(buf: &[u8]) -> (r: Option<RedisCommand>)
        ensures
            match parse_request(buf@) {
                Parsed::Incomplete => r.is_none(),
                Parsed::Malformed => r == Some(RedisCommand::Unrecognized),
                Parsed::Done(items, _) => r is Some && r.unwrap()@ == command_of(items),
            },
    {
        match decode_request(buf) {
            Decoded::Incomplete => None,
            Decoded::Malformed => Some(RedisCommand::Unrecognized),
            Decoded::Complete { items, .. } => Some(RedisCommand::from_items(&items)),
        }
    }
}

impl std::str::FromStr for RedisCommand {
    type Err = ();

    /// The command that `command` holds as one whole request: an error while
    /// the request is incomplete, `Unrecognized` when it is malformed or
    /// followed by further bytes.
    fn from_str(command: &str) -> (r: Result<RedisCommand, ()>)
        ensures
            match parse_request(vstd::string::StringSliceAdditionalSpecFns::spec_bytes(command)) {
                Parsed::Incomplete => r is Err,
                Parsed::Malformed => r == Ok::<RedisCommand, ()>(RedisCommand::Unrecognized),
                Parsed::Done(items, n) => if n == vstd::string::StringSliceAdditionalSpecFns::spec_bytes(
                    command,
                ).len() {
                    r is Ok && r->Ok_0@ == command_of(items)
                } else {
                    r == Ok::<RedisCommand, ()>(RedisCommand::Unrecognized)
                },
            },
    {
        let buf = command.as_bytes();
        match decode_request(buf) {
            Decoded::Incomplete => Err(()),
            Decoded::Malformed => Ok(RedisCommand::Unrecognized),
            Decoded::Complete { items, consumed } => if consumed == buf.len() {
                Ok(RedisCommand::from_items(&items))
            } else {
                Ok(RedisCommand::Unrecognized)
            },
        }
    }
}

} // verus!
