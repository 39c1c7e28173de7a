//! The command dispatcher: what each command replies and does to the
//! keyspace, and the handling of one request read from a connection.

use vstd::prelude::*;
use crate::bytes::{append_bytes, append_decimal, bytes_eq, decimal};
use crate::command::{command_of, word_get, CommandView, RedisCommand};
use crate::config::{ReplicationInfo, ServerConfig};
use crate::keyspace::{deadline, is_expired, EntryView, Keyspace};
use crate::resp::{
    crlf, decode_request, encode_array, encode_bulk, encode_response, lemma_request_round_trip,
    parse_request, views,
    Decoded, Parsed, Response,
};
use crate::text::{ascii, lit};

verus! {

pub open spec fn simple_reply(text: Seq<u8>) -> Seq<u8> {
    seq![43u8] + text + crlf()
}

pub open spec fn error_reply(message: Seq<u8>) -> Seq<u8> {
    ascii("-ERR "@) + message + crlf()
}

pub open spec fn null_reply() -> Seq<u8> {
    ascii("$-1\r\n"@)
}

/// The keys that a `KEYS` pattern selects: `*` selects every key; any other
/// pattern is matched literally.
pub open spec fn matching_keys(m: Map<Seq<u8>, EntryView>, pattern: Seq<u8>) -> Set<Seq<u8>> {
    if pattern == ascii("*"@) {
        m.dom()
    } else if m.contains_key(pattern) {
        set![pattern]
    } else {
        Set::empty()
    }
}

/// The `INFO` payload.
pub open spec fn info_text(config: &ServerConfig, repl: &ReplicationInfo) -> Seq<u8> {
    if config.replica_of is Some {
        ascii("role:slave"@)
    } else {
        ascii("role:master\r\nmaster_replid:"@) + repl.replication_id@ + ascii(
            "\r\nmaster_repl_offset:"@,
        ) + decimal(repl.offset as nat)
    }
}

/// The `PSYNC` status line.
pub open spec fn fullresync_reply(repl: &ReplicationInfo) -> Seq<u8> {
    simple_reply(
        ascii("FULLRESYNC "@) + repl.replication_id@ + seq![32u8] + decimal(repl.offset as nat),
    )
}

/// The reply to `CONFIG GET param`.
pub open spec fn config_reply(config: &ServerConfig, param: Seq<u8>) -> Seq<u8> {
    if param == ascii("dir"@) {
        match config.dir {
            Some(d) => encode_array(seq![param, d@]),
            None => error_reply(ascii("dir not configured"@)),
        }
    } else if param == ascii("dbfilename"@) {
        match config.dbfilename {
            Some(f) => encode_array(seq![param, f@]),
            None => error_reply(ascii("dbfilename not configured"@)),
        }
    } else {
        error_reply(ascii("unknown parameter"@))
    }
}

/// The keyspace after `cmd` at instant `now`.
pub open spec fn keyspace_after(cmd: CommandView, m: Map<Seq<u8>, EntryView>, now: u64) -> Map<
    Seq<u8>,
    EntryView,
> {
    match cmd {
        CommandView::SetKey { key, value, expiry } => m.insert(key, (value, deadline(now, expiry))),
        CommandView::Get(key) => if m.contains_key(key) && is_expired(m[key].1, now) {
            m.remove(key)
        } else {
            m
        },
        _ => m,
    }
}

/// `reply` is the encoded reply to `cmd` against keyspace `m` at `now`.
/// Every reply is fixed but that to `KEYS`, whose keys come in no fixed order.
pub open spec fn is_reply(
    cmd: CommandView,
    m: Map<Seq<u8>, EntryView>,
    config: &ServerConfig,
    repl: &ReplicationInfo,
    now: u64,
    reply: Seq<u8>,
) -> bool {
    match cmd {
        CommandView::Ping => reply == simple_reply(ascii("PONG"@)),
        CommandView::Echo(msg) => reply == encode_bulk(msg),
        CommandView::SetKey { .. } => reply == simple_reply(ascii("OK"@)),
        CommandView::Get(key) => if m.contains_key(key) && !is_expired(m[key].1, now) {
            reply == encode_bulk(m[key].0)
        } else {
            reply == null_reply()
        },
        CommandView::ConfigGet(param) => reply == config_reply(config, param),
        CommandView::Keys(pattern) => exists|keys: Seq<Seq<u8>>|
            #![trigger encode_array(keys)]
            reply == encode_array(keys) && keys.no_duplicates() && keys.to_set() == matching_keys(
                m,
                pattern,
            ),
        CommandView::Info => reply == encode_bulk(info_text(config, repl)),
        CommandView::ReplConf(_) => reply == simple_reply(ascii("OK"@)),
        CommandView::Psync { .. } => reply == fullresync_reply(repl),
        CommandView::Unrecognized => reply == error_reply(ascii("unknown command"@)),
    }
}

fn err(message: Vec<u8>) -> (r: Response)
    ensures
        encode_response(r) == error_reply(message@),
{
    proof {
        reveal_strlit("ERR");
    }
    let r = Response::Error { kind: lit("ERR"), message };
    proof {
        reveal_strlit("-ERR ");
        assert(encode_response(r) =~= error_reply(message@));
    }
    r
}

fn config_get(config: &ServerConfig, param: &Vec<u8>) -> (r: Response)
    ensures
        encode_response(r) == config_reply(config, param@),
{
    proof {
        reveal_strlit("dir");
        reveal_strlit("dbfilename");
        reveal_strlit("dir not configured");
        reveal_strlit("dbfilename not configured");
        reveal_strlit("unknown parameter");
    }
    let dir = lit("dir");
    let dbfilename = lit("dbfilename");
    let value = if bytes_eq(param.as_slice(), dir.as_slice()) {
        match &config.dir {
            Some(d) => vstd::slice::slice_to_vec(d.as_slice()),
            None => return err(lit("dir not configured")),
        }
    } else if bytes_eq(param.as_slice(), dbfilename.as_slice()) {
        match &config.dbfilename {
            Some(f) => vstd::slice::slice_to_vec(f.as_slice()),
            None => return err(lit("dbfilename not configured")),
        }
    } else {
        return err(lit("unknown parameter"));
    };
    let items = vec![vstd::slice::slice_to_vec(param.as_slice()), value];
    let r = Response::Array(items);
    proof {
        assert(views(items@) =~= seq![param@, items@[1]@]);
    }
    r
}

fn info(config: &ServerConfig, repl: &ReplicationInfo) -> (r: Response)
    ensures
        encode_response(r) == encode_bulk(info_text(config, repl)),
{
    proof {
        reveal_strlit("role:slave");
        reveal_strlit("role:master\r\nmaster_replid:");
        reveal_strlit("\r\nmaster_repl_offset:");
    }
    if config.replica_of.is_some() {
        return Response::Bulk(lit("role:slave"));
    }
    let mut out = lit("role:master\r\nmaster_replid:");
    append_bytes(&mut out, repl.replication_id.as_slice());
    append_bytes(&mut out, lit("\r\nmaster_repl_offset:").as_slice());
    append_decimal(&mut out, repl.offset);
    Response::Bulk(out)
}

fn fullresync(repl: &ReplicationInfo) -> (r: Response)
    ensures
        encode_response(r) == fullresync_reply(repl),
{
    proof {
        reveal_strlit("FULLRESYNC ");
    }
    let mut out = lit("FULLRESYNC ");
    append_bytes(&mut out, repl.replication_id.as_slice());
    out.push(32);
    append_decimal(&mut out, repl.offset);
    let r = Response::Simple(out);
    proof {
        assert(encode_response(r) =~= fullresync_reply(repl));
    }
    r
}

fn keys(ks: &Keyspace, pattern: &Vec<u8>) -> (r: Response)
    requires
        ks.wf(),
    ensures
        r is Array,
        views(r->Array_0@).no_duplicates(),
        views(r->Array_0@).to_set() == matching_keys(ks@, pattern@),
{
    proof {
        reveal_strlit("*");
    }
    let star = lit("*");
    if bytes_eq(pattern.as_slice(), star.as_slice()) {
        return Response::Array(ks.keys());
    }
    let mut out: Vec<Vec<u8>> = Vec::new();
    if ks.contains_key(pattern.as_slice()) {
        out.push(vstd::slice::slice_to_vec(pattern.as_slice()));
    }
    proof {
        let v = views(out@);
        if ks@.contains_key(pattern@) {
            assert(v =~= seq![pattern@]);
            assert(v.to_set() =~= set![pattern@]) by {
                assert(v[0] == pattern@);
            }
        } else {
            assert(v =~= Seq::<Seq<u8>>::empty());
            assert(v.to_set() =~= Set::<Seq<u8>>::empty());
        }
    }
    Response::Array(out)
}

/// Carries out `cmd` against the keyspace at instant `now` (milliseconds
/// since the Unix epoch) and returns the reply.
pub fn dispatch(
    cmd: &RedisCommand,
    ks: &mut Keyspace,
    config: &ServerConfig,
    repl: &ReplicationInfo,
    now: u64,
) -> (r: Response)
    requires
        old(ks).wf(),
    ensures
        final(ks).wf(),
        final(ks)@ == keyspace_after(cmd@, old(ks)@, now),
        is_reply(cmd@, old(ks)@, config, repl, now, encode_response(r)),
{
    proof {
        reveal_strlit("PONG");
        reveal_strlit("OK");
        reveal_strlit("unknown command");
        reveal_strlit("$-1\r\n");
    }
    match cmd {
        RedisCommand::Ping => Response::Simple(lit("PONG")),
        RedisCommand::Echo(msg) => Response::Bulk(vstd::slice::slice_to_vec(msg.as_slice())),
        RedisCommand::SetKey { key, value, expiry } => {
            ks.set(
                vstd::slice::slice_to_vec(key.as_slice()),
                vstd::slice::slice_to_vec(value.as_slice()),
                *expiry,
                now,
            );
            Response::Simple(lit("OK"))
        },
        RedisCommand::Get(key) => match ks.get(key.as_slice(), now) {
            Some(v) => Response::Bulk(v),
            None => {
                let r = Response::Null;
                assert(encode_response(r) =~= null_reply());
                r
            },
        },
        RedisCommand::ConfigGet(param) => config_get(config, param),
        RedisCommand::Keys(pattern) => keys(ks, pattern),
        RedisCommand::Info => info(config, repl),
        RedisCommand::ReplConf(_) => Response::Simple(lit("OK")),
        RedisCommand::Psync { .. } => fullresync(repl),
        RedisCommand::Unrecognized => err(lit("unknown command")),
    }
}

/// Reads one request from the start of `input` and carries it out. Returns
/// nothing while the request is incomplete; otherwise the encoded reply and
/// how many bytes of `input` were used. Input that cannot start a request is
/// answered as an unknown command and used up whole.
pub fn handle_command(
    input: &[u8],
    ks: &mut Keyspace,
    config: &ServerConfig,
    repl: &ReplicationInfo,
    now: u64,
) -> (r: Option<(Vec<u8>, usize)>)
    requires
        old(ks).wf(),
    ensures
        final(ks).wf(),
        match parse_request(input@) {
            Parsed::Incomplete => r.is_none() && final(ks)@ == old(ks)@,
            Parsed::Malformed => r is Some && r.unwrap().0@ == error_reply(ascii("unknown command"@))
                && r.unwrap().1 == input@.len() && final(ks)@ == old(ks)@,
            Parsed::Done(items, n) => r is Some && r.unwrap().1 as int == n && final(ks)@
                == keyspace_after(command_of(items), old(ks)@, now) && is_reply(
                command_of(items),
                old(ks)@,
                config,
                repl,
                now,
                r.unwrap().0@,
            ),
        },
{
    match decode_request(input) {
        Decoded::Incomplete => None,
        Decoded::Malformed => {
            proof {
                reveal_strlit("unknown command");
            }
            let reply = err(lit("unknown command"));
            Some((reply.encode(), input.len()))
        },
        Decoded::Complete { items, consumed } => {
            let cmd = RedisCommand::from_items(&items);
            let reply = dispatch(&cmd, ks, config, repl, now);
            Some((reply.encode(), consumed))
        },
    }
}

/// A `GET` request for a key that the keyspace does not hold decodes whole,
/// is answered with the null bulk reply, and leaves the keyspace unchanged,
/// whatever bytes the key holds.
pub proof fn lemma_get_missing_key(
    key: Seq<u8>,
    m: Map<Seq<u8>, EntryView>,
    config: &ServerConfig,
    repl: &ReplicationInfo,
    now: u64,
    reply: Seq<u8>,
)
    requires
        !m.contains_key(key),
        is_reply(command_of(seq![word_get(), key]), m, config, repl, now, reply),
    ensures
        parse_request(encode_array(seq![word_get(), key])) == Parsed::<Seq<Seq<u8>>>::Done(
            seq![word_get(), key],
            encode_array(seq![word_get(), key]).len() as int,
        ),
        command_of(seq![word_get(), key]) == CommandView::Get(key),
        reply == null_reply(),
        keyspace_after(command_of(seq![word_get(), key]), m, now) == m,
{
    let items = seq![word_get(), key];
    lemma_request_round_trip(items, Seq::empty());
    assert(encode_array(items) + Seq::<u8>::empty() =~= encode_array(items));
    assert(items[0] == word_get());
    assert(crate::bytes::eq_ignore_case(items[0], word_get()));
}

} // verus!
