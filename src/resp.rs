//! The wire codec: requests arrive as an array of length-prefixed bulk
//! strings (`*<n>\r\n` then `n` times `$<len>\r\n<bytes>\r\n`); replies are
//! encoded from a `Response` value.
//!
//! Decoding is specified by a parser over byte sequences (`parse_request`);
//! the executable decoder is proved to compute it, and the laws at the end of
//! this module relate it to the encoding.

use vstd::prelude::*;
use crate::bytes::{
    all_digits, append_bytes, append_decimal, decimal, digits_value, is_digit, lemma_decimal,
    parse_uint,
};

verus! {

/// Outcome of reading one element of the framing at some position.
pub enum Parsed<T> {
    /// The buffer ends before the element does.
    Incomplete,
    /// The bytes present cannot start a well-formed element.
    Malformed,
    /// The element, and the position just past it.
    Done(T, int),
}

pub open spec fn crlf() -> Seq<u8> {
    seq![13u8, 10u8]
}

/// Number of consecutive ASCII digits in `buf` from `pos` on.
pub open spec fn digit_run(buf: Seq<u8>, pos: int) -> nat
    decreases buf.len() - pos,
{
    if 0 <= pos < buf.len() && is_digit(buf[pos]) {
        1 + digit_run(buf, pos + 1)
    } else {
        0
    }
}

/// A length or count: a decimal in shortest form (no leading zero), then CRLF.
pub open spec fn parse_number(buf: Seq<u8>, pos: int) -> Parsed<nat> {
    let k = digit_run(buf, pos) as int;
    if k > 1 && buf[pos] == 48 {
        Parsed::Malformed
    } else if pos + k >= buf.len() {
        Parsed::Incomplete
    } else if k == 0 || buf[pos + k] != 13 {
        Parsed::Malformed
    } else if pos + k + 1 >= buf.len() {
        Parsed::Incomplete
    } else if buf[pos + k + 1] != 10 {
        Parsed::Malformed
    } else {
        Parsed::Done(digits_value(buf.subrange(pos, pos + k)), pos + k + 2)
    }
}

/// One bulk string: `$`, its length, CRLF, the bytes, CRLF.
pub open spec fn parse_bulk(buf: Seq<u8>, pos: int) -> Parsed<Seq<u8>> {
    if pos >= buf.len() {
        Parsed::Incomplete
    } else if buf[pos] != 36 {
        Parsed::Malformed
    } else {
        match parse_number(buf, pos + 1) {
            Parsed::Incomplete => Parsed::Incomplete,
            Parsed::Malformed => Parsed::Malformed,
            Parsed::Done(n, p) => {
                if p + n + 2 > buf.len() {
                    Parsed::Incomplete
                } else if buf[p + n] == 13 && buf[p + n + 1] == 10 {
                    Parsed::Done(buf.subrange(p, p + n), p + n + 2)
                } else {
                    Parsed::Malformed
                }
            },
        }
    }
}

/// `count` bulk strings one after another from `pos`.
pub open spec fn parse_items(buf: Seq<u8>, pos: int, count: nat) -> Parsed<Seq<Seq<u8>>>
    decreases count,
{
    if count == 0 {
        Parsed::Done(Seq::empty(), pos)
    } else {
        match parse_items(buf, pos, (count - 1) as nat) {
            Parsed::Done(items, p) => match parse_bulk(buf, p) {
                Parsed::Done(b, q) => Parsed::Done(items.push(b), q),
                Parsed::Incomplete => Parsed::Incomplete,
                Parsed::Malformed => Parsed::Malformed,
            },
            Parsed::Incomplete => Parsed::Incomplete,
            Parsed::Malformed => Parsed::Malformed,
        }
    }
}

/// One request at the start of `buf`: `*`, the element count, CRLF, the elements.
pub open spec fn parse_request(buf: Seq<u8>) -> Parsed<Seq<Seq<u8>>> {
    if buf.len() == 0 {
        Parsed::Incomplete
    } else if buf[0] != 42 {
        Parsed::Malformed
    } else {
        match parse_number(buf, 1) {
            Parsed::Done(n, p) => parse_items(buf, p, n),
            Parsed::Incomplete => Parsed::Incomplete,
            Parsed::Malformed => Parsed::Malformed,
        }
    }
}

pub open spec fn encode_bulk(b: Seq<u8>) -> Seq<u8> {
    seq![36u8] + decimal(b.len()) + crlf() + b + crlf()
}

pub open spec fn encode_bulks(items: Seq<Seq<u8>>) -> Seq<u8>
    decreases items.len(),
{
    if items.len() == 0 {
        Seq::empty()
    } else {
        encode_bulks(items.drop_last()) + encode_bulk(items.last())
    }
}

/// An array of bulk strings, as requests (and array replies) are framed.
pub open spec fn encode_array(items: Seq<Seq<u8>>) -> Seq<u8> {
    seq![42u8] + decimal(items.len()) + crlf() + encode_bulks(items)
}

/// The result of decoding the start of a buffer.
pub enum Decoded {
    /// More bytes are needed before a request can be read.
    Incomplete,
    /// The buffer does not start with a well-formed request.
    Malformed,
    /// A request's elements, and how many bytes it took.
    Complete { items: Vec<Vec<u8>>, consumed: usize },
}

pub open spec fn views(items: Seq<Vec<u8>>) -> Seq<Seq<u8>> {
    items.map_values(|v: Vec<u8>| v@)
}

impl Decoded {
    /// This decoding result is the parse `p`.
    pub open spec fn is(self, p: Parsed<Seq<Seq<u8>>>) -> bool {
        match self {
            Decoded::Incomplete => p is Incomplete,
            Decoded::Malformed => p is Malformed,
            Decoded::Complete { items, consumed } => p == Parsed::Done(
                views(items@),
                consumed as int,
            ),
        }
    }
}

/// A reply to a client.
pub enum Response {
    /// A status line: `+<text>\r\n`.
    Simple(Vec<u8>),
    /// An error line with its kind: `-<kind> <message>\r\n`.
    Error { kind: Vec<u8>, message: Vec<u8> },
    /// A bulk payload.
    Bulk(Vec<u8>),
    /// The null bulk payload: `$-1\r\n`.
    Null,
    /// An array of bulk payloads.
    Array(Vec<Vec<u8>>),
}

pub open spec fn encode_response(r: Response) -> Seq<u8> {
    match r {
        Response::Simple(s) => seq![43u8] + s@ + crlf(),
        Response::Error { kind, message } => seq![45u8] + kind@ + seq![32u8] + message@ + crlf(),
        Response::Bulk(b) => encode_bulk(b@),
        Response::Null => seq![36u8, 45u8, 49u8, 13u8, 10u8],
        Response::Array(items) => encode_array(views(items@)),
    }
}

proof fn lemma_digit_run(buf: Seq<u8>, pos: int, k: int)
    requires
        0 <= pos,
        0 <= k,
        pos + k <= buf.len(),
        forall|j: int| pos <= j < pos + k ==> #[trigger] is_digit(buf[j]),
    ensures
        digit_run(buf, pos) >= k,
        (pos + k == buf.len() || !is_digit(buf[pos + k])) ==> digit_run(buf, pos) == k,
    decreases k,
{
    if k > 0 {
        lemma_digit_run(buf, pos + 1, k - 1);
    }
}

/// Number of digits at `pos`.
fn count_digits(buf: &[u8], pos: usize) -> (k: usize)
    requires
        pos <= buf@.len(),
    ensures
        pos + k <= buf@.len(),
        k == digit_run(buf@, pos as int),
        forall|j: int| pos <= j < pos + k ==> #[trigger] is_digit(buf@[j]),
{
    let mut i: usize = pos;
    while i < buf.len() && 48 <= buf[i] && buf[i] <= 57
        invariant
            pos <= i <= buf@.len(),
            forall|j: int| pos <= j < i ==> #[trigger] is_digit(buf@[j]),
        decreases buf.len() - i,
    {
        i = i + 1;
    }
    proof {
        lemma_digit_run(buf@, pos as int, (i - pos) as int);
    }
    i - pos
}

/// Outcome of reading one element: as `Parsed`, with executable values.
enum Read<T> {
    Incomplete,
    Malformed,
    Done(T, usize),
}

/// Reads the number that `parse_number` describes; `None` stands for a
/// number too large for 64 bits.
fn read_number(buf: &[u8], pos: usize) -> (r: Read<Option<u64>>)
    requires
        pos <= buf@.len(),
    ensures
        match parse_number(buf@, pos as int) {
            Parsed::Incomplete => r is Incomplete,
            Parsed::Malformed => r is Malformed,
            Parsed::Done(n, p) => r matches Read::Done(v, q) && q as int == p && match v {
                Some(x) => x as nat == n,
                None => n > u64::MAX,
            },
        },
{
    let len = buf.len();
    let k = count_digits(buf, pos);
    if k > 1 && buf[pos] == 48 {
        return Read::Malformed;
    }
    if pos + k >= len {
        return Read::Incomplete;
    }
    if k == 0 || buf[pos + k] != 13 {
        return Read::Malformed;
    }
    if pos + k + 1 >= len {
        return Read::Incomplete;
    }
    if buf[pos + k + 1] != 10 {
        return Read::Malformed;
    }
    let digits = vstd::slice::slice_subrange(buf, pos, pos + k);
    proof {
        assert forall|j: int| 0 <= j < digits@.len() implies #[trigger] is_digit(digits@[j]) by {
            assert(digits@[j] == buf@[pos + j]);
        }
        assert(all_digits(digits@));
    }
    Read::Done(parse_uint(digits), pos + k + 2)
}

/// Reads the bulk string that `parse_bulk` describes.
fn read_bulk(buf: &[u8], pos: usize) -> (r: Read<Vec<u8>>)
    requires
        pos <= buf@.len(),
    ensures
        match parse_bulk(buf@, pos as int) {
            Parsed::Incomplete => r is Incomplete,
            Parsed::Malformed => r is Malformed,
            Parsed::Done(b, p) => r matches Read::Done(v, q) && v@ == b && q as int == p,
        },
{
    if pos >= buf.len() {
        return Read::Incomplete;
    }
    if buf[pos] != 36 {
        return Read::Malformed;
    }
    let (n, p) = match read_number(buf, pos + 1) {
        Read::Incomplete => return Read::Incomplete,
        Read::Malformed => return Read::Malformed,
        Read::Done(Some(n), p) => (n, p),
        Read::Done(None, _) => return Read::Incomplete,
    };
    if n > (buf.len() - p) as u64 || buf.len() - p - (n as usize) < 2 {
        return Read::Incomplete;
    }
    let end = p + n as usize;
    if buf[end] == 13 && buf[end + 1] == 10 {
        let b = vstd::slice::slice_to_vec(vstd::slice::slice_subrange(buf, p, end));
        Read::Done(b, end + 2)
    } else {
        Read::Malformed
    }
}

/// Decodes the request at the start of `buf`.
pub fn decode_request(buf: &[u8]) -> (r: Decoded)
    ensures
        r.is(parse_request(buf@)),
{
    if buf.len() == 0 {
        return Decoded::Incomplete;
    }
    if buf[0] != 42 {
        return Decoded::Malformed;
    }
    // A count too large for 64 bits cannot be met: the buffer runs out first.
    let (count, start) = match read_number(buf, 1) {
        Read::Incomplete => return Decoded::Incomplete,
        Read::Malformed => return Decoded::Malformed,
        Read::Done(Some(count), start) => (count, start),
        Read::Done(None, start) => (u64::MAX, start),
    };
    let ghost total: nat = match parse_number(buf@, 1) {
        Parsed::Done(n, _) => n,
        _ => 0,
    };
    let mut items: Vec<Vec<u8>> = Vec::new();
    let mut pos: usize = start;
    let mut i: u64 = 0;
    assert(views(items@) =~= Seq::<Seq<u8>>::empty());
    while i < count
        invariant
            i <= count,
            count <= total,
            count < total ==> count == u64::MAX,
            start <= pos <= buf@.len(),
            pos >= start + i,
            parse_request(buf@) == parse_items(buf@, start as int, total),
            parse_items(buf@, start as int, i as nat) == Parsed::Done(views(items@), pos as int),
        decreases count - i,
    {
        let (b, next) = match read_bulk(buf, pos) {
            Read::Incomplete => {
                proof {
                    lemma_items_stop(buf@, start as int, (i + 1) as nat, total);
                }
                return Decoded::Incomplete;
            },
            Read::Malformed => {
                proof {
                    lemma_items_stop(buf@, start as int, (i + 1) as nat, total);
                }
                return Decoded::Malformed;
            },
            Read::Done(b, next) => (b, next),
        };
        proof {
            assert(views(items@.push(b)) =~= views(items@).push(b@));
        }
        items.push(b);
        pos = next;
        i = i + 1;
    }
    assert(count == total);
    Decoded::Complete { items, consumed: pos }
}

/// Once a prefix of the items fails to parse, so does the whole list.
proof fn lemma_items_stop(buf: Seq<u8>, pos: int, i: nat, count: nat)
    requires
        i <= count,
        !(parse_items(buf, pos, i) is Done),
    ensures
        parse_items(buf, pos, count) == parse_items(buf, pos, i),
    decreases count - i,
{
    if i < count {
        lemma_items_stop(buf, pos, i + 1, count);
    }
}

/// Appends the framing of `b` as a bulk string.
fn append_bulk(out: &mut Vec<u8>, b: &[u8])
    ensures
        final(out)@ == old(out)@ + encode_bulk(b@),
{
    out.push(36);
    append_decimal(out, b.len() as u64);
    out.push(13);
    out.push(10);
    append_bytes(out, b);
    out.push(13);
    out.push(10);
    assert(out@ =~= old(out)@ + encode_bulk(b@));
}

/// Frames `items` as an array of bulk strings.
pub fn encode_array_exec(items: &Vec<Vec<u8>>) -> (r: Vec<u8>)
    ensures
        r@ == encode_array(views(items@)),
{
    let mut out: Vec<u8> = Vec::new();
    out.push(42);
    append_decimal(&mut out, items.len() as u64);
    out.push(13);
    out.push(10);
    let ghost head = out@;
    let mut i: usize = 0;
    while i < items.len()
        invariant
            0 <= i <= items@.len(),
            head == seq![42u8] + decimal(items@.len()) + crlf(),
            out@ == head + encode_bulks(views(items@).take(i as int)),
        decreases items.len() - i,
    {
        append_bulk(&mut out, items[i].as_slice());
        proof {
            let v = views(items@);
            assert(v.take(i + 1).drop_last() =~= v.take(i as int));
            assert(v.take(i + 1).last() == items@[i as int]@);
        }
        i = i + 1;
        assert(out@ =~= head + encode_bulks(views(items@).take(i as int)));
    }
    assert(views(items@).take(items@.len() as int) =~= views(items@));
    out
}

impl Response {
    /// The bytes of this reply on the wire.
    pub fn encode(&self) -> (r: Vec<u8>)
        ensures
            r@ == encode_response(*self),
    {
        match self {
            Response::Simple(s) => {
                let mut out: Vec<u8> = Vec::new();
                out.push(43);
                append_bytes(&mut out, s.as_slice());
                out.push(13);
                out.push(10);
                assert(out@ =~= encode_response(*self));
                out
            },
            Response::Error { kind, message } => {
                let mut out: Vec<u8> = Vec::new();
                out.push(45);
                append_bytes(&mut out, kind.as_slice());
                out.push(32);
                append_bytes(&mut out, message.as_slice());
                out.push(13);
                out.push(10);
                assert(out@ =~= encode_response(*self));
                out
            },
            Response::Bulk(b) => {
                let mut out: Vec<u8> = Vec::new();
                append_bulk(&mut out, b.as_slice());
                assert(out@ =~= encode_response(*self));
                out
            },
            Response::Null => {
                let out: Vec<u8> = vec![36, 45, 49, 13, 10];
                assert(out@ =~= encode_response(*self));
                out
            },
            Response::Array(items) => encode_array_exec(items),
        }
    }
}

proof fn lemma_number_at(buf: Seq<u8>, pos: int, n: nat)
    requires
        0 <= pos,
        pos + decimal(n).len() + 2 <= buf.len(),
        buf.subrange(pos, pos + decimal(n).len() + 2) == decimal(n) + crlf(),
    ensures
        parse_number(buf, pos) == Parsed::<nat>::Done(n, pos + decimal(n).len() + 2),
{
    let d = decimal(n);
    let k = d.len() as int;
    lemma_decimal(n);
    let w = buf.subrange(pos, pos + k + 2);
    assert forall|j: int| pos <= j < pos + k implies #[trigger] is_digit(buf[j]) by {
        assert(buf[j] == w[j - pos]);
        assert(w[j - pos] == d[j - pos]);
    }
    assert(buf[pos + k] == w[k]);
    assert(buf[pos + k + 1] == w[k + 1]);
    lemma_digit_run(buf, pos, k);
    assert(buf[pos] == w[0]);
    assert(w[0] == d[0]);
    assert(buf.subrange(pos, pos + k) =~= d) by {
        assert forall|j: int| 0 <= j < k implies buf.subrange(pos, pos + k)[j] == d[j] by {
            assert(buf[pos + j] == w[j]);
        }
    }
}

proof fn lemma_bulk_at(buf: Seq<u8>, pos: int, b: Seq<u8>)
    requires
        0 <= pos,
        pos + encode_bulk(b).len() <= buf.len(),
        buf.subrange(pos, pos + encode_bulk(b).len()) == encode_bulk(b),
    ensures
        parse_bulk(buf, pos) == Parsed::<Seq<u8>>::Done(b, pos + encode_bulk(b).len()),
{
    let e = encode_bulk(b);
    let d = decimal(b.len());
    let k = d.len() as int;
    let w = buf.subrange(pos, pos + e.len());
    assert(buf[pos] == w[0]);
    assert(buf.subrange(pos + 1, pos + 1 + k + 2) =~= d + crlf()) by {
        assert forall|j: int| 0 <= j < k + 2 implies buf.subrange(pos + 1, pos + 1 + k + 2)[j] == (
        d + crlf())[j] by {
            assert(buf[pos + 1 + j] == w[1 + j]);
        }
    }
    lemma_number_at(buf, pos + 1, b.len());
    let p = pos + 1 + k + 2;
    let n = b.len() as int;
    assert(buf[p + n] == w[1 + k + 2 + n]);
    assert(buf[p + n + 1] == w[1 + k + 2 + n + 1]);
    assert(buf.subrange(p, p + n) =~= b) by {
        assert forall|j: int| 0 <= j < n implies buf.subrange(p, p + n)[j] == b[j] by {
            assert(buf[p + j] == w[1 + k + 2 + j]);
        }
    }
}

proof fn lemma_items_at(buf: Seq<u8>, pos: int, items: Seq<Seq<u8>>)
    requires
        0 <= pos,
        pos + encode_bulks(items).len() <= buf.len(),
        buf.subrange(pos, pos + encode_bulks(items).len()) == encode_bulks(items),
    ensures
        parse_items(buf, pos, items.len()) == Parsed::<Seq<Seq<u8>>>::Done(
            items,
            pos + encode_bulks(items).len(),
        ),
    decreases items.len(),
{
    if items.len() == 0 {
        assert(items =~= Seq::<Seq<u8>>::empty());
    } else {
        let init = items.drop_last();
        let a = encode_bulks(init);
        let last = encode_bulk(items.last());
        let w = buf.subrange(pos, pos + a.len() + last.len());
        assert(buf.subrange(pos, pos + a.len()) =~= a) by {
            assert forall|j: int| 0 <= j < a.len() implies buf.subrange(pos, pos + a.len())[j]
                == a[j] by {
                assert(buf[pos + j] == w[j]);
            }
        }
        lemma_items_at(buf, pos, init);
        assert(buf.subrange(pos + a.len(), pos + a.len() + last.len()) =~= last) by {
            assert forall|j: int| 0 <= j < last.len() implies buf.subrange(
                pos + a.len(),
                pos + a.len() + last.len(),
            )[j] == last[j] by {
                assert(buf[pos + a.len() + j] == w[a.len() + j]);
            }
        }
        lemma_bulk_at(buf, pos + a.len(), items.last());
        assert(init.push(items.last()) =~= items);
    }
}

/// Decoding an encoded bulk string gives back exactly its bytes, whatever
/// follows it in the buffer.
pub proof fn lemma_bulk_round_trip(b: Seq<u8>, rest: Seq<u8>)
    ensures
        parse_bulk(encode_bulk(b) + rest, 0) == Parsed::<Seq<u8>>::Done(b, encode_bulk(b).len() as int),
{
    let buf = encode_bulk(b) + rest;
    assert(buf.subrange(0, encode_bulk(b).len() as int) =~= encode_bulk(b));
    lemma_bulk_at(buf, 0, b);
}

/// Decoding an encoded request gives back exactly its items, and reports the
/// length of the encoding as consumed, whatever bytes follow it.
pub proof fn lemma_request_round_trip(items: Seq<Seq<u8>>, rest: Seq<u8>)
    ensures
        parse_request(encode_array(items) + rest) == Parsed::<Seq<Seq<u8>>>::Done(
            items,
            encode_array(items).len() as int,
        ),
{
    let buf = encode_array(items) + rest;
    let d = decimal(items.len());
    let k = d.len() as int;
    let e = encode_bulks(items);
    assert(buf[0] == 42u8);
    assert(buf.subrange(1, 1 + k + 2) =~= d + crlf());
    lemma_number_at(buf, 1, items.len());
    assert(buf.subrange(1 + k + 2, 1 + k + 2 + e.len()) =~= e);
    lemma_items_at(buf, 1 + k + 2, items);
}

} // verus!
