//! The snapshot decoder: recovers `(key, value, expiry)` records from the
//! bytes of a snapshot file, stopping at the first record that does not
//! parse, and loads the unexpired ones into a keyspace.
//!
//! Layout read: a nine-byte header (`REDIS` and four version digits); any
//! bytes up to the database-selector marker `0xFE`; a one-byte database
//! index; optionally a resize hint (`0xFB` and two size-encoded numbers);
//! then records up to the end marker `0xFF`. A record is an optional expiry
//! (`0xFC` and eight little-endian bytes of milliseconds), a one-byte value
//! type, then the key and the value as size-encoded strings.

use vstd::prelude::*;
use crate::keyspace::{is_expired, EntryView, Keyspace};

verus! {

/// A record read from a snapshot.
pub struct SnapshotEntry {
    pub key: Vec<u8>,
    pub value: Vec<u8>,
    pub expires_at: Option<u64>,
}

/// A record as `(key, value, expiry instant)`.
pub type RecordView = (Seq<u8>, Seq<u8>, Option<u64>);

impl View for SnapshotEntry {
    type V = RecordView;

    open spec fn view(&self) -> RecordView {
        (self.key@, self.value@, self.expires_at)
    }
}

pub open spec fn record_views(r: Seq<SnapshotEntry>) -> Seq<RecordView> {
    r.map_values(|e: SnapshotEntry| e@)
}

pub const DB_SELECTOR: u8 = 0xFE;

pub const RESIZE_HINT: u8 = 0xFB;

pub const EXPIRY_MS: u8 = 0xFC;

pub const END_OF_FILE: u8 = 0xFF;

/// `256` to the power `n`.
pub open spec fn pow256(n: nat) -> nat
    decreases n,
{
    if n == 0 {
        1
    } else {
        256 * pow256((n - 1) as nat)
    }
}

/// The value of bytes read least significant first.
pub open spec fn le_value(s: Seq<u8>) -> nat
    decreases s.len(),
{
    if s.len() == 0 {
        0
    } else {
        s[0] as nat + 256 * le_value(s.drop_first())
    }
}

/// A size-encoded number at `pos` and the position after it. The top two bits
/// of the first byte choose the form: `00` a 6-bit number in that byte, `01` a
/// 14-bit number in it and the next byte, `10` a 32-bit big-endian number in
/// the next four bytes; `11` is not supported.
pub open spec fn parse_size(buf: Seq<u8>, pos: int) -> Option<(nat, int)> {
    if pos < 0 || pos >= buf.len() {
        None
    } else {
        let b = buf[pos];
        if b / 64 == 0 {
            Some(((b % 64) as nat, pos + 1))
        } else if b / 64 == 1 {
            if pos + 1 >= buf.len() {
                None
            } else {
                Some(((b % 64) as nat * 256 + buf[pos + 1] as nat, pos + 2))
            }
        } else if b / 64 == 2 {
            if buf.len() - pos <= 4 {
                None
            } else {
                Some(
                    (
                        buf[pos + 1] as nat * 16777216 + buf[pos + 2] as nat * 65536 + buf[pos
                            + 3] as nat * 256 + buf[pos + 4] as nat,
                        pos + 5,
                    ),
                )
            }
        } else {
            None
        }
    }
}

/// A size-encoded string at `pos` and the position after it.
pub open spec fn parse_string(buf: Seq<u8>, pos: int) -> Option<(Seq<u8>, int)> {
    match parse_size(buf, pos) {
        Some((n, p)) => if p + n <= buf.len() {
            Some((buf.subrange(p, p + n), p + n))
        } else {
            None
        },
        None => None,
    }
}

/// Key and value after the value-type byte, with the expiry already read.
pub open spec fn parse_key_value(buf: Seq<u8>, pos: int, expiry: Option<u64>) -> Option<
    (RecordView, int),
> {
    match parse_string(buf, pos) {
        Some((k, p)) => match parse_string(buf, p) {
            Some((v, q)) => Some(((k, v, expiry), q)),
            None => None,
        },
        None => None,
    }
}

/// One record at `pos` and the position after it.
pub open spec fn parse_record(buf: Seq<u8>, pos: int) -> Option<(RecordView, int)> {
    if pos < 0 || pos >= buf.len() {
        None
    } else if buf[pos] == EXPIRY_MS {
        if pos + 10 > buf.len() {
            None
        } else {
            parse_key_value(buf, pos + 10, Some(le_value(buf.subrange(pos + 1, pos + 9)) as u64))
        }
    } else {
        parse_key_value(buf, pos + 1, None)
    }
}

/// The records from `pos` on, up to the end marker, the end of the buffer, or
/// the first record that does not parse.
pub open spec fn records_from(buf: Seq<u8>, pos: int) -> Seq<RecordView>
    decreases buf.len() - pos,
{
    if pos < 0 || pos >= buf.len() || buf[pos] == END_OF_FILE {
        Seq::empty()
    } else {
        match parse_record(buf, pos) {
            Some((r, next)) => if next > pos {
                seq![r] + records_from(buf, next)
            } else {
                Seq::empty()
            },
            None => Seq::empty(),
        }
    }
}

/// The buffer starts with `REDIS` and four version digits.
pub open spec fn has_header(buf: Seq<u8>) -> bool {
    &&& buf.len() >= 9
    &&& buf.subrange(0, 5) == seq![82u8, 69, 68, 73, 83]
    &&& forall|i: int| 5 <= i < 9 ==> 48 <= #[trigger] buf[i] <= 57
}

/// The first position at or after `pos` holding the database selector, or the
/// buffer's length if there is none.
pub open spec fn selector_from(buf: Seq<u8>, pos: int) -> int
    decreases buf.len() - pos,
{
    if pos < 0 || pos >= buf.len() {
        buf.len() as int
    } else if buf[pos] == DB_SELECTOR {
        pos
    } else {
        selector_from(buf, pos + 1)
    }
}

/// Where the records start: after the selector, its index byte, and the
/// resize hint if there is one.
pub open spec fn records_start(buf: Seq<u8>) -> Option<int> {
    let s = selector_from(buf, 9);
    if s >= buf.len() {
        None
    } else if s + 2 < buf.len() && buf[s + 2] == RESIZE_HINT {
        match parse_size(buf, s + 3) {
            Some((_, q)) => match parse_size(buf, q) {
                Some((_, r)) => Some(r),
                None => None,
            },
            None => None,
        }
    } else {
        Some(s + 2)
    }
}

/// All the records that a snapshot file's bytes yield.
pub open spec fn snapshot_records(buf: Seq<u8>) -> Seq<RecordView> {
    if !has_header(buf) {
        Seq::empty()
    } else {
        match records_start(buf) {
            Some(p) => records_from(buf, p),
            None => Seq::empty(),
        }
    }
}

/// The keyspace `m` after storing the records in order, leaving out those
/// already expired at `now`; a later record for a key replaces an earlier one.
pub open spec fn apply_records(m: Map<Seq<u8>, EntryView>, recs: Seq<RecordView>, now: u64) -> Map<
    Seq<u8>,
    EntryView,
>
    decreases recs.len(),
{
    if recs.len() == 0 {
        m
    } else {
        let before = apply_records(m, recs.drop_last(), now);
        let r = recs.last();
        if is_expired(r.2, now) {
            before
        } else {
            before.insert(r.0, (r.1, r.2))
        }
    }
}

/// The `length` bytes at `pos`, and the position after them, if the buffer
/// holds them.
pub fn read_string(buffer: &[u8], pos: usize, length: usize) -> (r: Option<(Vec<u8>, usize)>)
    ensures
        pos + length <= buffer@.len() ==> r == Some((
            r.unwrap().0,
            (pos + length) as usize,
        )) && r.unwrap().0@ == buffer@.subrange(pos as int, pos + length),
        pos + length > buffer@.len() ==> r.is_none(),
{
    if pos > buffer.len() || length > buffer.len() - pos {
        return None;
    }
    let end = pos + length;
    Some((vstd::slice::slice_to_vec(vstd::slice::slice_subrange(buffer, pos, end)), end))
}

fn read_size(buf: &[u8], pos: usize) -> (r: Option<(u64, usize)>)
    ensures
        match parse_size(buf@, pos as int) {
            Some((n, p)) => r == Some((n as u64, p as usize)) && n < 0x1_0000_0000,
            None => r.is_none(),
        },
{
    if pos >= buf.len() {
        return None;
    }
    let b = buf[pos];
    if b / 64 == 0 {
        Some(((b % 64) as u64, pos + 1))
    } else if b / 64 == 1 {
        if pos + 1 >= buf.len() {
            return None;
        }
        Some(((b % 64) as u64 * 256 + buf[pos + 1] as u64, pos + 2))
    } else if b / 64 == 2 {
        if buf.len() - pos <= 4 {
            return None;
        }
        let n = buf[pos + 1] as u64 * 16777216 + buf[pos + 2] as u64 * 65536 + buf[pos + 3] as u64
            * 256 + buf[pos + 4] as u64;
        Some((n, pos + 5))
    } else {
        None
    }
}

fn read_sized_string(buf: &[u8], pos: usize) -> (r: Option<(Vec<u8>, usize)>)
    ensures
        match parse_string(buf@, pos as int) {
            Some((s, p)) => r is Some && r.unwrap().0@ == s && r.unwrap().1 as int == p,
            None => r.is_none(),
        },
{
    match read_size(buf, pos) {
        Some((n, p)) => {
            if n > (buf.len() - p) as u64 {
                return None;
            }
            read_string(buf, p, n as usize)
        },
        None => None,
    }
}

/// Eight bytes, least significant first.
fn read_le_u64(bytes: &[u8]) -> (r: u64)
    requires
        bytes@.len() == 8,
    ensures
        r as nat == le_value(bytes@),
{
    let mut acc: u64 = 0;
    let mut i: usize = 8;
    proof {
        reveal_with_fuel(pow256, 9);
        assert(bytes@.subrange(8, 8) =~= Seq::<u8>::empty());
    }
    while i > 0
        invariant
            bytes@.len() == 8,
            i <= 8,
            acc as nat == le_value(bytes@.subrange(i as int, 8)),
            acc < pow256((8 - i) as nat),
            pow256(8) == 0x1_0000_0000_0000_0000nat,
        decreases i,
    {
        i = i - 1;
        let b = bytes[i];
        proof {
            let s = bytes@.subrange(i as int, 8);
            assert(s.drop_first() =~= bytes@.subrange(i + 1, 8));
            assert(s[0] == b);
            let k = (8 - i - 1) as nat;
            assert(pow256(k + 1) == 256 * pow256(k));
            assert(pow256(k + 1) <= pow256(8)) by {
                lemma_pow256_monotonic(k + 1, 8);
            }
            assert(b as nat + 256 * acc < 256 * pow256(k)) by (nonlinear_arith)
                requires
                    acc < pow256(k),
                    b < 256,
            ;
        }
        acc = b as u64 + 256 * acc;
    }
    assert(bytes@.subrange(0, 8) =~= bytes@);
    acc
}

proof fn lemma_pow256_monotonic(a: nat, b: nat)
    requires
        a <= b,
    ensures
        pow256(a) <= pow256(b),
    decreases b,
{
    if a < b {
        lemma_pow256_monotonic(a, (b - 1) as nat);
    }
}

fn read_key_value(buf: &[u8], pos: usize, expiry: Option<u64>) -> (r: Option<(SnapshotEntry, usize)>)
    ensures
        match parse_key_value(buf@, pos as int, expiry) {
            Some((rec, p)) => r is Some && r.unwrap().0@ == rec && r.unwrap().1 as int == p,
            None => r.is_none(),
        },
{
    match read_sized_string(buf, pos) {
        Some((key, p)) => match read_sized_string(buf, p) {
            Some((value, q)) => Some((SnapshotEntry { key, value, expires_at: expiry }, q)),
            None => None,
        },
        None => None,
    }
}

fn read_record(buf: &[u8], pos: usize) -> (r: Option<(SnapshotEntry, usize)>)
    ensures
        match parse_record(buf@, pos as int) {
            Some((rec, p)) => r is Some && r.unwrap().0@ == rec && r.unwrap().1 as int == p,
            None => r.is_none(),
        },
{
    if pos >= buf.len() {
        return None;
    }
    if buf[pos] == EXPIRY_MS {
        if buf.len() - pos < 10 {
            return None;
        }
        let t = read_le_u64(vstd::slice::slice_subrange(buf, pos + 1, pos + 9));
        read_key_value(buf, pos + 10, Some(t))
    } else {
        read_key_value(buf, pos + 1, None)
    }
}

/// The records that a snapshot file's bytes yield: none where the header is
/// wrong or there is no database section, else every record up to the end
/// marker, the end of the bytes, or the first record that does not parse.
pub fn decode_snapshot(buf: &[u8]) -> (r: Vec<SnapshotEntry>)
    ensures
        record_views(r@) == snapshot_records(buf@),
{
    let mut out: Vec<SnapshotEntry> = Vec::new();
    assert(record_views(out@) =~= Seq::<RecordView>::empty());
    if buf.len() < 9 || buf[0] != 82 || buf[1] != 69 || buf[2] != 68 || buf[3] != 73 || buf[4] != 83 {
        proof {
            if buf@.len() >= 9 && buf@.subrange(0, 5) == seq![82u8, 69, 68, 73, 83] {
                assert(buf@[0] == buf@.subrange(0, 5)[0]);
                assert(buf@[1] == buf@.subrange(0, 5)[1]);
                assert(buf@[2] == buf@.subrange(0, 5)[2]);
                assert(buf@[3] == buf@.subrange(0, 5)[3]);
                assert(buf@[4] == buf@.subrange(0, 5)[4]);
            }
        }
        return out;
    }
    let mut h: usize = 5;
    while h < 9
        invariant
            5 <= h <= 9,
            buf@.len() >= 9,
            out@.len() == 0,
            forall|i: int| 5 <= i < h ==> 48 <= #[trigger] buf@[i] <= 57,
        decreases 9 - h,
    {
        if buf[h] < 48 || buf[h] > 57 {
            assert(!(48 <= buf@[h as int] <= 57));
            assert(!has_header(buf@));
            assert(record_views(out@) =~= Seq::<RecordView>::empty());
            return out;
        }
        h = h + 1;
    }
    assert(buf@.subrange(0, 5) =~= seq![82u8, 69, 68, 73, 83]);
    assert(has_header(buf@));
    let mut s: usize = 9;
    while s < buf.len() && buf[s] != DB_SELECTOR
        invariant
            9 <= s <= buf@.len(),
            selector_from(buf@, 9) == selector_from(buf@, s as int),
        decreases buf.len() - s,
    {
        s = s + 1;
    }
    if s >= buf.len() {
        return out;
    }
    if buf.len() - s <= 2 {
        assert(record_views(out@) + records_from(buf@, s + 2) =~= record_views(out@));
        return out;
    }
    let mut pos: usize = s + 2;
    if buf[s + 2] == RESIZE_HINT {
        match read_size(buf, s + 3) {
            Some((_, q)) => match read_size(buf, q) {
                Some((_, r)) => {
                    pos = r;
                },
                None => {
                    return out;
                },
            },
            None => {
                return out;
            },
        }
    }
    assert(records_start(buf@) == Some(pos as int));
    while pos < buf.len() && buf[pos] != END_OF_FILE
        invariant
            snapshot_records(buf@) == record_views(out@) + records_from(buf@, pos as int),
        decreases buf.len() - pos,
    {
        match read_record(buf, pos) {
            Some((e, next)) => {
                proof {
                    assert(record_views(out@.push(e)) =~= record_views(out@).push(e@));
                    assert(record_views(out@) + records_from(buf@, pos as int) =~= record_views(
                        out@,
                    ).push(e@) + records_from(buf@, next as int));
                }
                out.push(e);
                pos = next;
            },
            None => {
                assert(record_views(out@) + records_from(buf@, pos as int) =~= record_views(out@));
                return out;
            },
        }
    }
    assert(record_views(out@) + records_from(buf@, pos as int) =~= record_views(out@));
    out
}

/// Stores the records in order into `ks`, leaving out those already expired
/// at `now`.
pub fn load_records(ks: &mut Keyspace, records: &Vec<SnapshotEntry>, now: u64)
    requires
        old(ks).wf(),
    ensures
        final(ks).wf(),
        final(ks)@ == apply_records(old(ks)@, record_views(records@), now),
{
    let ghost recs = record_views(records@);
    let ghost start = ks@;
    let mut i: usize = 0;
    while i < records.len()
        invariant
            ks.wf(),
            0 <= i <= records@.len(),
            recs == record_views(records@),
            ks@ == apply_records(start, recs.subrange(0, i as int), now),
        decreases records.len() - i,
    {
        let e = &records[i];
        proof {
            assert(recs.subrange(0, i + 1).drop_last() =~= recs.subrange(0, i as int));
            assert(recs.subrange(0, i + 1).last() == e@);
        }
        let expired = match e.expires_at {
            Some(t) => now >= t,
            None => false,
        };
        if !expired {
            let key = vstd::slice::slice_to_vec(e.key.as_slice());
            let value = vstd::slice::slice_to_vec(e.value.as_slice());
            ks.insert(key, value, e.expires_at);
        }
        i = i + 1;
    }
    assert(recs.subrange(0, records@.len() as int) =~= recs);
}

/// The keyspace that a snapshot file's bytes give at instant `now`.
pub fn load_snapshot(buf: &[u8], now: u64) -> (r: Keyspace)
    ensures
        r.wf(),
        r@ == apply_records(Map::empty(), snapshot_records(buf@), now),
{
    let records = decode_snapshot(buf);
    let mut ks = Keyspace::new();
    load_records(&mut ks, &records, now);
    ks
}

/// A record always ends after it starts.
proof fn lemma_record_advances(buf: Seq<u8>, pos: int)
    ensures
        parse_record(buf, pos) matches Some((_, next)) ==> next > pos,
{
}

/// When the records at successive positions parse and the one after them
/// does not, decoding from the first position yields exactly the records that
/// parsed: a corrupt record drops itself and what follows, never what came
/// before. In a file with a good header whose records start at the first
/// position, these are all the records the file yields.
pub proof fn lemma_valid_prefix_kept(buf: Seq<u8>, positions: Seq<int>, recs: Seq<RecordView>)
    requires
        positions.len() == recs.len() + 1,
        forall|i: int|
            0 <= i < recs.len() ==> 0 <= positions[i] < buf.len() && buf[positions[i]]
                != END_OF_FILE && #[trigger] parse_record(buf, positions[i]) == Some(
                (recs[i], positions[i + 1]),
            ),
        parse_record(buf, positions.last()) is None,
    ensures
        records_from(buf, positions[0]) == recs,
        has_header(buf) && records_start(buf) == Some(positions[0]) ==> snapshot_records(buf)
            == recs,
    decreases recs.len(),
{
    if recs.len() == 0 {
        assert(records_from(buf, positions[0]) =~= recs);
    } else {
        let ps = positions.drop_first();
        let rs = recs.drop_first();
        assert forall|i: int| 0 <= i < rs.len() implies 0 <= ps[i] < buf.len() && buf[ps[i]]
            != END_OF_FILE && #[trigger] parse_record(buf, ps[i]) == Some((rs[i], ps[i + 1])) by {
            assert(parse_record(buf, positions[i + 1]) == Some((recs[i + 1], positions[i + 2])));
        }
        lemma_valid_prefix_kept(buf, ps, rs);
        assert(parse_record(buf, positions[0]) == Some((recs[0], positions[1])));
        lemma_record_advances(buf, positions[0]);
        assert(records_from(buf, positions[0]) =~= seq![recs[0]] + records_from(buf, positions[1]));
        assert(seq![recs[0]] + rs =~= recs);
    }
}

/// No entry that loading stores into a keyspace without expired entries is
/// expired at the load instant: expired records never enter the keyspace.
pub proof fn lemma_loaded_unexpired(m: Map<Seq<u8>, EntryView>, recs: Seq<RecordView>, now: u64)
    requires
        forall|k: Seq<u8>| #[trigger] m.contains_key(k) ==> !is_expired(m[k].1, now),
    ensures
        forall|k: Seq<u8>|
            #[trigger] apply_records(m, recs, now).contains_key(k) ==> !is_expired(
                apply_records(m, recs, now)[k].1,
                now,
            ),
    decreases recs.len(),
{
    if recs.len() > 0 {
        lemma_loaded_unexpired(m, recs.drop_last(), now);
        let before = apply_records(m, recs.drop_last(), now);
        let after = apply_records(m, recs, now);
        let r = recs.last();
        assert forall|k: Seq<u8>| #[trigger] after.contains_key(k) implies !is_expired(after[k].1, now) by {
            if !is_expired(r.2, now) && k == r.0 {
                assert(after[k] == (r.1, r.2));
            } else {
                assert(before.contains_key(k));
            }
        }
    }
}

/// A keyspace loaded from a snapshot holds no entry expired at the load
/// instant.
pub proof fn lemma_snapshot_load_unexpired(buf: Seq<u8>, now: u64)
    ensures
        forall|k: Seq<u8>|
            #[trigger] apply_records(Map::empty(), snapshot_records(buf), now).contains_key(k)
                ==> !is_expired(apply_records(Map::empty(), snapshot_records(buf), now)[k].1, now),
{
    lemma_loaded_unexpired(Map::empty(), snapshot_records(buf), now);
}

/// The size encoding of `n` in its shortest form.
pub open spec fn encode_size(n: nat) -> Seq<u8> {
    if n < 64 {
        seq![n as u8]
    } else if n < 16384 {
        seq![(64 + n / 256) as u8, (n % 256) as u8]
    } else {
        seq![
            128u8,
            (n / 16777216) as u8,
            (n / 65536 % 256) as u8,
            (n / 256 % 256) as u8,
            (n % 256) as u8,
        ]
    }
}

/// `t` as `k` bytes, least significant first.
pub open spec fn le_bytes(t: nat, k: nat) -> Seq<u8>
    decreases k,
{
    if k == 0 {
        Seq::empty()
    } else {
        seq![(t % 256) as u8] + le_bytes(t / 256, (k - 1) as nat)
    }
}

pub open spec fn encode_string(s: Seq<u8>) -> Seq<u8> {
    encode_size(s.len()) + s
}

/// A string-valued record as a snapshot writes it.
pub open spec fn encode_record(r: RecordView) -> Seq<u8> {
    let body = seq![0u8] + encode_string(r.0) + encode_string(r.1);
    match r.2 {
        Some(t) => seq![EXPIRY_MS] + le_bytes(t as nat, 8) + body,
        None => body,
    }
}

pub open spec fn encode_records(rs: Seq<RecordView>) -> Seq<u8>
    decreases rs.len(),
{
    if rs.len() == 0 {
        Seq::empty()
    } else {
        encode_record(rs[0]) + encode_records(rs.drop_first())
    }
}

/// A record whose key and value lengths fit the 32-bit size form.
pub open spec fn storable(r: RecordView) -> bool {
    r.0.len() < 0x1_0000_0000 && r.1.len() < 0x1_0000_0000
}

/// The optional resize hint as a snapshot writes it.
pub open spec fn encode_hint(hint: Option<(nat, nat)>) -> Seq<u8> {
    match hint {
        Some((a, b)) => seq![RESIZE_HINT] + encode_size(a) + encode_size(b),
        None => Seq::empty(),
    }
}

/// A snapshot file: header with version digits `version`, database `db`, an
/// optional resize hint, the records `rs`, then the bytes `tail`.
pub open spec fn snapshot_file(
    version: Seq<u8>,
    db: u8,
    hint: Option<(nat, nat)>,
    rs: Seq<RecordView>,
    tail: Seq<u8>,
) -> Seq<u8> {
    seq![82u8, 69, 68, 73, 83] + version + seq![DB_SELECTOR, db] + encode_hint(hint)
        + encode_records(rs) + tail
}

proof fn lemma_window(buf: Seq<u8>, pos: int, a: Seq<u8>, b: Seq<u8>)
    requires
        0 <= pos,
        pos + a.len() + b.len() <= buf.len(),
        buf.subrange(pos, pos + a.len() + b.len()) == a + b,
    ensures
        buf.subrange(pos, pos + a.len()) == a,
        buf.subrange(pos + a.len(), pos + a.len() + b.len()) == b,
{
    let w = buf.subrange(pos, pos + a.len() + b.len());
    assert forall|j: int| 0 <= j < a.len() implies buf.subrange(pos, pos + a.len())[j] == a[j] by {
        assert(buf[pos + j] == w[j]);
    }
    assert forall|j: int| 0 <= j < b.len() implies buf.subrange(
        pos + a.len(),
        pos + a.len() + b.len(),
    )[j] == b[j] by {
        assert(buf[pos + a.len() + j] == w[a.len() + j]);
    }
    assert(buf.subrange(pos, pos + a.len()) =~= a);
    assert(buf.subrange(pos + a.len(), pos + a.len() + b.len()) =~= b);
}

proof fn lemma_size_at(buf: Seq<u8>, pos: int, n: nat)
    requires
        n < 0x1_0000_0000,
        0 <= pos,
        pos + encode_size(n).len() <= buf.len(),
        buf.subrange(pos, pos + encode_size(n).len()) == encode_size(n),
    ensures
        parse_size(buf, pos) == Some((n, pos + encode_size(n).len())),
{
    let e = encode_size(n);
    let w = buf.subrange(pos, pos + e.len());
    assert forall|j: int| 0 <= j < e.len() implies buf[pos + j] == e[j] by {
        assert(buf[pos + j] == w[j]);
    }
    if n < 64 {
        assert(buf[pos] == e[0]);
    } else if n < 16384 {
        assert(buf[pos] == e[0]);
        assert(buf[pos + 1] == e[1]);
        assert(n == 256 * (n / 256) + n % 256) by {
            vstd::arithmetic::div_mod::lemma_fundamental_div_mod(n as int, 256);
        }
    } else {
        assert(buf[pos] == e[0]);
        assert(buf[pos + 1] == e[1]);
        assert(buf[pos + 2] == e[2]);
        assert(buf[pos + 3] == e[3]);
        assert(buf[pos + 4] == e[4]);
        let a = n / 16777216;
        let b = n / 65536 % 256;
        let c = n / 256 % 256;
        let d = n % 256;
        assert(n == 256 * (n / 256) + d) by {
            vstd::arithmetic::div_mod::lemma_fundamental_div_mod(n as int, 256);
        }
        assert(n / 256 == 256 * (n / 65536) + c) by {
            vstd::arithmetic::div_mod::lemma_fundamental_div_mod((n / 256) as int, 256);
            vstd::arithmetic::div_mod::lemma_div_denominator(n as int, 256, 256);
        }
        assert(n / 65536 == 256 * a + b) by {
            vstd::arithmetic::div_mod::lemma_fundamental_div_mod((n / 65536) as int, 256);
            vstd::arithmetic::div_mod::lemma_div_denominator(n as int, 65536, 256);
        }
        assert(a < 256);
    }
}

proof fn lemma_string_at(buf: Seq<u8>, pos: int, s: Seq<u8>)
    requires
        s.len() < 0x1_0000_0000,
        0 <= pos,
        pos + encode_string(s).len() <= buf.len(),
        buf.subrange(pos, pos + encode_string(s).len()) == encode_string(s),
    ensures
        parse_string(buf, pos) == Some((s, pos + encode_string(s).len())),
{
    lemma_window(buf, pos, encode_size(s.len()), s);
    lemma_size_at(buf, pos, s.len());
}

proof fn lemma_le_bytes(t: nat, k: nat)
    requires
        t < pow256(k),
    ensures
        le_bytes(t, k).len() == k,
        le_value(le_bytes(t, k)) == t,
    decreases k,
{
    if k > 0 {
        let p = pow256((k - 1) as nat);
        assert(t / 256 < p) by (nonlinear_arith)
            requires
                t < 256 * p,
        ;
        lemma_le_bytes(t / 256, (k - 1) as nat);
        let s = le_bytes(t, k);
        assert(s.drop_first() =~= le_bytes(t / 256, (k - 1) as nat));
        assert(t == 256 * (t / 256) + t % 256) by {
            vstd::arithmetic::div_mod::lemma_fundamental_div_mod(t as int, 256);
        }
    }
}

proof fn lemma_record_at(buf: Seq<u8>, pos: int, r: RecordView)
    requires
        storable(r),
        0 <= pos,
        pos + encode_record(r).len() <= buf.len(),
        buf.subrange(pos, pos + encode_record(r).len()) == encode_record(r),
    ensures
        buf[pos] != END_OF_FILE,
        parse_record(buf, pos) == Some((r, pos + encode_record(r).len())),
{
    let ks = encode_string(r.0);
    let vs = encode_string(r.1);
    let body = seq![0u8] + ks + vs;
    let e = encode_record(r);
    match r.2 {
        Some(t) => {
            let lead = seq![EXPIRY_MS] + le_bytes(t as nat, 8);
            reveal_with_fuel(pow256, 9);
            lemma_le_bytes(t as nat, 8);
            assert(e =~= lead + body);
            lemma_window(buf, pos, lead, body);
            lemma_window(buf, pos, seq![EXPIRY_MS], le_bytes(t as nat, 8));
            assert(buf[pos] == buf.subrange(pos, pos + 1)[0]);
            assert(buf.subrange(pos + 1, pos + 9) == le_bytes(t as nat, 8));
            let b = pos + 9;
            assert(body =~= seq![0u8] + (ks + vs));
            lemma_window(buf, b, seq![0u8], ks + vs);
            lemma_window(buf, b + 1, ks, vs);
            lemma_string_at(buf, b + 1, r.0);
            lemma_string_at(buf, b + 1 + ks.len(), r.1);
        },
        None => {
            assert(body =~= seq![0u8] + (ks + vs));
            lemma_window(buf, pos, seq![0u8], ks + vs);
            assert(buf[pos] == buf.subrange(pos, pos + 1)[0]);
            lemma_window(buf, pos + 1, ks, vs);
            lemma_string_at(buf, pos + 1, r.0);
            lemma_string_at(buf, pos + 1 + ks.len(), r.1);
        },
    }
}

proof fn lemma_records_at(buf: Seq<u8>, pos: int, rs: Seq<RecordView>)
    requires
        forall|i: int| 0 <= i < rs.len() ==> storable(#[trigger] rs[i]),
        0 <= pos,
        pos + encode_records(rs).len() <= buf.len(),
        buf.subrange(pos, pos + encode_records(rs).len()) == encode_records(rs),
    ensures
        records_from(buf, pos) == rs + records_from(buf, pos + encode_records(rs).len()),
    decreases rs.len(),
{
    if rs.len() == 0 {
        assert(rs + records_from(buf, pos) =~= records_from(buf, pos));
    } else {
        let first = encode_record(rs[0]);
        let rest = encode_records(rs.drop_first());
        assert(storable(rs[0]));
        lemma_window(buf, pos, first, rest);
        lemma_record_at(buf, pos, rs[0]);
        assert forall|i: int| 0 <= i < rs.drop_first().len() implies storable(
            #[trigger] rs.drop_first()[i],
        ) by {
            assert(rs.drop_first()[i] == rs[i + 1]);
        }
        lemma_records_at(buf, pos + first.len(), rs.drop_first());
        assert(rs + records_from(buf, pos + encode_records(rs).len()) =~= seq![rs[0]] + (
        rs.drop_first() + records_from(buf, pos + first.len() + rest.len())));
    }
}

/// The header and the database selector of a snapshot file are read, and
/// the records start right after the resize hint.
proof fn lemma_file_prefix(
    version: Seq<u8>,
    db: u8,
    hint: Option<(nat, nat)>,
    rs: Seq<RecordView>,
    tail: Seq<u8>,
)
    requires
        version.len() == 4,
        forall|i: int| 0 <= i < 4 ==> 48 <= #[trigger] version[i] <= 57,
        hint matches Some((a, b)) ==> a < 0x1_0000_0000 && b < 0x1_0000_0000,
        hint is None ==> rs.len() > 0 || tail.len() == 0 || tail[0] != RESIZE_HINT,
    ensures
        has_header(snapshot_file(version, db, hint, rs, tail)),
        records_start(snapshot_file(version, db, hint, rs, tail)) == Some(
            11 + encode_hint(hint).len() as int,
        ),
{
    let file = snapshot_file(version, db, hint, rs, tail);
    let magic = seq![82u8, 69, 68, 73, 83];
    let h = encode_hint(hint);
    let after = h + encode_records(rs) + tail;
    assert(file =~= magic + version + seq![DB_SELECTOR, db] + after);
    assert(file.subrange(0, 5) =~= magic);
    assert forall|i: int| 5 <= i < 9 implies 48 <= #[trigger] file[i] <= 57 by {
        assert(file[i] == version[i - 5]);
    }
    assert(file[9] == DB_SELECTOR);
    assert(selector_from(file, 9) == 9);
    assert forall|j: int| 0 <= j < after.len() implies file[11 + j] == after[j] by {}
    match hint {
        Some((a, b)) => {
            let e1 = encode_size(a);
            let e2 = encode_size(b);
            let n1 = e1.len() as int;
            let n2 = e2.len() as int;
            assert(file[11] == after[0]);
            assert(after[0] == RESIZE_HINT);
            assert(file.subrange(12, 12 + n1) =~= e1) by {
                assert forall|j: int| 0 <= j < n1 implies file.subrange(12, 12 + n1)[j] == e1[j] by {
                    assert(file[12 + j] == after[1 + j]);
                }
            }
            lemma_size_at(file, 12, a);
            assert(file.subrange(12 + n1, 12 + n1 + n2) =~= e2) by {
                assert forall|j: int| 0 <= j < n2 implies file.subrange(12 + n1, 12 + n1 + n2)[j]
                    == e2[j] by {
                    assert(file[12 + n1 + j] == after[1 + n1 + j]);
                }
            }
            lemma_size_at(file, 12 + n1, b);
        },
        None => {
            if file.len() > 11 {
                assert(file[11] == after[0]);
                if rs.len() > 0 {
                    let first = encode_record(rs[0]);
                    assert(encode_records(rs) == first + encode_records(rs.drop_first()));
                    assert(after[0] == first[0]);
                    if rs[0].2 is None {
                        assert(first[0] == 0u8);
                    }
                } else {
                    assert(encode_records(rs) =~= Seq::<u8>::empty());
                    assert(after[0] == tail[0]);
                }
            }
        },
    }
}

/// In a snapshot file, every well-formed record is recovered, in order,
/// whatever bytes follow them; and when what follows is nothing, the end
/// marker, or a record that does not parse, exactly those records are
/// recovered: a corrupt record loses itself and what follows, never a record
/// before it. (Without a resize hint, a file whose first bytes after the
/// selector are a hint marker is read as having one.)
pub proof fn lemma_snapshot_keeps_valid_records(
    version: Seq<u8>,
    db: u8,
    hint: Option<(nat, nat)>,
    rs: Seq<RecordView>,
    tail: Seq<u8>,
)
    requires
        version.len() == 4,
        forall|i: int| 0 <= i < 4 ==> 48 <= #[trigger] version[i] <= 57,
        hint matches Some((a, b)) ==> a < 0x1_0000_0000 && b < 0x1_0000_0000,
        hint is None ==> rs.len() > 0 || tail.len() == 0 || tail[0] != RESIZE_HINT,
        forall|i: int| 0 <= i < rs.len() ==> storable(#[trigger] rs[i]),
    ensures
        ({
            let file = snapshot_file(version, db, hint, rs, tail);
            let k = file.len() - tail.len();
            &&& snapshot_records(file) == rs + records_from(file, k)
            &&& (tail.len() == 0 || tail[0] == END_OF_FILE || parse_record(file, k) is None)
                ==> snapshot_records(file) == rs
        }),
{
    let file = snapshot_file(version, db, hint, rs, tail);
    let er = encode_records(rs);
    let start: int = 11 + encode_hint(hint).len() as int;
    let ne: int = er.len() as int;
    let k = file.len() - tail.len();
    lemma_file_prefix(version, db, hint, rs, tail);
    let rest = er + tail;
    assert(file =~= file.subrange(0, start) + rest);
    assert(file.subrange(start, start + ne) =~= er) by {
        assert forall|j: int| 0 <= j < er.len() implies file.subrange(start, start + ne)[j]
            == er[j] by {
            assert(file[start + j] == rest[j]);
        }
    }
    lemma_records_at(file, start, rs);
    assert(start + ne == k);
    if tail.len() == 0 || tail[0] == END_OF_FILE || parse_record(file, k) is None {
        if tail.len() > 0 {
            assert(file[k] == rest[er.len() as int]);
        }
        assert(records_from(file, k) =~= Seq::<RecordView>::empty());
        assert(rs + records_from(file, k) =~= rs);
    }
}

} // verus!
