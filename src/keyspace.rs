//! The keyspace: a map from byte-string keys to values, each with an optional
//! absolute expiry instant (milliseconds since the Unix epoch). Expiry is lazy:
//! an expired entry is removed by the first `get` that finds it.

use vstd::prelude::*;
use crate::bytes::bytes_eq;
use crate::resp::views;

verus! {

/// One stored value.
pub struct StoreEntry {
    pub key: Vec<u8>,
    pub value: Vec<u8>,
    pub expires_at: Option<u64>,
}

/// What a key maps to: its value and its expiry instant.
pub type EntryView = (Seq<u8>, Option<u64>);

/// An entry with expiry instant `expires_at` is expired at instant `now`.
pub open spec fn is_expired(expires_at: Option<u64>, now: u64) -> bool {
    match expires_at {
        Some(t) => now >= t,
        None => false,
    }
}

/// The expiry instant of an entry set at `now` with time to live `ttl`; it
/// saturates at the largest instant.
pub open spec fn deadline(now: u64, ttl: Option<u64>) -> Option<u64> {
    match ttl {
        Some(t) => Some(
            if now + t > u64::MAX {
                u64::MAX
            } else {
                (now + t) as u64
            },
        ),
        None => None,
    }
}

/// The entries are kept in a `Vec` and found by a linear search, so `get` and
/// `set` take time linear in the number of keys. vstd specifies `HashMap` only
/// for keys whose hashing it models (integers and `bool`); for byte-string
/// keys it states nothing that the contracts here could rest on.
pub struct Keyspace {
    entries: Vec<StoreEntry>,
    model: Ghost<Map<Seq<u8>, EntryView>>,
}

impl View for Keyspace {
    type V = Map<Seq<u8>, EntryView>;

    closed spec fn view(&self) -> Map<Seq<u8>, EntryView> {
        self.model@
    }
}

impl Keyspace {
    /// The entries hold each key once, and exactly the keys of the model,
    /// with the model's values.
    pub closed spec fn wf(&self) -> bool {
        &&& forall|i: int, j: int|
            0 <= i < self.entries@.len() && 0 <= j < self.entries@.len() && i != j
                ==> #[trigger] self.entries@[i].key@ != #[trigger] self.entries@[j].key@
        &&& forall|i: int|
            0 <= i < self.entries@.len() ==> self.model@.contains_key(
                #[trigger] self.entries@[i].key@,
            ) && self.model@[self.entries@[i].key@] == (
                self.entries@[i].value@,
                self.entries@[i].expires_at,
            )
        &&& forall|k: Seq<u8>|
            #[trigger] self.model@.contains_key(k) ==> exists|i: int|
                0 <= i < self.entries@.len() && #[trigger] self.entries@[i].key@ == k
    }

    /// An empty keyspace.
    pub fn new() -> (r: Keyspace)
        ensures
            r.wf(),
            r@ == Map::<Seq<u8>, EntryView>::empty(),
    {
        Keyspace { entries: Vec::new(), model: Ghost(Map::empty()) }
    }

    /// The index of the entry for `key`, if there is one.
    fn find(&self, key: &[u8]) -> (r: Option<usize>)
        requires
            self.wf(),
        ensures
            match r {
                Some(i) => i < self.entries@.len() && self.entries@[i as int].key@ == key@,
                None => !self@.contains_key(key@),
            },
    {
        let mut i: usize = 0;
        while i < self.entries.len()
            invariant
                self.wf(),
                0 <= i <= self.entries@.len(),
                forall|j: int| 0 <= j < i ==> self.entries@[j].key@ != key@,
            decreases self.entries.len() - i,
        {
            if bytes_eq(self.entries[i].key.as_slice(), key) {
                return Some(i);
            }
            i = i + 1;
        }
        None
    }

    /// Whether `key` has an entry, expired or not.
    pub fn contains_key(&self, key: &[u8]) -> (r: bool)
        requires
            self.wf(),
        ensures
            r == self@.contains_key(key@),
    {
        match self.find(key) {
            Some(i) => {
                proof {
                    assert(self.model@.contains_key(self.entries@[i as int].key@));
                }
                true
            },
            None => false,
        }
    }

    /// Stores `value` under `key` with the absolute expiry instant
    /// `expires_at`, replacing any entry for `key`.
    pub fn insert(&mut self, key: Vec<u8>, value: Vec<u8>, expires_at: Option<u64>)
        requires
            old(self).wf(),
        ensures
            final(self).wf(),
            final(self)@ == old(self)@.insert(key@, (value@, expires_at)),
    {
        let ghost k = key@;
        let ghost v = value@;
        let found = self.find(key.as_slice());
        let entry = StoreEntry { key, value, expires_at };
        match found {
            Some(i) => {
                self.entries.set(i, entry);
            },
            None => {
                self.entries.push(entry);
            },
        }
        self.model = Ghost(self.model@.insert(k, (v, expires_at)));
        proof {
            let m = self.model@;
            assert forall|j: int| 0 <= j < self.entries@.len() implies m.contains_key(
                #[trigger] self.entries@[j].key@,
            ) && m[self.entries@[j].key@] == (
                self.entries@[j].value@,
                self.entries@[j].expires_at,
            ) by {
                if j < old(self).entries@.len() && self.entries@[j] == old(self).entries@[j] {
                    assert(old(self).model@.contains_key(old(self).entries@[j].key@));
                }
            }
            assert forall|q: Seq<u8>| #[trigger] m.contains_key(q) implies exists|j: int|
                0 <= j < self.entries@.len() && #[trigger] self.entries@[j].key@ == q by {
                if q == k {
                    match found {
                        Some(i) => assert(self.entries@[i as int].key@ == q),
                        None => assert(self.entries@[self.entries@.len() - 1].key@ == q),
                    }
                } else {
                    assert(old(self).model@.contains_key(q));
                    let j = choose|j: int|
                        0 <= j < old(self).entries@.len() && #[trigger] old(self).entries@[j].key@
                            == q;
                    assert(self.entries@[j] == old(self).entries@[j]);
                }
            }
        }
    }

    /// Stores `value` under `key`; with a time to live `ttl` (milliseconds)
    /// it expires at `now + ttl`, without one it never expires.
    pub fn set(&mut self, key: Vec<u8>, value: Vec<u8>, ttl: Option<u64>, now: u64)
        requires
            old(self).wf(),
        ensures
            final(self).wf(),
            final(self)@ == old(self)@.insert(key@, (value@, deadline(now, ttl))),
    {
        let expires_at = match ttl {
            Some(t) => Some(now.saturating_add(t)),
            None => None,
        };
        self.insert(key, value, expires_at);
    }

    /// The value under `key` at instant `now`. An entry expired at `now` is
    /// removed and reported absent.
    pub fn get(&mut self, key: &[u8], now: u64) -> (r: Option<Vec<u8>>)
        requires
            old(self).wf(),
        ensures
            final(self).wf(),
            !old(self)@.contains_key(key@) ==> r.is_none() && final(self)@ == old(self)@,
            old(self)@.contains_key(key@) && is_expired(old(self)@[key@].1, now) ==> r.is_none()
                && final(self)@ == old(self)@.remove(key@),
            old(self)@.contains_key(key@) && !is_expired(old(self)@[key@].1, now) ==> r is Some
                && r.unwrap()@ == old(self)@[key@].0 && final(self)@ == old(self)@,
    {
        match self.find(key) {
            None => None,
            Some(i) => {
                proof {
                    assert(self.model@.contains_key(self.entries@[i as int].key@));
                }
                let expired = match self.entries[i].expires_at {
                    Some(t) => now >= t,
                    None => false,
                };
                if expired {
                    self.entries.remove(i);
                    self.model = Ghost(self.model@.remove(key@));
                    proof {
                        let o = old(self).entries@;
                        let m = self.model@;
                        assert forall|a: int, b: int|
                            0 <= a < self.entries@.len() && 0 <= b < self.entries@.len() && a
                                != b implies #[trigger] self.entries@[a].key@
                            != #[trigger] self.entries@[b].key@ by {
                            let a2 = if a < i { a } else { a + 1 };
                            let b2 = if b < i { b } else { b + 1 };
                            assert(self.entries@[a] == o[a2]);
                            assert(self.entries@[b] == o[b2]);
                        }
                        assert forall|j: int| 0 <= j < self.entries@.len() implies m.contains_key(
                            #[trigger] self.entries@[j].key@,
                        ) && m[self.entries@[j].key@] == (
                            self.entries@[j].value@,
                            self.entries@[j].expires_at,
                        ) by {
                            let j2 = if j < i { j } else { j + 1 };
                            assert(self.entries@[j] == o[j2]);
                            assert(o[j2].key@ != o[i as int].key@);
                        }
                        assert forall|q: Seq<u8>| #[trigger] m.contains_key(q) implies exists|j: int|
                            0 <= j < self.entries@.len() && #[trigger] self.entries@[j].key@
                                == q by {
                            assert(old(self).model@.contains_key(q));
                            let j = choose|j: int|
                                0 <= j < o.len() && #[trigger] o[j].key@ == q;
                            assert(j != i);
                            if j < i {
                                assert(self.entries@[j] == o[j]);
                            } else {
                                assert(self.entries@[j - 1] == o[j]);
                            }
                        }
                    }
                    None
                } else {
                    Some(vstd::slice::slice_to_vec(self.entries[i].value.as_slice()))
                }
            },
        }
    }

    /// Every stored key, each once, in an unspecified order. Entries are not
    /// checked for expiry.
    pub fn keys(&self) -> (r: Vec<Vec<u8>>)
        requires
            self.wf(),
        ensures
            views(r@).no_duplicates(),
            views(r@).to_set() == self@.dom(),
            views(r@).len() == self@.dom().len(),
    {
        let mut out: Vec<Vec<u8>> = Vec::new();
        let mut i: usize = 0;
        while i < self.entries.len()
            invariant
                self.wf(),
                0 <= i <= self.entries@.len(),
                out@.len() == i,
                forall|j: int| 0 <= j < i ==> (#[trigger] out@[j])@ == self.entries@[j].key@,
            decreases self.entries.len() - i,
        {
            out.push(vstd::slice::slice_to_vec(self.entries[i].key.as_slice()));
            i = i + 1;
        }
        proof {
            let v = views(out@);
            assert(v.no_duplicates()) by {
                assert forall|a: int, b: int| 0 <= a < v.len() && 0 <= b < v.len() && a != b implies v[a]
                    != v[b] by {
                    assert(v[a] == self.entries@[a].key@);
                    assert(v[b] == self.entries@[b].key@);
                }
            }
            assert(v.to_set() =~= self@.dom()) by {
                assert forall|q: Seq<u8>| v.to_set().contains(q) <==> self@.dom().contains(q) by {
                    if v.to_set().contains(q) {
                        let j = choose|j: int| 0 <= j < v.len() && v[j] == q;
                        assert(v[j] == self.entries@[j].key@);
                    }
                    if self@.dom().contains(q) {
                        assert(self.model@.contains_key(q));
                        let j = choose|j: int|
                            0 <= j < self.entries@.len() && #[trigger] self.entries@[j].key@ == q;
                        assert(v[j] == q);
                    }
                }
            }
            v.unique_seq_to_set();
        }
        out
    }
}

/// After `set(key, value, None)`, a `get(key)` at any later instant finds the
/// entry unexpired and returns `value`, whatever bytes the key and value hold.
pub proof fn lemma_set_then_get(m: Map<Seq<u8>, EntryView>, key: Seq<u8>, value: Seq<u8>, now: u64, later: u64)
    ensures
        ({
            let after = m.insert(key, (value, deadline(now, None)));
            after.contains_key(key) && !is_expired(after[key].1, later) && after[key].0 == value
        }),
{
}

/// After `set(key, value, Some(ttl))` at `now`, a `get(key)` before
/// `now + ttl` returns `value`; one at or after `now + ttl` finds the entry
/// expired, so it returns nothing and removes the key, which no longer
/// appears among the keys.
pub proof fn lemma_set_with_ttl(
    m: Map<Seq<u8>, EntryView>,
    key: Seq<u8>,
    value: Seq<u8>,
    now: u64,
    ttl: u64,
    at: u64,
)
    requires
        now + ttl <= u64::MAX,
    ensures
        ({
            let after = m.insert(key, (value, deadline(now, Some(ttl))));
            &&& after.contains_key(key)
            &&& at < now + ttl ==> !is_expired(after[key].1, at) && after[key].0 == value
            &&& at >= now + ttl ==> is_expired(after[key].1, at) && !after.remove(
                key,
            ).dom().contains(key)
        }),
{
}

} // verus!
