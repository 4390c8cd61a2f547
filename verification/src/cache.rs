//! Exact-match response cache: an identical request returns the stored response
//! without touching an upstream or consuming a rate slot. Bounded (oldest entry
//! evicted when full) and per-entry TTL'd. Opt-in — disabled unless a TTL is set.
//!
//! Instants and spans of time are nanoseconds.

use std::collections::hash_map::DefaultHasher;
use std::hash::Hasher;

use vstd::prelude::*;

use crate::hashing;
use crate::table;
use crate::table::Table;

verus! {

pub struct Entry {
    pub status: u16,
    pub content_type: Option<String>,
    pub body: Vec<u8>,
    pub stored: u128,
}

/// A cache hit, ready to relay to the client.
pub struct Cached {
    pub status: u16,
    pub content_type: Option<String>,
    pub body: Vec<u8>,
}

pub struct Cache {
    ttl: u128,
    max: usize,
    map: Table<u64, Entry>,
}

/// Is an entry still good at `now`?
pub open spec fn live(e: Entry, ttl: nat, now: u128) -> bool {
    now - e.stored < ttl && ttl > 0
}

/// The position of an oldest entry: the first of them.
pub open spec fn oldest(rows: Seq<(u64, Entry)>) -> Option<int>
    decreases rows.len(),
{
    if rows.len() == 0 {
        None
    } else {
        match oldest(rows.drop_last()) {
            Some(i) => if rows.last().1.stored < rows[i].1.stored {
                Some(rows.len() - 1)
            } else {
                Some(i)
            },
            None => Some(0),
        }
    }
}

/// The entries once there is room for one under `key`.
pub open spec fn with_space(rows: Seq<(u64, Entry)>, max: nat, key: u64) -> Seq<(u64, Entry)> {
    if rows.len() >= max && table::at(rows, key) is None {
        match oldest(rows) {
            Some(i) => table::without(rows, rows[i].0),
            None => rows,
        }
    } else {
        rows
    }
}

/// The entries once `e` was stored under `key`. A cache that is switched off, or that
/// has no room at all, stores nothing.
pub open spec fn stored(
    rows: Seq<(u64, Entry)>,
    ttl: nat,
    max: nat,
    key: u64,
    e: Entry,
) -> Seq<(u64, Entry)> {
    if ttl > 0 && max > 0 {
        table::put(with_space(rows, max, key), key, e)
    } else {
        rows
    }
}

/// What is stored under `key` and still good at `now`.
pub open spec fn lookup(rows: Seq<(u64, Entry)>, ttl: nat, key: u64, now: u128) -> Option<Entry> {
    match table::get(rows, key) {
        Some(e) => if live(e, ttl, now) {
            Some(e)
        } else {
            None
        },
        None => None,
    }
}

/// The hit hands out what was stored.
pub open spec fn relays(hit: Cached, e: Entry) -> bool {
    &&& hit.status == e.status
    &&& hit.body@ == e.body@
    &&& match (hit.content_type, e.content_type) {
        (Some(a), Some(b)) => a@ == b@,
        (None, None) => true,
        _ => false,
    }
}

proof fn lemma_oldest(rows: Seq<(u64, Entry)>)
    ensures
        match oldest(rows) {
            Some(i) => 0 <= i < rows.len() && forall|j: int|
                0 <= j < rows.len() ==> rows[i].1.stored <= (#[trigger] rows[j]).1.stored,
            None => rows.len() == 0,
        },
    decreases rows.len(),
{
    if rows.len() > 0 {
        let p = rows.drop_last();
        lemma_oldest(p);
        let i = oldest(rows)->0;
        assert forall|j: int| 0 <= j < rows.len() implies rows[i].1.stored <= (
        #[trigger] rows[j]).1.stored by {
            if j < p.len() {
                assert(p[j] == rows[j]);
            }
        }
    }
}

impl Cache {
    pub closed spec fn ttl(&self) -> nat {
        self.ttl as nat
    }

    /// How many entries there is room for.
    pub closed spec fn max(&self) -> nat {
        self.max as nat
    }

    pub closed spec fn rows(&self) -> Seq<(u64, Entry)> {
        self.map@
    }

    /// No key stands twice, and the cache keeps to its bound.
    pub open spec fn wf(&self) -> bool {
        &&& table::distinct(self.rows())
        &&& self.rows().len() <= self.max()
    }

    pub fn new(ttl: u128, max: usize) -> (r: Self)
        ensures
            r.ttl() == ttl,
            r.max() == max,
            r.rows().len() == 0,
            r.wf(),
    {
        Cache { ttl, max, map: Table::new() }
    }

    /// A zero TTL means caching is switched off.
    pub fn enabled(&self) -> (r: bool)
        ensures
            r == (self.ttl() > 0),
    {
        self.ttl > 0
    }

    /// How many responses are stored.
    pub fn len(&self) -> (r: usize)
        ensures
            r == self.rows().len(),
    {
        self.map.len()
    }

    /// Cache key for a request: its path+query and exact body bytes.
    pub fn key(path: &str, body: &[u8]) -> (r: u64)
        ensures
            r == hashing::hash_of(hashing::text_writes(path@) + hashing::bytes_writes(body@)),
            r == hashing::hash_of(
                seq![
                    vstd::utf8::encode_utf8(path@),
                    seq![0xffu8],
                    vstd::bytes::spec_u64_to_le_bytes(body@.len() as u64),
                    body@,
                ],
            ),
    {
        let mut h = DefaultHasher::new();
        hashing::write_text(&mut h, path);
        hashing::write_bytes(&mut h, body);
        assert(h@ =~= hashing::text_writes(path@) + hashing::bytes_writes(body@));
        assert(h@ =~= seq![
            vstd::utf8::encode_utf8(path@),
            seq![0xffu8],
            vstd::bytes::spec_u64_to_le_bytes(body@.len() as u64),
            body@,
        ]);
        h.finish()
    }

    /// Fetch a live (non-expired) entry, evicting it if it has aged out.
    pub fn get(&mut self, key: u64, now: u128) -> (r: Option<Cached>)
        requires
            old(self).wf(),
        ensures
            match r {
                Some(hit) => lookup(old(self).rows(), old(self).ttl(), key, now) matches Some(e)
                    && relays(hit, e) && final(self).rows() == old(self).rows(),
                None => lookup(old(self).rows(), old(self).ttl(), key, now) is None
                    && final(self).rows() == table::without(old(self).rows(), key),
            },
            r matches Some(hit) ==> table::get(old(self).rows(), key) matches Some(e) && hit.status
                == e.status && hit.body@ == e.body@ && now < e.stored + old(self).ttl(),
            final(self).ttl() == old(self).ttl(),
            final(self).max() == old(self).max(),
            final(self).wf(),
    {
        match self.map.get(&key) {
            Some(e) => {
                if now <= e.stored || now - e.stored < self.ttl {
                    if self.ttl > 0 {
                        return Some(
                            Cached {
                                status: e.status,
                                content_type: e.content_type.clone(),
                                body: copied(&e.body),
                            },
                        );
                    }
                }
            },
            None => {},
        }
        proof {
            table::lemma_at(self.map@, key);
        }
        self.map.remove(&key);
        None
    }

    /// Store a response, evicting an oldest entry where there is no room for it. A
    /// bound of zero leaves room for none.
    pub fn put(&mut self, key: u64, status: u16, content_type: Option<String>, body: Vec<u8>, now: u128)
        requires
            old(self).wf(),
        ensures
            final(self).rows() == stored(
                old(self).rows(),
                old(self).ttl(),
                old(self).max(),
                key,
                Entry { status, content_type, body, stored: now },
            ),
            final(self).ttl() == old(self).ttl(),
            final(self).max() == old(self).max(),
            final(self).wf(),
    {
        if !self.enabled() || self.max == 0 {
            return;
        }
        let ghost before = self.map@;
        proof {
            table::lemma_at(before, key);
            lemma_oldest(before);
        }
        if self.map.len() >= self.max && !self.map.contains(&key) {
            match self.find_oldest() {
                Some(i) => {
                    proof {
                        table::lemma_at_row(before, i as int);
                    }
                    let rows = self.map.rows();
                    assert(table::row_view(rows@[i as int]) == before[i as int]);
                    let oldest: u64 = rows[i].0;
                    self.map.remove(&oldest);
                },
                None => {},
            }
        }
        let entry = Entry { status, content_type, body, stored: now };
        proof {
            table::law_put_then_get(self.map@, key, entry);
        }
        self.map.insert(key, entry);
    }

    fn find_oldest(&self) -> (r: Option<usize>)
        ensures
            match r {
                Some(i) => i < self.map@.len() && oldest(self.map@) == Some(i as int),
                None => oldest(self.map@) is None,
            },
    {
        let ghost all = self.map@;
        let rows = self.map.rows();
        let mut best: Option<usize> = None;
        let mut i: usize = 0;
        while i < rows.len()
            invariant
                i <= rows@.len(),
                rows@.len() == all.len(),
                forall|j: int| 0 <= j < rows@.len() ==> #[trigger] table::row_view(rows@[j]) == all[j],
                match best {
                    Some(b) => b < i && oldest(all.take(i as int)) == Some(b as int),
                    None => i == 0,
                },
            decreases rows@.len() - i,
        {
            proof {
                assert(all.take(i as int + 1).drop_last() =~= all.take(i as int));
                assert(table::row_view(rows@[i as int]) == all[i as int]);
            }
            match best {
                Some(b) => {
                    assert(table::row_view(rows@[b as int]) == all[b as int]);
                    if rows[i].1.stored < rows[b].1.stored {
                        best = Some(i);
                    }
                },
                None => {
                    best = Some(i);
                },
            }
            i += 1;
        }
        assert(all.take(all.len() as int) =~= all);
        best
    }
}

fn copied(b: &Vec<u8>) -> (r: Vec<u8>)
    ensures
        r@ == b@,
{
    let mut out: Vec<u8> = Vec::new();
    let mut i: usize = 0;
    while i < b.len()
        invariant
            i <= b@.len(),
            out@ == b@.take(i as int),
        decreases b@.len() - i,
    {
        out.push(b[i]);
        i += 1;
        assert(out@ =~= b@.take(i as int));
    }
    assert(out@ =~= b@);
    out
}

/// A stored response is found until it has aged out, whatever was stored before.
pub proof fn law_a_stored_response_is_found(
    rows: Seq<(u64, Entry)>,
    ttl: nat,
    max: nat,
    key: u64,
    e: Entry,
    now: u128,
)
    requires
        max > 0,
    ensures
        lookup(stored(rows, ttl, max, key, e), ttl, key, now) == if live(e, ttl, now) {
            Some(e)
        } else {
            None
        },
{
    table::law_put_then_get(with_space(rows, max, key), key, e);
}

/// A cache never holds more than its bound, whatever is stored in it.
pub proof fn law_the_bound_holds(
    rows: Seq<(u64, Entry)>,
    ttl: nat,
    max: nat,
    key: u64,
    e: Entry,
)
    requires
        rows.len() <= max,
    ensures
        stored(rows, ttl, max, key, e).len() <= max,
{
    table::lemma_at(rows, key);
    lemma_oldest(rows);
    if rows.len() >= max && table::at(rows, key) is None && rows.len() > 0 {
        table::lemma_at(rows, rows[oldest(rows)->0].0);
    }
    let space = with_space(rows, max, key);
    table::lemma_at(space, key);
}

/// Storing a response makes room by dropping at most one entry, and that one is as
/// old as any. None is dropped where there is room, or where the key is present.
pub proof fn law_only_an_oldest_entry_makes_way(
    rows: Seq<(u64, Entry)>,
    max: nat,
    key: u64,
    other: u64,
)
    requires
        table::distinct(rows),
        table::get(rows, other) is Some,
        table::get(with_space(rows, max, key), other) is None,
    ensures
        rows.len() >= max,
        table::get(rows, key) is None,
        with_space(rows, max, key).len() == rows.len() - 1,
        forall|j: int|
            0 <= j < rows.len() ==> table::get(rows, other)->0.stored <= (
            #[trigger] rows[j]).1.stored,
{
    lemma_oldest(rows);
    table::lemma_at(rows, other);
    let i = table::at(rows, other)->0;
    if rows.len() >= max && table::at(rows, key) is None {
        let o = oldest(rows)->0;
        table::lemma_at_row(rows, o);
        if o != i {
            let after = rows.remove(o);
            let k = if i < o { i } else { i - 1 };
            assert(after[k] == rows[i]);
            table::lemma_at(after, other);
        }
    }
}

/// A hit is what was stored under that very key, not longer ago than the cache keeps
/// things; nothing else is handed out.
pub proof fn law_a_hit_is_fresh(rows: Seq<(u64, Entry)>, ttl: nat, key: u64, now: u128)
    ensures
        lookup(rows, ttl, key, now) matches Some(e) ==> table::get(rows, key) == Some(e) && now
            < e.stored + ttl,
        lookup(rows, ttl, key, now) is None ==> (table::get(rows, key) matches Some(e) ==> now
            >= e.stored + ttl || ttl == 0),
        ttl == 0 ==> lookup(rows, ttl, key, now) is None,
{
}

/// Storing a response changes nothing under another key while there is room.
pub proof fn law_other_responses_stay(
    rows: Seq<(u64, Entry)>,
    ttl: nat,
    max: nat,
    key: u64,
    e: Entry,
    other: u64,
)
    requires
        other != key,
        rows.len() < max || table::get(rows, key) is Some,
    ensures
        table::get(stored(rows, ttl, max, key, e), other) == table::get(rows, other),
        ttl == 0 ==> stored(rows, ttl, max, key, e) == rows,
{
    table::law_put_then_get(with_space(rows, max, key), key, e);
}

/// What is hashed for a key tells the requests apart: where two are hashed from the same
/// writes, their paths and their bodies are the same.
pub proof fn law_a_key_tells_requests_apart(p: Seq<char>, b: Seq<u8>, q: Seq<char>, c: Seq<u8>)
    requires
        hashing::text_writes(p) + hashing::bytes_writes(b) == hashing::text_writes(q)
            + hashing::bytes_writes(c),
    ensures
        p == q,
        b == c,
{
    let x = hashing::text_writes(p) + hashing::bytes_writes(b);
    let y = hashing::text_writes(q) + hashing::bytes_writes(c);
    assert(x[0] == y[0]);
    assert(x[3] == b && y[3] == c);
    hashing::lemma_texts_apart(p, q);
}

/// A hit hands out the status, the type and the bytes that were stored.
pub proof fn law_a_hit_hands_out_what_was_stored(hit: Cached, e: Entry)
    requires
        relays(hit, e),
    ensures
        hit.status == e.status,
        hit.body@ == e.body@,
        hit.content_type is Some <==> e.content_type is Some,
        hit.content_type is Some ==> hit.content_type->0@ == e.content_type->0@,
{
}

} // verus!
