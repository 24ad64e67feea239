//! The persistent chunked candidate store: an append-only collection of
//! chunks fronted by a bounded, write-back LRU cache. A lookup consults
//! the cache first and then the chunks in ascending creation order;
//! inserts go to the cache and reach the current chunk only on eviction
//! pressure or at a flush. A write-back strips older copies of its key
//! from earlier chunks, so a bucket is last-writer-wins in the persisted
//! representation too, and no write-back or cache promotion ever drops a
//! live entry. Reading the chunk data back from its backing files, and
//! writing it out, is the embedding program's job: the store hands
//! chunks over as plain values and takes them back.

use vstd::prelude::*;

use crate::anagrams::{
    assoc_lookup, counts_bounded, fp_bytes, lemma_assoc_in_list, lemma_assoc_none,
    lemma_assoc_push, lemma_assoc_push_other, lemma_assoc_remove, lemma_assoc_remove_other,
    lemma_assoc_update, lemma_assoc_update_other, lemma_fp_bytes_injective,
    lemma_fp_view_bounded, AsciiFingerprint, AsStr, Store, MAX_TEXT_LEN,
};
use vstd::pervasive::unreached;
use vstd::string::StrSliceExecFns;

verus! {

/// Relies on `lru_cache::LruCache`: a bounded in-memory map that evicts
/// its least-recently-used entry when it grows past its capacity.
#[verifier::external_type_specification]
#[verifier::external_body]
#[verifier::reject_recursive_types(K)]
#[verifier::reject_recursive_types(V)]
#[verifier::reject_recursive_types(S)]
pub struct ExLruCache<K: core::cmp::Eq + core::hash::Hash, V, S: core::hash::BuildHasher>(
    lru_cache::LruCache<K, V, S>,
);

/// The cache type the store fronts its chunks with.
pub type ByteCache = lru_cache::LruCache<Vec<u8>, String>;

/// What the cache holds: its keys and values, as plain sequences.
pub uninterp spec fn lru_map(c: ByteCache) -> Map<Seq<u8>, Seq<char>>;

/// The bound the cache was created with.
pub uninterp spec fn lru_cap(c: ByteCache) -> nat;

/// A cache map with nothing in it.
pub open spec fn empty_cache_map() -> Map<Seq<u8>, Seq<char>> {
    Map::empty()
}

/// A key set with nothing in it.
pub open spec fn no_cached_keys() -> Set<Seq<u8>> {
    Set::empty()
}

/// Relies on `LruCache::new`: an empty cache that can hold at most
/// `capacity` entries.
#[verifier::external_body]
fn cache_new(capacity: usize) -> (r: ByteCache)
    ensures
        lru_map(r) == empty_cache_map(),
        lru_cap(r) == capacity,
{
    lru_cache::LruCache::new(capacity)
}

/// Relies on `LruCache::len`: the number of entries held.
#[verifier::external_body]
fn cache_len(c: &ByteCache) -> (r: usize)
    requires
        lru_map(*c).dom().finite(),
    ensures
        r == lru_map(*c).dom().len(),
{
    c.len()
}

/// Relies on `LruCache::capacity`: the bound the cache was created with.
#[verifier::external_body]
fn cache_capacity(c: &ByteCache) -> (r: usize)
    ensures
        r == lru_cap(*c),
{
    c.capacity()
}

/// Relies on `LruCache::get_mut`: hands back the entry under the key and
/// refreshes its recency; the mapping itself is unchanged.
#[verifier::external_body]
fn cache_get(c: &mut ByteCache, k: &Vec<u8>) -> (r: Option<String>)
    ensures
        lru_map(*final(c)) == lru_map(*old(c)),
        lru_cap(*final(c)) == lru_cap(*old(c)),
        r matches Some(v) ==> lru_map(*old(c)).dom().contains(k@) && v@ == lru_map(*old(c))[k@],
        r is None ==> !lru_map(*old(c)).dom().contains(k@),
{
    c.get_mut(k).map(|v| v.clone())
}

/// Relies on `LruCache::insert`: adds or updates the entry, returning
/// the value it replaces; when the cache is at capacity and the key is
/// new, the least-recently-used entry is silently dropped.
#[verifier::external_body]
fn cache_insert(c: &mut ByteCache, k: Vec<u8>, v: String) -> (r: Option<String>)
    requires
        lru_cap(*old(c)) >= 1,
        lru_map(*old(c)).dom().finite(),
    ensures
        lru_cap(*final(c)) == lru_cap(*old(c)),
        lru_map(*old(c)).dom().contains(k@) ==> lru_map(*final(c)) == lru_map(*old(c)).insert(
            k@,
            v@,
        ) && (r matches Some(x) && x@ == lru_map(*old(c))[k@]),
        !lru_map(*old(c)).dom().contains(k@) ==> r is None && if lru_map(*old(c)).dom().len()
            < lru_cap(*old(c)) {
            lru_map(*final(c)) == lru_map(*old(c)).insert(k@, v@)
        } else {
            exists|dropped: Seq<u8>|
                {
                    &&& #[trigger] lru_map(*old(c)).dom().contains(dropped)
                    &&& dropped != k@
                    &&& lru_map(*final(c)) == lru_map(*old(c)).insert(k@, v@).remove(dropped)
                }
        },
{
    c.insert(k, v)
}

/// Relies on `LruCache::remove`: deletes and returns the entry under the
/// key, if any.
#[verifier::external_body]
fn cache_remove(c: &mut ByteCache, k: &Vec<u8>) -> (r: Option<String>)
    ensures
        lru_cap(*final(c)) == lru_cap(*old(c)),
        lru_map(*final(c)) == lru_map(*old(c)).remove(k@),
        r matches Some(v) ==> lru_map(*old(c)).dom().contains(k@) && v@ == lru_map(*old(c))[k@],
        r is None ==> !lru_map(*old(c)).dom().contains(k@),
{
    c.remove(k)
}

/// Relies on `LruCache::remove_lru`: removes and returns the least
/// recently used entry, or nothing when the cache is empty.
#[verifier::external_body]
fn cache_remove_lru(c: &mut ByteCache) -> (r: Option<(Vec<u8>, String)>)
    ensures
        lru_cap(*final(c)) == lru_cap(*old(c)),
        r matches Some(kv) ==> lru_map(*old(c)).dom().contains(kv.0@) && kv.1@ == lru_map(
            *old(c),
        )[kv.0@] && lru_map(*final(c)) == lru_map(*old(c)).remove(kv.0@),
        r is None ==> lru_map(*old(c)).dom() == no_cached_keys() && lru_map(*final(c)) == lru_map(
            *old(c),
        ),
{
    c.remove_lru()
}

/// Relies on `chrono::Utc::now`: the current wall-clock time, read at
/// one-second resolution. Nothing is assumed of the value.
#[verifier::external_body]
fn now_timestamp() -> i64 {
    chrono::Utc::now().timestamp()
}

/// Whether two byte keys are equal.
fn bytes_eq(a: &Vec<u8>, b: &Vec<u8>) -> (r: bool)
    ensures
        r == (a@ == b@),
{
    if a.len() != b.len() {
        return false;
    }
    let mut i: usize = 0;
    while i < a.len()
        invariant
            i <= a@.len(),
            a@.len() == b@.len(),
            forall|k: int| 0 <= k < i ==> a@[k] == b@[k],
        decreases a@.len() - i,
    {
        if a[i] != b[i] {
            return false;
        }
        i = i + 1;
    }
    proof {
        assert(a@ =~= b@);
    }
    true
}

/// A fresh vector holding the same bytes.
fn copy_bytes(v: &Vec<u8>) -> (r: Vec<u8>)
    ensures
        r@ == v@,
{
    let mut out: Vec<u8> = Vec::new();
    let mut i: usize = 0;
    while i < v.len()
        invariant
            i <= v@.len(),
            out@ == v@.take(i as int),
        decreases v@.len() - i,
    {
        out.push(v[i]);
        proof {
            assert(out@ =~= v@.take(i + 1 as int));
        }
        i = i + 1;
    }
    proof {
        assert(out@ =~= v@);
    }
    out
}

/// One append-only unit of persistent storage: a creation timestamp and
/// the entries written into it, keyed by raw bytes. Only in-place key
/// updates ever rewrite an entry.
pub struct Chunk {
    created_at: i64,
    entries: Vec<(Vec<u8>, String)>,
}

impl Chunk {
    /// Well-formed: each key occurs once and every value stays within
    /// the pipeline's text bound.
    pub closed spec fn wf(&self) -> bool {
        &&& forall|i: int, j: int|
            0 <= i < j < self.entries@.len() ==> #[trigger] self.entries@[i].0@
                != #[trigger] self.entries@[j].0@
        &&& forall|i: int|
            0 <= i < self.entries@.len() ==> #[trigger] self.entries@[i].1@.len() <= MAX_TEXT_LEN
    }

    /// The value stored under a key.
    pub closed spec fn lookup(&self, k: Seq<u8>) -> Option<Seq<char>> {
        assoc_lookup(self.entries@, k)
    }

    /// The chunk's creation timestamp, in epoch seconds.
    pub closed spec fn created_spec(&self) -> int {
        self.created_at as int
    }

    /// How many entries the chunk holds.
    pub closed spec fn entry_count(&self) -> nat {
        self.entries@.len()
    }

    /// The chunk's entries, in the order they were first written.
    pub closed spec fn entries_spec(&self) -> Seq<(Vec<u8>, String)> {
        self.entries@
    }

    /// A fresh, empty chunk stamped with its creation time.
    pub fn new(created_at: i64) -> (r: Self)
        ensures
            r.wf(),
            r.created_spec() == created_at,
            r.entry_count() == 0,
            forall|k: Seq<u8>| #[trigger] r.lookup(k) is None,
    {
        let r = Chunk { created_at, entries: Vec::new() };
        proof {
            assert(forall|k: Seq<u8>| #[trigger] assoc_lookup(r.entries@, k) is None);
        }
        r
    }

    /// The chunk's creation timestamp.
    pub fn created_at(&self) -> (r: i64)
        ensures
            r == self.created_spec(),
    {
        self.created_at
    }

    /// How many entries the chunk holds.
    pub fn len(&self) -> (r: usize)
        ensures
            r == self.entry_count(),
    {
        self.entries.len()
    }

    /// The entries, for the embedding program to persist.
    pub fn entries(&self) -> (r: &Vec<(Vec<u8>, String)>)
        ensures
            r@ == self.entries_spec(),
    {
        &self.entries
    }

    /// Position of the entry holding the key, if any.
    fn find(&self, key: &Vec<u8>) -> (r: Option<usize>)
        ensures
            r matches Some(i) ==> i < self.entries@.len() && self.entries@[i as int].0@ == key@
                && forall|j: int| 0 <= j < i ==> #[trigger] self.entries@[j].0@ != key@,
            r is None ==> forall|j: int|
                0 <= j < self.entries@.len() ==> #[trigger] self.entries@[j].0@ != key@,
    {
        let mut i: usize = 0;
        while i < self.entries.len()
            invariant
                i <= self.entries@.len(),
                forall|j: int| 0 <= j < i ==> #[trigger] self.entries@[j].0@ != key@,
            decreases self.entries@.len() - i,
        {
            if bytes_eq(&self.entries[i].0, key) {
                return Some(i);
            }
            i = i + 1;
        }
        None
    }

    /// Write an entry: an existing key is updated in place, a new key is
    /// appended. Other keys are untouched.
    pub fn store(&mut self, key: Vec<u8>, value: String)
        requires
            old(self).wf(),
            value@.len() <= MAX_TEXT_LEN,
        ensures
            final(self).wf(),
            final(self).created_spec() == old(self).created_spec(),
            final(self).lookup(key@) == Some(value@),
            forall|k2: Seq<u8>|
                k2 != key@ ==> #[trigger] final(self).lookup(k2) == old(self).lookup(k2),
            final(self).entry_count() == old(self).entry_count() + if old(self).lookup(
                key@,
            ) is Some {
                0int
            } else {
                1int
            },
    {
        let found = self.find(&key);
        match found {
            Some(i) => {
                let ghost s0 = self.entries@;
                proof {
                    crate::anagrams::lemma_assoc_found(s0, i as int);
                }
                self.entries[i] = (key, value);
                proof {
                    let kv = self.entries@[i as int];
                    assert(self.entries@ == s0.update(i as int, kv));
                    lemma_assoc_update(s0, i as int, kv);
                    assert forall|k2: Seq<u8>| k2 != kv.0@ implies #[trigger] assoc_lookup(
                        self.entries@,
                        k2,
                    ) == assoc_lookup(s0, k2) by {
                        lemma_assoc_update_other(s0, i as int, kv, k2);
                    }
                    assert forall|p: int, q: int|
                        0 <= p < q < self.entries@.len() implies #[trigger] self.entries@[p].0@
                        != #[trigger] self.entries@[q].0@ by {}
                }
            },
            None => {
                let ghost s0 = self.entries@;
                proof {
                    lemma_assoc_none(s0, key@);
                }
                self.entries.push((key, value));
                proof {
                    let kv = self.entries@[s0.len() as int];
                    lemma_assoc_push(s0, kv);
                    assert forall|k2: Seq<u8>| k2 != kv.0@ implies #[trigger] assoc_lookup(
                        self.entries@,
                        k2,
                    ) == assoc_lookup(s0, k2) by {
                        lemma_assoc_push_other(s0, kv, k2);
                    }
                    assert forall|p: int, q: int|
                        0 <= p < q < self.entries@.len() implies #[trigger] self.entries@[p].0@
                        != #[trigger] self.entries@[q].0@ by {}
                }
            },
        }
    }

    /// Read the value under a key, if any.
    pub fn get(&self, key: &Vec<u8>) -> (r: Option<String>)
        ensures
            r matches Some(v) ==> self.lookup(key@) == Some(v@),
            r is None ==> self.lookup(key@) is None,
    {
        match self.find(key) {
            Some(i) => {
                proof {
                    crate::anagrams::lemma_assoc_found(self.entries@, i as int);
                }
                Some(self.entries[i].1.clone())
            },
            None => {
                proof {
                    lemma_assoc_none(self.entries@, key@);
                }
                None
            },
        }
    }

    /// Delete the entry under a key, if any. Other keys are untouched.
    pub fn remove_key(&mut self, key: &Vec<u8>)
        requires
            old(self).wf(),
        ensures
            final(self).wf(),
            final(self).created_spec() == old(self).created_spec(),
            final(self).lookup(key@) is None,
            forall|k2: Seq<u8>|
                k2 != key@ ==> #[trigger] final(self).lookup(k2) == old(self).lookup(k2),
    {
        match self.find(key) {
            Some(i) => {
                let ghost s0 = self.entries@;
                self.entries.remove(i);
                proof {
                    lemma_assoc_remove(s0, i as int, key@);
                    assert forall|k2: Seq<u8>| k2 != key@ implies #[trigger] assoc_lookup(
                        self.entries@,
                        k2,
                    ) == assoc_lookup(s0, k2) by {
                        lemma_assoc_remove_other(s0, i as int, k2);
                    }
                    assert forall|p: int, q: int|
                        0 <= p < q < self.entries@.len() implies #[trigger] self.entries@[p].0@
                        != #[trigger] self.entries@[q].0@ by {
                        assert(self.entries@[p] == if p < i as int {
                            s0[p]
                        } else {
                            s0[p + 1]
                        });
                        assert(self.entries@[q] == if q < i as int {
                            s0[q]
                        } else {
                            s0[q + 1]
                        });
                    }
                }
            },
            None => {
                proof {
                    lemma_assoc_none(self.entries@, key@);
                }
            },
        }
    }

    /// Rebuild a chunk from persisted entries. It succeeds exactly when
    /// the data is well-formed — keys unique, values within the text
    /// bound — and malformed data is refused as a hard error, never
    /// silently accepted.
    pub fn from_entries(created_at: i64, entries: Vec<(Vec<u8>, String)>) -> (r: Option<Chunk>)
        ensures
            r is Some <==> entries_wf(entries@),
            r matches Some(c) ==> c.wf() && c.created_spec() == created_at && c.entries_spec()
                == entries@,
    {
        let n = entries.len();
        let mut i: usize = 0;
        while i < n
            invariant
                i <= n,
                n == entries@.len(),
                forall|p: int, q: int|
                    0 <= p < q < i ==> #[trigger] entries@[p].0@ != #[trigger] entries@[q].0@,
                forall|p: int| 0 <= p < i ==> #[trigger] entries@[p].1@.len() <= MAX_TEXT_LEN,
            decreases n - i,
        {
            if entries[i].1.as_str().unicode_len() > MAX_TEXT_LEN {
                proof {
                    assert(!entries_wf(entries@));
                }
                return None;
            }
            let mut j: usize = 0;
            while j < i
                invariant
                    j <= i < n,
                    n == entries@.len(),
                    forall|p: int| 0 <= p < j ==> #[trigger] entries@[p].0@ != entries@[i as int].0@,
                decreases i - j,
            {
                if bytes_eq(&entries[j].0, &entries[i].0) {
                    proof {
                        assert(!entries_wf(entries@));
                    }
                    return None;
                }
                j = j + 1;
            }
            i = i + 1;
        }
        Some(Chunk { created_at, entries })
    }
}

/// The value found by scanning the chunks in order and stopping at the
/// first chunk that knows the key.
pub open spec fn chunks_lookup(cs: Seq<Chunk>, k: Seq<u8>) -> Option<Seq<char>>
    decreases cs.len(),
{
    if cs.len() == 0 {
        None
    } else if cs[0].lookup(k) is Some {
        cs[0].lookup(k)
    } else {
        chunks_lookup(cs.drop_first(), k)
    }
}

/// Persisted entries are acceptable when each key occurs once and every
/// value stays within the pipeline's text bound.
pub open spec fn entries_wf(es: Seq<(Vec<u8>, String)>) -> bool {
    &&& forall|p: int, q: int|
        0 <= p < q < es.len() ==> #[trigger] es[p].0@ != #[trigger] es[q].0@
    &&& forall|p: int| 0 <= p < es.len() ==> #[trigger] es[p].1@.len() <= MAX_TEXT_LEN
}

/// Every chunk of the sequence is well-formed.
pub open spec fn chunks_wf(cs: Seq<Chunk>) -> bool {
    forall|i: int| 0 <= i < cs.len() ==> #[trigger] cs[i].wf()
}

/// A key no chunk knows is not found.
proof fn lemma_chunks_lookup_none(cs: Seq<Chunk>, k: Seq<u8>)
    requires
        forall|i: int| 0 <= i < cs.len() ==> #[trigger] cs[i].lookup(k) is None,
    ensures
        chunks_lookup(cs, k) is None,
    decreases cs.len(),
{
    if cs.len() > 0 {
        lemma_chunks_lookup_none(cs.drop_first(), k);
    }
}

/// The first chunk that knows the key decides the value: chunks before
/// it know nothing of the key.
proof fn lemma_chunks_lookup_at(cs: Seq<Chunk>, k: Seq<u8>, i: int)
    requires
        0 <= i < cs.len(),
        cs[i].lookup(k) is Some,
        forall|j: int| 0 <= j < i ==> #[trigger] cs[j].lookup(k) is None,
    ensures
        chunks_lookup(cs, k) == cs[i].lookup(k),
    decreases i,
{
    if i > 0 {
        assert(cs.drop_first()[i - 1] == cs[i]);
        lemma_chunks_lookup_at(cs.drop_first(), k, i - 1);
    }
}

/// Values found across well-formed chunks respect the text bound.
proof fn lemma_chunks_lookup_bounded(cs: Seq<Chunk>, k: Seq<u8>)
    requires
        chunks_wf(cs),
        chunks_lookup(cs, k) is Some,
    ensures
        chunks_lookup(cs, k)->Some_0.len() <= MAX_TEXT_LEN,
    decreases cs.len(),
{
    if cs.len() > 0 {
        if cs[0].lookup(k) is Some {
            assert(cs[0].wf());
            lemma_assoc_in_list_chunk(cs[0], k);
        } else {
            lemma_chunks_lookup_bounded(cs.drop_first(), k);
        }
    }
}

/// A value a well-formed chunk yields respects the text bound.
proof fn lemma_assoc_in_list_chunk(c: Chunk, k: Seq<u8>)
    requires
        c.wf(),
        c.lookup(k) is Some,
    ensures
        c.lookup(k)->Some_0.len() <= MAX_TEXT_LEN,
{
    lemma_assoc_in_list::<Vec<u8>, String>(c.entries@, k);
}

/// Two chunk lists whose chunks all answer a key alike answer it alike
/// as a whole.
proof fn lemma_chunks_lookup_pointwise(cs0: Seq<Chunk>, cs1: Seq<Chunk>, k: Seq<u8>)
    requires
        cs0.len() == cs1.len(),
        forall|i: int| 0 <= i < cs0.len() ==> #[trigger] cs1[i].lookup(k) == cs0[i].lookup(k),
    ensures
        chunks_lookup(cs1, k) == chunks_lookup(cs0, k),
    decreases cs0.len(),
{
    if cs0.len() > 0 {
        assert(cs1[0].lookup(k) == cs0[0].lookup(k));
        assert forall|i: int| 0 <= i < cs0.drop_first().len() implies #[trigger]
            cs1.drop_first()[i].lookup(k) == cs0.drop_first()[i].lookup(k) by {
            assert(cs1.drop_first()[i] == cs1[i + 1]);
            assert(cs0.drop_first()[i] == cs0[i + 1]);
        }
        lemma_chunks_lookup_pointwise(cs0.drop_first(), cs1.drop_first(), k);
    }
}

/// A chunk appended at the end answers a key only when no earlier chunk
/// does.
proof fn lemma_chunks_lookup_push(cs: Seq<Chunk>, c: Chunk, k: Seq<u8>)
    ensures
        chunks_lookup(cs.push(c), k) == if chunks_lookup(cs, k) is Some {
            chunks_lookup(cs, k)
        } else {
            c.lookup(k)
        },
    decreases cs.len(),
{
    let out = cs.push(c);
    if cs.len() == 0 {
        assert(out[0] == c);
        assert(out.drop_first() =~= Seq::<Chunk>::empty());
        assert(chunks_lookup(out.drop_first(), k) is None);
        if c.lookup(k) is Some {
            assert(chunks_lookup(out, k) == out[0].lookup(k));
        } else {
            assert(chunks_lookup(out, k) == chunks_lookup(out.drop_first(), k));
        }
    } else {
        assert(out[0] == cs[0]);
        assert(out.drop_first() =~= cs.drop_first().push(c));
        lemma_chunks_lookup_push(cs.drop_first(), c, k);
    }
}

/// What a lookup over the given cache contents and chunks finds: the
/// cache first, then the chunks in ascending creation order.
pub open spec fn raw_view(m: Map<Seq<u8>, Seq<char>>, cs: Seq<Chunk>, k: Seq<u8>) -> Option<
    Seq<char>,
> {
    if m.dom().contains(k) {
        Some(m[k])
    } else {
        chunks_lookup(cs, k)
    }
}

/// The chunks are ordered by their creation timestamps.
pub open spec fn chunks_sorted(cs: Seq<Chunk>) -> bool {
    forall|i: int, j: int|
        0 <= i < j < cs.len() ==> #[trigger] cs[i].created_spec() <= #[trigger] cs[j].created_spec()
}

/// Wraps a collection of chunks, allowing old chunks to stay on disk
/// while the newest accepts writes; a bounded write-back cache fronts
/// them all.
pub struct Mdbm {
    cache: ByteCache,
    chunk_size: usize,
    chunks: Vec<Chunk>,
}

impl Mdbm {
    /// The store's chunks, oldest first.
    pub closed spec fn chunks_spec(&self) -> Seq<Chunk> {
        self.chunks@
    }

    /// What the cache holds.
    pub closed spec fn cache_spec(&self) -> Map<Seq<u8>, Seq<char>> {
        lru_map(self.cache)
    }

    /// The configured number of entries per chunk.
    pub closed spec fn chunk_size_spec(&self) -> nat {
        self.chunk_size as nat
    }

    /// The configured bound of the cache.
    pub closed spec fn cache_capacity_spec(&self) -> nat {
        lru_cap(self.cache)
    }

    /// The store's internal invariant: the cache is bounded and holds
    /// bounded texts, every chunk is well-formed, and the cache is only
    /// ever non-empty once a chunk exists to flush into. The capacity is
    /// at least ten so that the eviction batch, a tenth of it, is never
    /// empty and the cache can always make room without losing entries.
    pub closed spec fn inv(&self) -> bool {
        &&& lru_cap(self.cache) >= 10
        &&& lru_map(self.cache).dom().finite()
        &&& lru_map(self.cache).dom().len() <= lru_cap(self.cache)
        &&& forall|k: Seq<u8>|
            lru_map(self.cache).dom().contains(k) ==> #[trigger] lru_map(self.cache)[k].len()
                <= MAX_TEXT_LEN
        &&& chunks_wf(self.chunks@)
        &&& lru_map(self.cache).dom().len() > 0 ==> self.chunks@.len() > 0
    }

    /// What a lookup finds: the cache first, then the chunks in
    /// ascending creation order, first hit wins.
    pub open spec fn raw_lookup(&self, k: Seq<u8>) -> Option<Seq<char>> {
        raw_view(self.cache_spec(), self.chunks_spec(), k)
    }

    /// Whether the cache holds nothing, so that every entry rests in the
    /// chunks.
    pub open spec fn flushed(&self) -> bool {
        self.cache_spec().dom() =~= Set::<Seq<u8>>::empty()
    }

    /// A fresh store with no chunks: chunks appear on first insert or
    /// when loaded from persisted data. A chunk holds at least one entry
    /// and the cache at least ten, so that rotation and eviction always
    /// have room to work with.
    pub fn new(chunk_size: usize, cache_capacity: usize) -> (r: Self)
        requires
            chunk_size >= 1,
            cache_capacity >= 10,
        ensures
            r.inv(),
            r.chunks_spec().len() == 0,
            r.chunk_size_spec() == chunk_size,
            r.cache_capacity_spec() == cache_capacity,
            forall|k: Seq<u8>| #[trigger] r.raw_lookup(k) is None,
    {
        let r = Mdbm { cache: cache_new(cache_capacity), chunk_size, chunks: Vec::new() };
        proof {
            assert(forall|k: Seq<u8>| !(#[trigger] lru_map(r.cache).dom().contains(k)));
            assert(forall|k: Seq<u8>| #[trigger] r.raw_lookup(k) is None);
        }
        r
    }

    /// Rebuild a store from persisted chunks: the chunks are ordered by
    /// their embedded creation timestamps, never by the order the files
    /// were handed over in; chunks stamped within the same second stay
    /// in the given order. Data already in creation order is taken as
    /// it stands.
    pub fn from_chunks(chunks: Vec<Chunk>, chunk_size: usize, cache_capacity: usize) -> (r: Self)
        requires
            chunk_size >= 1,
            cache_capacity >= 10,
            chunks_wf(chunks@),
        ensures
            r.inv(),
            r.flushed(),
            r.chunk_size_spec() == chunk_size,
            r.cache_capacity_spec() == cache_capacity,
            r.chunks_spec() == sort_chunks(chunks@),
            chunks_sorted(r.chunks_spec()),
            forall|k: Seq<u8>| #[trigger] r.raw_lookup(k) == chunks_lookup(
                sort_chunks(chunks@),
                k,
            ),
            chunks_sorted(chunks@) ==> r.chunks_spec() == chunks@,
            chunks_sorted(chunks@) ==> forall|k: Seq<u8>| #[trigger] r.raw_lookup(k)
                == chunks_lookup(chunks@, k),
    {
        let sorted = sort_chunks_by_time(chunks);
        let r = Mdbm { cache: cache_new(cache_capacity), chunk_size, chunks: sorted };
        proof {
            assert(forall|k: Seq<u8>| !(#[trigger] lru_map(r.cache).dom().contains(k)));
        }
        r
    }

    /// How many chunks the store holds.
    pub fn n_chunks(&self) -> (r: usize)
        ensures
            r == self.chunks_spec().len(),
    {
        self.chunks.len()
    }

    /// Hand the chunks over, oldest first, for the embedding program to
    /// persist.
    pub fn into_chunks(self) -> (r: Vec<Chunk>)
        ensures
            r@ == self.chunks_spec(),
    {
        let Mdbm { cache: _, chunk_size: _, chunks } = self;
        chunks
    }

    /// Open a new current chunk, stamped with the wall clock at
    /// one-second resolution. The new chunk is empty, so every key still
    /// reads as before.
    fn add_chunk(&mut self)
        requires
            old(self).inv(),
        ensures
            final(self).inv(),
            final(self).chunks_spec().len() == old(self).chunks_spec().len() + 1,
            final(self).cache_spec() == old(self).cache_spec(),
            final(self).cache_capacity_spec() == old(self).cache_capacity_spec(),
            final(self).chunk_size_spec() == old(self).chunk_size_spec(),
            forall|k: Seq<u8>| #[trigger] final(self).raw_lookup(k) == old(self).raw_lookup(k),
    {
        let ghost cs0 = self.chunks@;
        let now = now_timestamp();
        self.chunks.push(Chunk::new(now));
        proof {
            assert(chunks_wf(self.chunks@));
            assert forall|k: Seq<u8>| #[trigger] chunks_lookup(self.chunks@, k) == chunks_lookup(
                cs0,
                k,
            ) by {
                lemma_chunks_lookup_push(cs0, self.chunks@.last(), k);
            }
        }
    }

    /// Write one entry into the current chunk and strip older copies of
    /// its key from earlier chunks, so that the ascending scan finds
    /// exactly this value: buckets stay last-writer-wins on disk.
    fn write_back(&mut self, key: Vec<u8>, value: String)
        requires
            old(self).inv(),
            old(self).chunks_spec().len() > 0,
            value@.len() <= MAX_TEXT_LEN,
        ensures
            final(self).inv(),
            final(self).chunks_spec().len() == old(self).chunks_spec().len(),
            final(self).cache_spec() == old(self).cache_spec(),
            final(self).cache_capacity_spec() == old(self).cache_capacity_spec(),
            final(self).chunk_size_spec() == old(self).chunk_size_spec(),
            chunks_lookup(final(self).chunks_spec(), key@) == Some(value@),
            forall|k2: Seq<u8>|
                k2 != key@ ==> #[trigger] chunks_lookup(final(self).chunks_spec(), k2)
                    == chunks_lookup(old(self).chunks_spec(), k2),
    {
        let ghost s0 = *old(self);
        let n = self.chunks.len();

        // strip the key from every chunk but the current one
        let mut i: usize = 0;
        while i < n - 1
            invariant
                self.inv(),
                s0 == *old(self),
                n == self.chunks@.len(),
                n == s0.chunks_spec().len(),
                n > 0,
                i <= n - 1,
                self.cache == s0.cache,
                self.chunk_size == s0.chunk_size_spec(),
                forall|j: int| 0 <= j < i ==> #[trigger] self.chunks@[j].lookup(key@) is None,
                forall|j: int| i <= j < n ==> #[trigger] self.chunks@[j] == s0.chunks_spec()[j],
                forall|j: int, k2: Seq<u8>|
                    0 <= j < n && k2 != key@ ==> #[trigger] self.chunks@[j].lookup(k2)
                        == s0.chunks_spec()[j].lookup(k2),
            decreases n - 1 - i,
        {
            let ghost cs0 = self.chunks@;
            let mut ch = self.chunks.remove(i);
            ch.remove_key(&key);
            self.chunks.insert(i, ch);
            proof {
                assert(self.chunks@ =~= cs0.update(i as int, self.chunks@[i as int]));
                assert(chunks_wf(self.chunks@));
                assert forall|j: int| 0 <= j < i + 1 implies #[trigger] self.chunks@[j].lookup(
                    key@,
                ) is None by {
                    if j < i {
                        assert(self.chunks@[j] == cs0[j]);
                    }
                }
            }
            i = i + 1;
        }

        // write into the current chunk, in place or appended
        let ghost kview = key@;
        let ghost vview = value@;
        let mut ch = match self.chunks.pop() {
            Some(c) => c,
            None => unreached(),
        };
        ch.store(key, value);
        self.chunks.push(ch);
        proof {
            assert(chunks_wf(self.chunks@));
            assert(self.chunks@.len() == n);
            assert(forall|j: int| 0 <= j < n - 1 ==> #[trigger] self.chunks@[j].lookup(
                kview,
            ) is None);
            assert(self.chunks@[n - 1].lookup(kview) == Some(vview));
            lemma_chunks_lookup_at(self.chunks@, kview, n - 1);
            assert forall|k2: Seq<u8>| k2 != kview implies #[trigger] chunks_lookup(
                self.chunks@,
                k2,
            ) == chunks_lookup(s0.chunks_spec(), k2) by {
                assert(forall|j: int|
                    0 <= j < n ==> #[trigger] self.chunks@[j].lookup(k2)
                        == s0.chunks_spec()[j].lookup(k2));
                lemma_chunks_lookup_pointwise(s0.chunks_spec(), self.chunks@, k2);
            }
        }
    }

    /// The health check run before every insert: under eviction pressure
    /// the least-recently-used tenth of the cache is written back into
    /// the current chunk; a chunk is then opened if none exists yet or
    /// the current one has reached the configured size. Every key reads
    /// as before, and room is left so the next insert drops nothing.
    fn check_health(&mut self)
        requires
            old(self).inv(),
        ensures
            final(self).inv(),
            final(self).chunks_spec().len() > 0,
            old(self).chunks_spec().len() <= final(self).chunks_spec().len() <= old(
                self,
            ).chunks_spec().len() + 1,
            final(self).cache_capacity_spec() == old(self).cache_capacity_spec(),
            final(self).chunk_size_spec() == old(self).chunk_size_spec(),
            final(self).cache_spec().dom().len() < final(self).cache_capacity_spec(),
            forall|k: Seq<u8>| #[trigger] final(self).raw_lookup(k) == old(self).raw_lookup(k),
    {
        let ghost s0 = *old(self);
        let cap = cache_capacity(&self.cache);
        let cache_len = cache_len(&self.cache);
        if cache_len > (cap / 10) * 9 {
            // clear out some cache space
            let evict_n = cap / 10;
            let ghost len0 = lru_map(self.cache).dom().len();
            let mut i: usize = 0;
            while i < evict_n
                invariant
                    self.inv(),
                    s0 == *old(self),
                    i <= evict_n,
                    evict_n == cap / 10,
                    cap == lru_cap(self.cache),
                    len0 > (cap / 10) * 9,
                    len0 <= cap,
                    lru_map(self.cache).dom().len() == len0 - i,
                    self.chunks@.len() > 0,
                    self.chunks@.len() == s0.chunks_spec().len(),
                    self.chunk_size == s0.chunk_size_spec(),
                    forall|k: Seq<u8>| #[trigger] raw_view(lru_map(self.cache), self.chunks@, k)
                        == s0.raw_lookup(k),
                decreases evict_n - i,
            {
                let ghost pre = *self;
                match cache_remove_lru(&mut self.cache) {
                    Some((k, v)) => {
                        let ghost kview = k@;
                        let ghost vview = v@;
                        proof {
                            assert(vview.len() <= MAX_TEXT_LEN);
                        }
                        self.write_back(k, v);
                        proof {
                            assert forall|k2: Seq<u8>| #[trigger] raw_view(
                                lru_map(self.cache),
                                self.chunks@,
                                k2,
                            ) == raw_view(lru_map(pre.cache), pre.chunks@, k2) by {
                                if k2 == kview {
                                    assert(raw_view(lru_map(pre.cache), pre.chunks@, k2) == Some(
                                        vview,
                                    ));
                                    assert(!lru_map(self.cache).dom().contains(k2));
                                    assert(chunks_lookup(self.chunks@, k2) == Some(vview));
                                } else {
                                    assert(lru_map(self.cache)[k2] == lru_map(pre.cache)[k2]);
                                    assert(chunks_lookup(self.chunks@, k2) == chunks_lookup(
                                        pre.chunks@,
                                        k2,
                                    ));
                                }
                            }
                        }
                    },
                    None => {
                        proof {
                            assert(lru_map(pre.cache).dom().len() == 0);
                            assert(false);
                        }
                    },
                }
                i = i + 1;
            }
        }
        let needs_chunk = if self.chunks.len() == 0 {
            true
        } else {
            let last = self.chunks.len() - 1;
            self.chunks[last].len() >= self.chunk_size
        };
        if needs_chunk {
            self.add_chunk();
        }
        proof {
            assert((cap / 10) * 10 <= cap);
            assert(cap / 10 >= 1);
        }
    }

    /// Look a key up: the cache first, then the chunks in ascending
    /// creation order; a value found in a chunk is promoted into the
    /// cache, with the least-recently-used entry written back first when
    /// the cache is full, so no key's answer changes.
    fn raw_get(&mut self, key: &Vec<u8>) -> (r: Option<String>)
        requires
            old(self).inv(),
        ensures
            final(self).inv(),
            r matches Some(v) ==> old(self).raw_lookup(key@) == Some(v@),
            r is None ==> old(self).raw_lookup(key@) is None,
            forall|k2: Seq<u8>| #[trigger] final(self).raw_lookup(k2) == old(self).raw_lookup(k2),
            final(self).chunks_spec().len() == old(self).chunks_spec().len(),
            final(self).cache_capacity_spec() == old(self).cache_capacity_spec(),
            final(self).chunk_size_spec() == old(self).chunk_size_spec(),
    {
        let ghost s0 = *old(self);
        if let Some(v) = cache_get(&mut self.cache, key) {
            return Some(v);
        }
        let mut i: usize = 0;
        while i < self.chunks.len()
            invariant
                self.inv(),
                i <= self.chunks@.len(),
                !lru_map(self.cache).dom().contains(key@),
                s0 == *old(self),
                self.chunks@ == s0.chunks_spec(),
                lru_map(self.cache) == s0.cache_spec(),
                lru_cap(self.cache) == s0.cache_capacity_spec(),
                self.chunk_size == s0.chunk_size_spec(),
                !s0.cache_spec().dom().contains(key@),
                forall|j: int| 0 <= j < i ==> #[trigger] self.chunks@[j].lookup(key@) is None,
            decreases self.chunks@.len() - i,
        {
            match self.chunks[i].get(key) {
                Some(v) => {
                    let ghost kview = key@;
                    let ghost vview = v@;
                    let ghost m0 = lru_map(self.cache);
                    proof {
                        lemma_chunks_lookup_at(self.chunks@, kview, i as int);
                        assert(self.chunks@[i as int].wf());
                        lemma_assoc_in_list_chunk(self.chunks@[i as int], kview);
                        assert(s0.raw_lookup(kview) == Some(vview));
                    }

                    // make room first, so the promotion drops nothing
                    let ghost mut evicted: Option<Seq<u8>> = None;
                    let ghost mut ev_val: Seq<char> = Seq::empty();
                    let len_now = cache_len(&self.cache);
                    let cap_now = cache_capacity(&self.cache);
                    if len_now == cap_now {
                        match cache_remove_lru(&mut self.cache) {
                            Some((ek, ev)) => {
                                proof {
                                    evicted = Some(ek@);
                                    ev_val = ev@;
                                    assert(ev@.len() <= MAX_TEXT_LEN);
                                }
                                self.write_back(ek, ev);
                            },
                            None => {
                                proof {
                                    assert(false);
                                }
                            },
                        }
                    }

                    let kc = copy_bytes(key);
                    let vc = v.clone();
                    cache_insert(&mut self.cache, kc, vc);
                    proof {
                        let m1 = lru_map(self.cache);
                        match evicted {
                            Some(ekv) => {
                                assert(m1 == m0.remove(ekv).insert(kview, vview));
                                assert(m1.dom() =~= m0.dom().remove(ekv).insert(kview));
                            },
                            None => {
                                assert(m1 == m0.insert(kview, vview));
                                assert(m1.dom() =~= m0.dom().insert(kview));
                            },
                        }
                        assert forall|k2: Seq<u8>| #[trigger] raw_view(
                            lru_map(self.cache),
                            self.chunks@,
                            k2,
                        ) == s0.raw_lookup(k2) by {
                            if k2 == kview {
                                assert(m1[k2] == vview);
                            } else {
                                match evicted {
                                    Some(ekv) => {
                                        if k2 == ekv {
                                            assert(!m1.dom().contains(k2));
                                            assert(chunks_lookup(self.chunks@, k2) == Some(
                                                ev_val,
                                            ));
                                            assert(s0.raw_lookup(k2) == Some(ev_val));
                                        } else {
                                            assert(m1.dom().contains(k2) == m0.dom().contains(
                                                k2,
                                            ));
                                            assert(m0.dom().contains(k2) ==> m1[k2] == m0[k2]);
                                            assert(chunks_lookup(self.chunks@, k2)
                                                == chunks_lookup(s0.chunks_spec(), k2));
                                        }
                                    },
                                    None => {
                                        assert(m1.dom().contains(k2) == m0.dom().contains(k2));
                                        assert(m0.dom().contains(k2) ==> m1[k2] == m0[k2]);
                                    },
                                }
                            }
                        }
                    }
                    return Some(v);
                },
                None => {},
            }
            i = i + 1;
        }
        proof {
            lemma_chunks_lookup_none(self.chunks@, key@);
        }
        None
    }

    /// Insert through the cache: the write reaches a chunk only on
    /// eviction pressure or at a flush. Only the inserted bucket
    /// changes; the health check leaves room, so nothing is dropped.
    fn raw_insert(&mut self, key: Vec<u8>, value: String)
        requires
            old(self).inv(),
            value@.len() <= MAX_TEXT_LEN,
        ensures
            final(self).inv(),
            final(self).raw_lookup(key@) == Some(value@),
            forall|k2: Seq<u8>|
                k2 != key@ ==> #[trigger] final(self).raw_lookup(k2) == old(self).raw_lookup(k2),
            old(self).chunks_spec().len() <= final(self).chunks_spec().len() <= old(
                self,
            ).chunks_spec().len() + 1,
            final(self).cache_capacity_spec() == old(self).cache_capacity_spec(),
            final(self).chunk_size_spec() == old(self).chunk_size_spec(),
    {
        self.check_health();
        let ghost mid = *self;
        let ghost kview = key@;
        let ghost vview = value@;
        let ghost m0 = lru_map(self.cache);
        cache_insert(&mut self.cache, key, value);
        proof {
            let m1 = lru_map(self.cache);
            assert(m1 == m0.insert(kview, vview));
            assert(m1.dom() =~= m0.dom().insert(kview));
            assert forall|k2: Seq<u8>| k2 != kview implies #[trigger] raw_view(
                lru_map(self.cache),
                self.chunks@,
                k2,
            ) == old(self).raw_lookup(k2) by {
                assert(m1.dom().contains(k2) == m0.dom().contains(k2));
                assert(m0.dom().contains(k2) ==> m1[k2] == m0[k2]);
                assert(mid.raw_lookup(k2) == raw_view(lru_map(mid.cache), mid.chunks@, k2));
                assert(mid.raw_lookup(k2) == old(self).raw_lookup(k2));
            }
        }
    }

    /// Remove a key everywhere: from the cache and from every chunk, so
    /// that no older occurrence can resurface on a later lookup. Every
    /// other bucket is untouched.
    fn raw_remove(&mut self, key: &Vec<u8>)
        requires
            old(self).inv(),
        ensures
            final(self).inv(),
            final(self).raw_lookup(key@) is None,
            forall|k2: Seq<u8>|
                k2 != key@ ==> #[trigger] final(self).raw_lookup(k2) == old(self).raw_lookup(k2),
            final(self).chunks_spec().len() == old(self).chunks_spec().len(),
            final(self).cache_capacity_spec() == old(self).cache_capacity_spec(),
            final(self).chunk_size_spec() == old(self).chunk_size_spec(),
    {
        let ghost s0 = *old(self);
        let ghost m0 = lru_map(self.cache);
        cache_remove(&mut self.cache, key);
        let n = self.chunks.len();
        let mut i: usize = 0;
        while i < n
            invariant
                self.inv(),
                s0 == *old(self),
                n == self.chunks@.len(),
                n == s0.chunks_spec().len(),
                i <= n,
                !lru_map(self.cache).dom().contains(key@),
                lru_map(self.cache) == m0.remove(key@),
                m0 == s0.cache_spec(),
                lru_cap(self.cache) == s0.cache_capacity_spec(),
                self.chunk_size == s0.chunk_size_spec(),
                forall|j: int| 0 <= j < i ==> #[trigger] self.chunks@[j].lookup(key@) is None,
                forall|j: int, k2: Seq<u8>|
                    0 <= j < n && k2 != key@ ==> #[trigger] self.chunks@[j].lookup(k2)
                        == s0.chunks_spec()[j].lookup(k2),
            decreases n - i,
        {
            let ghost cs0 = self.chunks@;
            let mut ch = self.chunks.remove(i);
            ch.remove_key(key);
            self.chunks.insert(i, ch);
            proof {
                assert(self.chunks@ =~= cs0.update(i as int, self.chunks@[i as int]));
                assert(chunks_wf(self.chunks@));
                assert forall|j: int| 0 <= j < i + 1 implies #[trigger] self.chunks@[j].lookup(
                    key@,
                ) is None by {
                    if j < i {
                        assert(self.chunks@[j] == cs0[j]);
                    }
                }
            }
            i = i + 1;
        }
        proof {
            lemma_chunks_lookup_none(self.chunks@, key@);
            assert forall|k2: Seq<u8>| k2 != key@ implies #[trigger] raw_view(
                lru_map(self.cache),
                self.chunks@,
                k2,
            ) == s0.raw_lookup(k2) by {
                assert(lru_map(self.cache).dom().contains(k2) == m0.dom().contains(k2));
                assert(m0.dom().contains(k2) ==> lru_map(self.cache)[k2] == m0[k2]);
                lemma_chunks_lookup_pointwise(s0.chunks_spec(), self.chunks@, k2);
            }
        }
    }

    /// Write every cached entry back into the current chunk, leaving the
    /// cache empty: the flush run on every controlled shutdown. Every
    /// key afterwards reads exactly as before.
    pub fn flush(&mut self)
        requires
            old(self).inv(),
        ensures
            final(self).inv(),
            final(self).flushed(),
            final(self).chunks_spec().len() == old(self).chunks_spec().len(),
            final(self).cache_capacity_spec() == old(self).cache_capacity_spec(),
            final(self).chunk_size_spec() == old(self).chunk_size_spec(),
            forall|k: Seq<u8>| #[trigger] final(self).raw_lookup(k) == old(self).raw_lookup(k),
    {
        let ghost s0 = *old(self);
        loop
            invariant
                self.inv(),
                s0 == *old(self),
                self.cache_capacity_spec() == s0.cache_capacity_spec(),
                self.chunk_size == s0.chunk_size_spec(),
                self.chunks@.len() == s0.chunks_spec().len(),
                forall|k: Seq<u8>| #[trigger] raw_view(lru_map(self.cache), self.chunks@, k)
                    == s0.raw_lookup(k),
            decreases lru_map(self.cache).dom().len(),
        {
            let ghost pre = *self;
            match cache_remove_lru(&mut self.cache) {
                Some((k, v)) => {
                    let ghost kview = k@;
                    let ghost vview = v@;
                    proof {
                        assert(lru_map(pre.cache).dom().len() > 0);
                        assert(self.chunks@.len() > 0);
                        assert(vview.len() <= MAX_TEXT_LEN);
                    }
                    self.write_back(k, v);
                    proof {
                        assert forall|k2: Seq<u8>| #[trigger] raw_view(
                            lru_map(self.cache),
                            self.chunks@,
                            k2,
                        ) == raw_view(lru_map(pre.cache), pre.chunks@, k2) by {
                            if k2 == kview {
                                assert(raw_view(lru_map(pre.cache), pre.chunks@, k2) == Some(
                                    vview,
                                ));
                                assert(!lru_map(self.cache).dom().contains(k2));
                                assert(chunks_lookup(self.chunks@, k2) == Some(vview));
                            } else {
                                assert(lru_map(self.cache)[k2] == lru_map(pre.cache)[k2]);
                                assert(chunks_lookup(self.chunks@, k2) == chunks_lookup(
                                    pre.chunks@,
                                    k2,
                                ));
                            }
                        }
                    }
                },
                None => {
                    return ;
                },
            }
        }
    }
}

/// A chunk inserted into a time-ordered list just after the last entry
/// no newer than it, keeping the relative order of equally stamped
/// chunks.
pub open spec fn insert_chunk(c: Chunk, cs: Seq<Chunk>) -> Seq<Chunk>
    decreases cs.len(),
{
    if cs.len() == 0 {
        seq![c]
    } else if cs.last().created_spec() <= c.created_spec() {
        cs.push(c)
    } else {
        insert_chunk(c, cs.drop_last()).push(cs.last())
    }
}

/// A chunk list sorted stably by creation time.
pub open spec fn sort_chunks(cs: Seq<Chunk>) -> Seq<Chunk>
    decreases cs.len(),
{
    if cs.len() == 0 {
        Seq::empty()
    } else {
        insert_chunk(cs.last(), sort_chunks(cs.drop_last()))
    }
}

/// A list already in creation order is its own sorted form.
proof fn lemma_sort_chunks_sorted_id(cs: Seq<Chunk>)
    requires
        chunks_sorted(cs),
    ensures
        sort_chunks(cs) == cs,
    decreases cs.len(),
{
    if cs.len() > 0 {
        assert(chunks_sorted(cs.drop_last()));
        lemma_sort_chunks_sorted_id(cs.drop_last());
        if cs.len() > 1 {
            assert(cs.drop_last().last() == cs[cs.len() - 2]);
            assert(cs[cs.len() - 2].created_spec() <= cs.last().created_spec());
            assert(sort_chunks(cs) =~= cs);
        } else {
            assert(sort_chunks(cs) =~= cs);
        }
    }
}

/// Inserting at the first position whose entry is newer agrees with
/// [`insert_chunk`]. The position is counted from the front; everything
/// at or after it is strictly newer.
proof fn lemma_insert_chunk_at(c: Chunk, cs: Seq<Chunk>, pos: int)
    requires
        0 <= pos <= cs.len(),
        forall|j: int| 0 <= j < pos ==> #[trigger] cs[j].created_spec() <= c.created_spec(),
        forall|j: int| pos <= j < cs.len() ==> c.created_spec() < #[trigger] cs[j].created_spec(),
    ensures
        insert_chunk(c, cs) == cs.insert(pos, c),
    decreases cs.len(),
{
    if cs.len() == 0 {
        assert(insert_chunk(c, cs) =~= cs.insert(0, c));
    } else if pos == cs.len() {
        assert(cs.last().created_spec() <= c.created_spec());
        assert(cs.push(c) =~= cs.insert(pos, c));
    } else {
        assert(c.created_spec() < cs.last().created_spec());
        assert(forall|j: int|
            0 <= j < pos ==> #[trigger] cs.drop_last()[j].created_spec() <= c.created_spec());
        assert(forall|j: int|
            pos <= j < cs.drop_last().len() ==> c.created_spec() < #[trigger] cs.drop_last()[j].created_spec());
        lemma_insert_chunk_at(c, cs.drop_last(), pos);
        assert(cs.drop_last().insert(pos, c).push(cs.last()) =~= cs.insert(pos, c));
    }
}

/// A time-ordered list stays ordered when a chunk is inserted at the
/// first position holding a strictly newer chunk.
proof fn lemma_insert_pos_sorted(cs: Seq<Chunk>, c: Chunk, pos: int)
    requires
        chunks_sorted(cs),
        0 <= pos <= cs.len(),
        forall|j: int| 0 <= j < pos ==> #[trigger] cs[j].created_spec() <= c.created_spec(),
        forall|j: int| pos <= j < cs.len() ==> c.created_spec() < #[trigger] cs[j].created_spec(),
    ensures
        chunks_sorted(cs.insert(pos, c)),
{
    let out = cs.insert(pos, c);
    assert forall|p: int, q: int| 0 <= p < q < out.len() implies #[trigger] out[p].created_spec()
        <= #[trigger] out[q].created_spec() by {
        assert(out[p] == if p < pos {
            cs[p]
        } else if p == pos {
            c
        } else {
            cs[p - 1]
        });
        assert(out[q] == if q < pos {
            cs[q]
        } else if q == pos {
            c
        } else {
            cs[q - 1]
        });
    }
}

/// The first position in the time-ordered list whose chunk is strictly
/// newer than the stamp.
fn find_chunk_pos(out: &Vec<Chunk>, ts: i64) -> (pos: usize)
    requires
        chunks_sorted(out@),
    ensures
        pos <= out@.len(),
        forall|j: int| 0 <= j < pos ==> #[trigger] out@[j].created_spec() <= ts,
        forall|j: int| pos <= j < out@.len() ==> ts < #[trigger] out@[j].created_spec(),
{
    let mut pos: usize = 0;
    while pos < out.len()
        invariant
            pos <= out@.len(),
            chunks_sorted(out@),
            forall|j: int| 0 <= j < pos ==> #[trigger] out@[j].created_spec() <= ts,
        decreases out@.len() - pos,
    {
        if out[pos].created_at() > ts {
            return pos;
        }
        pos = pos + 1;
    }
    pos
}

/// Sort chunks ascending by their creation timestamps, stably: equal
/// stamps keep their given order, and data already in order is returned
/// as it stands.
fn sort_chunks_by_time(chunks: Vec<Chunk>) -> (r: Vec<Chunk>)
    requires
        chunks_wf(chunks@),
    ensures
        r@ == sort_chunks(chunks@),
        chunks_wf(r@),
        chunks_sorted(r@),
        chunks_sorted(chunks@) ==> r@ == chunks@,
{
    let ghost orig = chunks@;
    let mut rest = chunks;
    let mut out: Vec<Chunk> = Vec::new();
    proof {
        assert(orig.take(0) =~= Seq::<Chunk>::empty());
        assert(out@ =~= sort_chunks(orig.take(0)));
        assert(rest@ =~= orig.skip(0));
    }
    while rest.len() > 0
        invariant
            rest@.len() <= orig.len(),
            rest@ == orig.skip(orig.len() - rest@.len()),
            chunks_wf(orig),
            chunks_wf(out@),
            chunks_sorted(out@),
            out@ == sort_chunks(orig.take(orig.len() - rest@.len())),
        decreases rest@.len(),
    {
        let ghost i = orig.len() - rest@.len();
        let c = rest.remove(0);
        proof {
            assert(c == orig[i]);
            assert(rest@ =~= orig.skip(i + 1));
        }
        let pos = find_chunk_pos(&out, c.created_at());
        let ghost out0 = out@;
        out.insert(pos, c);
        proof {
            assert(out@ == out0.insert(pos as int, c));
            lemma_insert_chunk_at(c, out0, pos as int);
            lemma_insert_pos_sorted(out0, c, pos as int);
            assert(orig.take(i + 1).drop_last() =~= orig.take(i));
            assert(orig.take(i + 1).last() == orig[i]);
            assert(out@ == sort_chunks(orig.take(i + 1)));
            assert forall|p: int| 0 <= p < out@.len() implies #[trigger] out@[p].wf() by {
                assert(out@[p] == if p < pos as int {
                    out0[p]
                } else if p == pos as int {
                    c
                } else {
                    out0[p - 1]
                });
            }
        }
    }
    proof {
        assert(orig.take(orig.len() as int) =~= orig);
        if chunks_sorted(orig) {
            lemma_sort_chunks_sorted_id(orig);
        }
    }
    out
}

impl Store<String, String> for Mdbm {
    open spec fn valid(&self) -> bool {
        self.inv()
    }

    open spec fn lookup_spec(&self, k: Seq<char>) -> Option<Seq<char>> {
        self.raw_lookup(vstd::utf8::encode_utf8(k))
    }

    proof fn lemma_stored_text_bounded(&self, k: Seq<char>) {
        self.lemma_raw_lookup_bounded(vstd::utf8::encode_utf8(k));
    }

    fn remove(&mut self, key: &String)
        ensures
            forall|k2: Seq<char>|
                k2 != key@ ==> #[trigger] <Mdbm as Store<String, String>>::lookup_spec(
                    final(self),
                    k2,
                ) == <Mdbm as Store<String, String>>::lookup_spec(old(self), k2),
            final(self).chunks_spec().len() == old(self).chunks_spec().len(),
    {
        let kb = key.as_str().as_bytes_vec();
        self.raw_remove(&kb);
        proof {
            lemma_text_keys_distinct(key@);
        }
    }

    fn get_item(&mut self, key: &String) -> (r: Option<String>)
        ensures
            final(self).chunks_spec().len() == old(self).chunks_spec().len(),
    {
        let kb = key.as_str().as_bytes_vec();
        self.raw_get(&kb)
    }

    fn insert(&mut self, key: String, value: String)
        ensures
            forall|k2: Seq<char>|
                k2 != key@ ==> #[trigger] <Mdbm as Store<String, String>>::lookup_spec(
                    final(self),
                    k2,
                ) == <Mdbm as Store<String, String>>::lookup_spec(old(self), k2),
            old(self).chunks_spec().len() <= final(self).chunks_spec().len() <= old(
                self,
            ).chunks_spec().len() + 1,
    {
        let ghost kview = key@;
        let kb = key.as_str().as_bytes_vec();
        self.raw_insert(kb, value);
        proof {
            lemma_text_keys_distinct(kview);
        }
    }
}

/// Distinct texts have distinct byte keys: the byte encoding of a text
/// is reversible.
proof fn lemma_text_keys_distinct(k: Seq<char>)
    ensures
        forall|k2: Seq<char>|
            k2 != k ==> #[trigger] vstd::utf8::encode_utf8(k2) != vstd::utf8::encode_utf8(k),
{
    broadcast use vstd::utf8::encode_utf8_decode_utf8;

    assert forall|k2: Seq<char>| k2 != k implies #[trigger] vstd::utf8::encode_utf8(k2)
        != vstd::utf8::encode_utf8(k) by {
        if vstd::utf8::encode_utf8(k2) == vstd::utf8::encode_utf8(k) {
            assert(vstd::utf8::decode_utf8(vstd::utf8::encode_utf8(k2)) == k2);
            assert(vstd::utf8::decode_utf8(vstd::utf8::encode_utf8(k)) == k);
        }
    }
}

impl Store<AsciiFingerprint, String> for Mdbm {
    open spec fn valid(&self) -> bool {
        self.inv()
    }

    open spec fn lookup_spec(&self, k: Seq<nat>) -> Option<Seq<char>> {
        self.raw_lookup(fp_bytes(k))
    }

    proof fn lemma_stored_text_bounded(&self, k: Seq<nat>) {
        self.lemma_raw_lookup_bounded(fp_bytes(k));
    }

    fn remove(&mut self, key: &AsciiFingerprint)
        ensures
            forall|kb: Seq<u8>|
                kb != fp_bytes(key@) ==> #[trigger] final(self).raw_lookup(kb) == old(
                    self,
                ).raw_lookup(kb),
            forall|k2: Seq<nat>|
                k2 != key@ && counts_bounded(k2) ==> #[trigger] <Mdbm as Store<
                    AsciiFingerprint,
                    String,
                >>::lookup_spec(final(self), k2) == <Mdbm as Store<
                    AsciiFingerprint,
                    String,
                >>::lookup_spec(old(self), k2),
            final(self).chunks_spec().len() == old(self).chunks_spec().len(),
    {
        let ghost kview = key@;
        let kb = key.key_bytes();
        self.raw_remove(&kb);
        proof {
            lemma_fp_view_bounded(key);
            assert forall|k2: Seq<nat>| k2 != kview && counts_bounded(k2) implies fp_bytes(k2)
                != fp_bytes(kview) by {
                if fp_bytes(k2) == fp_bytes(kview) {
                    lemma_fp_bytes_injective(k2, kview);
                }
            }
        }
    }

    fn get_item(&mut self, key: &AsciiFingerprint) -> (r: Option<String>)
        ensures
            final(self).chunks_spec().len() == old(self).chunks_spec().len(),
    {
        let kb = key.key_bytes();
        self.raw_get(&kb)
    }

    fn insert(&mut self, key: AsciiFingerprint, value: String)
        ensures
            forall|kb: Seq<u8>|
                kb != fp_bytes(key@) ==> #[trigger] final(self).raw_lookup(kb) == old(
                    self,
                ).raw_lookup(kb),
            forall|k2: Seq<nat>|
                k2 != key@ && counts_bounded(k2) ==> #[trigger] <Mdbm as Store<
                    AsciiFingerprint,
                    String,
                >>::lookup_spec(final(self), k2) == <Mdbm as Store<
                    AsciiFingerprint,
                    String,
                >>::lookup_spec(old(self), k2),
            old(self).chunks_spec().len() <= final(self).chunks_spec().len() <= old(
                self,
            ).chunks_spec().len() + 1,
    {
        let ghost kview = key@;
        proof {
            lemma_fp_view_bounded(&key);
        }
        let kb = key.key_bytes();
        self.raw_insert(kb, value);
        proof {
            assert forall|k2: Seq<nat>| k2 != kview && counts_bounded(k2) implies fp_bytes(k2)
                != fp_bytes(kview) by {
                if fp_bytes(k2) == fp_bytes(kview) {
                    lemma_fp_bytes_injective(k2, kview);
                }
            }
        }
    }
}

impl Mdbm {
    /// Every value the store can yield respects the text bound.
    proof fn lemma_raw_lookup_bounded(&self, k: Seq<u8>)
        requires
            self.inv(),
            self.raw_lookup(k) is Some,
        ensures
            self.raw_lookup(k)->Some_0.len() <= MAX_TEXT_LEN,
    {
        if !self.cache_spec().dom().contains(k) {
            lemma_chunks_lookup_bounded(self.chunks_spec(), k);
        }
    }
}

} // verus!
