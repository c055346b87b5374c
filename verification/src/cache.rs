//! Content fingerprints and the two-tier embedding cache.
//!
//! The memory tier is a fixed-capacity least-recently-used map from
//! fingerprint to vector. The disk tier is a table behind an engine: this
//! module says what to ask of it and what to do with its answers.

use sha2::Digest;
use vstd::prelude::*;
use crate::codec::{decode_words, deserialize_vector, encode_words, serialize_vector};
use crate::sql::{delete_cached_before, values, Statement, ValueView, DELETE_CACHED_BEFORE};

verus! {

/// The SHA-256 digest of a byte string, as the `sha2` crate computes it.
pub uninterp spec fn sha256_digest(data: Seq<u8>) -> Seq<u8>;

/// Hashes with `sha2::Sha256` (`new`, `update`, `finalize`). The digest is the
/// one named `sha256_digest` and is 32 bytes long.
#[verifier::external_body]
fn sha256(data: &[u8]) -> (digest: Vec<u8>)
    ensures
        digest@ == sha256_digest(data@),
        digest@.len() == 32,
{
    let mut hasher = sha2::Sha256::new();
    hasher.update(data);
    hasher.finalize().to_vec()
}

/// The lower-case hexadecimal digit of a value below 16.
pub open spec fn hex_digit(v: u8) -> char {
    if v < 10 {
        (('0' as u8) + v) as char
    } else {
        (('a' as u8) + (v - 10)) as char
    }
}

/// The lower-case hexadecimal text of a byte string: two digits a byte, the
/// high half first.
pub open spec fn hex_text(data: Seq<u8>) -> Seq<char> {
    Seq::new(
        2 * data.len(),
        |i: int|
            if i % 2 == 0 {
                hex_digit(data[i / 2] / 16)
            } else {
                hex_digit(data[i / 2] % 16)
            },
    )
}

/// Encodes with `hex::encode`: lower-case digits, two per byte.
#[verifier::external_body]
fn hex_encode(data: &[u8]) -> (text: String)
    ensures
        text@ == hex_text(data@),
{
    hex::encode(data)
}

/// Whether `c` is one of `0`-`9`, `a`-`f`.
pub open spec fn is_lower_hex(c: char) -> bool {
    ('0' <= c && c <= '9') || ('a' <= c && c <= 'f')
}

/// The fingerprint of a text: the hexadecimal SHA-256 digest of its UTF-8 bytes.
pub open spec fn content_hash(content: Seq<char>) -> Seq<char> {
    hex_text(sha256_digest(vstd::utf8::encode_utf8(content)))
}

/// Every character of a hexadecimal text is a lower-case hexadecimal digit.
pub proof fn lemma_hex_text_digits(data: Seq<u8>)
    ensures
        hex_text(data).len() == 2 * data.len(),
        forall|i: int| 0 <= i < hex_text(data).len() ==> is_lower_hex(#[trigger] hex_text(data)[i]),
{
    assert forall|i: int| 0 <= i < hex_text(data).len() implies is_lower_hex(
        #[trigger] hex_text(data)[i],
    ) by {
        let b = data[i / 2];
        let v: u8 = if i % 2 == 0 {
            b / 16
        } else {
            b % 16
        };
        assert(v < 16);
        assert(hex_text(data)[i] == hex_digit(v));
    }
}

/// Two byte strings with the same hexadecimal text are the same.
pub proof fn lemma_hex_text_injective(a: Seq<u8>, b: Seq<u8>)
    requires
        hex_text(a) == hex_text(b),
    ensures
        a == b,
{
    assert(hex_text(a).len() == 2 * a.len());
    assert(hex_text(b).len() == 2 * b.len());
    assert forall|i: int| 0 <= i < a.len() implies a[i] == b[i] by {
        let hi_a = hex_text(a)[2 * i];
        let lo_a = hex_text(a)[2 * i + 1];
        assert(hi_a == hex_digit(a[(2 * i) / 2] / 16));
        assert(lo_a == hex_digit(a[(2 * i + 1) / 2] % 16));
        assert(hex_text(b)[2 * i] == hex_digit(b[(2 * i) / 2] / 16));
        assert(hex_text(b)[2 * i + 1] == hex_digit(b[(2 * i + 1) / 2] % 16));
        lemma_hex_digit_injective(a[i] / 16, b[i] / 16);
        lemma_hex_digit_injective(a[i] % 16, b[i] % 16);
    }
    assert(a =~= b);
}

proof fn lemma_hex_digit_injective(x: u8, y: u8)
    requires
        x < 16,
        y < 16,
        hex_digit(x) == hex_digit(y),
    ensures
        x == y,
{
    let cx = hex_digit(x);
    let cy = hex_digit(y);
    assert(cx as u32 == cy as u32);
}

/// The SHA-256 fingerprint of `content`: 64 lower-case hexadecimal digits,
/// the same for the same content.
pub fn hash_content(content: &str) -> (hash: String)
    ensures
        hash@ == content_hash(content@),
        hash@.len() == 64,
        forall|i: int| 0 <= i < 64 ==> is_lower_hex(#[trigger] hash@[i]),
{
    let digest = sha256(content.as_bytes());
    proof {
        lemma_hex_text_digits(digest@);
    }
    hex_encode(digest.as_slice())
}

/// Two contents have the same fingerprint exactly when their digests agree.
pub proof fn lemma_hash_differs_with_digest(a: Seq<char>, b: Seq<char>)
    ensures
        content_hash(a) == content_hash(b) <==> sha256_digest(vstd::utf8::encode_utf8(a))
            == sha256_digest(vstd::utf8::encode_utf8(b)),
{
    if content_hash(a) == content_hash(b) {
        lemma_hex_text_injective(
            sha256_digest(vstd::utf8::encode_utf8(a)),
            sha256_digest(vstd::utf8::encode_utf8(b)),
        );
    }
}

/// One row of the disk tier.
#[derive(Debug)]
pub struct CacheEntry {
    pub hash: String,
    pub vector: Vec<u32>,
    pub model: String,
    pub created_at: i64,
}

/// Counters of cache lookups.
#[derive(Clone, Copy, Debug, PartialEq, Eq, Structural)]
pub struct CacheStats {
    pub memory_hits: u64,
    pub disk_hits: u64,
    pub misses: u64,
}

impl Default for CacheStats {
    fn default() -> (s: CacheStats)
        ensures
            s.memory_hits == 0,
            s.disk_hits == 0,
            s.misses == 0,
    {
        CacheStats { memory_hits: 0, disk_hits: 0, misses: 0 }
    }
}

impl CacheStats {
    /// The number of lookups that found their vector.
    pub open spec fn hits(&self) -> int {
        self.memory_hits + self.disk_hits
    }

    /// The number of lookups.
    pub open spec fn total(&self) -> int {
        self.memory_hits + self.disk_hits + self.misses
    }

    /// The hit rate as a fraction `(numerator, denominator)`: hits over
    /// lookups, and `0 / 1` before the first lookup.
    pub fn hit_rate(&self) -> (rate: (u128, u128))
        ensures
            self.total() == 0 ==> rate == (0u128, 1u128),
            self.total() > 0 ==> rate.0 == self.hits() && rate.1 == self.total(),
            rate.0 <= rate.1,
            rate.1 > 0,
    {
        let hits: u128 = self.memory_hits as u128 + self.disk_hits as u128;
        let total: u128 = hits + self.misses as u128;
        if total == 0 {
            (0, 1)
        } else {
            (hits, total)
        }
    }
}

/// A counter after one more event; it stays at the largest value.
pub open spec fn bumped(n: u64) -> u64 {
    if n < u64::MAX {
        (n + 1) as u64
    } else {
        n
    }
}

fn bump(n: u64) -> (m: u64)
    ensures
        m == bumped(n),
{
    if n < u64::MAX {
        n + 1
    } else {
        n
    }
}

/// The least-recently-used cache of the `lru` crate; what it holds is named
/// by `lru_entries` and `lru_capacity`.
#[verifier::external_type_specification]
#[verifier::external_body]
#[verifier::reject_recursive_types(K)]
#[verifier::reject_recursive_types(V)]
#[verifier::reject_recursive_types(S)]
pub struct ExLruCache<K, V, S>(lru::LruCache<K, V, S>);

/// The hasher that the `lru` crate uses unless it is given another.
#[verifier::external_type_specification]
#[verifier::external_body]
pub struct ExLruHasher(lru::DefaultHasher);

/// The entries of a least-recently-used cache, most recently used first.
pub uninterp spec fn lru_entries(cache: lru::LruCache<String, Vec<u32>>) -> Seq<
    (Seq<char>, Seq<u32>),
>;

/// The number of entries that a least-recently-used cache holds at most.
pub uninterp spec fn lru_capacity(cache: lru::LruCache<String, Vec<u32>>) -> nat;

/// The position of the entry with key `key`, or -1 where there is none.
pub open spec fn position_of(entries: Seq<(Seq<char>, Seq<u32>)>, key: Seq<char>) -> int
    decreases entries.len(),
{
    if entries.len() == 0 {
        -1
    } else if entries[0].0 == key {
        0
    } else {
        let rest = position_of(entries.drop_first(), key);
        if rest < 0 {
            -1
        } else {
            rest + 1
        }
    }
}

/// The vector stored under `key`, if any.
pub open spec fn lookup(entries: Seq<(Seq<char>, Seq<u32>)>, key: Seq<char>) -> Option<Seq<u32>> {
    let i = position_of(entries, key);
    if i < 0 {
        None
    } else {
        Some(entries[i].1)
    }
}

/// The entries after a lookup of `key`: an entry that was found moves to the
/// front.
pub open spec fn after_get(entries: Seq<(Seq<char>, Seq<u32>)>, key: Seq<char>) -> Seq<
    (Seq<char>, Seq<u32>),
> {
    let i = position_of(entries, key);
    if i < 0 {
        entries
    } else {
        seq![entries[i]] + entries.remove(i)
    }
}

/// The entries after `key` is stored with `value`: the entry stands at the
/// front; an older entry of that key is replaced, and where there was none
/// and the cache was full, the least recently used entry leaves.
pub open spec fn after_put(
    entries: Seq<(Seq<char>, Seq<u32>)>,
    key: Seq<char>,
    value: Seq<u32>,
    capacity: nat,
) -> Seq<(Seq<char>, Seq<u32>)> {
    let i = position_of(entries, key);
    if i >= 0 {
        seq![(key, value)] + entries.remove(i)
    } else if entries.len() > 0 && entries.len() >= capacity {
        seq![(key, value)] + entries.drop_last()
    } else {
        seq![(key, value)] + entries
    }
}

/// Makes an empty cache with `lru::LruCache::new`.
#[verifier::external_body]
fn lru_new(capacity: usize) -> (cache: lru::LruCache<String, Vec<u32>>)
    requires
        capacity > 0,
    ensures
        lru_entries(cache).len() == 0,
        lru_capacity(cache) == capacity,
{
    lru::LruCache::new(std::num::NonZeroUsize::new(capacity).unwrap())
}

/// Looks up with `LruCache::get`, which moves a found entry to the front,
/// and copies the value out.
#[verifier::external_body]
fn lru_get(cache: &mut lru::LruCache<String, Vec<u32>>, key: &str) -> (value: Option<Vec<u32>>)
    ensures
        crate::models::opt_words(value) == lookup(lru_entries(*old(cache)), key@),
        lru_entries(*final(cache)) == after_get(lru_entries(*old(cache)), key@),
        lru_capacity(*final(cache)) == lru_capacity(*old(cache)),
{
    cache.get(key).cloned()
}

/// Stores with `LruCache::put`, which puts the entry at the front and, in a
/// full cache without that key, drops the least recently used entry.
#[verifier::external_body]
fn lru_put(cache: &mut lru::LruCache<String, Vec<u32>>, key: String, value: Vec<u32>)
    ensures
        lru_entries(*final(cache)) == after_put(
            lru_entries(*old(cache)),
            key@,
            value@,
            lru_capacity(*old(cache)),
        ),
        lru_capacity(*final(cache)) == lru_capacity(*old(cache)),
{
    cache.put(key, value);
}

/// Empties with `LruCache::clear`.
#[verifier::external_body]
fn lru_clear(cache: &mut lru::LruCache<String, Vec<u32>>)
    ensures
        lru_entries(*final(cache)).len() == 0,
        lru_capacity(*final(cache)) == lru_capacity(*old(cache)),
{
    cache.clear();
}

/// What the memory tier answers to a lookup.
#[derive(Debug)]
pub enum CacheLookup {
    /// The memory tier holds the vector.
    Hit(Vec<u32>),
    /// The memory tier has no entry: the disk tier is to be asked for the row
    /// with this fingerprint and the cache's model.
    AskDisk { hash: String },
}

/// The two-tier embedding cache.
pub struct EmbeddingCache {
    memory: lru::LruCache<String, Vec<u32>>,
    model: String,
    stats: CacheStats,
}

impl EmbeddingCache {
    /// The entries of the memory tier, most recently used first.
    pub closed spec fn entries(&self) -> Seq<(Seq<char>, Seq<u32>)> {
        lru_entries(self.memory)
    }

    /// The capacity of the memory tier.
    pub closed spec fn capacity(&self) -> nat {
        lru_capacity(self.memory)
    }

    /// The model whose embeddings are cached.
    pub closed spec fn model_name(&self) -> Seq<char> {
        self.model@
    }

    /// The counters.
    pub closed spec fn counters(&self) -> CacheStats {
        self.stats
    }

    /// An empty cache for `model` whose memory tier holds `memory_capacity`
    /// entries.
    pub fn new(model: String, memory_capacity: usize) -> (cache: EmbeddingCache)
        requires
            memory_capacity > 0,
        ensures
            cache.entries().len() == 0,
            cache.capacity() == memory_capacity,
            cache.model_name() == model@,
            cache.counters() == (CacheStats { memory_hits: 0, disk_hits: 0, misses: 0 }),
    {
        EmbeddingCache { memory: lru_new(memory_capacity), model, stats: CacheStats::default() }
    }

    /// The model whose embeddings are cached.
    pub fn model(&self) -> (m: &String)
        ensures
            m@ == self.model_name(),
    {
        &self.model
    }

    /// Looks `content` up in the memory tier. A hit is counted and returned;
    /// on a miss the disk tier is to be asked.
    pub fn get(&mut self, content: &str) -> (r: CacheLookup)
        ensures
            final(self).capacity() == old(self).capacity(),
            final(self).model_name() == old(self).model_name(),
            final(self).entries() == after_get(old(self).entries(), content_hash(content@)),
            match r {
                CacheLookup::Hit(vector) => {
                    &&& lookup(old(self).entries(), content_hash(content@)) == Some(vector@)
                    &&& final(self).counters() == (CacheStats {
                        memory_hits: bumped(old(self).counters().memory_hits),
                        ..old(self).counters()
                    })
                },
                CacheLookup::AskDisk { hash } => {
                    &&& lookup(old(self).entries(), content_hash(content@)) is None
                    &&& hash@ == content_hash(content@)
                    &&& final(self).counters() == old(self).counters()
                },
            },
    {
        let hash = hash_content(content);
        match lru_get(&mut self.memory, hash.as_str()) {
            Some(vector) => {
                self.stats.memory_hits = bump(self.stats.memory_hits);
                CacheLookup::Hit(vector)
            },
            None => CacheLookup::AskDisk { hash },
        }
    }

    /// Takes the disk tier's answer to the question that `get` asked: a row's
    /// bytes are decoded, put into the memory tier and counted as a disk hit;
    /// no row is counted as a miss.
    pub fn complete_get(&mut self, hash: String, row: Option<Vec<u8>>) -> (r: Option<Vec<u32>>)
        ensures
            final(self).capacity() == old(self).capacity(),
            final(self).model_name() == old(self).model_name(),
            match row {
                Some(bytes) => {
                    &&& crate::models::opt_words(r) == Some(decode_words(bytes@))
                    &&& final(self).entries() == after_put(
                        old(self).entries(),
                        hash@,
                        decode_words(bytes@),
                        old(self).capacity(),
                    )
                    &&& final(self).counters() == (CacheStats {
                        disk_hits: bumped(old(self).counters().disk_hits),
                        ..old(self).counters()
                    })
                },
                None => {
                    &&& r is None
                    &&& final(self).entries() == old(self).entries()
                    &&& final(self).counters() == (CacheStats {
                        misses: bumped(old(self).counters().misses),
                        ..old(self).counters()
                    })
                },
            },
    {
        match row {
            Some(bytes) => {
                let vector = deserialize_vector(&bytes);
                let copy = vector.clone();
                assert(copy@ =~= vector@);
                lru_put(&mut self.memory, hash, copy);
                self.stats.disk_hits = bump(self.stats.disk_hits);
                Some(vector)
            },
            None => {
                self.stats.misses = bump(self.stats.misses);
                None
            },
        }
    }

    /// The row that the disk tier is to hold for `content` before `put`
    /// stores the vector in memory: fingerprint, vector, model and the time
    /// `now`.
    pub fn disk_entry(&self, content: &str, vector: &Vec<u32>, now: i64) -> (entry: CacheEntry)
        ensures
            entry.hash@ == content_hash(content@),
            entry.vector@ == vector@,
            entry.model@ == self.model_name(),
            entry.created_at == now,
    {
        let copy = vector.clone();
        assert(copy@ =~= vector@);
        CacheEntry { hash: hash_content(content), vector: copy, model: self.model.clone(), created_at: now }
    }

    /// Stores the vector of `content` in the memory tier.
    pub fn put(&mut self, content: &str, vector: Vec<u32>)
        ensures
            final(self).capacity() == old(self).capacity(),
            final(self).model_name() == old(self).model_name(),
            final(self).counters() == old(self).counters(),
            final(self).entries() == after_put(
                old(self).entries(),
                content_hash(content@),
                vector@,
                old(self).capacity(),
            ),
    {
        let hash = hash_content(content);
        lru_put(&mut self.memory, hash, vector);
    }

    /// The statement that evicts the disk rows older than `days` days at
    /// time `now`, where that time can be represented.
    pub fn evict_old(&self, now: i64, days: i64) -> (r: Option<Statement>)
        ensures
            match r {
                Some(s) => s.sql@ == DELETE_CACHED_BEFORE@ && values(s.params@) == seq![
                    ValueView::Timestamp(cutoff_of(now, days)),
                ] && i64::MIN <= cutoff_of(now, days) <= i64::MAX,
                None => cutoff_of(now, days) < i64::MIN || cutoff_of(now, days) > i64::MAX,
            },
    {
        match eviction_cutoff(now, days) {
            Some(cutoff) => Some(delete_cached_before(cutoff)),
            None => None,
        }
    }

    /// The counters.
    pub fn stats(&self) -> (s: CacheStats)
        ensures
            s == self.counters(),
    {
        self.stats
    }

    /// Empties the memory tier; the disk tier and the counters stay.
    pub fn clear_memory(&mut self)
        ensures
            final(self).entries().len() == 0,
            final(self).capacity() == old(self).capacity(),
            final(self).model_name() == old(self).model_name(),
            final(self).counters() == old(self).counters(),
    {
        lru_clear(&mut self.memory);
    }
}

/// The bytes of a disk row's vector column.
pub fn entry_bytes(entry: &CacheEntry) -> (bytes: Vec<u8>)
    ensures
        bytes@ == encode_words(entry.vector@),
{
    serialize_vector(&entry.vector)
}

/// The number of milliseconds of a day.
pub const MILLIS_PER_DAY: i64 = 86_400_000;

/// The time before which disk rows are evicted when the last `days` days are
/// kept, where it can be represented.
pub open spec fn cutoff_of(now: i64, days: i64) -> int {
    now - days * MILLIS_PER_DAY
}

/// The eviction cutoff for `days` days at time `now`: rows created before it
/// are deleted. `None` where the time is out of the representable range.
pub fn eviction_cutoff(now: i64, days: i64) -> (cutoff: Option<i64>)
    ensures
        match cutoff {
            Some(t) => t == cutoff_of(now, days),
            None => cutoff_of(now, days) < i64::MIN || cutoff_of(now, days) > i64::MAX,
        },
{
    let span: i128 = (days as i128) * (MILLIS_PER_DAY as i128);
    let t: i128 = (now as i128) - span;
    if t < i64::MIN as i128 || t > i64::MAX as i128 {
        None
    } else {
        Some(t as i64)
    }
}

/// After a vector is stored under a key, a lookup of that key finds it.
pub proof fn lemma_get_after_put(
    entries: Seq<(Seq<char>, Seq<u32>)>,
    key: Seq<char>,
    value: Seq<u32>,
    capacity: nat,
)
    ensures
        lookup(after_put(entries, key, value, capacity), key) == Some(value),
{
    let after = after_put(entries, key, value, capacity);
    assert(after[0] == (key, value));
}

} // verus!
