//! The heatmap cache: a capacity-bounded LRU keyed by the exact must-token
//! string, holding shared handles to immutable heatmaps, with hit, miss and
//! insert counters.
//!
//! The LRU store itself comes from the `lru` crate (hashed with `ahash`),
//! behind trusted wrappers; the counters and every use of the cache are
//! verified against the named contents `cache_entries`.

use vstd::prelude::*;
use std::sync::Arc;
use std::num::NonZeroUsize;
use lru::LruCache;
use crate::heatmap::Heatmap;

verus! {

#[verifier::external_type_specification]
#[verifier::external_body]
#[verifier::reject_recursive_types(K)]
#[verifier::reject_recursive_types(V)]
#[verifier::reject_recursive_types(S)]
pub struct ExLruCache<K, V, S>(LruCache<K, V, S>);

#[verifier::external_type_specification]
#[verifier::external_body]
pub struct ExAhashRandomState(ahash::RandomState);

/// The concrete LRU store type: heatmap handles keyed by must token.
pub type HeatLru = LruCache<String, Arc<Heatmap>, ahash::RandomState>;

/// What the LRU cache holds: the heatmap stored under each key.
pub uninterp spec fn cache_entries(
    c: HeatLru) -> Map<Seq<char>, Heatmap>;

/// The empty cache contents.
pub open spec fn no_entries() -> Map<Seq<char>, Heatmap> {
    Map::empty()
}

/// Relies on `ahash::RandomState::new`: a hasher state (randomly seeded, so
/// nothing is promised of it).
#[verifier::external_body]
fn ahash_state() -> ahash::RandomState {
    ahash::RandomState::new()
}

/// Relies on `lru::LruCache::with_hasher`: a new cache holding at most `cap`
/// entries, initially empty.
#[verifier::external_body]
fn lru_new(cap: usize, hasher: ahash::RandomState) -> (out: HeatLru)
    requires
        cap >= 1,
    ensures
        cache_entries(out) == no_entries(),
{
    LruCache::with_hasher(NonZeroUsize::new(cap).unwrap(), hasher)
}

/// Relies on `lru::LruCache::get`: returns the value stored under the key if
/// present and only refreshes its recency, so the contents stay as they are.
#[verifier::external_body]
fn lru_get(c: &mut HeatLru, key: &str) -> (r: Option<Arc<Heatmap>>)
    ensures
        cache_entries(*final(c)) == cache_entries(*old(c)),
        match r {
            Some(h) => cache_entries(*old(c)).contains_key(key@) && *h == cache_entries(
                *old(c),
            )[key@],
            None => !cache_entries(*old(c)).contains_key(key@),
        },
{
    c.get(key).cloned()
}

/// Relies on `lru::LruCache::put`: stores the value under the key; at
/// capacity, the least recently used other entry is evicted, so the new
/// contents are at most the old contents plus the new binding.
#[verifier::external_body]
fn lru_put(c: &mut HeatLru, key: String, value: Arc<Heatmap>)
    ensures
        cache_entries(*final(c)).contains_key(key@),
        cache_entries(*final(c))[key@] == *value,
        cache_entries(*final(c)).submap_of(cache_entries(*old(c)).insert(key@, *value)),
{
    c.put(key, value);
}

/// Relies on `lru::LruCache::len`: the number of stored entries.
#[verifier::external_body]
fn lru_len(c: &HeatLru) -> (r: usize)
    ensures
        r == cache_entries(*c).dom().len(),
{
    c.len()
}

/// A counter bumped by one, staying put at its maximum.
pub open spec fn bump(x: usize) -> usize {
    if x < usize::MAX {
        (x + 1) as usize
    } else {
        x
    }
}

fn bump_counter(x: usize) -> (r: usize)
    ensures
        r == bump(x),
{
    if x < usize::MAX {
        x + 1
    } else {
        x
    }
}

/// The heatmap cache: LRU store plus plain counters.
pub struct HeatCache {
    /// The LRU store itself.
    pub lru: HeatLru,
    /// Lookups answered from the cache.
    pub hits: usize,
    /// Lookups that found nothing.
    pub misses: usize,
    /// Heatmaps inserted after a miss.
    pub inserts: usize,
}

impl HeatCache {
    /// The current contents, keyed by must token.
    pub open spec fn entries(self) -> Map<Seq<char>, Heatmap> {
        cache_entries(self.lru)
    }

    /// A fresh cache bounded to `cap` entries, with zeroed counters.
    pub fn new(cap: usize) -> (r: HeatCache)
        requires
            cap >= 1,
        ensures
            r.entries() == Map::<Seq<char>, Heatmap>::empty(),
            r.hits == 0 && r.misses == 0 && r.inserts == 0,
    {
        HeatCache { lru: lru_new(cap, ahash_state()), hits: 0, misses: 0, inserts: 0 }
    }

    /// Look a must token up, counting the hit or miss.
    pub fn get(&mut self, key: &str) -> (r: Option<Arc<Heatmap>>)
        ensures
            final(self).entries() == old(self).entries(),
            final(self).inserts == old(self).inserts,
            match r {
                Some(h) => {
                    &&& old(self).entries().contains_key(key@)
                    &&& *h == old(self).entries()[key@]
                    &&& final(self).hits == bump(old(self).hits)
                    &&& final(self).misses == old(self).misses
                },
                None => {
                    &&& !old(self).entries().contains_key(key@)
                    &&& final(self).hits == old(self).hits
                    &&& final(self).misses == bump(old(self).misses)
                },
            },
    {
        let r = lru_get(&mut self.lru, key);
        match &r {
            Some(_) => {
                self.hits = bump_counter(self.hits);
            },
            None => {
                self.misses = bump_counter(self.misses);
            },
        }
        r
    }

    /// Store a freshly computed heatmap, counting the insert.
    pub fn put(&mut self, key: String, value: Arc<Heatmap>)
        ensures
            final(self).entries().contains_key(key@),
            final(self).entries()[key@] == *value,
            final(self).entries().submap_of(old(self).entries().insert(key@, *value)),
            final(self).inserts == bump(old(self).inserts),
            final(self).hits == old(self).hits,
            final(self).misses == old(self).misses,
    {
        lru_put(&mut self.lru, key, value);
        self.inserts = bump_counter(self.inserts);
    }

    /// The number of cached heatmaps.
    pub fn len(&self) -> (r: usize)
        ensures
            r == self.entries().dom().len(),
    {
        lru_len(&self.lru)
    }
}

} // verus!
