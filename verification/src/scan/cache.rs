//! Summaries that are remembered from one scan to the next.
use crate::clock::Timestamp;
use crate::paths::{parts_start_with, path_parts, OsPath, PartModel};
use crate::scan::data::{
    MetadataFingerprint, ScanOptions, Summary, SummaryModel, SUMMARY_CACHE_FRESH_NANOS,
};
use vstd::prelude::*;

verus! {

/// A remembered summary and the time at which it was remembered.
#[derive(Debug, Clone)]
pub struct CachedSummary {
    pub summary: Summary,
    pub cached_at: Timestamp,
}

/// A remembered summary, as a mathematical value.
#[verifier::ext_equal]
pub struct CachedModel {
    pub summary: SummaryModel,
    pub cached_at: Timestamp,
}

impl View for CachedSummary {
    type V = CachedModel;

    open spec fn view(&self) -> CachedModel {
        CachedModel { summary: self.summary@, cached_at: self.cached_at }
    }
}

impl CachedModel {
    /// Whether the summary is not from the future and not older than the limit.
    pub open spec fn is_fresh(self, now: Timestamp) -> bool {
        0 <= now.total() - self.cached_at.total() <= SUMMARY_CACHE_FRESH_NANOS
    }
}

impl CachedSummary {
    /// Whether the summary is not from the future and not older than the limit.
    pub fn is_fresh(&self, now: Timestamp) -> (r: bool)
        ensures
            r == self@.is_fresh(now),
    {
        match now.nanos_since(self.cached_at) {
            Some(age) => age <= SUMMARY_CACHE_FRESH_NANOS,
            None => false,
        }
    }

    /// An equal copy.
    pub fn duplicate(&self) -> (r: CachedSummary)
        ensures
            r@ == self@,
    {
        CachedSummary { summary: self.summary.duplicate(), cached_at: self.cached_at }
    }
}

/// What a summary is remembered for. Two paths with the same parts are the
/// same path.
#[verifier::ext_equal]
pub struct CacheKey {
    pub path: Seq<PartModel>,
    pub options: ScanOptions,
    pub fingerprint: MetadataFingerprint,
}

/// The key of a path with the given bytes.
pub open spec fn cache_key(
    path: Seq<u8>,
    options: ScanOptions,
    fingerprint: MetadataFingerprint,
) -> CacheKey {
    CacheKey { path: path_parts(path), options, fingerprint }
}

#[derive(Debug)]
pub struct CacheEntry {
    path: OsPath,
    options: ScanOptions,
    fingerprint: MetadataFingerprint,
    cached: CachedSummary,
}

impl CacheEntry {
    spec fn key(self) -> CacheKey {
        cache_key(self.path@, self.options, self.fingerprint)
    }

    fn has_key(
        &self,
        path: &OsPath,
        options: ScanOptions,
        fingerprint: MetadataFingerprint,
    ) -> (r: bool)
        ensures
            r == (self.key() == cache_key(path@, options, fingerprint)),
    {
        self.options == options && self.fingerprint == fingerprint && self.path.same_as(path)
    }
}

spec fn lookup(entries: Seq<CacheEntry>, key: CacheKey) -> Option<CachedModel>
    decreases entries.len(),
{
    if entries.len() == 0 {
        None
    } else if entries[0].key() == key {
        Some(entries[0].cached@)
    } else {
        lookup(entries.skip(1), key)
    }
}

/// Remembered summaries, each for a path, the options that it was made with and
/// the fingerprint that the path had.
#[derive(Debug)]
pub struct SummaryCache {
    entries: Vec<CacheEntry>,
}

impl View for SummaryCache {
    type V = Map<CacheKey, CachedModel>;

    closed spec fn view(&self) -> Map<CacheKey, CachedModel> {
        Map::new(
            |key: CacheKey| lookup(self.entries@, key) is Some,
            |key: CacheKey| lookup(self.entries@, key)->0,
        )
    }
}

/// What is remembered for a path whose fingerprint may not be known.
pub open spec fn remembered(
    cache: Map<CacheKey, CachedModel>,
    path: Seq<u8>,
    options: ScanOptions,
    fingerprint: Option<MetadataFingerprint>,
) -> Option<CachedModel> {
    match fingerprint {
        Some(known) => {
            let key = cache_key(path, options, known);
            if cache.contains_key(key) {
                Some(cache[key])
            } else {
                None
            }
        },
        None => None,
    }
}

proof fn lemma_lookup_skips(entries: Seq<CacheEntry>, key: CacheKey, n: int)
    requires
        0 <= n <= entries.len(),
        forall|i: int| 0 <= i < n ==> #[trigger] entries[i].key() != key,
    ensures
        lookup(entries, key) == lookup(entries.skip(n), key),
    decreases n,
{
    if n == 0 {
        assert(entries.skip(0) =~= entries);
    } else {
        let rest = entries.skip(1);
        assert(entries[0].key() != key);
        assert forall|i: int| 0 <= i < n - 1 implies #[trigger] rest[i].key() != key by {
            assert(rest[i] == entries[i + 1]);
        }
        lemma_lookup_skips(rest, key, n - 1);
        assert(rest.skip(n - 1) =~= entries.skip(n));
    }
}

proof fn lemma_lookup_update(entries: Seq<CacheEntry>, n: int, entry: CacheEntry, key: CacheKey)
    requires
        0 <= n < entries.len(),
        entries[n].key() == entry.key(),
        forall|i: int| 0 <= i < n ==> #[trigger] entries[i].key() != entry.key(),
    ensures
        lookup(entries.update(n, entry), key) == if key == entry.key() {
            Some(entry.cached@)
        } else {
            lookup(entries, key)
        },
    decreases n,
{
    let changed = entries.update(n, entry);
    if n == 0 {
        assert(changed.skip(1) =~= entries.skip(1));
    } else {
        let rest = entries.skip(1);
        assert(entries[0].key() != entry.key());
        assert forall|i: int| 0 <= i < n - 1 implies #[trigger] rest[i].key() != entry.key() by {
            assert(rest[i] == entries[i + 1]);
        }
        lemma_lookup_update(rest, n - 1, entry, key);
        assert(changed.skip(1) =~= rest.update(n - 1, entry));
        assert(changed[0] == entries[0]);
    }
}

proof fn lemma_lookup_push(entries: Seq<CacheEntry>, entry: CacheEntry, key: CacheKey)
    ensures
        lookup(entries.push(entry), key) == if lookup(entries, key) is Some {
            lookup(entries, key)
        } else if key == entry.key() {
            Some(entry.cached@)
        } else {
            None
        },
    decreases entries.len(),
{
    let longer = entries.push(entry);
    if entries.len() == 0 {
        assert(longer[0] == entry);
        assert(lookup(longer.skip(1), key) is None);
    } else {
        assert(longer[0] == entries[0]);
        assert(longer.skip(1) =~= entries.skip(1).push(entry));
        lemma_lookup_push(entries.skip(1), entry, key);
    }
}

impl SummaryCache {
    /// A cache that remembers nothing.
    pub fn new() -> (r: SummaryCache)
        ensures
            r@ == Map::<CacheKey, CachedModel>::empty(),
    {
        let cache = SummaryCache { entries: Vec::new() };
        proof {
            assert(cache@ =~= Map::<CacheKey, CachedModel>::empty());
        }
        cache
    }

    fn position(
        &self,
        path: &OsPath,
        options: ScanOptions,
        fingerprint: MetadataFingerprint,
    ) -> (n: usize)
        ensures
            n <= self.entries@.len(),
            n < self.entries@.len() ==> self.entries@[n as int].key() == cache_key(
                path@,
                options,
                fingerprint,
            ),
            forall|i: int|
                0 <= i < n ==> #[trigger] self.entries@[i].key() != cache_key(
                    path@,
                    options,
                    fingerprint,
                ),
    {
        let mut n: usize = 0;
        while n < self.entries.len()
            invariant
                n <= self.entries@.len(),
                forall|i: int|
                    0 <= i < n ==> #[trigger] self.entries@[i].key() != cache_key(
                        path@,
                        options,
                        fingerprint,
                    ),
            decreases self.entries@.len() - n,
        {
            if self.entries[n].has_key(path, options, fingerprint) {
                return n;
            }
            n = n + 1;
        }
        n
    }

    /// What is remembered for a path in the state that the fingerprint tells.
    pub fn get(
        &self,
        path: &OsPath,
        options: ScanOptions,
        fingerprint: MetadataFingerprint,
    ) -> (r: Option<CachedSummary>)
        ensures
            match r {
                Some(cached) => Some(cached@) == remembered(
                    self@,
                    path@,
                    options,
                    Some(fingerprint),
                ),
                None => remembered(self@, path@, options, Some(fingerprint)) is None,
            },
    {
        let n: usize = self.position(path, options, fingerprint);
        proof {
            lemma_lookup_skips(self.entries@, cache_key(path@, options, fingerprint), n as int);
        }
        if n < self.entries.len() {
            Some(self.entries[n].cached.duplicate())
        } else {
            None
        }
    }

    /// Remembers a summary, in place of what was remembered for the same path,
    /// options and fingerprint.
    pub fn insert(
        &mut self,
        path: &OsPath,
        options: ScanOptions,
        fingerprint: MetadataFingerprint,
        summary: &Summary,
        now: Timestamp,
    )
        ensures
            final(self)@ == old(self)@.insert(
                cache_key(path@, options, fingerprint),
                (CachedModel { summary: summary@, cached_at: now }),
            ),
    {
        let entry = CacheEntry {
            path: path.duplicate(),
            options,
            fingerprint,
            cached: CachedSummary { summary: summary.duplicate(), cached_at: now },
        };
        let n: usize = self.position(path, options, fingerprint);
        let ghost entries = self.entries@;
        let ghost key = cache_key(path@, options, fingerprint);
        let ghost expected = self@.insert(
            key,
            CachedModel { summary: summary@, cached_at: now },
        );
        proof {
            assert(entry.key() == key);
            assert(entry.cached@ == CachedModel { summary: summary@, cached_at: now });
            lemma_lookup_skips(entries, key, n as int);
            assert forall|other: CacheKey|
                n < entries.len() implies #[trigger] lookup(entries.update(n as int, entry), other)
                == if other == key {
                Some(entry.cached@)
            } else {
                lookup(entries, other)
            } by {
                lemma_lookup_update(entries, n as int, entry, other);
            }
            assert forall|other: CacheKey|
                n == entries.len() implies #[trigger] lookup(entries.push(entry), other) == if other
                == key {
                Some(entry.cached@)
            } else {
                lookup(entries, other)
            } by {
                lemma_lookup_push(entries, entry, other);
            }
        }
        if n < self.entries.len() {
            self.entries[n] = entry;
            proof {
                assert(self.entries@ =~= entries.update(n as int, entry));
            }
        } else {
            self.entries.push(entry);
            proof {
                assert(self.entries@ =~= entries.push(entry));
            }
        }
        proof {
            assert(self@ =~= expected);
        }
    }

    /// Forgets what is remembered for paths that start with the given path.
    pub fn invalidate_prefix(&mut self, prefix: &OsPath)
        ensures
            final(self)@ == old(self)@.remove_keys(
                Set::new(|key: CacheKey| parts_start_with(key.path, path_parts(prefix@))),
            ),
    {
        let ghost gone = |key: CacheKey| parts_start_with(key.path, path_parts(prefix@));
        let ghost before = self@;
        let ghost entries = self.entries@;
        let mut rest: Vec<CacheEntry> = Vec::new();
        let mut kept: Vec<CacheEntry> = Vec::new();
        rest.append(&mut self.entries);
        proof {
            assert(rest@ =~= entries.take(entries.len() as int));
        }
        while rest.len() > 0
            invariant
                rest@.len() <= entries.len(),
                rest@ == entries.take(rest@.len() as int),
                gone == (|key: CacheKey| parts_start_with(key.path, path_parts(prefix@))),
                forall|key: CacheKey| #[trigger]
                    lookup(kept@.reverse(), key) == if gone(key) {
                        None
                    } else {
                        lookup(entries.skip(rest@.len() as int), key)
                    },
            decreases rest@.len(),
        {
            let ghost count = rest@.len() as int;
            let ghost earlier = kept@;
            let entry = rest.pop().unwrap();
            proof {
                assert(entry == entries[count - 1]);
                assert(entries.skip(count - 1).skip(1) =~= entries.skip(count));
                assert(entries.skip(count - 1)[0] == entry);
                assert(rest@ =~= entries.take(count - 1));
                assert(earlier.push(entry).reverse().skip(1) =~= earlier.reverse());
                assert(earlier.push(entry).reverse()[0] == entry);
            }
            let ghost key_here = entry.key();
            if !entry.path.starts_with(prefix) {
                kept.push(entry);
            }
            proof {
                assert forall|key: CacheKey| #[trigger]
                    lookup(kept@.reverse(), key) == if gone(key) {
                        None
                    } else {
                        lookup(entries.skip(count - 1), key)
                    } by {
                    assert(lookup(earlier.reverse(), key) == if gone(key) {
                        None
                    } else {
                        lookup(entries.skip(count), key)
                    });
                    if gone(key_here) {
                        assert(kept@ == earlier);
                    } else {
                        assert(kept@ == earlier.push(entry));
                    }
                }
            }
        }
        proof {
            assert(entries.skip(0) =~= entries);
        }
        let ghost middle = kept@;
        while kept.len() > 0
            invariant
                kept@.len() + self.entries@.len() == middle.len(),
                self.entries@ =~= middle.reverse().take(self.entries@.len() as int),
                kept@ =~= middle.take(kept@.len() as int),
            decreases kept@.len(),
        {
            let entry = kept.pop().unwrap();
            self.entries.push(entry);
        }
        proof {
            assert(self.entries@ =~= middle.reverse());
            assert(self@ =~= before.remove_keys(Set::new(gone)));
        }
    }
}

impl Default for SummaryCache {
    fn default() -> (r: SummaryCache)
        ensures
            r@ == Map::<CacheKey, CachedModel>::empty(),
    {
        SummaryCache::new()
    }
}

/// What was remembered is given back for the same path, options and
/// fingerprint, and nothing else changes.
pub proof fn law_get_gives_back_what_was_inserted(
    cache: Map<CacheKey, CachedModel>,
    path: Seq<u8>,
    options: ScanOptions,
    fingerprint: MetadataFingerprint,
    cached: CachedModel,
    other_path: Seq<u8>,
    other_options: ScanOptions,
    other_fingerprint: MetadataFingerprint,
)
    ensures
        ({
            let after = cache.insert(cache_key(path, options, fingerprint), cached);
            &&& remembered(after, path, options, Some(fingerprint)) == Some(cached)
            &&& cache_key(other_path, other_options, other_fingerprint) != cache_key(
                path,
                options,
                fingerprint,
            ) ==> remembered(after, other_path, other_options, Some(other_fingerprint))
                == remembered(cache, other_path, other_options, Some(other_fingerprint))
        }),
{
}

/// After a prefix is invalidated, nothing is remembered for a path below it,
/// and everything else is remembered as before.
pub proof fn law_invalidate_forgets_exactly_the_prefix(
    cache: Map<CacheKey, CachedModel>,
    prefix: Seq<u8>,
    path: Seq<u8>,
    options: ScanOptions,
    fingerprint: Option<MetadataFingerprint>,
)
    ensures
        ({
            let after = cache.remove_keys(
                Set::new(|key: CacheKey| parts_start_with(key.path, path_parts(prefix))),
            );
            remembered(after, path, options, fingerprint) == if parts_start_with(
                path_parts(path),
                path_parts(prefix),
            ) {
                None
            } else {
                remembered(cache, path, options, fingerprint)
            }
        }),
{
}

/// A summary that has just been remembered is fresh, and it is no longer fresh
/// once the limit has passed.
pub proof fn law_a_summary_is_fresh_for_the_limit(cached: CachedModel, now: Timestamp)
    ensures
        cached.is_fresh(cached.cached_at),
        now.total() > cached.cached_at.total() + SUMMARY_CACHE_FRESH_NANOS ==> !cached.is_fresh(
            now,
        ),
{
}

/// A summary is fresh for five seconds from the time at which it was remembered, and
/// not before that time.
pub proof fn law_a_summary_is_fresh_for_five_seconds(cached: CachedModel, now: Timestamp)
    ensures
        cached.is_fresh(now) <==> 0 <= (now.secs * 1_000_000_000 + now.nanos) - (
        cached.cached_at.secs * 1_000_000_000 + cached.cached_at.nanos) <= 5_000_000_000,
{
}

/// A summary is remembered for one path, one choice of options and one fingerprint:
/// what differs in any of them is remembered apart. Nothing is remembered where the
/// fingerprint is not known.
pub proof fn law_summaries_are_remembered_apart(
    cache: Map<CacheKey, CachedModel>,
    cached: CachedModel,
    path: Seq<u8>,
    other_path: Seq<u8>,
    options: ScanOptions,
    other_options: ScanOptions,
    fingerprint: MetadataFingerprint,
    other_fingerprint: MetadataFingerprint,
)
    ensures
        ({
            let after = cache.insert(cache_key(path, options, fingerprint), cached);
            let same = path_parts(path) == path_parts(other_path) && options == other_options
                && fingerprint == other_fingerprint;
            let found = remembered(after, other_path, other_options, Some(other_fingerprint));
            &&& same ==> found == Some(cached)
            &&& !same ==> found == remembered(
                cache,
                other_path,
                other_options,
                Some(other_fingerprint),
            )
            &&& remembered(after, path, options, None) is None
        }),
        remembered(Map::empty(), path, options, Some(fingerprint)) is None,
{
}

} // verus!
