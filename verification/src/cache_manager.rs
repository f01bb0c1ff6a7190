//! The file cache of the web server: file contents kept in an LRU cache by
//! path, each with the modification time of the file it was read from.  A
//! cached copy is served only while the file's modification time is the one
//! recorded with it.
use vstd::prelude::*;
use crate::assoc::AssocList;
use crate::lru_cache::{contains_key, distinct_keys, law_get_after_put, lookup, put_items, total_size, touch, LRUCache};

verus! {

/// The capacity of the file cache, in bytes.
pub const CACHE_SIZE: usize = 256000000;

/// Files larger than half the cache are streamed and never cached.
pub fn should_cache(file_size: usize) -> (r: bool)
    ensures
        r == (file_size <= CACHE_SIZE / 2),
{
    !(file_size > CACHE_SIZE / 2)
}

/// What a cached read gives: the cached contents of `path`, when the
/// modification time recorded for it is `last_modified`.
pub open spec fn cached_contents(
    items: Seq<(Seq<u8>, Vec<u8>, nat)>,
    times: Map<Seq<u8>, u64>,
    path: Seq<u8>,
    last_modified: u64,
) -> Option<Vec<u8>> {
    if times.contains_key(path) && times[path] == last_modified {
        lookup(items, path)
    } else {
        None
    }
}

pub struct CacheManager {
    cache: LRUCache<Vec<u8>, Vec<u8>>,
    modified_map: AssocList<u64>,
}

impl CacheManager {
    /// The cached files: (path, contents, size), most recently used first.
    pub closed spec fn items(&self) -> Seq<(Seq<u8>, Vec<u8>, nat)> {
        self.cache@
    }

    /// The capacity of the cache not taken by cached files.
    pub closed spec fn cache_free(&self) -> nat {
        self.cache.free()
    }

    /// The modification time recorded for each path.
    pub closed spec fn times(&self) -> Map<Seq<u8>, u64> {
        self.modified_map@
    }

    pub closed spec fn wf(&self) -> bool {
        &&& self.cache.wf()
        &&& self.cache.capacity() == CACHE_SIZE
        &&& self.modified_map.wf()
    }

    /// A well-formed file cache holds each path once.
    pub proof fn lemma_wf_facts(&self)
        requires
            self.wf(),
        ensures
            distinct_keys(self.items()),
    {
        self.cache.lemma_wf_facts();
    }

    /// An empty cache of `CACHE_SIZE` bytes, with no times recorded.
    pub fn new() -> (m: CacheManager)
        ensures
            m.wf(),
            m.items() == Seq::<(Seq<u8>, Vec<u8>, nat)>::empty(),
            m.times() == Map::<Seq<u8>, u64>::empty(),
    {
        CacheManager { cache: LRUCache::new(CACHE_SIZE), modified_map: AssocList::new() }
    }

    /// The time recorded for `path`, if any.
    pub fn modified_time(&self, path: &Vec<u8>) -> (r: Option<u64>)
        requires
            self.wf(),
        ensures
            r == (if self.times().contains_key(path@) {
                Some(self.times()[path@])
            } else {
                None::<u64>
            }),
    {
        match self.modified_map.get(path) {
            Some(t) => Some(*t),
            None => None,
        }
    }

    /// A cached read: the cached contents of `path`, if the time recorded
    /// for it is `last_modified` and the cache still holds it (its entry
    /// then becomes the most recently used one).
    pub fn lookup(&mut self, path: &Vec<u8>, last_modified: u64) -> (r: Option<&Vec<u8>>)
        requires
            old(self).wf(),
        ensures
            final(self).wf(),
            final(self).times() == old(self).times(),
            final(self).cache_free() == old(self).cache_free(),
            r is Some <==> cached_contents(old(self).items(), old(self).times(), path@, last_modified) is Some,
            r matches Some(data) ==> cached_contents(
                old(self).items(),
                old(self).times(),
                path@,
                last_modified,
            ) == Some(*data),
            final(self).items() == (if old(self).times().contains_key(path@) && old(self).times()[path@]
                == last_modified {
                touch(old(self).items(), path@)
            } else {
                old(self).items()
            }),
    {
        match self.modified_time(path) {
            Some(t) => {
                if t == last_modified {
                    self.cache.get(path)
                } else {
                    None
                }
            },
            None => None,
        }
    }

    /// Stores freshly read contents of `path`, of `file_size` bytes, read when
    /// the file's modification time was `last_modified`.
    pub fn store(&mut self, path: Vec<u8>, data: Vec<u8>, file_size: usize, last_modified: u64)
        requires
            old(self).wf(),
            contains_key(old(self).items(), path@) || file_size <= CACHE_SIZE,
        ensures
            final(self).wf(),
            final(self).cache_free() + total_size(final(self).items()) == CACHE_SIZE,
            final(self).items() == put_items(
                old(self).items(),
                old(self).cache_free(),
                path@,
                data,
                file_size as nat,
            ),
            final(self).times() == old(self).times().insert(path@, last_modified),
    {
        let key = path.clone();
        self.cache.put(key, data, file_size);
        self.modified_map.insert(path, last_modified);
    }
}

/// Law: contents just stored are served from the cache.  After storing the
/// contents of `path` read at modification time `t` (with a size that fits),
/// a cached read of `path` at time `t` gives those contents.
pub proof fn law_lookup_after_store(
    items: Seq<(Seq<u8>, Vec<u8>, nat)>,
    free: nat,
    times: Map<Seq<u8>, u64>,
    path: Seq<u8>,
    data: Vec<u8>,
    size: nat,
    t: u64,
)
    requires
        distinct_keys(items),
    ensures
        cached_contents(put_items(items, free, path, data, size), times.insert(path, t), path, t)
            == Some(data),
{
    law_get_after_put(items, free, path, data, size);
}

/// Law: a cached copy is never served for a file modified since.  Once
/// the time `t` is recorded for `path`, a cached read at any other time
/// gives nothing, whatever the cache holds.
pub proof fn law_stale_copy_not_served(
    items: Seq<(Seq<u8>, Vec<u8>, nat)>,
    times: Map<Seq<u8>, u64>,
    path: Seq<u8>,
    t: u64,
    t2: u64,
)
    requires
        t2 != t,
    ensures
        cached_contents(items, times.insert(path, t), path, t2) is None,
{
}

} // verus!
