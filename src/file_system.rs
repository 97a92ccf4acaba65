use vstd::prelude::*;

use crate::entry::{listing_of, lists, EnumerationFailure, FileInfo};
use crate::laws::accessed;
use crate::lru_cache::{
    distinct_keys, has_key, index_of, keys_of, lemma_stored_wf, lemma_touched_wf, lru_cap,
    lru_contains, lru_entries, lru_get, lru_len, lru_new, lru_put, stored, touched, ListingLru,
    MAX_CAPACITY,
};

verus! {

/// The capacity of the cache made by [`create_file_system`].
pub const DEFAULT_CAPACITY: usize = 1024;

/// A cache of directory listings, keyed by the path string as given, that
/// keeps the most recently read paths and drops the least recently used one
/// when full.
pub struct FileSystem {
    cache: ListingLru,
}

impl FileSystem {
    /// The cached `(path, listing)` pairs, least recently used first.
    pub closed spec fn entries(&self) -> Seq<(Seq<char>, Seq<FileInfo>)> {
        lru_entries(self.cache)
    }

    /// The largest number of paths the cache holds.
    pub closed spec fn capacity(&self) -> nat {
        lru_cap(self.cache)
    }

    /// The cached paths, least recently used first.
    pub open spec fn paths(&self) -> Seq<Seq<char>> {
        keys_of(self.entries())
    }

    /// Paths are distinct, there are no more of them than the capacity, and
    /// the capacity is positive.
    pub open spec fn wf(&self) -> bool {
        &&& distinct_keys(self.entries())
        &&& self.entries().len() <= self.capacity()
        &&& self.capacity() > 0
    }

    /// An empty cache that holds at most `cap` paths.
    pub fn with_capacity(cap: usize) -> (r: FileSystem)
        requires
            0 < cap <= MAX_CAPACITY,
        ensures
            r.wf(),
            r.capacity() == cap,
            r.entries() == Seq::<(Seq<char>, Seq<FileInfo>)>::empty(),
    {
        FileSystem { cache: lru_new(cap) }
    }

    /// Whether `path` is cached; the recency order is left as it is.
    pub fn contains(&self, path: &String) -> (r: bool)
        ensures
            r == has_key(self.entries(), path@),
    {
        lru_contains(&self.cache, path)
    }

    /// The number of cached paths.
    pub fn len(&self) -> (r: usize)
        ensures
            r == self.paths().len(),
    {
        lru_len(&self.cache)
    }

    /// The listing of the directory at `path`.
    ///
    /// A cached path is a hit: its listing is returned and the path becomes
    /// the most recently used; `enumerate` is not called. Otherwise
    /// `enumerate(&path)` lists the directory: on success the listing is built
    /// from its `(name, is_dir)` pairs and stored as the most recently used,
    /// evicting the least recently used path if the cache is full; on failure
    /// the error is returned and the cache is left as it was.
    pub fn read_directory<F>(&mut self, path: String, enumerate: F) -> (r: Result<
        &Vec<FileInfo>,
        EnumerationFailure,
    >) where F: FnOnce(&String) -> Result<Vec<(String, bool)>, EnumerationFailure>
        requires
            old(self).wf(),
            enumerate.requires((&path,)),
        ensures
            final(self).wf(),
            final(self).capacity() == old(self).capacity(),
            final(self).paths().len() <= final(self).capacity(),
            r is Ok ==> final(self).entries() == accessed(
                old(self).entries(),
                old(self).capacity(),
                path@,
                r->Ok_0@,
            ),
            r is Err ==> final(self).entries() == old(self).entries(),
            has_key(old(self).entries(), path@) ==> {
                &&& final(self).entries() == touched(old(self).entries(), path@)
                &&& r matches Ok(v) && v@ == old(self).entries()[index_of(
                    old(self).entries(),
                    path@,
                )].1
            },
            !has_key(old(self).entries(), path@) ==> exists|out| #[trigger]
                enumerate.ensures((&path,), out) && match out {
                    Ok(es) => {
                        &&& r matches Ok(v) && lists(v@, es@)
                        &&& final(self).entries() == stored(
                            old(self).entries(),
                            old(self).capacity(),
                            path@,
                            r->Ok_0@,
                        )
                    },
                    Err(e) => {
                        &&& r == Err::<&Vec<FileInfo>, EnumerationFailure>(e)
                        &&& final(self).entries() == old(self).entries()
                    },
                },
    {
        if lru_contains(&self.cache, &path) {
            let r = lru_get(&mut self.cache, &path);
            proof {
                lemma_touched_wf(old(self).entries(), path@);
            }
            return Ok(r.unwrap());
        }
        match enumerate(&path) {
            Ok(es) => {
                let listing = listing_of(&es);
                let ghost key = path@;
                let ghost v = listing@;
                lru_put(&mut self.cache, path.clone(), listing);
                proof {
                    lemma_stored_wf(old(self).entries(), old(self).capacity(), key, v);
                }
                let r = lru_get(&mut self.cache, &path);
                Ok(r.unwrap())
            },
            Err(e) => Err(e),
        }
    }
}

/// A cache holding at most [`DEFAULT_CAPACITY`] paths, empty.
pub fn create_file_system() -> (r: FileSystem)
    ensures
        r.wf(),
        r.capacity() == DEFAULT_CAPACITY,
        r.entries() == Seq::<(Seq<char>, Seq<FileInfo>)>::empty(),
{
    FileSystem::with_capacity(DEFAULT_CAPACITY)
}

} // verus!
