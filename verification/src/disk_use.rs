//! The interface of the analyzer: scans that go through the cache store.

use crate::cache::{cache_key, key_of, Cache, CacheManager};
use crate::listing::saturate;
use crate::scanner::{count_files, counted, scan, scan_directory};
use crate::snapshot::{IoFailure, Snapshot, Timestamp};
use crate::tree::{DirStat, DirTree};
use vstd::prelude::*;

verus! {

/// Disk usage analysis with a cache of earlier scans.
pub struct DiskUse {
    cache_manager: CacheManager,
}

/// The node that a scan is given from a store that holds `roots`: the node
/// kept under `key`, and none where the cache is to be ignored.
pub open spec fn cached_entry(roots: Map<Seq<char>, DirTree>, key: Seq<char>, ignore_cache: bool)
    -> Option<DirTree> {
    if !ignore_cache && roots.contains_key(key) {
        Some(roots[key])
    } else {
        None
    }
}

impl DiskUse {
    /// The cache store behind this interface.
    pub closed spec fn store(&self) -> CacheManager {
        self.cache_manager
    }

    /// The cache store is well-formed.
    pub open spec fn wf(&self) -> bool {
        self.store().wf()
    }

    /// An analyzer whose cache store is persisted at `cache_path` and holds
    /// `loaded`, which is what was read from there.
    pub fn new(cache_path: String, loaded: Cache) -> (disk_use: DiskUse)
        requires
            loaded.wf(),
        ensures
            disk_use.wf(),
            disk_use.store().roots() == loaded@,
            disk_use.store().layout() == loaded.layout(),
            disk_use.store().location() == cache_path@,
            !disk_use.store().is_dirty(),
    {
        DiskUse { cache_manager: CacheManager::new(cache_path, loaded) }
    }

    /// Scans the directory at `path` with the help of the cache, and returns
    /// its total size in bytes.
    pub fn scan(
        &mut self,
        path: &str,
        canonical: Option<String>,
        fs: &Snapshot,
        now: Timestamp,
    ) -> (result: Result<u64, IoFailure>)
        requires
            old(self).wf(),
            fs.wf(),
        ensures
            final(self).wf(),
            scan_outcome(*old(self), *final(self), result, path@, canonical, *fs, now, false),
    {
        self.scan_with_options(path, canonical, fs, now, false)
    }

    /// Scans the directory at the time `now`, and returns its total size in
    /// bytes. The directory is scanned at the canonical form `canonical` of
    /// `path`, or at `path` where it has none, so that every node of the scan
    /// bears a canonical path.
    ///
    /// With `ignore_cache` the scan neither reads nor changes the cache store.
    /// Without, it starts from the node that the store keeps for the
    /// directory, and puts the node that it arrives at in its place, which
    /// leaves the store dirty. A scan that fails leaves the store as it was.
    pub fn scan_with_options(
        &mut self,
        path: &str,
        canonical: Option<String>,
        fs: &Snapshot,
        now: Timestamp,
        ignore_cache: bool,
    ) -> (result: Result<u64, IoFailure>)
        requires
            old(self).wf(),
            fs.wf(),
        ensures
            final(self).wf(),
            scan_outcome(
                *old(self),
                *final(self),
                result,
                path@,
                canonical,
                *fs,
                now,
                ignore_cache,
            ),
    {
        let key = cache_key(path, canonical);
        let old_entry = if ignore_cache {
            None
        } else {
            self.cache_manager.get(key.as_str())
        };
        let new_entry = match scan_directory(key.as_str(), old_entry, fs, now) {
            Ok(entry) => entry,
            Err(e) => {
                return Err(e);
            },
        };
        let total_size = new_entry.total_size();
        if !ignore_cache {
            self.cache_manager.update(key.as_str(), None, new_entry);
        }
        Ok(total_size)
    }

    /// The node that the cache keeps for `path`, whose canonical form is
    /// `canonical` where it has one.
    pub fn get_stats(&self, path: &str, canonical: Option<String>) -> (found: Option<&DirStat>)
        requires
            self.wf(),
        ensures
            match found {
                Some(stats) => self.store().roots().contains_key(key_of(path@, canonical))
                    && self.store().roots()[key_of(path@, canonical)] == stats@ && stats.wf(),
                None => !self.store().roots().contains_key(key_of(path@, canonical)),
            },
    {
        let key = cache_key(path, canonical);
        self.cache_manager.get(key.as_str())
    }

    /// The number of files in the directory and below it: counted in the
    /// filesystem, at the canonical form of `path`, with `ignore_cache`, and
    /// otherwise as the cache has it, which is 0 where the cache keeps no
    /// node for the directory.
    pub fn get_file_count(
        &self,
        path: &str,
        canonical: Option<String>,
        fs: &Snapshot,
        ignore_cache: bool,
    ) -> (result: Result<u64, IoFailure>)
        requires
            self.wf(),
            fs.wf(),
        ensures
            result == file_count_of(self.store().roots(), path@, canonical, *fs, ignore_cache),
    {
        if ignore_cache {
            let key = cache_key(path, canonical);
            count_files(key.as_str(), fs)
        } else {
            match self.get_stats(path, canonical) {
                Some(stats) => Ok(stats.file_count()),
                None => Ok(0),
            }
        }
    }

    /// What a save of the cache has to write: the whole cache while it holds
    /// changes that were not persisted, and nothing otherwise.
    pub fn save_cache(&self) -> (pending: Option<&Cache>)
        requires
            self.wf(),
        ensures
            pending is Some <==> self.store().is_dirty(),
            pending matches Some(cache) ==> cache.wf() && cache@ == self.store().roots()
                && cache.layout() == self.store().layout(),
    {
        self.cache_manager.save()
    }

    /// Takes note of how the writing went that [`DiskUse::save_cache`] or
    /// [`DiskUse::clear_cache`] asked for: the cache is clean after a
    /// success and stays dirty after a failure, which is handed back.
    pub fn complete_save(&mut self, outcome: Result<(), IoFailure>) -> (result: Result<
        (),
        IoFailure,
    >)
        requires
            old(self).wf(),
        ensures
            result == outcome,
            final(self).wf(),
            final(self).store().roots() == old(self).store().roots(),
            final(self).store().layout() == old(self).store().layout(),
            final(self).store().location() == old(self).store().location(),
            final(self).store().is_dirty() == (old(self).store().is_dirty() && outcome is Err),
    {
        self.cache_manager.complete_save(outcome)
    }

    /// Empties the cache. The cleared cache is to be persisted at once: what
    /// is returned is what has to be written.
    pub fn clear_cache(&mut self) -> (pending: &Cache)
        ensures
            final(self).wf(),
            final(self).store().roots() == Map::<Seq<char>, DirTree>::empty(),
            final(self).store().layout() == 0,
            final(self).store().location() == old(self).store().location(),
            final(self).store().is_dirty(),
            pending.wf(),
            pending@ == Map::<Seq<char>, DirTree>::empty(),
            pending.layout() == 0,
    {
        self.cache_manager.clear()
    }

    /// What is to be removed to delete the persisted cache: the cache file
    /// where `present` says that there is one, and nothing where there is
    /// none.
    pub fn delete_cache(&self, present: bool) -> (file: Option<&str>)
        ensures
            match file {
                Some(path) => present && path@ == self.store().location(),
                None => !present,
            },
    {
        self.cache_manager.delete(present)
    }

    /// Where the cache is persisted.
    pub fn cache_path(&self) -> (path: &str)
        ensures
            path@ == self.store().location(),
    {
        self.cache_manager.path()
    }
}

/// What a scan through the interface returns and does to the cache store.
///
/// The scan is that of the directory at the key of `path`, which is its
/// canonical form, with the node that the store keeps under the key, or with
/// none where the cache is ignored. Where it fails, its
/// failure is returned and the store stays as it was. Where it gives a node,
/// the node's total size is returned; with the cache ignored the store stays
/// as it was, and otherwise it keeps the node under the key and is dirty.
pub open spec fn scan_outcome(
    before: DiskUse,
    after: DiskUse,
    result: Result<u64, IoFailure>,
    path: Seq<char>,
    canonical: Option<String>,
    fs: Snapshot,
    now: Timestamp,
    ignore_cache: bool,
) -> bool {
    let key = key_of(path, canonical);
    match scan(fs, key, cached_entry(before.store().roots(), key, ignore_cache), now) {
        Err(e) => result == Err::<u64, IoFailure>(e) && after == before,
        Ok(node) => {
            &&& result == Ok::<u64, IoFailure>(node.total_size)
            &&& if ignore_cache {
                after == before
            } else {
                &&& after.store().roots() == before.store().roots().insert(key, node)
                &&& after.store().is_dirty()
                &&& after.store().layout() == before.store().layout()
                &&& after.store().location() == before.store().location()
            }
        },
    }
}

/// The file count that the interface reports for `path`.
pub open spec fn file_count_of(
    roots: Map<Seq<char>, DirTree>,
    path: Seq<char>,
    canonical: Option<String>,
    fs: Snapshot,
    ignore_cache: bool,
) -> Result<u64, IoFailure> {
    if ignore_cache {
        match counted(fs, key_of(path, canonical)) {
            Ok(count) => Ok(saturate(count)),
            Err(e) => Err(e),
        }
    } else if roots.contains_key(key_of(path, canonical)) {
        Ok(roots[key_of(path, canonical)].file_count)
    } else {
        Ok(0)
    }
}

} // verus!
