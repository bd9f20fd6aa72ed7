//! Scanning a directory tree, reusing what an earlier scan found where the
//! filesystem shows no change since.

use crate::invalidation::{is_still_valid, lemma_nothing_to_prune, still_valid};
use crate::listing::{
    is_dir, is_file, lemma_subdir_ranks_below, own_count, own_size, own_totals, saturate,
    subdirectories, subdirs, Listed,
};
use crate::snapshot::{EntryKind, IoFailure, Snapshot, Timestamp};
use crate::tree::{paths_of, with_node, DirStat, DirTree};
use rayon::prelude::{IntoParallelRefIterator, ParallelIterator};
use vstd::prelude::*;

verus! {

/// The node that `cache` keeps for the subdirectory `path`, if any.
pub open spec fn child_cache(cache: Option<DirTree>, path: Seq<char>) -> Option<DirTree> {
    match cache {
        Some(cached) => cached.child(path),
        None => None,
    }
}

/// What a scan of a directory gives: its node, or why its listing could not
/// be read.
pub type Scanned = Result<DirTree, IoFailure>;

/// The total size of the nodes among the first `n` results.
pub open spec fn gained_size_upto(results: Seq<Scanned>, n: nat) -> nat
    decreases n,
{
    if n == 0 || n > results.len() {
        0
    } else {
        gained_size_upto(results, (n - 1) as nat) + match results[n - 1] {
            Ok(node) => node.total_size as nat,
            Err(_) => 0nat,
        }
    }
}

/// The total file count of the nodes among the first `n` results.
pub open spec fn gained_count_upto(results: Seq<Scanned>, n: nat) -> nat
    decreases n,
{
    if n == 0 || n > results.len() {
        0
    } else {
        gained_count_upto(results, (n - 1) as nat) + match results[n - 1] {
            Ok(node) => node.file_count as nat,
            Err(_) => 0nat,
        }
    }
}

/// The nodes among the first `n` results, each kept under its own path: a
/// later node takes the place of an earlier one with the same path.
pub open spec fn merged_upto(results: Seq<Scanned>, n: nat) -> Seq<DirTree>
    decreases n,
{
    if n == 0 || n > results.len() {
        Seq::empty()
    } else {
        match results[n - 1] {
            Ok(node) => with_node(merged_upto(results, (n - 1) as nat), node),
            Err(_) => merged_upto(results, (n - 1) as nat),
        }
    }
}

/// The results of scanning the first `n` subdirectories of `path`, each with
/// the node that `cache` keeps for it.
pub open spec fn scanned_upto(
    fs: Snapshot,
    path: Seq<char>,
    cache: Option<DirTree>,
    now: Timestamp,
    n: nat,
) -> Seq<Scanned>
    decreases fs.rank(path), 0nat, n,
    when fs.wf()
{
    if n == 0 || n > subdirs(fs, path).len() {
        Seq::empty()
    } else {
        let sub = subdirs(fs, path)[n - 1];
        proof {
            lemma_subdir_ranks_below(fs, path, n - 1);
        }
        scanned_upto(fs, path, cache, now, (n - 1) as nat).push(
            scan(fs, sub, child_cache(cache, sub), now),
        )
    }
}

/// A full scan of the directory at `path`: the files directly under it are
/// counted, each subdirectory is scanned with the node that `cache` keeps
/// for it, and a subdirectory that cannot be read is left out. It fails only
/// where the listing of `path` itself cannot be read.
pub open spec fn rescanned(fs: Snapshot, path: Seq<char>, cache: Option<DirTree>, now: Timestamp)
    -> Scanned
    decreases fs.rank(path), 1nat, 0nat,
    when fs.wf()
{
    match fs.entries(path) {
        Err(e) => Err(e),
        Ok(entries) => {
            let results = scanned_upto(fs, path, cache, now, subdirs(fs, path).len());
            Ok(
                DirTree {
                    path,
                    total_size: saturate(
                        own_size(entries) + gained_size_upto(results, results.len()),
                    ),
                    file_count: saturate(
                        own_count(entries) + gained_count_upto(results, results.len()),
                    ),
                    last_scan: now,
                    children: merged_upto(results, results.len()),
                },
            )
        },
    }
}

/// A scan of the directory at `path` at the time `now`. A cached node that is
/// still valid is the result, as it is. Otherwise the directory is scanned in
/// full.
pub open spec fn scan(fs: Snapshot, path: Seq<char>, cache: Option<DirTree>, now: Timestamp)
    -> Scanned
    decreases fs.rank(path), 2nat, 0nat,
    when fs.wf()
{
    if cache matches Some(cached) && still_valid(fs, path, cached) {
        Ok(cache->Some_0)
    } else {
        rescanned(fs, path, cache, now)
    }
}

/// What a count of the files below a directory gives: their number, or why
/// the listing of the directory could not be read.
pub type Counted = Result<nat, IoFailure>;

/// The number of the files under the first `n` entries of `path`, each
/// subdirectory counted in full. An entry that cannot be read, or whose
/// metadata cannot, is passed over, and a subdirectory that cannot be listed
/// adds nothing.
pub open spec fn counted_upto(fs: Snapshot, path: Seq<char>, n: nat) -> nat
    decreases fs.rank(path), 0nat, n,
    when fs.wf()
{
    if n == 0 || !(fs.entries(path) matches Ok(entries) && n <= entries.len()) {
        0
    } else {
        let entry = fs.entries(path)->Ok_0[n - 1];
        counted_upto(fs, path, (n - 1) as nat) + if is_file(entry) {
            1nat
        } else if is_dir(entry) {
            proof {
                fs.lemma_entry_ranks_below(path, n - 1);
            }
            match counted(fs, entry->Ok_0.path@) {
                Ok(below) => below,
                Err(_) => 0nat,
            }
        } else {
            0nat
        }
    }
}

/// The number of files in the directory at `path` and below it, as far as
/// they can be read. The count fails only where the listing of `path` itself
/// cannot be read.
pub open spec fn counted(fs: Snapshot, path: Seq<char>) -> Counted
    decreases fs.rank(path), 1nat, 0nat,
    when fs.wf()
{
    match fs.entries(path) {
        Err(e) => Err(e),
        Ok(entries) => Ok(counted_upto(fs, path, entries.len())),
    }
}

/// The value of what a scan returned.
pub open spec fn tree_of(result: Result<DirStat, IoFailure>) -> Scanned {
    match result {
        Ok(node) => Ok(node@),
        Err(e) => Err(e),
    }
}

/// The value of the cached node that a scan was given.
pub open spec fn cache_of(cache: Option<&DirStat>) -> Option<DirTree> {
    match cache {
        Some(cached) => Some(cached@),
        None => None,
    }
}

/// `result` is what a scan of `path` with `cache` gives, and a node in it is
/// well-formed.
pub open spec fn is_scan_of(
    result: Result<DirStat, IoFailure>,
    fs: Snapshot,
    path: Seq<char>,
    cache: Option<DirTree>,
    now: Timestamp,
) -> bool {
    &&& tree_of(result) == scan(fs, path, cache, now)
    &&& result matches Ok(node) ==> node.wf()
}

/// `results` holds, for each of `subdirs` in order, what a scan of it gives
/// with the node that `cache` keeps for it.
pub open spec fn are_scans_of(
    results: Seq<Result<DirStat, IoFailure>>,
    subdirs: Seq<String>,
    fs: Snapshot,
    cache: Option<DirTree>,
    now: Timestamp,
) -> bool {
    &&& results.len() == subdirs.len()
    &&& forall|k: int|
        0 <= k < results.len() ==> is_scan_of(
            #[trigger] results[k],
            fs,
            subdirs[k]@,
            child_cache(cache, subdirs[k]@),
            now,
        )
}

/// `scanned_upto` holds one result for each of the first `n` subdirectories.
pub proof fn lemma_scanned_upto(
    fs: Snapshot,
    path: Seq<char>,
    cache: Option<DirTree>,
    now: Timestamp,
    n: nat,
)
    requires
        fs.wf(),
        n <= subdirs(fs, path).len(),
    ensures
        scanned_upto(fs, path, cache, now, n).len() == n,
        forall|k: int|
            0 <= k < n ==> #[trigger] scanned_upto(fs, path, cache, now, n)[k] == scan(
                fs,
                subdirs(fs, path)[k],
                child_cache(cache, subdirs(fs, path)[k]),
                now,
            ),
    decreases n,
{
    if n > 0 {
        lemma_scanned_upto(fs, path, cache, now, (n - 1) as nat);
        let sub = subdirs(fs, path)[n - 1];
        assert(scanned_upto(fs, path, cache, now, n) == scanned_upto(
            fs,
            path,
            cache,
            now,
            (n - 1) as nat,
        ).push(scan(fs, sub, child_cache(cache, sub), now)));
    } else {
        assert(scanned_upto(fs, path, cache, now, n) == Seq::<Scanned>::empty());
    }
}

/// Scans the subdirectory `path` with the node that `cache` keeps for it.
fn scan_subdir(path: &String, cache: Option<&DirStat>, fs: &Snapshot, now: Timestamp) -> (result:
    Result<DirStat, IoFailure>)
    requires
        fs.wf(),
        cache matches Some(cached) ==> cached.wf(),
    ensures
        is_scan_of(result, *fs, path@, child_cache(cache_of(cache), path@), now),
    decreases fs.rank(path@), 3nat,
{
    let child = match cache {
        Some(cached) => cached.child(path.as_str()),
        None => None,
    };
    scan_directory(path.as_str(), child, fs, now)
}

/// Every one of `subdirs` ranks strictly below the directory at `parent`, so
/// that a scan that goes down into them comes to an end.
pub open spec fn rank_below(subdirs: Seq<String>, fs: Snapshot, parent: Seq<char>) -> bool {
    forall|k: int| 0 <= k < subdirs.len() ==> fs.rank((#[trigger] subdirs[k])@) < fs.rank(parent)
}

/// Scans the subdirectories of the directory at `parent` one after the other.
fn scan_subdirs_in_turn(
    subdirs: &Vec<String>,
    parent: &str,
    cache: Option<&DirStat>,
    fs: &Snapshot,
    now: Timestamp,
) -> (results: Vec<Result<DirStat, IoFailure>>)
    requires
        fs.wf(),
        cache matches Some(cached) ==> cached.wf(),
        rank_below(subdirs@, *fs, parent@),
    ensures
        are_scans_of(results@, subdirs@, *fs, cache_of(cache), now),
    decreases fs.rank(parent@), 0nat,
{
    let mut results: Vec<Result<DirStat, IoFailure>> = Vec::new();
    let mut i: usize = 0;
    while i < subdirs.len()
        invariant
            i <= subdirs.len(),
            fs.wf(),
            cache matches Some(cached) ==> cached.wf(),
            rank_below(subdirs@, *fs, parent@),
            are_scans_of(results@, subdirs@.take(i as int), *fs, cache_of(cache), now),
        decreases subdirs.len() - i,
    {
        let result = scan_subdir(&subdirs[i], cache, fs, now);
        results.push(result);
        i += 1;
    }
    proof {
        assert(subdirs@.take(i as int) =~= subdirs@);
    }
    results
}

/// Scans the subdirectories of the directory at `parent` side by side, with
/// `rayon`'s `par_iter().map(..).collect()`: each path is handed to
/// [`scan_subdir`], and the results are collected into a vector in the order
/// of the paths. The subdirectories rank below `parent`, as they do for the
/// scan one after the other: that is why the scans come to an end.
#[verifier::external_body]
fn scan_subdirs_parallel(
    subdirs: &Vec<String>,
    parent: &str,
    cache: Option<&DirStat>,
    fs: &Snapshot,
    now: Timestamp,
) -> (results: Vec<Result<DirStat, IoFailure>>)
    requires
        fs.wf(),
        cache matches Some(cached) ==> cached.wf(),
        rank_below(subdirs@, *fs, parent@),
    ensures
        are_scans_of(results@, subdirs@, *fs, cache_of(cache), now),
{
    subdirs.par_iter().map(|path| scan_subdir(path, cache, fs, now)).collect()
}

/// Scans the directory at `path` and everything below it, at the time `now`,
/// and returns its statistics.
///
/// A node that `cache` keeps for the directory is returned as it is, without
/// a look at any file, where it is still valid: where nothing was deleted
/// below it and the directory shows no modification since the cached scan.
/// Otherwise the directory is listed and its subdirectories are scanned, each
/// with the node that `cache` keeps for it: side by side where there are
/// several, and directly where there is at most one. A subdirectory that
/// cannot be read adds nothing and gets no node. The scan fails only where
/// `path` itself cannot be listed.
pub fn scan_directory(
    path: &str,
    cache: Option<&DirStat>,
    fs: &Snapshot,
    now: Timestamp,
) -> (result: Result<DirStat, IoFailure>)
    requires
        fs.wf(),
        cache matches Some(cached) ==> cached.wf(),
    ensures
        is_scan_of(result, *fs, path@, cache_of(cache), now),
    decreases fs.rank(path@), 2nat,
{
    if let Some(cached) = cache {
        let mut pruned_cache = cached.clone();
        if is_still_valid(path, &mut pruned_cache, fs, now) {
            proof {
                lemma_nothing_to_prune(cached@, *fs);
            }
            return Ok(pruned_cache);
        }
    }
    let entries = match fs.read_dir(path) {
        Ok(entries) => entries,
        Err(e) => {
            return Err(e);
        },
    };
    let (files_size, files_count) = own_totals(entries);
    let subdirs = subdirectories(entries);
    proof {
        assert forall|k: int| 0 <= k < subdirs@.len() implies fs.rank((#[trigger] subdirs@[k])@)
            < fs.rank(path@) by {
            assert(paths_of(subdirs@)[k] == subdirs@[k]@);
            lemma_subdir_ranks_below(*fs, path@, k);
        }
    }
    let results = if subdirs.len() > 1 {
        scan_subdirs_parallel(&subdirs, path, cache, fs, now)
    } else {
        scan_subdirs_in_turn(&subdirs, path, cache, fs, now)
    };
    let ghost scans = scanned_upto(*fs, path@, cache_of(cache), now, subdirs@.len() as nat);
    proof {
        lemma_scanned_upto(*fs, path@, cache_of(cache), now, subdirs@.len() as nat);
    }
    let mut node = DirStat::new(path.to_owned(), 0, 0, now);
    let mut total_size = files_size;
    let mut file_count = files_count;
    for result in it: results
        invariant
            it.seq().len() == scans.len(),
            forall|k: int|
                0 <= k < scans.len() ==> tree_of(#[trigger] it.seq()[k]) == scans[k] && (
                it.seq()[k] matches Ok(child) ==> child.wf()),
            node.wf(),
            node@ == DirTree::leaf(path@, 0, 0, now).with_children(
                merged_upto(scans, it.index() as nat),
            ),
            total_size == saturate(own_size(entries@) + gained_size_upto(scans, it.index() as nat)),
            file_count == saturate(
                own_count(entries@) + gained_count_upto(scans, it.index() as nat),
            ),
    {
        if let Ok(child) = result {
            total_size = total_size.saturating_add(child.total_size());
            file_count = file_count.saturating_add(child.file_count());
            node.insert_child(child);
        }
    }
    node.set_totals(total_size, file_count, now);
    Ok(node)
}

/// Counts the files in the directory at `path` and below it, without a look
/// at any cached node. An entry that cannot be read is passed over, and a
/// subdirectory that cannot be listed adds nothing. The count fails only
/// where `path` itself cannot be listed.
pub fn count_files(path: &str, fs: &Snapshot) -> (result: Result<u64, IoFailure>)
    requires
        fs.wf(),
    ensures
        match counted(*fs, path@) {
            Ok(count) => result == Ok::<u64, IoFailure>(saturate(count)),
            Err(e) => result == Err::<u64, IoFailure>(e),
        },
    decreases fs.rank(path@),
{
    let entries = match fs.read_dir(path) {
        Ok(entries) => entries,
        Err(e) => {
            return Err(e);
        },
    };
    let mut count: u64 = 0;
    let mut i: usize = 0;
    while i < entries.len()
        invariant
            i <= entries.len(),
            fs.wf(),
            fs.entries(path@) == Ok::<Seq<Listed>, IoFailure>(entries@),
            count == saturate(counted_upto(*fs, path@, i as nat)),
        decreases entries.len() - i,
    {
        if let Ok(entry) = &entries[i] {
            if let Ok(meta) = &entry.meta {
                match meta.kind {
                    EntryKind::File => {
                        count = count.saturating_add(1);
                    },
                    EntryKind::Dir => {
                        proof {
                            fs.lemma_entry_ranks_below(path@, i as int);
                        }
                        if let Ok(below) = count_files(entry.path.as_str(), fs) {
                            count = count.saturating_add(below);
                        }
                    },
                    EntryKind::Other => {},
                }
            }
        }
        i += 1;
    }
    Ok(count)
}

} // verus!
