//! What holds of every scan, stated over the recorded filesystem and proved.

use crate::cache::key_of;
use crate::disk_use::{cached_entry, scan_outcome, DiskUse};
use crate::invalidation::{
    dir_changed, entry_changed, has_deletions, lemma_pruned_upto, lost, newer, pruned,
    pruned_upto, still_valid, sum_counts, sum_counts_upto, sum_sizes, sum_sizes_upto, survivor,
};
use crate::listing::{
    is_dir, lemma_subdir_ranks_below, lemma_subdirs_of_directory, own_count, own_count_upto,
    own_size, saturate, subdirs, subdirs_upto, Listed,
};
use crate::snapshot::directly_below;
use crate::scanner::{
    child_cache, counted, counted_upto, gained_count_upto, gained_size_upto, lemma_scanned_upto,
    merged_upto, rescanned, scan, scanned_upto, Scanned,
};
use crate::snapshot::{IoFailure, Snapshot, Timestamp};
use crate::tree::{has_path, place_of, with_node, DirTree};
use vstd::prelude::*;

verus! {

/// The total length of the plain files below the first `n` subdirectories of
/// `path`.
pub open spec fn size_below_upto(fs: Snapshot, path: Seq<char>, n: nat) -> nat
    decreases fs.rank(path), 0nat, n,
    when fs.wf()
{
    if n == 0 || n > subdirs(fs, path).len() {
        0
    } else {
        proof {
            lemma_subdir_ranks_below(fs, path, n - 1);
        }
        size_below_upto(fs, path, (n - 1) as nat) + tree_size(fs, subdirs(fs, path)[n - 1])
    }
}

/// The total length of all plain files in the directory at `path` and below
/// it. A directory that cannot be listed holds none.
pub open spec fn tree_size(fs: Snapshot, path: Seq<char>) -> nat
    decreases fs.rank(path), 1nat, 0nat,
    when fs.wf()
{
    match fs.entries(path) {
        Err(_) => 0,
        Ok(entries) => own_size(entries) + size_below_upto(fs, path, subdirs(fs, path).len()),
    }
}

/// The number of plain files below the first `n` subdirectories of `path`.
pub open spec fn files_below_upto(fs: Snapshot, path: Seq<char>, n: nat) -> nat
    decreases fs.rank(path), 0nat, n,
    when fs.wf()
{
    if n == 0 || n > subdirs(fs, path).len() {
        0
    } else {
        proof {
            lemma_subdir_ranks_below(fs, path, n - 1);
        }
        files_below_upto(fs, path, (n - 1) as nat) + tree_files(fs, subdirs(fs, path)[n - 1])
    }
}

/// The number of all plain files in the directory at `path` and below it. A
/// directory that cannot be listed holds none.
pub open spec fn tree_files(fs: Snapshot, path: Seq<char>) -> nat
    decreases fs.rank(path), 1nat, 0nat,
    when fs.wf()
{
    match fs.entries(path) {
        Err(_) => 0,
        Ok(entries) => own_count(entries) + files_below_upto(fs, path, subdirs(fs, path).len()),
    }
}

/// The node's totals are those of the files that the filesystem holds at
/// `path` and below.
pub open spec fn accurate(node: DirTree, fs: Snapshot, path: Seq<char>) -> bool {
    &&& node.total_size == saturate(tree_size(fs, path))
    &&& node.file_count == saturate(tree_files(fs, path))
}

/// What a result adds to the totals of its parent is what its directory
/// holds.
pub open spec fn accurate_result(result: Scanned, fs: Snapshot, path: Seq<char>) -> bool {
    match result {
        Ok(node) => accurate(node, fs, path),
        Err(_) => tree_size(fs, path) == 0 && tree_files(fs, path) == 0,
    }
}

/// Totals that are each held saturated add up, saturated, to what the exact
/// totals add up to.
pub proof fn lemma_gained_totals(fs: Snapshot, path: Seq<char>, results: Seq<Scanned>, n: nat)
    requires
        fs.wf(),
        n <= results.len(),
        n <= subdirs(fs, path).len(),
        forall|k: int|
            0 <= k < n ==> accurate_result(#[trigger] results[k], fs, subdirs(fs, path)[k]),
    ensures
        size_below_upto(fs, path, n) <= u64::MAX ==> gained_size_upto(results, n)
            == size_below_upto(fs, path, n),
        size_below_upto(fs, path, n) > u64::MAX ==> gained_size_upto(results, n) >= u64::MAX,
        files_below_upto(fs, path, n) <= u64::MAX ==> gained_count_upto(results, n)
            == files_below_upto(fs, path, n),
        files_below_upto(fs, path, n) > u64::MAX ==> gained_count_upto(results, n) >= u64::MAX,
    decreases n,
{
    if n > 0 {
        lemma_gained_totals(fs, path, results, (n - 1) as nat);
        assert(accurate_result(results[n - 1], fs, subdirs(fs, path)[n - 1]));
        assert(size_below_upto(fs, path, n) == size_below_upto(fs, path, (n - 1) as nat)
            + tree_size(fs, subdirs(fs, path)[n - 1]));
        assert(files_below_upto(fs, path, n) == files_below_upto(fs, path, (n - 1) as nat)
            + tree_files(fs, subdirs(fs, path)[n - 1]));
    } else {
        assert(size_below_upto(fs, path, n) == 0);
        assert(files_below_upto(fs, path, n) == 0);
    }
}

/// A scan without a cached node counts every file once: the totals of its
/// node are the total length and the number of the plain files in the
/// directory and below it, saturated, and it fails only where the directory
/// cannot be listed.
pub proof fn lemma_fresh_scan_is_exact(fs: Snapshot, path: Seq<char>, now: Timestamp)
    requires
        fs.wf(),
    ensures
        match scan(fs, path, None, now) {
            Ok(node) => fs.entries(path) is Ok && accurate(node, fs, path) && node.path == path
                && node.last_scan == now,
            Err(e) => fs.entries(path) == Err::<Seq<Listed>, IoFailure>(e),
        },
    decreases fs.rank(path),
{
    assert(scan(fs, path, None, now) == rescanned(fs, path, None, now));
    if fs.entries(path) is Ok {
        let n = subdirs(fs, path).len();
        let results = scanned_upto(fs, path, None, now, n);
        lemma_scanned_upto(fs, path, None, now, n);
        assert forall|k: int| 0 <= k < n implies accurate_result(
            #[trigger] results[k],
            fs,
            subdirs(fs, path)[k],
        ) by {
            let sub = subdirs(fs, path)[k];
            lemma_subdir_ranks_below(fs, path, k);
            lemma_fresh_scan_is_exact(fs, sub, now);
            assert(child_cache(None, sub) is None);
        }
        lemma_gained_totals(fs, path, results, n);
    }
}

/// The subdirectories among the first `n` entries come first among those of
/// the whole listing.
proof fn lemma_subdirs_prefix(entries: Seq<Listed>, n: nat, m: nat)
    requires
        n <= m <= entries.len(),
    ensures
        subdirs_upto(entries, n).len() <= subdirs_upto(entries, m).len(),
        forall|k: int|
            0 <= k < subdirs_upto(entries, n).len() ==> #[trigger] subdirs_upto(entries, n)[k]
                == subdirs_upto(entries, m)[k],
    decreases m,
{
    if n < m {
        lemma_subdirs_prefix(entries, n, (m - 1) as nat);
    }
}

/// A count counts every file once: it is the number of the plain files
/// among the first `n` entries and of all plain files below the directories
/// among them.
proof fn lemma_counted_upto(fs: Snapshot, path: Seq<char>, n: nat)
    requires
        fs.wf(),
        fs.entries(path) matches Ok(entries) && n <= entries.len(),
    ensures
        counted_upto(fs, path, n) == own_count_upto(fs.entries(path)->Ok_0, n)
            + files_below_upto(fs, path, subdirs_upto(fs.entries(path)->Ok_0, n).len()),
    decreases fs.rank(path), 0nat, n,
{
    let entries = fs.entries(path)->Ok_0;
    if n > 0 {
        lemma_counted_upto(fs, path, (n - 1) as nat);
        lemma_subdirs_prefix(entries, n, entries.len());
        let before = subdirs_upto(entries, (n - 1) as nat).len();
        if is_dir(entries[n - 1]) {
            let sub = entries[n - 1]->Ok_0.path@;
            assert(subdirs_upto(entries, n) == subdirs_upto(entries, (n - 1) as nat).push(sub));
            assert(subdirs_upto(entries, n)[before as int] == sub);
            assert(subdirs(fs, path)[before as int] == sub);
            fs.lemma_entry_ranks_below(path, n - 1);
            lemma_count_is_exact(fs, sub);
            assert(files_below_upto(fs, path, before + 1) == files_below_upto(fs, path, before)
                + tree_files(fs, sub));
        }
    } else {
        assert(files_below_upto(fs, path, 0) == 0);
    }
}

/// A count of files gives the number of all plain files in the directory and
/// below it, and fails only where the directory cannot be listed.
pub proof fn lemma_count_is_exact(fs: Snapshot, path: Seq<char>)
    requires
        fs.wf(),
    ensures
        match fs.entries(path) {
            Ok(_) => counted(fs, path) == Ok::<nat, IoFailure>(tree_files(fs, path)),
            Err(e) => counted(fs, path) == Err::<nat, IoFailure>(e) && tree_files(fs, path) == 0,
        },
    decreases fs.rank(path), 1nat, 0nat,
{
    if fs.entries(path) is Ok {
        let entries = fs.entries(path)->Ok_0;
        lemma_counted_upto(fs, path, entries.len());
    }
}

/// After pruning, no node is left, at any depth, for a path at which
/// nothing exists.
pub proof fn lemma_pruned_keeps_no_deleted(cached: DirTree, fs: Snapshot)
    ensures
        !has_deletions(pruned(cached, fs), fs),
    decreases cached,
{
    let n = cached.children.len();
    let kept = pruned_upto(cached, fs, n);
    lemma_pruned_upto(cached, fs, n);
    assert(pruned(cached, fs).children == kept);
    assert forall|j: int| 0 <= j < kept.len() implies !lost(#[trigger] kept[j], fs) by {
        assert(survivor(cached, fs, j, n, kept[j]));
        let k = choose|k: int|
            #![trigger cached.children[k]]
            j <= k < n && k < cached.children.len() && fs.has(cached.children[k].path)
                && kept[j] == pruned(cached.children[k], fs);
        lemma_pruned_keeps_no_deleted(cached.children[k], fs);
        assert(kept[j].path == cached.children[k].path);
    }
}

/// `node` is the node of one of the first `n` results.
pub open spec fn among(results: Seq<Scanned>, n: nat, node: DirTree) -> bool {
    exists|k: int|
        0 <= k < n && k < results.len() && #[trigger] results[k] == Ok::<DirTree, IoFailure>(node)
}

/// Every node that the merge keeps is the node of one of the results.
pub proof fn lemma_merged_upto(results: Seq<Scanned>, n: nat)
    requires
        n <= results.len(),
    ensures
        forall|j: int|
            0 <= j < merged_upto(results, n).len() ==> among(
                results,
                n,
                #[trigger] merged_upto(results, n)[j],
            ),
    decreases n,
{
    let now = merged_upto(results, n);
    if n > 0 {
        let before = merged_upto(results, (n - 1) as nat);
        lemma_merged_upto(results, (n - 1) as nat);
        assert(now == match results[n - 1] {
            Ok(node) => with_node(before, node),
            Err(_) => before,
        });
        assert forall|j: int| 0 <= j < now.len() implies among(results, n, #[trigger] now[j]) by {
            match results[n - 1] {
                Ok(node) => {
                    if now[j] == node {
                        assert(results[n - 1] == Ok::<DirTree, IoFailure>(node));
                    } else {
                        assert(now[j] == before[j]);
                        assert(among(results, (n - 1) as nat, before[j]));
                        let k = choose|k: int|
                            0 <= k < n - 1 && k < results.len() && #[trigger] results[k] == Ok::<
                                DirTree,
                                IoFailure,
                            >(before[j]);
                        assert(results[k] == Ok::<DirTree, IoFailure>(now[j]));
                    }
                },
                Err(_) => {
                    assert(among(results, (n - 1) as nat, before[j]));
                    let k = choose|k: int|
                        0 <= k < n - 1 && k < results.len() && #[trigger] results[k] == Ok::<
                            DirTree,
                            IoFailure,
                        >(before[j]);
                    assert(results[k] == Ok::<DirTree, IoFailure>(now[j]));
                },
            }
        }
    } else {
        assert(now == Seq::<DirTree>::empty());
    }
}

/// The node that a scan of a subdirectory gives has the path of the
/// subdirectory.
pub proof fn lemma_subdir_scan_path(
    fs: Snapshot,
    path: Seq<char>,
    cache: Option<DirTree>,
    now: Timestamp,
)
    requires
        fs.wf(),
    ensures
        scan(fs, path, child_cache(cache, path), now) matches Ok(node) ==> node.path == path,
{
    let child = child_cache(cache, path);
    if child is Some {
        let cached = cache->Some_0;
        assert(has_path(cached.children, path));
        assert(child->Some_0.path == path);
    }
}

/// A scan leaves no node, at any depth, for a path at which nothing exists: a
/// cached node is reused only where nothing was deleted below it, and a
/// directory that is scanned exists.
pub proof fn lemma_scan_keeps_no_deleted(
    fs: Snapshot,
    path: Seq<char>,
    cache: Option<DirTree>,
    now: Timestamp,
)
    requires
        fs.wf(),
    ensures
        scan(fs, path, cache, now) matches Ok(node) ==> !has_deletions(node, fs) && fs.has(path)
            && fs.entries(path) is Ok,
    decreases fs.rank(path),
{
    if scan(fs, path, cache, now) is Ok {
        let node = scan(fs, path, cache, now)->Ok_0;
        if cache is Some && still_valid(fs, path, cache->Some_0) {
        } else {
            assert(scan(fs, path, cache, now) == rescanned(fs, path, cache, now));
            let n = subdirs(fs, path).len();
            let results = scanned_upto(fs, path, cache, now, n);
            lemma_scanned_upto(fs, path, cache, now, n);
            lemma_merged_upto(results, n);
            assert(node.children == merged_upto(results, n));
            assert forall|j: int| 0 <= j < node.children.len() implies !lost(
                #[trigger] node.children[j],
                fs,
            ) by {
                assert(among(results, n, node.children[j]));
                let k = choose|k: int|
                    0 <= k < n && k < results.len() && #[trigger] results[k] == Ok::<
                        DirTree,
                        IoFailure,
                    >(node.children[j]);
                let sub = subdirs(fs, path)[k];
                lemma_subdir_ranks_below(fs, path, k);
                lemma_scan_keeps_no_deleted(fs, sub, child_cache(cache, sub), now);
                lemma_subdir_scan_path(fs, sub, cache, now);
            }
        }
    }
}

/// The directory at `path` can be listed.
pub open spec fn listable(fs: Snapshot, path: Seq<char>) -> bool {
    fs.entries(path) is Ok
}

/// The directory at `path` shows no modification after `time`: its own
/// modification time can be read and is not later, and none of the
/// directories that it lists has a later one.
pub open spec fn quiet_dir(fs: Snapshot, path: Seq<char>, time: Timestamp) -> bool {
    &&& fs.mtime(path) is Some
    &&& fs.mtime(path)->Some_0.nanos <= time.nanos
    &&& fs.entries(path) matches Ok(entries) ==> forall|i: int|
        0 <= i < entries.len() && is_dir(#[trigger] entries[i]) ==> !newer(
            entries[i]->Ok_0.meta->Ok_0.modified,
            time,
        )
}

/// No directory that can be listed shows a modification after `time`.
pub open spec fn unchanged_since(fs: Snapshot, time: Timestamp) -> bool {
    forall|path: Seq<char>| #[trigger] listable(fs, path) ==> quiet_dir(fs, path, time)
}

/// In a filesystem that shows no modification after the time of a scan, the
/// node that the scan gives shows no change.
pub proof fn lemma_scan_shows_no_change(
    fs: Snapshot,
    path: Seq<char>,
    cache: Option<DirTree>,
    now: Timestamp,
)
    requires
        fs.wf(),
        unchanged_since(fs, now),
    ensures
        scan(fs, path, cache, now) matches Ok(node) ==> !dir_changed(fs, path, node),
    decreases fs.rank(path),
{
    if scan(fs, path, cache, now) is Ok {
        let node = scan(fs, path, cache, now)->Ok_0;
        if cache is Some && still_valid(fs, path, cache->Some_0) {
        } else {
            assert(scan(fs, path, cache, now) == rescanned(fs, path, cache, now));
            let entries = fs.entries(path)->Ok_0;
            let n = subdirs(fs, path).len();
            let results = scanned_upto(fs, path, cache, now, n);
            lemma_scanned_upto(fs, path, cache, now, n);
            lemma_merged_upto(results, n);
            assert(node.children == merged_upto(results, n));
            assert(node.last_scan == now);
            assert(listable(fs, path));
            assert forall|i: int| 0 <= i < entries.len() implies !entry_changed(
                fs,
                #[trigger] entries[i],
                node,
            ) by {
                if is_dir(entries[i]) {
                    let below = entries[i]->Ok_0.path@;
                    assert forall|j: int|
                        0 <= j < node.children.len() && (#[trigger] node.children[j]).path
                            == below implies !dir_changed(fs, below, node.children[j]) by {
                        assert(among(results, n, node.children[j]));
                        let k = choose|k: int|
                            0 <= k < n && k < results.len() && #[trigger] results[k] == Ok::<
                                DirTree,
                                IoFailure,
                            >(node.children[j]);
                        let sub = subdirs(fs, path)[k];
                        lemma_subdir_ranks_below(fs, path, k);
                        lemma_subdir_scan_path(fs, sub, cache, now);
                        lemma_scan_shows_no_change(fs, sub, child_cache(cache, sub), now);
                    }
                }
            }
        }
    }
}

/// A second scan of a tree that did not change finds the node of the first
/// scan still good and returns it as it is: the same totals, the same
/// children, the same time of scan.
pub proof fn lemma_rescan_of_unchanged_tree(
    fs: Snapshot,
    path: Seq<char>,
    cache: Option<DirTree>,
    now: Timestamp,
    later: Timestamp,
)
    requires
        fs.wf(),
        unchanged_since(fs, now),
        scan(fs, path, cache, now) is Ok,
    ensures
        scan(fs, path, Some(scan(fs, path, cache, now)->Ok_0), later) == scan(
            fs,
            path,
            cache,
            now,
        ),
{
    let first = scan(fs, path, cache, now)->Ok_0;
    lemma_scan_keeps_no_deleted(fs, path, cache, now);
    lemma_scan_shows_no_change(fs, path, cache, now);
}

/// Nodes that agree in their first `n` places have the same totals there.
proof fn lemma_sums_of_prefix(left: Seq<DirTree>, right: Seq<DirTree>, n: nat)
    requires
        n <= left.len(),
        n <= right.len(),
        forall|i: int| 0 <= i < n ==> #[trigger] left[i] == right[i],
    ensures
        sum_sizes_upto(left, n) == sum_sizes_upto(right, n),
        sum_counts_upto(left, n) == sum_counts_upto(right, n),
    decreases n,
{
    if n > 0 {
        lemma_sums_of_prefix(left, right, (n - 1) as nat);
        assert(left[n - 1] == right[n - 1]);
    }
}

/// The nodes that the merge keeps for the first `n` results have the totals
/// of these results: a directory lists no subdirectory twice.
proof fn lemma_merged_sums(
    fs: Snapshot,
    path: Seq<char>,
    cache: Option<DirTree>,
    now: Timestamp,
    n: nat,
)
    requires
        fs.wf(),
        n <= subdirs(fs, path).len(),
    ensures
        ({
            let results = scanned_upto(fs, path, cache, now, subdirs(fs, path).len());
            &&& sum_sizes(merged_upto(results, n)) == gained_size_upto(results, n)
            &&& sum_counts(merged_upto(results, n)) == gained_count_upto(results, n)
        }),
    decreases n,
{
    let all = subdirs(fs, path).len();
    let results = scanned_upto(fs, path, cache, now, all);
    lemma_scanned_upto(fs, path, cache, now, all);
    lemma_subdirs_of_directory(fs, path);
    let now_kept = merged_upto(results, n);
    if n > 0 {
        let before = merged_upto(results, (n - 1) as nat);
        lemma_merged_sums(fs, path, cache, now, (n - 1) as nat);
        match results[n - 1] {
            Err(_) => {
                assert(now_kept == before);
            },
            Ok(node) => {
                lemma_subdir_scan_path(fs, subdirs(fs, path)[n - 1], cache, now);
                if has_path(before, node.path) {
                    let j = place_of(before, node.path);
                    assert(before[j].path == node.path);
                    lemma_merged_upto(results, (n - 1) as nat);
                    assert(among(results, (n - 1) as nat, before[j]));
                    let k = choose|k: int|
                        0 <= k < n - 1 && k < results.len() && #[trigger] results[k] == Ok::<
                            DirTree,
                            IoFailure,
                        >(before[j]);
                    lemma_subdir_scan_path(fs, subdirs(fs, path)[k], cache, now);
                    assert(subdirs(fs, path)[k] != subdirs(fs, path)[n - 1]);
                }
                assert(now_kept == before.push(node));
                lemma_sums_of_prefix(now_kept, before, before.len());
            },
        }
    } else {
        assert(now_kept == Seq::<DirTree>::empty());
    }
}

/// The totals of a node are those of its own files and of its children: where
/// a directory is scanned in full, the total size of its node is the total
/// length of the files directly in it and the total sizes of the nodes of its
/// subdirectories, and so for the file count.
pub proof fn lemma_totals_are_own_and_children(
    fs: Snapshot,
    path: Seq<char>,
    cache: Option<DirTree>,
    now: Timestamp,
)
    requires
        fs.wf(),
        rescanned(fs, path, cache, now) is Ok,
    ensures
        ({
            let node = rescanned(fs, path, cache, now)->Ok_0;
            let entries = fs.entries(path)->Ok_0;
            &&& node.total_size == saturate(own_size(entries) + sum_sizes(node.children))
            &&& node.file_count == saturate(own_count(entries) + sum_counts(node.children))
        }),
{
    let n = subdirs(fs, path).len();
    lemma_scanned_upto(fs, path, cache, now, n);
    lemma_merged_sums(fs, path, cache, now, n);
}

/// The node that a scan gives has the path of the directory, where the
/// cached node, if there is one, has it.
pub proof fn lemma_scan_path(fs: Snapshot, path: Seq<char>, cache: Option<DirTree>, now: Timestamp)
    requires
        fs.wf(),
        cache matches Some(cached) ==> cached.path == path,
    ensures
        scan(fs, path, cache, now) matches Ok(node) ==> node.path == path,
{
}

/// Every node below `node`, at any depth, has the path of the node above it
/// and one more name.
pub open spec fn nested(node: DirTree) -> bool
    decreases node,
{
    forall|j: int|
        0 <= j < node.children.len() ==> directly_below(
            node.path,
            (#[trigger] node.children[j]).path,
        ) && nested(node.children[j])
}

/// The paths of a scan are those of the tree: the node that a scan gives has
/// the path of the directory, and every node below it has the path of the
/// node above it and one more name, where that holds of the cached node, if
/// there is one.
pub proof fn lemma_scan_nests(fs: Snapshot, path: Seq<char>, cache: Option<DirTree>, now: Timestamp)
    requires
        fs.wf(),
        cache matches Some(cached) ==> cached.path == path && nested(cached),
    ensures
        scan(fs, path, cache, now) matches Ok(node) ==> node.path == path && nested(node),
    decreases fs.rank(path),
{
    if scan(fs, path, cache, now) is Ok {
        let node = scan(fs, path, cache, now)->Ok_0;
        if cache is Some && still_valid(fs, path, cache->Some_0) {
        } else {
            assert(scan(fs, path, cache, now) == rescanned(fs, path, cache, now));
            let n = subdirs(fs, path).len();
            let results = scanned_upto(fs, path, cache, now, n);
            lemma_scanned_upto(fs, path, cache, now, n);
            lemma_merged_upto(results, n);
            lemma_subdirs_of_directory(fs, path);
            assert(node.children == merged_upto(results, n));
            assert forall|j: int| 0 <= j < node.children.len() implies directly_below(
                node.path,
                (#[trigger] node.children[j]).path,
            ) && nested(node.children[j]) by {
                assert(among(results, n, node.children[j]));
                let k = choose|k: int|
                    0 <= k < n && k < results.len() && #[trigger] results[k] == Ok::<
                        DirTree,
                        IoFailure,
                    >(node.children[j]);
                let sub = subdirs(fs, path)[k];
                if child_cache(cache, sub) is Some {
                    let cached = cache->Some_0;
                    let at = place_of(cached.children, sub);
                    assert(cached.children[at].path == sub);
                }
                lemma_subdir_ranks_below(fs, path, k);
                lemma_scan_nests(fs, sub, child_cache(cache, sub), now);
            }
        }
    }
}

/// At every depth, the totals of the node are those of the files directly in
/// its directory and of its children.
pub open spec fn summed(node: DirTree, fs: Snapshot) -> bool
    decreases node,
{
    &&& fs.entries(node.path) matches Ok(entries) && node.total_size == saturate(
        own_size(entries) + sum_sizes(node.children),
    ) && node.file_count == saturate(own_count(entries) + sum_counts(node.children))
    &&& forall|j: int| 0 <= j < node.children.len() ==> summed(#[trigger] node.children[j], fs)
}

/// A first scan sums up level by level: at every depth, the totals of a node
/// are those of the files directly in its directory and of its children.
pub proof fn lemma_first_scan_sums(fs: Snapshot, path: Seq<char>, now: Timestamp)
    requires
        fs.wf(),
    ensures
        scan(fs, path, None, now) matches Ok(node) ==> summed(node, fs),
    decreases fs.rank(path),
{
    if scan(fs, path, None, now) is Ok {
        let node = scan(fs, path, None, now)->Ok_0;
        assert(scan(fs, path, None, now) == rescanned(fs, path, None, now));
        lemma_totals_are_own_and_children(fs, path, None, now);
        let n = subdirs(fs, path).len();
        let results = scanned_upto(fs, path, None, now, n);
        lemma_scanned_upto(fs, path, None, now, n);
        lemma_merged_upto(results, n);
        assert(node.children == merged_upto(results, n));
        assert forall|j: int| 0 <= j < node.children.len() implies summed(
            #[trigger] node.children[j],
            fs,
        ) by {
            assert(among(results, n, node.children[j]));
            let k = choose|k: int|
                0 <= k < n && k < results.len() && #[trigger] results[k] == Ok::<
                    DirTree,
                    IoFailure,
                >(node.children[j]);
            let sub = subdirs(fs, path)[k];
            assert(child_cache(None, sub) is None);
            lemma_subdir_ranks_below(fs, path, k);
            lemma_first_scan_sums(fs, sub, now);
        }
    }
}

/// Every node that the store keeps has the path that it is kept under, and
/// below it every node has the path of the node above it and one more name.
pub open spec fn canonical_roots(roots: Map<Seq<char>, DirTree>) -> bool {
    forall|key: Seq<char>| #[trigger]
        roots.contains_key(key) ==> roots[key].path == key && nested(roots[key])
}

/// A scan through the store keeps every path canonical: where the store
/// holds canonical roots before, it holds canonical roots after, and what the
/// scan stored for the directory bears the canonical path of the directory.
pub proof fn lemma_scan_keeps_paths_canonical(
    before: DiskUse,
    after: DiskUse,
    result: Result<u64, IoFailure>,
    path: Seq<char>,
    canonical: Option<String>,
    fs: Snapshot,
    now: Timestamp,
    ignore_cache: bool,
)
    requires
        fs.wf(),
        canonical_roots(before.store().roots()),
        scan_outcome(before, after, result, path, canonical, fs, now, ignore_cache),
    ensures
        canonical_roots(after.store().roots()),
        result is Ok && !ignore_cache ==> after.store().roots().contains_key(
            key_of(path, canonical),
        ) && after.store().roots()[key_of(path, canonical)].path == key_of(path, canonical),
{
    let key = key_of(path, canonical);
    lemma_scan_nests(fs, key, cached_entry(before.store().roots(), key, ignore_cache), now);
}

/// No node below `node`, at any depth, bears a later time of scan than the
/// node above it.
pub open spec fn times_ordered(node: DirTree) -> bool
    decreases node,
{
    forall|i: int|
        0 <= i < node.children.len() ==> (#[trigger] node.children[i]).last_scan.nanos
            <= node.last_scan.nanos && times_ordered(node.children[i])
}

/// A directory is never scanned before what lies below it: where the cached
/// node has its times in order and none of them is later than the time of
/// the scan, the node that the scan gives has its times in order and none of
/// them later than the time of the scan.
pub proof fn lemma_scan_orders_times(
    fs: Snapshot,
    path: Seq<char>,
    cache: Option<DirTree>,
    now: Timestamp,
)
    requires
        fs.wf(),
        cache matches Some(cached) ==> times_ordered(cached) && cached.last_scan.nanos
            <= now.nanos,
    ensures
        scan(fs, path, cache, now) matches Ok(node) ==> times_ordered(node)
            && node.last_scan.nanos <= now.nanos,
    decreases fs.rank(path),
{
    if scan(fs, path, cache, now) is Ok {
        let node = scan(fs, path, cache, now)->Ok_0;
        if cache is Some && still_valid(fs, path, cache->Some_0) {
        } else {
            assert(scan(fs, path, cache, now) == rescanned(fs, path, cache, now));
            let n = subdirs(fs, path).len();
            let results = scanned_upto(fs, path, cache, now, n);
            lemma_scanned_upto(fs, path, cache, now, n);
            lemma_merged_upto(results, n);
            assert(node.children == merged_upto(results, n));
            assert forall|j: int| 0 <= j < node.children.len() implies (
            #[trigger] node.children[j]).last_scan.nanos <= node.last_scan.nanos
                && times_ordered(node.children[j]) by {
                assert(among(results, n, node.children[j]));
                let k = choose|k: int|
                    0 <= k < n && k < results.len() && #[trigger] results[k] == Ok::<
                        DirTree,
                        IoFailure,
                    >(node.children[j]);
                let sub = subdirs(fs, path)[k];
                if child_cache(cache, sub) is Some {
                    let cached = cache->Some_0;
                    let at = place_of(cached.children, sub);
                    assert(cached.children[at].path == sub);
                }
                lemma_subdir_ranks_below(fs, path, k);
                lemma_scan_orders_times(fs, sub, child_cache(cache, sub), now);
            }
        }
    }
}

/// A deletion is found at any depth: where a node is cached, somewhere below
/// the cached node, for a path at which nothing exists any more, the
/// directory is scanned anew. The node that the scan gives bears the time of
/// this scan and holds no node for a path at which nothing exists.
pub proof fn lemma_deletion_is_found(
    fs: Snapshot,
    path: Seq<char>,
    cached: DirTree,
    now: Timestamp,
)
    requires
        fs.wf(),
        has_deletions(cached, fs),
    ensures
        scan(fs, path, Some(cached), now) == rescanned(fs, path, Some(cached), now),
        scan(fs, path, Some(cached), now) matches Ok(node) ==> node.last_scan == now && node.path
            == path && !has_deletions(node, fs),
{
    lemma_scan_keeps_no_deleted(fs, path, Some(cached), now);
}

/// The directory at `path` lists `below` as a directory.
pub open spec fn lists_dir(fs: Snapshot, path: Seq<char>, below: Seq<char>) -> bool {
    fs.entries(path) matches Ok(entries) && exists|i: int|
        0 <= i < entries.len() && is_dir(#[trigger] entries[i]) && entries[i]->Ok_0.path@ == below
}

/// Somewhere down the cached tree a directory was modified after the scan
/// that its node records. `descent` leads there from `cached`: each of its
/// numbers picks a child of the node before, and the filesystem still lists
/// each of these children as a directory of the one before. The directory at
/// the end has a modification time that is later than the scan of its node,
/// or none that can be read.
pub open spec fn modified_below(
    fs: Snapshot,
    path: Seq<char>,
    cached: DirTree,
    descent: Seq<int>,
) -> bool
    decreases descent.len(),
{
    if descent.len() == 0 {
        !(fs.mtime(path) matches Some(mtime) && mtime.nanos <= cached.last_scan.nanos)
    } else {
        let j = descent[0];
        &&& 0 <= j < cached.children.len()
        &&& lists_dir(fs, path, cached.children[j].path)
        &&& modified_below(fs, cached.children[j].path, cached.children[j], descent.drop_first())
    }
}

/// A modification is found at any depth: where a directory down the cached
/// tree was modified after the scan of its node, the directory at the top
/// shows a change.
pub proof fn lemma_modification_is_found(
    fs: Snapshot,
    path: Seq<char>,
    cached: DirTree,
    descent: Seq<int>,
)
    requires
        modified_below(fs, path, cached, descent),
    ensures
        dir_changed(fs, path, cached),
    decreases descent.len(),
{
    if descent.len() > 0 {
        let j = descent[0];
        let child = cached.children[j];
        lemma_modification_is_found(fs, child.path, child, descent.drop_first());
        if fs.mtime(path) matches Some(mtime) && mtime.nanos <= cached.last_scan.nanos {
            let entries = fs.entries(path)->Ok_0;
            let i = choose|i: int|
                0 <= i < entries.len() && is_dir(#[trigger] entries[i]) && entries[i]->Ok_0.path@
                    == child.path;
            assert(cached.children[j].path == entries[i]->Ok_0.path@ && dir_changed(
                fs,
                entries[i]->Ok_0.path@,
                cached.children[j],
            ));
            assert(entry_changed(fs, entries[i], cached));
        }
    }
}

/// A directory that shows a change is scanned anew: the scan is a full scan
/// of the directory, and the node that it gives bears the time of this scan.
pub proof fn lemma_changed_directory_is_rescanned(
    fs: Snapshot,
    path: Seq<char>,
    cached: DirTree,
    now: Timestamp,
)
    requires
        fs.wf(),
        dir_changed(fs, path, cached),
    ensures
        scan(fs, path, Some(cached), now) == rescanned(fs, path, Some(cached), now),
        scan(fs, path, Some(cached), now) matches Ok(node) ==> node.last_scan == now && node.path
            == path,
{
}

/// What was added is found: where a file or a directory was added anywhere
/// down the cached tree, so that the directory it was added to bears a later
/// modification time than the scan of its node, the directory at the top is
/// scanned anew, and its node bears the time of this scan, which is later
/// than that of the cached node where this scan is later than the cached one.
pub proof fn lemma_addition_is_found(
    fs: Snapshot,
    path: Seq<char>,
    cached: DirTree,
    descent: Seq<int>,
    now: Timestamp,
)
    requires
        fs.wf(),
        modified_below(fs, path, cached, descent),
        cached.last_scan.nanos < now.nanos,
    ensures
        scan(fs, path, Some(cached), now) == rescanned(fs, path, Some(cached), now),
        scan(fs, path, Some(cached), now) matches Ok(node) ==> node.last_scan == now
            && node.last_scan.nanos > cached.last_scan.nanos,
{
    lemma_modification_is_found(fs, path, cached, descent);
    lemma_changed_directory_is_rescanned(fs, path, cached, now);
}

/// Wherever a scan of the first `n` subdirectories of `path` would reuse a
/// cached node, the totals of that node are those of the filesystem.
pub open spec fn reuse_is_sound_upto(
    fs: Snapshot,
    path: Seq<char>,
    cache: Option<DirTree>,
    now: Timestamp,
    n: nat,
) -> bool
    decreases fs.rank(path), 0nat, n,
    when fs.wf()
{
    if n == 0 || n > subdirs(fs, path).len() {
        true
    } else {
        let sub = subdirs(fs, path)[n - 1];
        proof {
            lemma_subdir_ranks_below(fs, path, n - 1);
        }
        reuse_is_sound_upto(fs, path, cache, now, (n - 1) as nat) && reuse_is_sound(
            fs,
            sub,
            child_cache(cache, sub),
            now,
        )
    }
}

/// Wherever a scan of `path` with `cache` would reuse a cached node, for the
/// directory itself or for one below it, the totals of that node are those of
/// the filesystem.
pub open spec fn reuse_is_sound(
    fs: Snapshot,
    path: Seq<char>,
    cache: Option<DirTree>,
    now: Timestamp,
) -> bool
    decreases fs.rank(path), 1nat, 0nat,
    when fs.wf()
{
    if cache matches Some(cached) && still_valid(fs, path, cached) {
        accurate(cache->Some_0, fs, path)
    } else {
        reuse_is_sound_upto(fs, path, cache, now, subdirs(fs, path).len())
    }
}

/// Every one of the first `n` subdirectories has sound reuse.
proof fn lemma_reuse_is_sound_upto(
    fs: Snapshot,
    path: Seq<char>,
    cache: Option<DirTree>,
    now: Timestamp,
    n: nat,
    k: int,
)
    requires
        fs.wf(),
        n <= subdirs(fs, path).len(),
        reuse_is_sound_upto(fs, path, cache, now, n),
        0 <= k < n,
    ensures
        reuse_is_sound(
            fs,
            subdirs(fs, path)[k],
            child_cache(cache, subdirs(fs, path)[k]),
            now,
        ),
    decreases n,
{
    if k < n - 1 {
        lemma_reuse_is_sound_upto(fs, path, cache, now, (n - 1) as nat, k);
    }
}

/// The totals of a scan are exact wherever the cached nodes that it reuses
/// are: what is scanned anew is counted file by file, and what is reused is
/// added as it stands.
pub proof fn lemma_scan_is_exact(
    fs: Snapshot,
    path: Seq<char>,
    cache: Option<DirTree>,
    now: Timestamp,
)
    requires
        fs.wf(),
        reuse_is_sound(fs, path, cache, now),
    ensures
        accurate_result(scan(fs, path, cache, now), fs, path),
    decreases fs.rank(path),
{
    if cache is Some && still_valid(fs, path, cache->Some_0) {
    } else {
        assert(scan(fs, path, cache, now) == rescanned(fs, path, cache, now));
        if fs.entries(path) is Ok {
            let n = subdirs(fs, path).len();
            let results = scanned_upto(fs, path, cache, now, n);
            lemma_scanned_upto(fs, path, cache, now, n);
            assert forall|k: int| 0 <= k < n implies accurate_result(
                #[trigger] results[k],
                fs,
                subdirs(fs, path)[k],
            ) by {
                let sub = subdirs(fs, path)[k];
                lemma_subdir_ranks_below(fs, path, k);
                lemma_reuse_is_sound_upto(fs, path, cache, now, n, k);
                lemma_scan_is_exact(fs, sub, child_cache(cache, sub), now);
            }
            lemma_gained_totals(fs, path, results, n);
        }
    }
}

/// A scan that ignores the cache leaves the cache store as it was, and
/// returns the total length of the files that the filesystem holds in the
/// directory, taken at its canonical path, and below it, or the failure of the
/// directory's listing.
pub proof fn lemma_bypass_reflects_filesystem(
    before: DiskUse,
    after: DiskUse,
    result: Result<u64, IoFailure>,
    path: Seq<char>,
    canonical: Option<String>,
    fs: Snapshot,
    now: Timestamp,
)
    requires
        fs.wf(),
        scan_outcome(before, after, result, path, canonical, fs, now, true),
    ensures
        after == before,
        match fs.entries(key_of(path, canonical)) {
            Ok(_) => result == Ok::<u64, IoFailure>(
                saturate(tree_size(fs, key_of(path, canonical))),
            ),
            Err(e) => result == Err::<u64, IoFailure>(e),
        },
{
    lemma_fresh_scan_is_exact(fs, key_of(path, canonical), now);
}

} // verus!
