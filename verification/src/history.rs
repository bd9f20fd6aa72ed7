//! Two states of one filesystem: what a scan that starts from the node of an
//! earlier scan gives, where what was added to a directory and what files
//! were removed from it shows in the directory's modification time. A
//! subdirectory that was deleted need not show there: it shows in that
//! nothing exists at its path.
//!
//! A cached node is faithful to a state of the filesystem where it records
//! what the directory held in that state, at every depth. A first scan gives
//! a faithful node, and a scan that starts from a faithful node gives a
//! faithful node again, whatever was added and removed in between: the nodes
//! that it reuses are those of subtrees that did not change.

use crate::guarantees::{
    accurate, accurate_result, among, files_below_upto, lemma_gained_totals, lemma_merged_upto,
    lemma_scan_keeps_no_deleted, lemma_subdir_scan_path, size_below_upto, tree_files, tree_size,
};
use crate::invalidation::{dir_changed, entry_changed, has_deletions, lost, still_valid};
use crate::listing::{
    is_dir, lemma_subdir_ranks_below, lemma_subdirs_of_directory, lemma_subdirs_upto, own_count,
    own_size, subdirs, subdirs_upto,
};
use crate::scanner::{
    child_cache, lemma_scanned_upto, merged_upto, rescanned, scan, scanned_upto, Scanned,
};
use crate::snapshot::{IoFailure, Snapshot, Timestamp};
use crate::sums::{lemma_weighted_alike, lemma_weighted_same, weighted};
use crate::tree::{has_path, place_of, with_node, DirTree};
use vstd::prelude::*;

verus! {

/// The directory at `path` can be listed in `later` and was not modified
/// after `time`.
pub open spec fn settled(later: Snapshot, path: Seq<char>, time: Timestamp) -> bool {
    &&& later.entries(path) is Ok
    &&& later.mtime(path) is Some
    &&& later.mtime(path)->Some_0.nanos <= time.nanos
}

/// The directory at `path` lists `below` among its subdirectories.
pub open spec fn lists(fs: Snapshot, path: Seq<char>, below: Seq<char>) -> bool {
    exists|k: int| 0 <= k < subdirs(fs, path).len() && #[trigger] subdirs(fs, path)[k] == below
}

/// The directory at `path` is in `later` as it was in `earlier`, but for
/// subdirectories that were deleted: it could be listed then and holds the
/// same files of its own; every subdirectory that it lists now it listed
/// then; a subdirectory that it listed then and does not list now is gone;
/// and each of its subdirectories that can be listed now could be listed
/// then.
pub open spec fn undisturbed(earlier: Snapshot, later: Snapshot, path: Seq<char>) -> bool {
    &&& earlier.entries(path) is Ok
    &&& later.entries(path) is Ok
    &&& own_size(earlier.entries(path)->Ok_0) == own_size(later.entries(path)->Ok_0)
    &&& own_count(earlier.entries(path)->Ok_0) == own_count(later.entries(path)->Ok_0)
    &&& forall|k: int|
        0 <= k < subdirs(later, path).len() ==> lists(
            earlier,
            path,
            #[trigger] subdirs(later, path)[k],
        )
    &&& forall|k: int|
        0 <= k < subdirs(earlier, path).len() ==> lists(
            later,
            path,
            #[trigger] subdirs(earlier, path)[k],
        ) || !later.has(subdirs(earlier, path)[k])
    &&& forall|k: int|
        0 <= k < subdirs(later, path).len() && later.entries(#[trigger] subdirs(later, path)[k])
            is Ok ==> earlier.entries(subdirs(later, path)[k]) is Ok
}

/// Every change that the filesystem saw between the state `earlier` and the
/// state `later` shows: a directory that was not modified after `time` is as
/// it was, but for subdirectories that were deleted. What was added to a
/// directory, and what files were removed from it, shows in its modification
/// time; a subdirectory that was deleted shows in that nothing exists at its
/// path.
pub open spec fn changes_show(earlier: Snapshot, later: Snapshot, time: Timestamp) -> bool {
    forall|path: Seq<char>|
        #[trigger] settled(later, path, time) ==> undisturbed(earlier, later, path)
}

/// The merge keeps a node under the path of every result that gave one.
pub proof fn lemma_merged_has(results: Seq<Scanned>, n: nat, k: int)
    requires
        n <= results.len(),
        0 <= k < n,
        results[k] is Ok,
    ensures
        has_path(merged_upto(results, n), results[k]->Ok_0.path),
    decreases n,
{
    let path = results[k]->Ok_0.path;
    let before = merged_upto(results, (n - 1) as nat);
    let now = merged_upto(results, n);
    assert(now == match results[n - 1] {
        Ok(node) => with_node(before, node),
        Err(_) => before,
    });
    if k < n - 1 {
        lemma_merged_has(results, (n - 1) as nat, k);
        let j = place_of(before, path);
        assert(before[j].path == path);
        match results[n - 1] {
            Ok(node) => {
                if has_path(before, node.path) {
                    let at = place_of(before, node.path);
                    assert(before[at].path == node.path);
                    assert(now[j].path == path);
                } else {
                    assert(now[j].path == path);
                }
            },
            Err(_) => {},
        }
    } else {
        let node = results[n - 1]->Ok_0;
        if has_path(before, node.path) {
            let at = place_of(before, node.path);
            assert(before[at].path == node.path);
            assert(now[at].path == path);
        } else {
            assert(now[before.len() as int].path == path);
        }
    }
}

/// What the first `n` subdirectories of a directory hold is the sum of what
/// each of them holds.
proof fn lemma_below_is_weighted(fs: Snapshot, path: Seq<char>, n: nat)
    requires
        fs.wf(),
        n <= subdirs(fs, path).len(),
    ensures
        size_below_upto(fs, path, n) == weighted(
            subdirs(fs, path),
            |below: Seq<char>| tree_size(fs, below),
            n,
        ),
        files_below_upto(fs, path, n) == weighted(
            subdirs(fs, path),
            |below: Seq<char>| tree_files(fs, below),
            n,
        ),
    decreases n,
{
    if n > 0 {
        lemma_below_is_weighted(fs, path, (n - 1) as nat);
        assert(size_below_upto(fs, path, n) == size_below_upto(fs, path, (n - 1) as nat)
            + tree_size(fs, subdirs(fs, path)[n - 1]));
        assert(files_below_upto(fs, path, n) == files_below_upto(fs, path, (n - 1) as nat)
            + tree_files(fs, subdirs(fs, path)[n - 1]));
    } else {
        assert(size_below_upto(fs, path, n) == 0);
        assert(files_below_upto(fs, path, n) == 0);
    }
}

/// Where every subdirectory that a directory lists now holds what it held
/// then, and every subdirectory that it lists no more held nothing, the
/// subdirectories hold in sum what they held then.
proof fn lemma_same_below(earlier: Snapshot, later: Snapshot, path: Seq<char>)
    requires
        earlier.wf(),
        later.wf(),
        forall|k: int|
            0 <= k < subdirs(later, path).len() ==> lists(
                earlier,
                path,
                #[trigger] subdirs(later, path)[k],
            ) && tree_size(later, subdirs(later, path)[k]) == tree_size(
                earlier,
                subdirs(later, path)[k],
            ) && tree_files(later, subdirs(later, path)[k]) == tree_files(
                earlier,
                subdirs(later, path)[k],
            ),
        forall|k: int|
            0 <= k < subdirs(earlier, path).len() ==> lists(
                later,
                path,
                #[trigger] subdirs(earlier, path)[k],
            ) || (tree_size(earlier, subdirs(earlier, path)[k]) == 0 && tree_files(
                earlier,
                subdirs(earlier, path)[k],
            ) == 0),
    ensures
        size_below_upto(later, path, subdirs(later, path).len()) == size_below_upto(
            earlier,
            path,
            subdirs(earlier, path).len(),
        ),
        files_below_upto(later, path, subdirs(later, path).len()) == files_below_upto(
            earlier,
            path,
            subdirs(earlier, path).len(),
        ),
{
    let all = subdirs(earlier, path);
    let some = subdirs(later, path);
    lemma_subdirs_of_directory(earlier, path);
    lemma_subdirs_of_directory(later, path);
    lemma_below_is_weighted(earlier, path, all.len());
    lemma_below_is_weighted(later, path, some.len());
    let size_then = |below: Seq<char>| tree_size(earlier, below);
    let size_now = |below: Seq<char>| tree_size(later, below);
    let files_then = |below: Seq<char>| tree_files(earlier, below);
    let files_now = |below: Seq<char>| tree_files(later, below);
    assert forall|i: int| 0 <= i < some.len() implies all.contains(#[trigger] some[i]) by {
        assert(lists(earlier, path, some[i]));
        let k = choose|k: int| 0 <= k < all.len() && #[trigger] all[k] == some[i];
        assert(all[k] == some[i]);
    }
    assert forall|i: int| 0 <= i < all.len() implies (some.contains(#[trigger] all[i])
        || size_then(all[i]) == 0) && (some.contains(all[i]) || files_then(all[i]) == 0) by {
        if lists(later, path, all[i]) {
            let k = choose|k: int| 0 <= k < some.len() && #[trigger] some[k] == all[i];
            assert(some[k] == all[i]);
        }
    }
    lemma_weighted_same(all, some, size_then);
    lemma_weighted_same(all, some, files_then);
    lemma_weighted_alike(some, size_now, size_then, some.len());
    lemma_weighted_alike(some, files_now, files_then, some.len());
}

/// The node is a true record of the directory at `path` in the state `fs`,
/// made not later than `time`: the directory can be listed, the totals of the
/// node are those of the files in and below the directory, the node keeps a
/// child for every subdirectory that can be listed, and each of its children
/// is a true record of a subdirectory that the directory lists.
pub open spec fn faithful(node: DirTree, fs: Snapshot, path: Seq<char>, time: Timestamp) -> bool
    decreases node,
{
    &&& fs.entries(path) is Ok
    &&& accurate(node, fs, path)
    &&& node.last_scan.nanos <= time.nanos
    &&& forall|k: int|
        0 <= k < subdirs(fs, path).len() && fs.entries(#[trigger] subdirs(fs, path)[k]) is Ok
            ==> has_path(node.children, subdirs(fs, path)[k])
    &&& forall|j: int|
        0 <= j < node.children.len() ==> lists(fs, path, (#[trigger] node.children[j]).path)
            && faithful(node.children[j], fs, node.children[j].path, time)
}

/// A record made not later than one time is made not later than any later
/// time.
pub proof fn lemma_faithful_later(
    node: DirTree,
    fs: Snapshot,
    path: Seq<char>,
    time: Timestamp,
    later: Timestamp,
)
    requires
        faithful(node, fs, path, time),
        time.nanos <= later.nanos,
    ensures
        faithful(node, fs, path, later),
    decreases node,
{
    assert forall|j: int| 0 <= j < node.children.len() implies lists(
        fs,
        path,
        (#[trigger] node.children[j]).path,
    ) && faithful(node.children[j], fs, node.children[j].path, later) by {
        lemma_faithful_later(node.children[j], fs, node.children[j].path, time, later);
    }
}

/// A node that is still valid stands for a subtree that is as it was: where a
/// node that is faithful to the state `earlier` is still valid in the state
/// `later`, the directory holds in `later` the files that it held in
/// `earlier`, in total length and in number, and the node is faithful to
/// `later` as well.
pub proof fn lemma_valid_node_stays_faithful(
    earlier: Snapshot,
    later: Snapshot,
    path: Seq<char>,
    node: DirTree,
    time: Timestamp,
)
    requires
        earlier.wf(),
        later.wf(),
        changes_show(earlier, later, time),
        faithful(node, earlier, path, time),
        still_valid(later, path, node),
    ensures
        tree_size(later, path) == tree_size(earlier, path),
        tree_files(later, path) == tree_files(earlier, path),
        faithful(node, later, path, time),
    decreases node,
{
    assert(settled(later, path, time));
    assert(undisturbed(earlier, later, path));
    let after = later.entries(path)->Ok_0;
    assert forall|j: int| 0 <= j < node.children.len() implies lists(
        later,
        path,
        (#[trigger] node.children[j]).path,
    ) && faithful(node.children[j], later, node.children[j].path, time) && tree_size(
        later,
        node.children[j].path,
    ) == tree_size(earlier, node.children[j].path) && tree_files(later, node.children[j].path)
        == tree_files(earlier, node.children[j].path) by {
        let child = node.children[j];
        assert(lists(earlier, path, child.path));
        let then = choose|k: int|
            0 <= k < subdirs(earlier, path).len() && #[trigger] subdirs(earlier, path)[k]
                == child.path;
        assert(!lost(node.children[j], later));
        assert(lists(later, path, subdirs(earlier, path)[then]));
        let k = choose|k: int|
            0 <= k < subdirs(later, path).len() && #[trigger] subdirs(later, path)[k]
                == child.path;
        lemma_subdirs_upto(after, after.len(), k);
        let i = choose|i: int|
            #![trigger after[i]]
            0 <= i < after.len() && is_dir(after[i]) && after[i]->Ok_0.path@ == subdirs_upto(
                after,
                after.len(),
            )[k];
        assert(!entry_changed(later, after[i], node));
        assert(!dir_changed(later, child.path, node.children[j]));
        lemma_valid_node_stays_faithful(earlier, later, child.path, child, time);
    }
    assert forall|k: int| 0 <= k < subdirs(later, path).len() implies lists(
        earlier,
        path,
        #[trigger] subdirs(later, path)[k],
    ) && tree_size(later, subdirs(later, path)[k]) == tree_size(earlier, subdirs(later, path)[k])
        && tree_files(later, subdirs(later, path)[k]) == tree_files(
        earlier,
        subdirs(later, path)[k],
    ) && (later.entries(subdirs(later, path)[k]) is Ok ==> has_path(
        node.children,
        subdirs(later, path)[k],
    )) by {
        let sub = subdirs(later, path)[k];
        assert(lists(earlier, path, sub));
        let then = choose|then: int|
            0 <= then < subdirs(earlier, path).len() && #[trigger] subdirs(earlier, path)[then]
                == sub;
        if earlier.entries(sub) is Ok {
            assert(has_path(node.children, subdirs(earlier, path)[then]));
            let j = place_of(node.children, sub);
            assert(node.children[j].path == sub);
        } else {
            assert(!(later.entries(sub) is Ok));
        }
    }
    assert forall|k: int| 0 <= k < subdirs(earlier, path).len() implies lists(
        later,
        path,
        #[trigger] subdirs(earlier, path)[k],
    ) || (tree_size(earlier, subdirs(earlier, path)[k]) == 0 && tree_files(
        earlier,
        subdirs(earlier, path)[k],
    ) == 0) by {
        let sub = subdirs(earlier, path)[k];
        if !lists(later, path, sub) && earlier.entries(sub) is Ok {
            assert(has_path(node.children, sub));
            let j = place_of(node.children, sub);
            assert(node.children[j].path == sub);
            assert(!lost(node.children[j], later));
        }
    }
    lemma_same_below(earlier, later, path);
}

/// A scan gives a faithful node: where the cached node, if there is one, is
/// faithful to the state `earlier`, and every change to a directory since
/// shows in the directory's modification time, the node that a scan in the
/// state `later` gives is faithful to `later`. Files may have been added and
/// removed, and directories created and deleted, at any depth.
pub proof fn lemma_scan_is_faithful(
    earlier: Snapshot,
    later: Snapshot,
    path: Seq<char>,
    cache: Option<DirTree>,
    time: Timestamp,
    now: Timestamp,
)
    requires
        earlier.wf(),
        later.wf(),
        changes_show(earlier, later, time),
        time.nanos <= now.nanos,
        cache matches Some(cached) ==> faithful(cached, earlier, path, time),
    ensures
        scan(later, path, cache, now) matches Ok(node) ==> faithful(node, later, path, now),
        scan(later, path, cache, now) is Err ==> !(later.entries(path) is Ok),
    decreases later.rank(path),
{
    if cache is Some && still_valid(later, path, cache->Some_0) {
        lemma_valid_node_stays_faithful(earlier, later, path, cache->Some_0, time);
        lemma_faithful_later(cache->Some_0, later, path, time, now);
    } else {
        assert(scan(later, path, cache, now) == rescanned(later, path, cache, now));
        if later.entries(path) is Ok {
            let node = scan(later, path, cache, now)->Ok_0;
            let n = subdirs(later, path).len();
            let results = scanned_upto(later, path, cache, now, n);
            lemma_scanned_upto(later, path, cache, now, n);
            lemma_merged_upto(results, n);
            assert(node.children == merged_upto(results, n));
            assert forall|k: int| 0 <= k < n implies (results[k] matches Ok(child) ==> faithful(
                child,
                later,
                subdirs(later, path)[k],
                now,
            ) && child.path == subdirs(later, path)[k]) && (results[k] is Err ==> !(later.entries(
                subdirs(later, path)[k],
            ) is Ok)) && accurate_result(#[trigger] results[k], later, subdirs(later, path)[k]) by {
                let sub = subdirs(later, path)[k];
                if child_cache(cache, sub) is Some {
                    let cached = cache->Some_0;
                    let at = place_of(cached.children, sub);
                    assert(cached.children[at].path == sub);
                }
                lemma_subdir_ranks_below(later, path, k);
                lemma_scan_is_faithful(earlier, later, sub, child_cache(cache, sub), time, now);
                lemma_subdir_scan_path(later, sub, cache, now);
            }
            lemma_gained_totals(later, path, results, n);
            assert forall|k: int|
                0 <= k < n && later.entries(#[trigger] subdirs(later, path)[k])
                    is Ok implies has_path(node.children, subdirs(later, path)[k]) by {
                assert(results[k] is Ok);
                lemma_merged_has(results, n, k);
            }
            assert forall|j: int| 0 <= j < node.children.len() implies lists(
                later,
                path,
                (#[trigger] node.children[j]).path,
            ) && faithful(node.children[j], later, node.children[j].path, now) by {
                assert(among(results, n, node.children[j]));
                let k = choose|k: int|
                    0 <= k < n && k < results.len() && #[trigger] results[k] == Ok::<
                        DirTree,
                        IoFailure,
                    >(node.children[j]);
                assert(subdirs(later, path)[k] == node.children[j].path);
            }
        }
    }
}

/// Nothing changes between a state of the filesystem and itself.
pub proof fn lemma_no_changes(fs: Snapshot, time: Timestamp)
    ensures
        changes_show(fs, fs, time),
{
    assert forall|path: Seq<char>| #[trigger] settled(fs, path, time) implies undisturbed(
        fs,
        fs,
        path,
    ) by {
        assert forall|k: int| 0 <= k < subdirs(fs, path).len() implies lists(
            fs,
            path,
            #[trigger] subdirs(fs, path)[k],
        ) by {}
    }
}

/// A first scan gives a faithful node.
pub proof fn lemma_first_scan_is_faithful(fs: Snapshot, path: Seq<char>, now: Timestamp)
    requires
        fs.wf(),
    ensures
        scan(fs, path, None, now) matches Ok(node) ==> faithful(node, fs, path, now),
{
    lemma_no_changes(fs, now);
    lemma_scan_is_faithful(fs, fs, path, None, now, now);
}

/// A scan with the cache gives exact totals after any changes: where the
/// cached node is faithful to the state `earlier`, and every change to a
/// directory since shows in the directory's modification time, the totals of
/// the node that a scan in the state `later` gives are the total length and
/// the number of the files that the directory holds in `later`.
pub proof fn lemma_cached_scan_is_exact(
    earlier: Snapshot,
    later: Snapshot,
    path: Seq<char>,
    cached: DirTree,
    time: Timestamp,
    now: Timestamp,
)
    requires
        earlier.wf(),
        later.wf(),
        changes_show(earlier, later, time),
        time.nanos <= now.nanos,
        faithful(cached, earlier, path, time),
    ensures
        accurate_result(scan(later, path, Some(cached), now), later, path),
{
    lemma_scan_is_faithful(earlier, later, path, Some(cached), time, now);
}

/// Between the state `earlier` and the state `later` only deletions
/// happened: every directory that can be listed now could be listed then;
/// where files were removed from it, it was modified after `time` or its
/// modification time cannot be read; it lists no subdirectory that it did not
/// list then; a subdirectory that it lists no more is gone; and each of its
/// subdirectories that can be listed now could be listed then.
pub open spec fn only_deletions(earlier: Snapshot, later: Snapshot, time: Timestamp) -> bool {
    forall|path: Seq<char>| #[trigger]
        later.entries(path) is Ok ==> {
            &&& earlier.entries(path) is Ok
            &&& settled(later, path, time) ==> own_size(earlier.entries(path)->Ok_0) == own_size(
                later.entries(path)->Ok_0,
            ) && own_count(earlier.entries(path)->Ok_0) == own_count(later.entries(path)->Ok_0)
            &&& forall|k: int|
                0 <= k < subdirs(later, path).len() ==> lists(
                    earlier,
                    path,
                    #[trigger] subdirs(later, path)[k],
                )
            &&& forall|k: int|
                0 <= k < subdirs(earlier, path).len() ==> lists(
                    later,
                    path,
                    #[trigger] subdirs(earlier, path)[k],
                ) || !later.has(subdirs(earlier, path)[k])
        }
}

/// Deletions are found and the totals follow, at every depth: where the
/// cached node is faithful to the state `earlier`, and since then files,
/// whole subdirectories and deeply nested subdirectories were deleted and
/// nothing else happened, a scan of a directory that can be listed gives a
/// node that is faithful to the state `later`, so that every node in it, at
/// every depth, has the totals of the files that are left below it, and
/// that holds no node for a directory that is gone.
pub proof fn lemma_scan_after_deletions(
    earlier: Snapshot,
    later: Snapshot,
    path: Seq<char>,
    cached: DirTree,
    time: Timestamp,
    now: Timestamp,
)
    requires
        earlier.wf(),
        later.wf(),
        only_deletions(earlier, later, time),
        time.nanos <= now.nanos,
        faithful(cached, earlier, path, time),
        later.entries(path) is Ok,
    ensures
        scan(later, path, Some(cached), now) matches Ok(node) && faithful(node, later, path, now)
            && !has_deletions(node, later),
{
    assert forall|dir: Seq<char>| #[trigger] settled(later, dir, time) implies undisturbed(
        earlier,
        later,
        dir,
    ) by {
        assert(later.entries(dir) is Ok);
        assert forall|k: int|
            0 <= k < subdirs(later, dir).len() && later.entries(#[trigger] subdirs(later, dir)[k])
                is Ok implies earlier.entries(subdirs(later, dir)[k]) is Ok by {
            let below = subdirs(later, dir)[k];
            assert(later.entries(below) is Ok);
        }
    }
    lemma_scan_is_faithful(earlier, later, path, Some(cached), time, now);
    lemma_scan_keeps_no_deleted(later, path, Some(cached), now);
}

} // verus!
