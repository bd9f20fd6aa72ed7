//! A scan looks at the filesystem in few places: two snapshots that report
//! the same in these places give the same scan.

use crate::invalidation::{dir_changed, entry_changed, has_deletions, lost, still_valid};
use crate::listing::{is_dir, lemma_subdir_ranks_below, subdirs, subdirs_upto, Listed};
use crate::scanner::{
    child_cache, counted, counted_upto, lemma_scanned_upto, rescanned, scan, scanned_upto,
};
use crate::snapshot::{Snapshot, Timestamp};
use crate::tree::{place_of, DirTree};
use vstd::prelude::*;

verus! {

/// The two snapshots report the same about `path`.
pub open spec fn agree_at(part: Snapshot, whole: Snapshot, path: Seq<char>) -> bool {
    &&& part.has(path) == whole.has(path)
    &&& part.has(path) ==> part@[path] == whole@[path]
}

/// The two snapshots report the same about the path of every node below
/// `node`, at any depth.
pub open spec fn agree_below(part: Snapshot, whole: Snapshot, node: DirTree) -> bool
    decreases node,
{
    forall|j: int|
        0 <= j < node.children.len() ==> agree_at(part, whole, (#[trigger] node.children[j]).path)
            && agree_below(part, whole, node.children[j])
}

/// The two snapshots report the same about every directory that a listing in
/// `part` shows.
pub open spec fn agree_on_listed(part: Snapshot, whole: Snapshot) -> bool {
    forall|path: Seq<char>, k: int|
        0 <= k < subdirs(part, path).len() ==> agree_at(
            part,
            whole,
            #[trigger] subdirs(part, path)[k],
        )
}

/// Every directory among the first `n` entries is among the subdirectories.
pub proof fn lemma_dir_is_subdir(entries: Seq<Listed>, n: nat, i: int)
    requires
        n <= entries.len(),
        0 <= i < n,
        is_dir(entries[i]),
    ensures
        exists|k: int|
            0 <= k < subdirs_upto(entries, n).len() && #[trigger] subdirs_upto(entries, n)[k]
                == entries[i]->Ok_0.path@,
    decreases n,
{
    let now = subdirs_upto(entries, n);
    let before = subdirs_upto(entries, (n - 1) as nat);
    if i < n - 1 {
        lemma_dir_is_subdir(entries, (n - 1) as nat, i);
        let k = choose|k: int|
            0 <= k < before.len() && #[trigger] before[k] == entries[i]->Ok_0.path@;
        assert(now[k] == entries[i]->Ok_0.path@);
    } else {
        assert(now[before.len() as int] == entries[i]->Ok_0.path@);
    }
}

/// Snapshots that agree below a node find the same deletions below it.
pub proof fn lemma_deletions_agree(part: Snapshot, whole: Snapshot, node: DirTree)
    requires
        agree_below(part, whole, node),
    ensures
        has_deletions(node, part) == has_deletions(node, whole),
    decreases node,
{
    assert forall|j: int| 0 <= j < node.children.len() implies lost(
        #[trigger] node.children[j],
        part,
    ) == lost(node.children[j], whole) by {
        lemma_deletions_agree(part, whole, node.children[j]);
    }
    if has_deletions(node, part) {
        let j = choose|j: int|
            #![trigger node.children[j]]
            0 <= j < node.children.len() && lost(node.children[j], part);
        assert(lost(node.children[j], whole));
    }
    if has_deletions(node, whole) {
        let j = choose|j: int|
            #![trigger node.children[j]]
            0 <= j < node.children.len() && lost(node.children[j], whole);
        assert(lost(node.children[j], part));
    }
}

/// Snapshots that agree at a directory and at what it lists, level by level,
/// show the same changes since a cached scan.
pub proof fn lemma_changes_agree(
    part: Snapshot,
    whole: Snapshot,
    path: Seq<char>,
    cached: DirTree,
)
    requires
        agree_on_listed(part, whole),
        agree_at(part, whole, path),
    ensures
        dir_changed(part, path, cached) == dir_changed(whole, path, cached),
    decreases cached,
{
    if part.mtime(path) matches Some(mtime) && mtime.nanos <= cached.last_scan.nanos
        && part.entries(path) is Ok {
        let entries = part.entries(path)->Ok_0;
        assert(whole.entries(path) == part.entries(path));
        assert forall|i: int| 0 <= i < entries.len() implies entry_changed(
            part,
            #[trigger] entries[i],
            cached,
        ) == entry_changed(whole, entries[i], cached) by {
            if is_dir(entries[i]) {
                let below = entries[i]->Ok_0.path@;
                lemma_dir_is_subdir(entries, entries.len(), i);
                let k = choose|k: int|
                    0 <= k < subdirs_upto(entries, entries.len()).len() && #[trigger] subdirs_upto(
                        entries,
                        entries.len(),
                    )[k] == below;
                assert(subdirs(part, path)[k] == below);
                assert(agree_at(part, whole, below));
                assert forall|j: int| 0 <= j < cached.children.len() implies dir_changed(
                    part,
                    below,
                    #[trigger] cached.children[j],
                ) == dir_changed(whole, below, cached.children[j]) by {
                    lemma_changes_agree(part, whole, below, cached.children[j]);
                }
                if entry_changed(part, entries[i], cached) && !entry_changed(
                    whole,
                    entries[i],
                    cached,
                ) {
                    let j = choose|j: int|
                        0 <= j < cached.children.len() && (#[trigger] cached.children[j]).path
                            == below && dir_changed(part, below, cached.children[j]);
                    assert(dir_changed(whole, below, cached.children[j]));
                }
                if entry_changed(whole, entries[i], cached) && !entry_changed(
                    part,
                    entries[i],
                    cached,
                ) {
                    let j = choose|j: int|
                        0 <= j < cached.children.len() && (#[trigger] cached.children[j]).path
                            == below && dir_changed(whole, below, cached.children[j]);
                    assert(dir_changed(part, below, cached.children[j]));
                }
            }
        }
        if dir_changed(part, path, cached) {
            let i = choose|i: int|
                #![trigger entries[i]]
                0 <= i < entries.len() && entry_changed(part, entries[i], cached);
            assert(entry_changed(whole, entries[i], cached));
        }
        if dir_changed(whole, path, cached) {
            let i = choose|i: int|
                #![trigger entries[i]]
                0 <= i < entries.len() && entry_changed(whole, entries[i], cached);
            assert(entry_changed(part, entries[i], cached));
        }
    }
}

/// A scan gives the same in two snapshots that report the same about the
/// directory, about every directory that a listing shows, and about the path
/// of every node below the cached node.
pub proof fn lemma_scans_agree(
    part: Snapshot,
    whole: Snapshot,
    path: Seq<char>,
    cache: Option<DirTree>,
    now: Timestamp,
)
    requires
        part.wf(),
        whole.wf(),
        agree_on_listed(part, whole),
        agree_at(part, whole, path),
        cache matches Some(cached) ==> agree_below(part, whole, cached),
    ensures
        scan(part, path, cache, now) == scan(whole, path, cache, now),
    decreases part.rank(path),
{
    if cache is Some {
        lemma_deletions_agree(part, whole, cache->Some_0);
        lemma_changes_agree(part, whole, path, cache->Some_0);
    }
    if cache is Some && still_valid(part, path, cache->Some_0) {
    } else {
        assert(scan(part, path, cache, now) == rescanned(part, path, cache, now));
        assert(scan(whole, path, cache, now) == rescanned(whole, path, cache, now));
        assert(whole.entries(path) == part.entries(path));
        if part.entries(path) is Ok {
            let n = subdirs(part, path).len();
            assert(subdirs(whole, path) == subdirs(part, path));
            let left = scanned_upto(part, path, cache, now, n);
            let right = scanned_upto(whole, path, cache, now, n);
            lemma_scanned_upto(part, path, cache, now, n);
            lemma_scanned_upto(whole, path, cache, now, n);
            assert forall|k: int| 0 <= k < n implies left[k] == right[k] by {
                let sub = subdirs(part, path)[k];
                assert(agree_at(part, whole, sub));
                if child_cache(cache, sub) is Some {
                    let cached = cache->Some_0;
                    let at = place_of(cached.children, sub);
                    assert(agree_below(part, whole, cached.children[at]));
                }
                lemma_subdir_ranks_below(part, path, k);
                lemma_scans_agree(part, whole, sub, child_cache(cache, sub), now);
            }
            assert(left =~= right);
        }
    }
}

/// A count of the first `n` entries gives the same in two snapshots that
/// report the same about the directory and about every directory that a
/// listing shows.
proof fn lemma_counts_agree_upto(part: Snapshot, whole: Snapshot, path: Seq<char>, n: nat)
    requires
        part.wf(),
        whole.wf(),
        agree_on_listed(part, whole),
        agree_at(part, whole, path),
    ensures
        counted_upto(part, path, n) == counted_upto(whole, path, n),
    decreases part.rank(path), 0nat, n,
{
    assert(whole.entries(path) == part.entries(path));
    if n > 0 && part.entries(path) is Ok && n <= part.entries(path)->Ok_0.len() {
        let entries = part.entries(path)->Ok_0;
        lemma_counts_agree_upto(part, whole, path, (n - 1) as nat);
        if is_dir(entries[n - 1]) {
            let below = entries[n - 1]->Ok_0.path@;
            lemma_dir_is_subdir(entries, entries.len(), n - 1);
            let k = choose|k: int|
                0 <= k < subdirs_upto(entries, entries.len()).len() && #[trigger] subdirs_upto(
                    entries,
                    entries.len(),
                )[k] == below;
            assert(subdirs(part, path)[k] == below);
            part.lemma_entry_ranks_below(path, n - 1);
            lemma_counts_agree(part, whole, below);
        }
    }
}

/// A count of files gives the same in two snapshots that report the same
/// about the directory and about every directory that a listing shows.
pub proof fn lemma_counts_agree(part: Snapshot, whole: Snapshot, path: Seq<char>)
    requires
        part.wf(),
        whole.wf(),
        agree_on_listed(part, whole),
        agree_at(part, whole, path),
    ensures
        counted(part, path) == counted(whole, path),
    decreases part.rank(path), 1nat, 0nat,
{
    assert(whole.entries(path) == part.entries(path));
    if part.entries(path) is Ok {
        lemma_counts_agree_upto(part, whole, path, part.entries(path)->Ok_0.len());
    }
}

} // verus!
