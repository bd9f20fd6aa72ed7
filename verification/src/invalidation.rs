//! Deciding whether a cached node can still be trusted: pruning the nodes of
//! directories that were deleted, and looking for modifications since the
//! cached scan.

use crate::listing::{is_dir, own_files, own_totals, saturate, Listed};
use crate::snapshot::{EntryKind, IoFailure, Snapshot, Timestamp};
use crate::tree::{distinct_paths, lemma_views, place_of, views, DirStat, DirTree};
use vstd::prelude::*;

verus! {

/// The total size of the first `n` of `nodes`.
pub open spec fn sum_sizes_upto(nodes: Seq<DirTree>, n: nat) -> nat
    decreases n,
{
    if n == 0 || n > nodes.len() {
        0
    } else {
        sum_sizes_upto(nodes, (n - 1) as nat) + nodes[n - 1].total_size as nat
    }
}

/// The total file count of the first `n` of `nodes`.
pub open spec fn sum_counts_upto(nodes: Seq<DirTree>, n: nat) -> nat
    decreases n,
{
    if n == 0 || n > nodes.len() {
        0
    } else {
        sum_counts_upto(nodes, (n - 1) as nat) + nodes[n - 1].file_count as nat
    }
}

/// The total size of `nodes`.
pub open spec fn sum_sizes(nodes: Seq<DirTree>) -> nat {
    sum_sizes_upto(nodes, nodes.len())
}

/// The total file count of `nodes`.
pub open spec fn sum_counts(nodes: Seq<DirTree>) -> nat {
    sum_counts_upto(nodes, nodes.len())
}

/// The node is gone from the filesystem, or something below it is.
pub open spec fn lost(node: DirTree, fs: Snapshot) -> bool
    decreases node, 1nat,
{
    !fs.has(node.path) || has_deletions(node, fs)
}

/// Somewhere below `cached`, at any depth, a node is kept for a path at which
/// nothing exists any more.
pub open spec fn has_deletions(cached: DirTree, fs: Snapshot) -> bool
    decreases cached, 0nat,
{
    exists|i: int|
        #![trigger cached.children[i]]
        0 <= i < cached.children.len() && lost(cached.children[i], fs)
}

/// The children among the first `n` of `cached` whose paths still exist, each
/// pruned in turn.
pub open spec fn pruned_upto(cached: DirTree, fs: Snapshot, n: nat) -> Seq<DirTree>
    decreases cached, n,
{
    if n == 0 || n > cached.children.len() {
        Seq::empty()
    } else {
        let before = pruned_upto(cached, fs, (n - 1) as nat);
        let child = cached.children[n - 1];
        if fs.has(child.path) {
            before.push(pruned(child, fs))
        } else {
            before
        }
    }
}

/// `cached` without the nodes, at any depth, whose paths no longer exist. The
/// totals stay as they were.
pub open spec fn pruned(cached: DirTree, fs: Snapshot) -> DirTree
    decreases cached, cached.children.len() + 1,
{
    cached.with_children(pruned_upto(cached, fs, cached.children.len()))
}

/// The time is there and strictly later than `since`.
pub open spec fn newer(time: Option<Timestamp>, since: Timestamp) -> bool {
    time matches Some(t) && t.nanos > since.nanos
}

/// The entry is a directory that shows a change since `cached` was scanned:
/// it was modified later, or `cached` keeps a node for it and that node has
/// changed.
pub open spec fn entry_changed(fs: Snapshot, entry: Listed, cached: DirTree) -> bool
    decreases cached, 0nat,
{
    is_dir(entry) && (newer(entry->Ok_0.meta->Ok_0.modified, cached.last_scan) || exists|j: int|
        0 <= j < cached.children.len() && (#[trigger] cached.children[j]).path
            == entry->Ok_0.path@ && dir_changed(fs, entry->Ok_0.path@, cached.children[j]))
}

/// The directory at `path` shows a change since `cached` was scanned: its
/// modification time cannot be read or is later than the scan, its listing
/// cannot be read, or one of its subdirectories shows a change.
pub open spec fn dir_changed(fs: Snapshot, path: Seq<char>, cached: DirTree) -> bool
    decreases cached, 1nat,
{
    match fs.mtime(path) {
        None => true,
        Some(mtime) => mtime.nanos > cached.last_scan.nanos || match fs.entries(path) {
            Err(_) => true,
            Ok(entries) => exists|i: int|
                #![trigger entries[i]]
                0 <= i < entries.len() && entry_changed(fs, entries[i], cached),
        },
    }
}

/// The cached node can be trusted as it stands: nothing was deleted below it,
/// and the directory at `path` shows no change since it was scanned.
pub open spec fn still_valid(fs: Snapshot, path: Seq<char>, cached: DirTree) -> bool {
    !has_deletions(cached, fs) && !dir_changed(fs, path, cached)
}

/// The cached node after the pruning pass. Where nothing was deleted below
/// it, it is the node itself. Where something was, the deleted nodes are
/// gone, the totals are those of the remaining children and of the files now
/// directly under `path`, and the time of the scan is `now`.
pub open spec fn reconciled(cached: DirTree, fs: Snapshot, path: Seq<char>, now: Timestamp)
    -> DirTree {
    let kept = pruned(cached, fs);
    if has_deletions(cached, fs) {
        DirTree {
            path: kept.path,
            total_size: saturate(sum_sizes(kept.children) + own_files(fs, path).0),
            file_count: saturate(sum_counts(kept.children) + own_files(fs, path).1),
            last_scan: now,
            children: kept.children,
        }
    } else {
        kept
    }
}

/// `node` is what pruning makes of one of the children of `cached` from the
/// place `from` up to the place `n`, one whose path still exists.
pub open spec fn survivor(cached: DirTree, fs: Snapshot, from: int, n: nat, node: DirTree) -> bool {
    exists|k: int|
        #![trigger cached.children[k]]
        from <= k < n && k < cached.children.len() && fs.has(cached.children[k].path) && node
            == pruned(cached.children[k], fs)
}

/// Each pruned child is what pruning makes of one of the first `n` children,
/// whose path still exists, and the pruned children come in the order of the
/// children.
pub proof fn lemma_pruned_upto(cached: DirTree, fs: Snapshot, n: nat)
    requires
        n <= cached.children.len(),
    ensures
        pruned_upto(cached, fs, n).len() <= n,
        forall|j: int|
            0 <= j < pruned_upto(cached, fs, n).len() ==> survivor(
                cached,
                fs,
                j,
                n,
                #[trigger] pruned_upto(cached, fs, n)[j],
            ),
    decreases n,
{
    let now = pruned_upto(cached, fs, n);
    if n > 0 {
        let before = pruned_upto(cached, fs, (n - 1) as nat);
        let child = cached.children[n - 1];
        lemma_pruned_upto(cached, fs, (n - 1) as nat);
        assert(now == if fs.has(child.path) {
            before.push(pruned(child, fs))
        } else {
            before
        });
        assert forall|j: int| 0 <= j < now.len() implies survivor(
            cached,
            fs,
            j,
            n,
            #[trigger] now[j],
        ) by {
            if j < before.len() {
                assert(survivor(cached, fs, j, (n - 1) as nat, before[j]));
                let k = choose|k: int|
                    #![trigger cached.children[k]]
                    j <= k < n - 1 && k < cached.children.len() && fs.has(
                        cached.children[k].path,
                    ) && before[j] == pruned(cached.children[k], fs);
                assert(fs.has(cached.children[k].path) && now[j] == pruned(
                    cached.children[k],
                    fs,
                ));
            } else {
                assert(fs.has(cached.children[n - 1].path) && now[j] == pruned(
                    cached.children[n - 1],
                    fs,
                ));
            }
        }
    } else {
        assert(now == Seq::<DirTree>::empty());
    }
}

/// Pruning keeps a node's path, totals and time, and keeps it well-formed.
pub proof fn lemma_pruned(cached: DirTree, fs: Snapshot)
    requires
        cached.wf(),
    ensures
        pruned(cached, fs).wf(),
        pruned(cached, fs).path == cached.path,
        pruned(cached, fs).total_size == cached.total_size,
        pruned(cached, fs).file_count == cached.file_count,
        pruned(cached, fs).last_scan == cached.last_scan,
    decreases cached,
{
    let n = cached.children.len();
    let kept = pruned_upto(cached, fs, n);
    lemma_pruned_upto(cached, fs, n);
    assert forall|j: int| 0 <= j < kept.len() implies (#[trigger] kept[j]).wf() by {
        assert(survivor(cached, fs, j, n, kept[j]));
        let k = choose|k: int|
            #![trigger cached.children[k]]
            j <= k < n && k < cached.children.len() && fs.has(cached.children[k].path)
                && kept[j] == pruned(cached.children[k], fs);
        assert(cached.children[k].wf());
        lemma_pruned(cached.children[k], fs);
    }
    lemma_pruned_distinct(cached, fs, n);
}

/// Pruned children of distinct paths have distinct paths.
proof fn lemma_pruned_distinct(cached: DirTree, fs: Snapshot, n: nat)
    requires
        n <= cached.children.len(),
        distinct_paths(cached.children),
    ensures
        distinct_paths(pruned_upto(cached, fs, n)),
    decreases n,
{
    let now = pruned_upto(cached, fs, n);
    if n > 0 {
        let before = pruned_upto(cached, fs, (n - 1) as nat);
        let child = cached.children[n - 1];
        lemma_pruned_distinct(cached, fs, (n - 1) as nat);
        lemma_pruned_upto(cached, fs, (n - 1) as nat);
        assert(now == if fs.has(child.path) {
            before.push(pruned(child, fs))
        } else {
            before
        });
        assert forall|i: int, j: int| 0 <= i < j < now.len() implies #[trigger] now[i].path
            != #[trigger] now[j].path by {
            if j == before.len() {
                assert(survivor(cached, fs, i, (n - 1) as nat, before[i]));
                let k = choose|k: int|
                    #![trigger cached.children[k]]
                    i <= k < n - 1 && k < cached.children.len() && fs.has(
                        cached.children[k].path,
                    ) && before[i] == pruned(cached.children[k], fs);
                assert(cached.children[k].path != cached.children[n - 1].path);
            } else {
                assert(before[i].path != before[j].path);
            }
        }
    } else {
        assert(now == Seq::<DirTree>::empty());
    }
}

/// Where nothing was deleted below a node, pruning leaves it as it is.
pub proof fn lemma_nothing_to_prune(cached: DirTree, fs: Snapshot)
    requires
        !has_deletions(cached, fs),
    ensures
        pruned(cached, fs) == cached,
    decreases cached,
{
    lemma_nothing_to_prune_upto(cached, fs, cached.children.len());
    assert(cached.children.take(cached.children.len() as int) =~= cached.children);
}

/// Where nothing was deleted below a node, its first `n` children stay.
proof fn lemma_nothing_to_prune_upto(cached: DirTree, fs: Snapshot, n: nat)
    requires
        !has_deletions(cached, fs),
        n <= cached.children.len(),
    ensures
        pruned_upto(cached, fs, n) == cached.children.take(n as int),
    decreases cached, n,
{
    if n > 0 {
        let child = cached.children[n - 1];
        assert(!lost(child, fs));
        lemma_nothing_to_prune_upto(cached, fs, (n - 1) as nat);
        lemma_nothing_to_prune(child, fs);
        assert(pruned_upto(cached, fs, n) == pruned_upto(cached, fs, (n - 1) as nat).push(
            pruned(child, fs),
        ));
        assert(cached.children.take(n as int) =~= cached.children.take(n - 1).push(child));
    } else {
        assert(pruned_upto(cached, fs, n) == Seq::<DirTree>::empty());
        assert(cached.children.take(n as int) =~= Seq::<DirTree>::empty());
    }
}

/// Prunes the nodes of deleted directories from the cached tree, at every
/// depth: a child is removed where nothing exists at its path any more, and
/// pruned in turn where its path still exists. The totals are left as they
/// were. Returns whether anything was removed.
pub fn prune_deleted_dirs(cached: &mut DirStat, fs: &Snapshot) -> (found_deletions: bool)
    requires
        old(cached).wf(),
    ensures
        final(cached)@ == pruned(old(cached)@, *fs),
        final(cached).wf(),
        found_deletions == has_deletions(old(cached)@, *fs),
    decreases old(cached)@,
{
    let ghost before = cached@;
    let children = cached.take_children();
    let mut kept: Vec<DirStat> = Vec::new();
    let mut found_deletions = false;
    let ghost all = children@;
    proof {
        lemma_views(all);
        lemma_views(kept@);
        assert(views(kept@) =~= pruned_upto(before, *fs, 0));
    }
    for child in it: children
        invariant
            before.wf(),
            before == old(cached)@,
            all.len() == before.children.len(),
            views(all) == before.children,
            forall|k: int| 0 <= k < all.len() ==> (#[trigger] all[k]).wf(),
            it.seq() == all,
            views(kept@) == pruned_upto(before, *fs, it.index() as nat),
            forall|k: int| 0 <= k < kept@.len() ==> (#[trigger] kept@[k]).wf(),
            found_deletions == exists|k: int|
                #![trigger before.children[k]]
                0 <= k < it.index() && lost(before.children[k], *fs),
    {
        let ghost i = it.index();
        let ghost old_kept = kept@;
        let mut child = child;
        proof {
            lemma_views(all);
            assert(child == all[i]);
            assert(child@ == before.children[i]);
        }
        if fs.contains(child.path()) {
            let below = prune_deleted_dirs(&mut child, fs);
            if below {
                found_deletions = true;
            }
            kept.push(child);
            proof {
                lemma_views(old_kept);
                lemma_views(kept@);
                assert(views(kept@) =~= views(old_kept).push(pruned(before.children[i], *fs)));
            }
        } else {
            found_deletions = true;
        }
        proof {
            assert(pruned_upto(before, *fs, (i + 1) as nat) == if fs.has(
                before.children[i].path,
            ) {
                pruned_upto(before, *fs, i as nat).push(pruned(before.children[i], *fs))
            } else {
                pruned_upto(before, *fs, i as nat)
            });
        }
    }
    proof {
        lemma_pruned(before, *fs);
    }
    cached.set_children(kept);
    found_deletions
}

/// Checks whether the directory at `path`, or a subdirectory that `cached`
/// keeps a node for, was modified after the scan that `cached` records, or
/// can no longer be read.
pub fn dir_changed_since_last_scan(path: &str, cached: &DirStat, fs: &Snapshot) -> (changed: bool)
    requires
        cached.wf(),
    ensures
        changed == dir_changed(*fs, path@, cached@),
    decreases cached@, 1nat,
{
    match fs.modified(path) {
        Some(mtime) => {
            if mtime.is_after(&cached.last_scan()) {
                return true;
            }
        },
        None => {
            return true;
        },
    }
    match fs.read_dir(path) {
        Err(_) => true,
        Ok(entries) => {
            let mut i: usize = 0;
            while i < entries.len()
                invariant
                    i <= entries.len(),
                    cached.wf(),
                    fs.mtime(path@) matches Some(mtime) && mtime.nanos <= cached@.last_scan.nanos,
                    fs.entries(path@) == Ok::<Seq<Listed>, IoFailure>(entries@),
                    forall|k: int|
                        #![trigger entries@[k]]
                        0 <= k < i ==> !entry_changed(*fs, entries@[k], cached@),
                decreases entries.len() - i,
            {
                if subdir_changed(&entries[i], cached, fs) {
                    proof {
                        let listed = fs.entries(path@)->Ok_0;
                        assert(entry_changed(*fs, listed[i as int], cached@));
                    }
                    return true;
                }
                i += 1;
            }
            false
        },
    }
}

/// Checks whether `entry` is a directory that shows a change since `cached`
/// was scanned.
fn subdir_changed(entry: &Listed, cached: &DirStat, fs: &Snapshot) -> (changed: bool)
    requires
        cached.wf(),
    ensures
        changed == entry_changed(*fs, *entry, cached@),
    decreases cached@, 0nat,
{
    let dir = match entry {
        Ok(dir) => dir,
        Err(_) => {
            return false;
        },
    };
    let meta = match &dir.meta {
        Ok(meta) => meta,
        Err(_) => {
            return false;
        },
    };
    match meta.kind {
        EntryKind::Dir => {},
        _ => {
            return false;
        },
    }
    if let Some(mtime) = meta.modified {
        if mtime.is_after(&cached.last_scan()) {
            return true;
        }
    }
    match cached.child(dir.path.as_str()) {
        None => false,
        Some(node) => {
            proof {
                let j = place_of(cached@.children, dir.path@);
                assert(cached@.children[j] == node@);
                lemma_only_place(cached@.children, j);
            }
            dir_changed_since_last_scan(dir.path.as_str(), node, fs)
        },
    }
}

/// Among distinct paths, the node at a place is the only one with its path.
proof fn lemma_only_place(nodes: Seq<DirTree>, j: int)
    requires
        distinct_paths(nodes),
        0 <= j < nodes.len(),
    ensures
        forall|k: int|
            0 <= k < nodes.len() && (#[trigger] nodes[k]).path == nodes[j].path ==> k == j,
{
    assert forall|k: int| 0 <= k < nodes.len() && (#[trigger] nodes[k]).path
        == nodes[j].path implies k == j by {
        if k < j {
            assert(nodes[k].path != nodes[j].path);
        } else if j < k {
            assert(nodes[j].path != nodes[k].path);
        }
    }
}

/// The total size and the total file count of `nodes`.
fn children_totals(nodes: &Vec<DirStat>) -> (totals: (u64, u64))
    ensures
        totals.0 == saturate(sum_sizes(views(nodes@))),
        totals.1 == saturate(sum_counts(views(nodes@))),
{
    proof {
        lemma_views(nodes@);
    }
    let mut size: u64 = 0;
    let mut count: u64 = 0;
    let mut i: usize = 0;
    while i < nodes.len()
        invariant
            i <= nodes.len(),
            views(nodes@).len() == nodes@.len(),
            size == saturate(sum_sizes_upto(views(nodes@), i as nat)),
            count == saturate(sum_counts_upto(views(nodes@), i as nat)),
        decreases nodes.len() - i,
    {
        proof {
            lemma_views(nodes@);
        }
        size = size.saturating_add(nodes[i].total_size());
        count = count.saturating_add(nodes[i].file_count());
        i += 1;
    }
    (size, count)
}

/// Decides whether the cached node for the directory at `path` can be
/// trusted without a new scan, and brings the node up to date on the way.
///
/// The nodes of deleted directories are pruned first. Where any were, the
/// totals of the node are stale: they are set to those of the remaining
/// children and of the files now directly in the directory, and the time of
/// the scan to `now`. The node is valid where nothing had to be pruned and the
/// directory shows no modification since the cached scan.
pub fn is_still_valid(path: &str, cached: &mut DirStat, fs: &Snapshot, now: Timestamp) -> (valid:
    bool)
    requires
        old(cached).wf(),
    ensures
        final(cached)@ == reconciled(old(cached)@, *fs, path@, now),
        final(cached).wf(),
        valid == still_valid(*fs, path@, old(cached)@),
{
    let ghost before = cached@;
    let had_deletions = prune_deleted_dirs(cached, fs);
    if had_deletions {
        let (below_size, below_count) = children_totals(cached.children());
        let (files_size, files_count) = match fs.read_dir(path) {
            Ok(entries) => own_totals(entries),
            Err(_) => (0, 0),
        };
        cached.set_totals(
            below_size.saturating_add(files_size),
            below_count.saturating_add(files_count),
            now,
        );
        return false;
    }
    proof {
        lemma_nothing_to_prune(before, *fs);
    }
    !dir_changed_since_last_scan(path, cached, fs)
}

} // verus!
