//! What a directory listing holds: the plain files directly in the directory
//! and the subdirectories that a scan goes down into.

use crate::snapshot::{
    directly_below, distinct_entries, entry_below, DirEntry, EntryKind, IoFailure, Snapshot,
};
use crate::tree::paths_of;
use vstd::prelude::*;

verus! {

/// One entry of a listing, as a scan reads it.
pub type Listed = Result<DirEntry, IoFailure>;

/// The entry was read, with its metadata, and is a plain file.
pub open spec fn is_file(entry: Listed) -> bool {
    entry matches Ok(e) && e.meta matches Ok(m) && m.kind == EntryKind::File
}

/// The entry was read, with its metadata, and is a directory.
pub open spec fn is_dir(entry: Listed) -> bool {
    entry matches Ok(e) && e.meta matches Ok(m) && m.kind == EntryKind::Dir
}

/// The bytes that the entry adds to its directory's own files.
pub open spec fn file_len(entry: Listed) -> nat {
    if is_file(entry) {
        entry->Ok_0.meta->Ok_0.len as nat
    } else {
        0
    }
}

/// The total length of the plain files among the first `n` entries.
pub open spec fn own_size_upto(entries: Seq<Listed>, n: nat) -> nat
    decreases n,
{
    if n == 0 || n > entries.len() {
        0
    } else {
        own_size_upto(entries, (n - 1) as nat) + file_len(entries[n - 1])
    }
}

/// The number of plain files among the first `n` entries.
pub open spec fn own_count_upto(entries: Seq<Listed>, n: nat) -> nat
    decreases n,
{
    if n == 0 || n > entries.len() {
        0
    } else {
        own_count_upto(entries, (n - 1) as nat) + if is_file(entries[n - 1]) {
            1nat
        } else {
            0nat
        }
    }
}

/// The total length of the plain files that a listing holds.
pub open spec fn own_size(entries: Seq<Listed>) -> nat {
    own_size_upto(entries, entries.len())
}

/// The number of plain files that a listing holds.
pub open spec fn own_count(entries: Seq<Listed>) -> nat {
    own_count_upto(entries, entries.len())
}

/// A total as a node holds it: totals beyond `u64::MAX` are held as
/// `u64::MAX`.
pub open spec fn saturate(total: nat) -> u64 {
    if total > u64::MAX {
        u64::MAX
    } else {
        total as u64
    }
}

/// The files directly under `path`: their total length and their number. An
/// unreadable directory has none.
pub open spec fn own_files(fs: Snapshot, path: Seq<char>) -> (nat, nat) {
    match fs.entries(path) {
        Ok(entries) => (own_size(entries), own_count(entries)),
        Err(_) => (0, 0),
    }
}

/// The paths of the directories among the first `n` entries, in order.
pub open spec fn subdirs_upto(entries: Seq<Listed>, n: nat) -> Seq<Seq<char>>
    decreases n,
{
    if n == 0 || n > entries.len() {
        Seq::empty()
    } else if is_dir(entries[n - 1]) {
        subdirs_upto(entries, (n - 1) as nat).push(entries[n - 1]->Ok_0.path@)
    } else {
        subdirs_upto(entries, (n - 1) as nat)
    }
}

/// The paths of the subdirectories that the listing of `path` shows, in
/// order. An unreadable directory shows none.
pub open spec fn subdirs(fs: Snapshot, path: Seq<char>) -> Seq<Seq<char>> {
    match fs.entries(path) {
        Ok(entries) => subdirs_upto(entries, entries.len()),
        Err(_) => Seq::empty(),
    }
}

/// Each of the first subdirectories is the path of a directory entry.
pub proof fn lemma_subdirs_upto(entries: Seq<Listed>, n: nat, k: int)
    requires
        n <= entries.len(),
        0 <= k < subdirs_upto(entries, n).len(),
    ensures
        exists|i: int|
            #![trigger entries[i]]
            0 <= i < n && is_dir(entries[i]) && entries[i]->Ok_0.path@ == subdirs_upto(
                entries,
                n,
            )[k],
    decreases n,
{
    if n > 0 {
        let before = subdirs_upto(entries, (n - 1) as nat);
        if is_dir(entries[n - 1]) && k == before.len() {
            assert(entries[n - 1]->Ok_0.path@ == subdirs_upto(entries, n)[k]);
        } else {
            lemma_subdirs_upto(entries, (n - 1) as nat, k);
            let i = choose|i: int|
                #![trigger entries[i]]
                0 <= i < n - 1 && is_dir(entries[i]) && entries[i]->Ok_0.path@ == before[k];
            assert(entries[i]->Ok_0.path@ == subdirs_upto(entries, n)[k]);
        }
    }
}

/// A subdirectory ranks strictly below the directory that lists it.
pub proof fn lemma_subdir_ranks_below(fs: Snapshot, path: Seq<char>, k: int)
    requires
        fs.wf(),
        0 <= k < subdirs(fs, path).len(),
    ensures
        fs.rank(subdirs(fs, path)[k]) < fs.rank(path),
{
    let entries = fs.entries(path)->Ok_0;
    lemma_subdirs_upto(entries, entries.len(), k);
    let i = choose|i: int|
        #![trigger entries[i]]
        0 <= i < entries.len() && is_dir(entries[i]) && entries[i]->Ok_0.path@ == subdirs(
            fs,
            path,
        )[k];
    fs.lemma_entry_ranks_below(path, i);
}

/// No path occurs twice among `paths`.
pub open spec fn distinct(paths: Seq<Seq<char>>) -> bool {
    forall|i: int, j: int| 0 <= i < j < paths.len() ==> #[trigger] paths[i] != #[trigger] paths[j]
}

/// Where no path is listed twice, no subdirectory is.
pub proof fn lemma_subdirs_upto_distinct(entries: Seq<Listed>, n: nat)
    requires
        distinct_entries(entries),
        n <= entries.len(),
    ensures
        distinct(subdirs_upto(entries, n)),
    decreases n,
{
    if n > 0 {
        lemma_subdirs_upto_distinct(entries, (n - 1) as nat);
        let before = subdirs_upto(entries, (n - 1) as nat);
        let now = subdirs_upto(entries, n);
        if is_dir(entries[n - 1]) {
            assert forall|i: int, j: int| 0 <= i < j < now.len() implies #[trigger] now[i]
                != #[trigger] now[j] by {
                if j == before.len() {
                    lemma_subdirs_upto(entries, (n - 1) as nat, i);
                    let at = choose|at: int|
                        #![trigger entries[at]]
                        0 <= at < n - 1 && is_dir(entries[at]) && entries[at]->Ok_0.path@
                            == before[i];
                    assert(entries[at] is Ok && entries[n - 1] is Ok);
                } else {
                    assert(before[i] != before[j]);
                }
            }
        }
    }
}

/// A directory lists no subdirectory twice, and each of its subdirectories
/// lies directly below it.
pub proof fn lemma_subdirs_of_directory(fs: Snapshot, path: Seq<char>)
    requires
        fs.wf(),
    ensures
        distinct(subdirs(fs, path)),
        forall|k: int|
            0 <= k < subdirs(fs, path).len() ==> directly_below(
                path,
                #[trigger] subdirs(fs, path)[k],
            ),
{
    if fs.entries(path) is Ok {
        let entries = fs.entries(path)->Ok_0;
        fs.lemma_listing_below(path);
        lemma_subdirs_upto_distinct(entries, entries.len());
        assert forall|k: int| 0 <= k < subdirs(fs, path).len() implies directly_below(
            path,
            #[trigger] subdirs(fs, path)[k],
        ) by {
            lemma_subdirs_upto(entries, entries.len(), k);
            let at = choose|at: int|
                #![trigger entries[at]]
                0 <= at < entries.len() && is_dir(entries[at]) && entries[at]->Ok_0.path@
                    == subdirs_upto(entries, entries.len())[k];
            assert(entry_below(path, entries[at]));
        }
    }
}

/// The total length and the number of the plain files in a listing.
pub fn own_totals(entries: &Vec<Listed>) -> (totals: (u64, u64))
    ensures
        totals.0 == saturate(own_size(entries@)),
        totals.1 == saturate(own_count(entries@)),
{
    let mut size: u64 = 0;
    let mut count: u64 = 0;
    let mut i: usize = 0;
    while i < entries.len()
        invariant
            i <= entries.len(),
            size == saturate(own_size_upto(entries@, i as nat)),
            count == saturate(own_count_upto(entries@, i as nat)),
        decreases entries.len() - i,
    {
        if let Ok(entry) = &entries[i] {
            if let Ok(meta) = &entry.meta {
                if let EntryKind::File = meta.kind {
                    size = size.saturating_add(meta.len);
                    count = count.saturating_add(1);
                }
            }
        }
        i += 1;
    }
    (size, count)
}

/// The paths of the directories in a listing, in order.
pub fn subdirectories(entries: &Vec<Listed>) -> (paths: Vec<String>)
    ensures
        paths_of(paths@) == subdirs_upto(entries@, entries@.len()),
{
    let mut paths: Vec<String> = Vec::new();
    let mut i: usize = 0;
    assert(paths_of(paths@) =~= subdirs_upto(entries@, 0));
    while i < entries.len()
        invariant
            i <= entries.len(),
            paths_of(paths@) == subdirs_upto(entries@, i as nat),
        decreases entries.len() - i,
    {
        let ghost before = paths@;
        if let Ok(entry) = &entries[i] {
            if let Ok(meta) = &entry.meta {
                if let EntryKind::Dir = meta.kind {
                    paths.push(entry.path.clone());
                    assert(paths_of(paths@) =~= paths_of(before).push(entry.path@));
                }
            }
        }
        i += 1;
    }
    paths
}

} // verus!
