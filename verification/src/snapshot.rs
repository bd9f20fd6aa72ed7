//! What a scan reads from the filesystem, recorded as plain values.
//!
//! A [`Snapshot`] answers the three questions that a scan asks about a path:
//! whether anything exists there, when it was last modified, and what a
//! listing of it as a directory returns.

use vstd::hash_map::StringHashMap;
use vstd::prelude::*;
use vstd::utf8::encode_utf8;

verus! {

/// A point in time, in nanoseconds since the Unix epoch.
#[derive(Clone, Copy, Debug, PartialEq, Eq, PartialOrd, Ord, Hash, Structural)]
pub struct Timestamp {
    pub nanos: u128,
}

impl Timestamp {
    /// Whether this time is strictly later than `other`.
    pub fn is_after(&self, other: &Timestamp) -> (later: bool)
        ensures
            later == (self.nanos > other.nanos),
    {
        self.nanos > other.nanos
    }
}

/// Why the filesystem refused a request.
#[derive(Clone, Copy, Debug, PartialEq, Eq, Structural)]
pub enum IoFailure {
    /// Nothing exists at the path.
    NotFound,
    /// The path may not be read.
    PermissionDenied,
    /// The path is no directory.
    NotADirectory,
    /// The operating system refused, with this error code.
    Os(i32),
    /// Another failure, of which no more is known.
    Other,
}

/// What kind of object a directory entry is.
#[derive(Clone, Copy, Debug, PartialEq, Eq, Structural)]
pub enum EntryKind {
    File,
    Dir,
    Other,
}

/// The metadata of one directory entry.
#[derive(Clone, Copy, Debug)]
pub struct EntryMeta {
    pub kind: EntryKind,
    /// The length in bytes.
    pub len: u64,
    /// The modification time, where the filesystem gives one.
    pub modified: Option<Timestamp>,
}

/// One entry of a directory listing.
#[derive(Debug)]
pub struct DirEntry {
    /// The full path of the entry.
    pub path: String,
    /// The entry's metadata, or why it could not be read.
    pub meta: Result<EntryMeta, IoFailure>,
}

/// What the filesystem reported about one existing path.
#[derive(Debug)]
pub struct PathProbe {
    /// The modification time of the path, where it could be read.
    pub modified: Option<Timestamp>,
    /// The entries of the path read as a directory, each of which may itself
    /// have failed, or why the listing could not be read at all.
    pub listing: Result<Vec<Result<DirEntry, IoFailure>>, IoFailure>,
}

/// The length of a path in bytes.
pub open spec fn path_len(path: Seq<char>) -> nat {
    encode_utf8(path).len()
}

/// The byte that separates the names of a path.
pub open spec fn separator() -> u8 {
    0x2f
}

/// Where the name of a child begins in its path, for a child of the
/// directory whose path has the bytes `parent`: right behind `parent` where
/// that is empty or ends with a separator, and behind one separator more
/// otherwise.
pub open spec fn name_start(parent: Seq<u8>) -> nat {
    if parent.len() == 0 || parent.last() == separator() {
        parent.len()
    } else {
        parent.len() + 1
    }
}

/// `child` lies directly below `path`: it is `path`, a separator where `path`
/// does not end with one, and one name, which is not empty and holds no
/// separator.
pub open spec fn directly_below(path: Seq<char>, child: Seq<char>) -> bool {
    let parent = encode_utf8(path);
    let whole = encode_utf8(child);
    let start = name_start(parent);
    &&& start < whole.len()
    &&& forall|i: int| 0 <= i < parent.len() ==> #[trigger] whole[i] == parent[i]
    &&& parent.len() < start ==> whole[parent.len() as int] == separator()
    &&& forall|i: int| start <= i < whole.len() ==> #[trigger] whole[i] != separator()
}

/// The entry, where it was read, lies directly below `path`.
pub open spec fn entry_below(path: Seq<char>, entry: Result<DirEntry, IoFailure>) -> bool {
    entry matches Ok(e) ==> directly_below(path, e.path@)
}

/// One of the first `n` entries was read and has the path `path`.
pub open spec fn names(entries: Seq<Result<DirEntry, IoFailure>>, n: int, path: Seq<char>) -> bool {
    exists|i: int| 0 <= i < n && (#[trigger] entries[i]) is Ok && entries[i]->Ok_0.path@ == path
}

/// No two entries that were read have the same path.
pub open spec fn distinct_entries(entries: Seq<Result<DirEntry, IoFailure>>) -> bool {
    forall|i: int, j: int|
        0 <= i < j < entries.len() && (#[trigger] entries[i]) is Ok && (#[trigger] entries[j])
            is Ok ==> entries[i]->Ok_0.path@ != entries[j]->Ok_0.path@
}

/// The listing of the probe is that of a directory at `path`: every entry
/// lies directly below `path`, and no path is listed twice.
pub open spec fn listing_below(path: Seq<char>, probe: PathProbe) -> bool {
    match probe.listing {
        Ok(entries) => {
            &&& forall|i: int| 0 <= i < entries@.len() ==> #[trigger] entry_below(path, entries@[i])
            &&& distinct_entries(entries@)
        },
        Err(_) => true,
    }
}

/// The recorded answers of the filesystem, keyed by path.
///
/// A path that was never recorded is a path at which nothing exists.
pub struct Snapshot {
    probes: StringHashMap<PathProbe>,
    longest: usize,
}

impl View for Snapshot {
    type V = Map<Seq<char>, PathProbe>;

    closed spec fn view(&self) -> Map<Seq<char>, PathProbe> {
        self.probes@
    }
}

impl Snapshot {
    /// Every recorded listing is that of a directory: each entry lies directly
    /// below the directory that lists it, and no path is listed twice. No
    /// recorded path is longer than the bound that the snapshot keeps.
    pub closed spec fn wf(&self) -> bool {
        forall|p: Seq<char>| #[trigger]
            self.probes@.contains_key(p) ==> path_len(p) <= self.longest && listing_below(
                p,
                self.probes@[p],
            )
    }

    /// How far below the longest recorded path `path` may still lead: zero
    /// for a path that is not recorded.
    pub closed spec fn rank(&self, path: Seq<char>) -> nat {
        if self.probes@.contains_key(path) && path_len(path) <= self.longest {
            (self.longest - path_len(path) + 1) as nat
        } else {
            0
        }
    }

    /// Whether anything exists at `path`.
    pub open spec fn has(&self, path: Seq<char>) -> bool {
        self@.contains_key(path)
    }

    /// The modification time of `path`, if it exists and has one.
    pub open spec fn mtime(&self, path: Seq<char>) -> Option<Timestamp> {
        if self@.contains_key(path) {
            self@[path].modified
        } else {
            None
        }
    }

    /// The listing of `path` as a directory.
    pub open spec fn entries(&self, path: Seq<char>) -> Result<
        Seq<Result<DirEntry, IoFailure>>,
        IoFailure,
    > {
        if self@.contains_key(path) {
            match self@[path].listing {
                Ok(entries) => Ok(entries@),
                Err(e) => Err(e),
            }
        } else {
            Err(IoFailure::NotFound)
        }
    }

    /// A listed entry ranks strictly below the directory that lists it.
    pub proof fn lemma_entry_ranks_below(&self, path: Seq<char>, i: int)
        requires
            self.wf(),
            self.entries(path) is Ok,
            0 <= i < self.entries(path)->Ok_0.len(),
            self.entries(path)->Ok_0[i] is Ok,
        ensures
            self.rank(self.entries(path)->Ok_0[i]->Ok_0.path@) < self.rank(path),
    {
        assert(self.probes@.contains_key(path));
        let entries = self.probes@[path].listing->Ok_0;
        assert(entry_below(path, entries@[i]));
    }

    /// The listing of a recorded path is that of a directory at the path.
    pub proof fn lemma_listing_below(&self, path: Seq<char>)
        requires
            self.wf(),
            self.has(path),
        ensures
            listing_below(path, self@[path]),
    {
        assert(self.probes@.contains_key(path));
    }

    /// A snapshot in which nothing exists.
    pub fn new() -> (s: Self)
        ensures
            s.wf(),
            s@ == Map::<Seq<char>, PathProbe>::empty(),
    {
        Snapshot { probes: StringHashMap::new(), longest: 0 }
    }

    /// Records what the filesystem reported about `path`, replacing an
    /// earlier record of it. A probe whose listing holds an entry that does
    /// not lie directly below `path`, or that lists a path twice, is refused,
    /// and the snapshot stays as it was.
    pub fn record(&mut self, path: String, probe: PathProbe) -> (ok: bool)
        requires
            old(self).wf(),
        ensures
            final(self).wf(),
            ok == listing_below(path@, probe),
            ok ==> final(self)@ == old(self)@.insert(path@, probe),
            !ok ==> final(self)@ == old(self)@,
    {
        if !is_listing_of(path.as_str(), &probe) {
            return false;
        }
        let len = path.as_str().as_bytes().len();
        if len > self.longest {
            self.longest = len;
        }
        self.probes.insert(path, probe);
        true
    }

    /// Whether anything exists at `path`.
    pub fn contains(&self, path: &str) -> (found: bool)
        ensures
            found == self.has(path@),
    {
        self.probes.contains_key(path)
    }

    /// The modification time of `path`, if it exists and has one.
    pub fn modified(&self, path: &str) -> (time: Option<Timestamp>)
        ensures
            time == self.mtime(path@),
    {
        match self.probes.get(path) {
            Some(probe) => probe.modified,
            None => None,
        }
    }

    /// The listing of `path` as a directory.
    pub fn read_dir(&self, path: &str) -> (listing: Result<
        &Vec<Result<DirEntry, IoFailure>>,
        IoFailure,
    >)
        ensures
            match listing {
                Ok(entries) => self.entries(path@) == Ok::<_, IoFailure>(entries@),
                Err(e) => self.entries(path@) == Err::<Seq<Result<DirEntry, IoFailure>>, _>(e),
            },
    {
        match self.probes.get(path) {
            Some(probe) => match &probe.listing {
                Ok(entries) => Ok(entries),
                Err(e) => Err(*e),
            },
            None => Err(IoFailure::NotFound),
        }
    }
}

/// Whether `child` lies directly below `path`.
pub fn lies_directly_below(path: &str, child: &str) -> (below: bool)
    ensures
        below == directly_below(path@, child@),
{
    let parent = path.as_bytes();
    let whole = child.as_bytes();
    let start = if parent.len() == 0 || parent[parent.len() - 1] == 0x2f {
        parent.len()
    } else if parent.len() < usize::MAX {
        parent.len() + 1
    } else {
        assert(whole.len() == whole@.len());
        return false;
    };
    if whole.len() <= start {
        return false;
    }
    let mut i: usize = 0;
    while i < parent.len()
        invariant
            i <= parent.len() <= start < whole.len(),
            parent@ == encode_utf8(path@),
            whole@ == encode_utf8(child@),
            forall|k: int| 0 <= k < i ==> #[trigger] whole@[k] == parent@[k],
        decreases parent.len() - i,
    {
        if whole[i] != parent[i] {
            return false;
        }
        i += 1;
    }
    if parent.len() < start && whole[parent.len()] != 0x2f {
        return false;
    }
    let mut j: usize = start;
    while j < whole.len()
        invariant
            start <= j <= whole.len(),
            parent@ == encode_utf8(path@),
            whole@ == encode_utf8(child@),
            start == name_start(parent@),
            forall|k: int| 0 <= k < parent.len() ==> #[trigger] whole@[k] == parent@[k],
            parent.len() < start ==> whole@[parent.len() as int] == separator(),
            forall|k: int| start <= k < j ==> #[trigger] whole@[k] != separator(),
        decreases whole.len() - j,
    {
        if whole[j] == 0x2f {
            return false;
        }
        j += 1;
    }
    true
}

/// Whether the listing of the probe is that of a directory at `path`.
fn is_listing_of(path: &str, probe: &PathProbe) -> (ok: bool)
    ensures
        ok == listing_below(path@, *probe),
{
    match &probe.listing {
        Err(_) => true,
        Ok(entries) => {
            let mut seen: StringHashMap<bool> = StringHashMap::new();
            let mut i: usize = 0;
            while i < entries.len()
                invariant
                    i <= entries.len(),
                    probe.listing == Ok::<_, IoFailure>(*entries),
                    forall|k: int| 0 <= k < i ==> #[trigger] entry_below(path@, entries@[k]),
                    forall|p: Seq<char>| #[trigger]
                        seen@.contains_key(p) <==> names(entries@, i as int, p),
                    forall|a: int, b: int|
                        0 <= a < b < i && (#[trigger] entries@[a]) is Ok && (
                        #[trigger] entries@[b]) is Ok ==> entries@[a]->Ok_0.path@
                            != entries@[b]->Ok_0.path@,
                decreases entries.len() - i,
            {
                match &entries[i] {
                    Ok(entry) => {
                        if !lies_directly_below(path, entry.path.as_str()) {
                            assert(!entry_below(path@, probe.listing->Ok_0@[i as int]));
                            return false;
                        }
                        if seen.contains_key(entry.path.as_str()) {
                            proof {
                                let listed = probe.listing->Ok_0@;
                                assert(names(listed, i as int, entry.path@));
                                let a = choose|a: int|
                                    0 <= a < i && (#[trigger] listed[a]) is Ok
                                        && listed[a]->Ok_0.path@ == entry.path@;
                                assert(listed[a] is Ok && listed[i as int] is Ok);
                                assert(!distinct_entries(listed));
                            }
                            return false;
                        }
                        let ghost before = seen@;
                        seen.insert(entry.path.clone(), true);
                        proof {
                            assert forall|p: Seq<char>| #[trigger]
                                seen@.contains_key(p) <==> names(entries@, i + 1, p) by {
                                if names(entries@, i + 1, p) {
                                    let a = choose|a: int|
                                        0 <= a < i + 1 && (#[trigger] entries@[a]) is Ok
                                            && entries@[a]->Ok_0.path@ == p;
                                    if a < i {
                                        assert(names(entries@, i as int, p));
                                    }
                                }
                                if before.contains_key(p) {
                                    let a = choose|a: int|
                                        0 <= a < i && (#[trigger] entries@[a]) is Ok
                                            && entries@[a]->Ok_0.path@ == p;
                                    assert(entries@[a] is Ok);
                                }
                                if p == entry.path@ {
                                    assert(entries@[i as int] is Ok);
                                }
                            }
                            assert forall|a: int, b: int|
                                0 <= a < b < i + 1 && (#[trigger] entries@[a]) is Ok && (
                                #[trigger] entries@[b]) is Ok implies entries@[a]->Ok_0.path@
                                != entries@[b]->Ok_0.path@ by {
                                if b == i {
                                    if entries@[a]->Ok_0.path@ == entry.path@ {
                                        assert(names(entries@, i as int, entry.path@));
                                    }
                                }
                            }
                        }
                    },
                    Err(_) => {
                        assert forall|p: Seq<char>| #[trigger]
                            seen@.contains_key(p) <==> names(entries@, i + 1, p) by {
                            if names(entries@, i + 1, p) {
                                let a = choose|a: int|
                                    0 <= a < i + 1 && (#[trigger] entries@[a]) is Ok
                                        && entries@[a]->Ok_0.path@ == p;
                                assert(names(entries@, i as int, p));
                            }
                            if names(entries@, i as int, p) {
                                let a = choose|a: int|
                                    0 <= a < i && (#[trigger] entries@[a]) is Ok
                                        && entries@[a]->Ok_0.path@ == p;
                                assert(entries@[a] is Ok);
                            }
                        }
                    },
                }
                i += 1;
            }
            true
        },
    }
}

} // verus!
