//! The cache store: the nodes of earlier scans, keyed by the canonical path of
//! the directory that was scanned, with a flag that tells whether they were
//! changed since they were last persisted.

use crate::snapshot::IoFailure;
use crate::tree::{DirStat, DirTree};
use vstd::hash_map::StringHashMap;
use vstd::prelude::*;

verus! {

/// The node of one scanned root, with the canonical path that it is kept
/// under.
pub struct RootEntry {
    pub key: String,
    pub stats: DirStat,
}

/// Whether one of `roots` is kept under `key`.
pub open spec fn has_key(roots: Seq<RootEntry>, key: Seq<char>) -> bool {
    exists|i: int| 0 <= i < roots.len() && #[trigger] roots[i].key@ == key
}

/// The place of the root kept under `key`.
pub open spec fn place_of_key(roots: Seq<RootEntry>, key: Seq<char>) -> int {
    choose|i: int| 0 <= i < roots.len() && #[trigger] roots[i].key@ == key
}

/// No two of `roots` are kept under the same key.
pub open spec fn distinct_keys(roots: Seq<RootEntry>) -> bool {
    forall|i: int, j: int|
        0 <= i < j < roots.len() ==> #[trigger] roots[i].key@ != #[trigger] roots[j].key@
}

/// The mapping that `roots` stand for.
pub open spec fn mapping(roots: Seq<RootEntry>) -> Map<Seq<char>, DirTree> {
    Map::new(
        |key: Seq<char>| has_key(roots, key),
        |key: Seq<char>| roots[place_of_key(roots, key)].stats@,
    )
}

/// Among distinct keys a key has one place only.
pub proof fn lemma_place_of_key(roots: Seq<RootEntry>, i: int)
    requires
        distinct_keys(roots),
        0 <= i < roots.len(),
    ensures
        has_key(roots, roots[i].key@),
        place_of_key(roots, roots[i].key@) == i,
        mapping(roots)[roots[i].key@] == roots[i].stats@,
{
    let j = place_of_key(roots, roots[i].key@);
    assert(0 <= j < roots.len() && roots[j].key@ == roots[i].key@);
    if i < j {
        assert(roots[i].key@ != roots[j].key@);
    } else if j < i {
        assert(roots[j].key@ != roots[i].key@);
    }
}

/// The nodes of the scanned roots, with the version of their layout.
///
/// The roots are kept in the order in which they were put in, with an index
/// that finds each of them by its key.
pub struct Cache {
    roots: Vec<RootEntry>,
    places: StringHashMap<usize>,
    version: u32,
}

/// The index finds each of the first `n` of `roots` by its key, and nothing
/// else: a key that it holds leads to a root kept under that key.
spec fn finds(places: Map<Seq<char>, usize>, roots: Seq<RootEntry>, n: int) -> bool {
    &&& forall|key: Seq<char>| #[trigger]
        places.contains_key(key) ==> places[key] < n && roots[places[key] as int].key@ == key
    &&& forall|i: int| 0 <= i < n ==> places.contains_key((#[trigger] roots[i]).key@)
}

/// An index that finds each of `roots` by its key.
fn index_of(roots: &Vec<RootEntry>) -> (places: StringHashMap<usize>)
    ensures
        finds(places@, roots@, roots@.len() as int),
{
    let mut places: StringHashMap<usize> = StringHashMap::new();
    let mut i: usize = 0;
    while i < roots.len()
        invariant
            i <= roots.len(),
            finds(places@, roots@, i as int),
        decreases roots.len() - i,
    {
        places.insert(roots[i].key.clone(), i);
        i += 1;
    }
    places
}

impl View for Cache {
    type V = Map<Seq<char>, DirTree>;

    closed spec fn view(&self) -> Map<Seq<char>, DirTree> {
        mapping(self.roots@)
    }
}

impl Cache {
    /// No key occurs twice, every node is well-formed, and the index finds
    /// every root.
    pub closed spec fn wf(&self) -> bool {
        &&& distinct_keys(self.roots@)
        &&& forall|i: int| 0 <= i < self.roots@.len() ==> (#[trigger] self.roots@[i]).stats.wf()
        &&& finds(self.places@, self.roots@, self.roots@.len() as int)
    }

    /// The place of the root kept under `key`, if there is one.
    fn place(&self, key: &str) -> (place: Option<usize>)
        requires
            self.wf(),
        ensures
            match place {
                Some(i) => i < self.roots@.len() && self.roots@[i as int].key@ == key@,
                None => !has_key(self.roots@, key@),
            },
    {
        match self.places.get(key) {
            Some(place) => Some(*place),
            None => {
                proof {
                    if has_key(self.roots@, key@) {
                        let i = place_of_key(self.roots@, key@);
                        assert(self.places@.contains_key(self.roots@[i].key@));
                    }
                }
                None
            },
        }
    }

    /// The version of the layout.
    pub closed spec fn layout(&self) -> u32 {
        self.version
    }

    /// An empty cache of the given version.
    pub fn new(version: u32) -> (cache: Cache)
        ensures
            cache.wf(),
            cache@ == Map::<Seq<char>, DirTree>::empty(),
            cache.layout() == version,
    {
        let cache = Cache { roots: Vec::new(), places: StringHashMap::new(), version };
        assert(cache@ =~= Map::<Seq<char>, DirTree>::empty());
        cache
    }

    /// The version of the layout.
    pub fn version(&self) -> (version: u32)
        ensures
            version == self.layout(),
    {
        self.version
    }

    /// The roots with their nodes: each key of the mapping once, with the
    /// node that the mapping gives it.
    pub fn roots(&self) -> (roots: &Vec<RootEntry>)
        requires
            self.wf(),
        ensures
            distinct_keys(roots@),
            mapping(roots@) == self@,
    {
        &self.roots
    }

    /// The node kept under `key`, if there is one.
    pub fn get(&self, key: &str) -> (found: Option<&DirStat>)
        requires
            self.wf(),
        ensures
            match found {
                Some(stats) => self@.contains_key(key@) && self@[key@] == stats@ && stats.wf(),
                None => !self@.contains_key(key@),
            },
    {
        match self.place(key) {
            Some(i) => {
                proof {
                    lemma_place_of_key(self.roots@, i as int);
                }
                Some(&self.roots[i].stats)
            },
            None => None,
        }
    }

    /// Keeps `stats` under `key`, in the place of the node that was kept
    /// under it, if there was one.
    pub fn insert(&mut self, key: String, stats: DirStat)
        requires
            old(self).wf(),
            stats.wf(),
        ensures
            final(self).wf(),
            final(self)@ == old(self)@.insert(key@, stats@),
            final(self).layout() == old(self).layout(),
    {
        let ghost before = self.roots@;
        let ghost k = key@;
        let ghost v = stats@;
        match self.place(key.as_str()) {
            Some(i) => {
                self.roots[i] = RootEntry { key, stats };
                proof {
                    let after = self.roots@;
                    assert forall|a: int, b: int|
                        0 <= a < b < after.len() implies #[trigger] after[a].key@
                        != #[trigger] after[b].key@ by {
                        assert(before[a].key@ != before[b].key@);
                    }
                    lemma_insert_mapping(before, after, k, v, i as int);
                }
            },
            None => {
                self.places.insert(key.clone(), self.roots.len());
                self.roots.push(RootEntry { key, stats });
                proof {
                    let after = self.roots@;
                    assert forall|a: int, b: int|
                        0 <= a < b < after.len() implies #[trigger] after[a].key@
                        != #[trigger] after[b].key@ by {
                        if b < before.len() {
                            assert(before[a].key@ != before[b].key@);
                        } else {
                            assert(before[a].key@ != k);
                        }
                    }
                    lemma_insert_mapping(before, after, k, v, before.len() as int);
                }
            },
        }
    }
}

/// Where `after` holds `value` under `key` and otherwise what `before` holds,
/// its mapping is that of `before` with `key` set to `value`.
proof fn lemma_insert_mapping(
    before: Seq<RootEntry>,
    after: Seq<RootEntry>,
    key: Seq<char>,
    value: DirTree,
    at: int,
)
    requires
        distinct_keys(before),
        distinct_keys(after),
        0 <= at < after.len(),
        after[at].key@ == key,
        after[at].stats@ == value,
        forall|i: int|
            0 <= i < before.len() && (#[trigger] before[i]).key@ != key ==> i < after.len()
                && after[i] == before[i],
        forall|i: int|
            0 <= i < after.len() && (#[trigger] after[i]).key@ != key ==> i < before.len()
                && after[i] == before[i],
    ensures
        mapping(after) == mapping(before).insert(key, value),
{
    let left = mapping(after);
    let right = mapping(before).insert(key, value);
    assert forall|k: Seq<char>| left.contains_key(k) <==> right.contains_key(k) by {
        assert(after[at].key@ == key);
        if left.contains_key(k) && k != key {
            let i = place_of_key(after, k);
            assert(before[i].key@ == k);
        }
        if right.contains_key(k) && k != key {
            let i = place_of_key(before, k);
            assert(after[i].key@ == k);
        }
    }
    assert forall|k: Seq<char>| left.contains_key(k) implies left[k] == right[k] by {
        let i = place_of_key(after, k);
        lemma_place_of_key(after, i);
        if k != key {
            assert(before[i].key@ == k);
            lemma_place_of_key(before, i);
        } else {
            lemma_place_of_key(after, at);
        }
    }
    assert(left =~= right);
}

impl Clone for RootEntry {
    fn clone(&self) -> (copy: Self)
        ensures
            copy.key@ == self.key@,
            copy.stats@ == self.stats@,
            self.stats.wf() ==> copy.stats.wf(),
    {
        RootEntry { key: self.key.clone(), stats: self.stats.clone() }
    }
}

impl Clone for Cache {
    fn clone(&self) -> (copy: Self)
        ensures
            copy.layout() == self.layout(),
            self.wf() ==> copy.wf() && copy@ == self@,
    {
        let mut roots: Vec<RootEntry> = Vec::new();
        let mut i: usize = 0;
        while i < self.roots.len()
            invariant
                i <= self.roots.len(),
                roots.len() == i,
                forall|k: int|
                    0 <= k < i ==> (#[trigger] roots@[k]).key@ == self.roots@[k].key@
                        && roots@[k].stats@ == self.roots@[k].stats@ && (self.roots@[k].stats.wf()
                        ==> roots@[k].stats.wf()),
            decreases self.roots.len() - i,
        {
            roots.push(self.roots[i].clone());
            i += 1;
        }
        let places = index_of(&roots);
        let copy = Cache { roots, places, version: self.version };
        proof {
            if self.wf() {
                lemma_same_mapping(self.roots@, copy.roots@);
                assert forall|k: int| 0 <= k < copy.roots@.len() implies (
                #[trigger] copy.roots@[k]).stats.wf() by {
                    assert(self.roots@[k].stats.wf());
                }
            }
        }
        copy
    }
}

/// Roots with the same distinct keys and the same nodes, place by place,
/// stand for the same mapping.
proof fn lemma_same_mapping(left: Seq<RootEntry>, right: Seq<RootEntry>)
    requires
        left.len() == right.len(),
        distinct_keys(left),
        forall|k: int|
            0 <= k < left.len() ==> (#[trigger] right[k]).key@ == left[k].key@ && right[k].stats@
                == left[k].stats@,
    ensures
        mapping(left) == mapping(right),
        distinct_keys(right),
{
    assert forall|a: int, b: int| 0 <= a < b < right.len() implies #[trigger] right[a].key@
        != #[trigger] right[b].key@ by {
        assert(left[a].key@ != left[b].key@);
    }
    assert forall|key: Seq<char>| has_key(left, key) <==> has_key(right, key) by {
        if has_key(left, key) {
            let i = place_of_key(left, key);
            assert(right[i].key@ == key);
        }
        if has_key(right, key) {
            let i = place_of_key(right, key);
            assert(left[i].key@ == key);
        }
    }
    assert forall|key: Seq<char>| has_key(left, key) implies mapping(left)[key] == mapping(
        right,
    )[key] by {
        let i = place_of_key(left, key);
        assert(right[i].key@ == key);
        lemma_place_of_key(left, i);
        lemma_place_of_key(right, i);
    }
    assert(mapping(left) =~= mapping(right));
}

impl Default for Cache {
    fn default() -> (cache: Cache)
        ensures
            cache.wf(),
            cache@ == Map::<Seq<char>, DirTree>::empty(),
            cache.layout() == 0,
    {
        Cache::new(0)
    }
}

/// The key that a path is kept under: its canonical form, or the path as it
/// was given where it has none.
pub open spec fn key_of(path: Seq<char>, canonical: Option<String>) -> Seq<char> {
    match canonical {
        Some(resolved) => resolved@,
        None => path,
    }
}

/// The key that a path is kept under: its canonical form, or the path as it
/// was given where it has none.
pub fn cache_key(path: &str, canonical: Option<String>) -> (key: String)
    ensures
        key@ == key_of(path@, canonical),
{
    match canonical {
        Some(resolved) => resolved,
        None => path.to_owned(),
    }
}

/// The cache store, with the place it is persisted at and the flag that tells
/// whether it holds changes that were not persisted yet.
///
/// The store is written lazily: [`CacheManager::save`] hands out what is to be
/// written only while the store is dirty, and the caller reports with
/// [`CacheManager::complete_save`] how the writing went.
pub struct CacheManager {
    cache: Cache,
    cache_path: String,
    dirty: bool,
}

impl CacheManager {
    /// The cache that the manager holds is well-formed.
    pub closed spec fn wf(&self) -> bool {
        self.cache.wf()
    }

    /// The nodes that the store holds, by key.
    pub closed spec fn roots(&self) -> Map<Seq<char>, DirTree> {
        self.cache@
    }

    /// The version of the layout of what the store holds.
    pub closed spec fn layout(&self) -> u32 {
        self.cache.layout()
    }

    /// Whether the store holds changes that were not persisted.
    pub closed spec fn is_dirty(&self) -> bool {
        self.dirty
    }

    /// Where the store is persisted.
    pub closed spec fn location(&self) -> Seq<char> {
        self.cache_path@
    }

    /// What a store holds that is opened on a file: what the primary, binary
    /// codec read from it; where that failed, what the legacy text codec
    /// read; and nothing where both failed or the file could not be read.
    pub fn load_from_file(binary: Option<Cache>, legacy: Option<Cache>) -> (loaded: Cache)
        requires
            binary matches Some(cache) ==> cache.wf(),
            legacy matches Some(cache) ==> cache.wf(),
        ensures
            loaded.wf(),
            match (binary, legacy) {
                (Some(cache), _) => loaded == cache,
                (None, Some(cache)) => loaded == cache,
                (None, None) => loaded@ == Map::<Seq<char>, DirTree>::empty() && loaded.layout()
                    == 0,
            },
    {
        match binary {
            Some(cache) => cache,
            None => match legacy {
                Some(cache) => cache,
                None => Cache::default(),
            },
        }
    }

    /// A manager for the store persisted at `cache_path`, holding `loaded`,
    /// which is what was read from there. It is not dirty.
    pub fn new(cache_path: String, loaded: Cache) -> (manager: CacheManager)
        requires
            loaded.wf(),
        ensures
            manager.wf(),
            manager.roots() == loaded@,
            manager.layout() == loaded.layout(),
            manager.location() == cache_path@,
            !manager.is_dirty(),
    {
        CacheManager { cache: loaded, cache_path, dirty: false }
    }

    /// What a save has to write: the whole cache while the store is dirty,
    /// and nothing otherwise.
    pub fn save(&self) -> (pending: Option<&Cache>)
        requires
            self.wf(),
        ensures
            pending is Some <==> self.is_dirty(),
            pending matches Some(cache) ==> cache.wf() && cache@ == self.roots() && cache.layout()
                == self.layout(),
    {
        if self.dirty {
            Some(&self.cache)
        } else {
            None
        }
    }

    /// Takes note of how the writing went that [`CacheManager::save`] asked
    /// for: the store is clean after a success and stays dirty after a
    /// failure, which is handed back.
    pub fn complete_save(&mut self, outcome: Result<(), IoFailure>) -> (result: Result<
        (),
        IoFailure,
    >)
        requires
            old(self).wf(),
        ensures
            result == outcome,
            final(self).wf(),
            final(self).roots() == old(self).roots(),
            final(self).layout() == old(self).layout(),
            final(self).location() == old(self).location(),
            final(self).is_dirty() == (old(self).is_dirty() && outcome is Err),
    {
        if outcome.is_ok() {
            self.dirty = false;
        }
        outcome
    }

    /// The node kept for the canonical path `path`, if there is one.
    pub fn get(&self, path: &str) -> (found: Option<&DirStat>)
        requires
            self.wf(),
        ensures
            match found {
                Some(stats) => self.roots().contains_key(path@) && self.roots()[path@] == stats@
                    && stats.wf(),
                None => !self.roots().contains_key(path@),
            },
    {
        self.cache.get(path)
    }

    /// Keeps `stats` for `path`, under its canonical form `canonical` where
    /// it has one, and marks the store dirty.
    pub fn insert(&mut self, path: String, canonical: Option<String>, stats: DirStat)
        requires
            old(self).wf(),
            stats.wf(),
        ensures
            final(self).wf(),
            final(self).roots() == old(self).roots().insert(key_of(path@, canonical), stats@),
            final(self).layout() == old(self).layout(),
            final(self).location() == old(self).location(),
            final(self).is_dirty(),
    {
        let key = match canonical {
            Some(resolved) => resolved,
            None => path,
        };
        self.cache.insert(key, stats);
        self.dirty = true;
    }

    /// Puts `new_stats` in the place of what the store holds for `path`.
    pub fn update(&mut self, path: &str, canonical: Option<String>, new_stats: DirStat)
        requires
            old(self).wf(),
            new_stats.wf(),
        ensures
            final(self).wf(),
            final(self).roots() == old(self).roots().insert(key_of(path@, canonical), new_stats@),
            final(self).layout() == old(self).layout(),
            final(self).location() == old(self).location(),
            final(self).is_dirty(),
    {
        self.insert(path.to_owned(), canonical, new_stats);
    }

    /// Empties the store and marks it dirty. The cleared store is to be
    /// persisted at once: what is returned is what has to be written.
    pub fn clear(&mut self) -> (pending: &Cache)
        ensures
            final(self).wf(),
            final(self).roots() == Map::<Seq<char>, DirTree>::empty(),
            final(self).layout() == 0,
            final(self).location() == old(self).location(),
            final(self).is_dirty(),
            pending.wf(),
            pending@ == Map::<Seq<char>, DirTree>::empty(),
            pending.layout() == 0,
    {
        self.cache = Cache::default();
        self.dirty = true;
        &self.cache
    }

    /// What is to be removed to delete the persisted store: the file at the
    /// store's place where `present` says that there is one, and nothing
    /// where there is none.
    pub fn delete(&self, present: bool) -> (file: Option<&str>)
        ensures
            match file {
                Some(path) => present && path@ == self.location(),
                None => !present,
            },
    {
        if present {
            Some(self.cache_path.as_str())
        } else {
            None
        }
    }

    /// Where the store is persisted.
    pub fn path(&self) -> (path: &str)
        ensures
            path@ == self.location(),
    {
        self.cache_path.as_str()
    }
}

} // verus!
