//! The scan tree: one node for each directory, holding the totals of its
//! subtree and the nodes of its subdirectories, keyed by path.

use crate::snapshot::Timestamp;
use vstd::hash_map::StringHashMap;
use vstd::prelude::*;

verus! {

/// The mathematical value of a [`DirStat`].
pub struct DirTree {
    pub path: Seq<char>,
    pub total_size: u64,
    pub file_count: u64,
    pub last_scan: Timestamp,
    pub children: Seq<DirTree>,
}

/// Whether one of `nodes` has the path `path`.
pub open spec fn has_path(nodes: Seq<DirTree>, path: Seq<char>) -> bool {
    exists|i: int| 0 <= i < nodes.len() && #[trigger] nodes[i].path == path
}

/// The place of a node with the path `path` among `nodes`.
pub open spec fn place_of(nodes: Seq<DirTree>, path: Seq<char>) -> int {
    choose|i: int| 0 <= i < nodes.len() && #[trigger] nodes[i].path == path
}

/// No two of `nodes` have the same path.
pub open spec fn distinct_paths(nodes: Seq<DirTree>) -> bool {
    forall|i: int, j: int|
        0 <= i < j < nodes.len() ==> #[trigger] nodes[i].path != #[trigger] nodes[j].path
}

/// `nodes` after `node` was put in under its own path: in the place of the
/// node that had that path, or else at the end.
pub open spec fn with_node(nodes: Seq<DirTree>, node: DirTree) -> Seq<DirTree> {
    if has_path(nodes, node.path) {
        nodes.update(place_of(nodes, node.path), node)
    } else {
        nodes.push(node)
    }
}

/// The paths of the first `n` children of `node` and of all nodes below them:
/// each child is followed by what lies below it.
pub open spec fn paths_below_upto(node: DirTree, n: nat) -> Seq<Seq<char>>
    decreases node, n,
{
    if n == 0 || n > node.children.len() {
        Seq::empty()
    } else {
        paths_below_upto(node, (n - 1) as nat).push(node.children[n - 1].path) + paths_below(
            node.children[n - 1],
        )
    }
}

/// The paths of all nodes below `node`, at any depth.
pub open spec fn paths_below(node: DirTree) -> Seq<Seq<char>>
    decreases node, node.children.len() + 1,
{
    paths_below_upto(node, node.children.len())
}

impl DirTree {
    /// A node without children.
    pub open spec fn leaf(
        path: Seq<char>,
        total_size: u64,
        file_count: u64,
        last_scan: Timestamp,
    ) -> DirTree {
        DirTree { path, total_size, file_count, last_scan, children: Seq::empty() }
    }

    /// The children form a mapping: no path occurs twice among them, at any
    /// depth.
    pub open spec fn wf(self) -> bool
        decreases self,
    {
        &&& distinct_paths(self.children)
        &&& forall|i: int| 0 <= i < self.children.len() ==> (#[trigger] self.children[i]).wf()
    }

    /// The child kept under `path`, if there is one.
    pub open spec fn child(self, path: Seq<char>) -> Option<DirTree> {
        if has_path(self.children, path) {
            Some(self.children[place_of(self.children, path)])
        } else {
            None
        }
    }

    /// This node with `children` in place of its own.
    pub open spec fn with_children(self, children: Seq<DirTree>) -> DirTree {
        DirTree { children, ..self }
    }
}

/// Statistics for a directory and its contents.
///
/// The nodes of the subdirectories are kept in the order in which they were
/// put in, with an index that finds each of them by its path.
pub struct DirStat {
    path: String,
    total_size: u64,
    file_count: u64,
    last_scan: Timestamp,
    children: Vec<DirStat>,
    places: StringHashMap<usize>,
}

/// The values of the first `n` of `nodes`.
pub closed spec fn views_upto(nodes: Seq<DirStat>, n: nat) -> Seq<DirTree>
    decreases nodes, n,
{
    if n == 0 || n > nodes.len() {
        Seq::empty()
    } else {
        views_upto(nodes, (n - 1) as nat).push(nodes[n - 1].view())
    }
}

/// The values of `nodes`, in order.
pub open spec fn views(nodes: Seq<DirStat>) -> Seq<DirTree> {
    views_upto(nodes, nodes.len())
}

impl View for DirStat {
    type V = DirTree;

    closed spec fn view(&self) -> DirTree
        decreases self, 0nat,
    {
        DirTree {
            path: self.path@,
            total_size: self.total_size,
            file_count: self.file_count,
            last_scan: self.last_scan,
            children: views_upto(self.children@, self.children@.len()),
        }
    }
}

/// `views_upto` maps the first `n` nodes to their values, one for one.
pub proof fn lemma_views_upto(nodes: Seq<DirStat>, n: nat)
    requires
        n <= nodes.len(),
    ensures
        views_upto(nodes, n).len() == n,
        forall|i: int| 0 <= i < n ==> #[trigger] views_upto(nodes, n)[i] == nodes[i]@,
    decreases n,
{
    if n > 0 {
        lemma_views_upto(nodes, (n - 1) as nat);
        assert(views_upto(nodes, n) == views_upto(nodes, (n - 1) as nat).push(nodes[n - 1]@));
    } else {
        assert(views_upto(nodes, n) == Seq::<DirTree>::empty());
    }
}

/// `views` maps each node to its value, one for one.
pub proof fn lemma_views(nodes: Seq<DirStat>)
    ensures
        views(nodes).len() == nodes.len(),
        forall|i: int| 0 <= i < nodes.len() ==> #[trigger] views(nodes)[i] == nodes[i]@,
{
    lemma_views_upto(nodes, nodes.len());
}

/// Among distinct paths a path has one place only.
pub proof fn lemma_place_of(nodes: Seq<DirTree>, i: int)
    requires
        distinct_paths(nodes),
        0 <= i < nodes.len(),
    ensures
        has_path(nodes, nodes[i].path),
        place_of(nodes, nodes[i].path) == i,
{
    let j = place_of(nodes, nodes[i].path);
    assert(0 <= j < nodes.len() && nodes[j].path == nodes[i].path);
    if i < j {
        assert(nodes[i].path != nodes[j].path);
    } else if j < i {
        assert(nodes[j].path != nodes[i].path);
    }
}

/// Putting a well-formed node among distinct well-formed nodes keeps them so.
pub proof fn lemma_with_node_wf(nodes: Seq<DirTree>, node: DirTree)
    requires
        distinct_paths(nodes),
        forall|i: int| 0 <= i < nodes.len() ==> (#[trigger] nodes[i]).wf(),
        node.wf(),
    ensures
        distinct_paths(with_node(nodes, node)),
        forall|i: int|
            0 <= i < with_node(nodes, node).len() ==> (#[trigger] with_node(nodes, node)[i]).wf(),
        has_path(with_node(nodes, node), node.path),
{
    let after = with_node(nodes, node);
    if has_path(nodes, node.path) {
        let k = place_of(nodes, node.path);
        assert(after[k].path == node.path);
        assert forall|i: int, j: int| 0 <= i < j < after.len() implies #[trigger] after[i].path
            != #[trigger] after[j].path by {
            assert(nodes[i].path != nodes[j].path);
        }
    } else {
        assert(after[nodes.len() as int].path == node.path);
        assert forall|i: int, j: int| 0 <= i < j < after.len() implies #[trigger] after[i].path
            != #[trigger] after[j].path by {
            if j < nodes.len() {
                assert(nodes[i].path != nodes[j].path);
            } else {
                assert(nodes[i].path != node.path);
            }
        }
    }
}

/// The index finds each of the first `n` of `nodes` by its path, and nothing
/// else: a path that it holds leads to a node with that path.
spec fn covers(places: Map<Seq<char>, usize>, nodes: Seq<DirStat>, n: int) -> bool {
    &&& forall|path: Seq<char>| #[trigger]
        places.contains_key(path) ==> places[path] < n && nodes[places[path] as int].path@ == path
    &&& forall|i: int| 0 <= i < n ==> places.contains_key((#[trigger] nodes[i]).path@)
}

/// An index that finds each of `nodes` by its path.
fn index_of(nodes: &Vec<DirStat>) -> (places: StringHashMap<usize>)
    ensures
        covers(places@, nodes@, nodes@.len() as int),
{
    let mut places: StringHashMap<usize> = StringHashMap::new();
    let mut i: usize = 0;
    while i < nodes.len()
        invariant
            i <= nodes.len(),
            covers(places@, nodes@, i as int),
        decreases nodes.len() - i,
    {
        places.insert(nodes[i].path.clone(), i);
        i += 1;
    }
    places
}

impl Clone for DirStat {
    fn clone(&self) -> (copy: Self)
        ensures
            copy@ == self@,
            copy.indexed(),
            self.wf() ==> copy.wf(),
        decreases self,
    {
        let mut children: Vec<DirStat> = Vec::new();
        let mut i: usize = 0;
        while i < self.children.len()
            invariant
                i <= self.children.len(),
                children.len() == i,
                forall|k: int| 0 <= k < i ==> (#[trigger] children@[k])@ == self.children@[k]@,
                forall|k: int| 0 <= k < i ==> (#[trigger] children@[k]).indexed(),
            decreases self.children.len() - i,
        {
            let child = self.children[i].clone();
            children.push(child);
            i += 1;
        }
        let places = index_of(&children);
        let copy = DirStat {
            path: self.path.clone(),
            total_size: self.total_size,
            file_count: self.file_count,
            last_scan: self.last_scan,
            children,
            places,
        };
        proof {
            lemma_views(copy.children@);
            lemma_views(self.children@);
            assert(copy@.children =~= self@.children);
        }
        copy
    }
}

impl DirStat {
    /// The index finds every child by its path, at every depth.
    pub closed spec fn indexed(&self) -> bool
        decreases self,
    {
        &&& covers(self.places@, self.children@, self.children@.len() as int)
        &&& forall|i: int|
            0 <= i < self.children@.len() ==> (#[trigger] self.children@[i]).indexed()
    }

    /// The children form a mapping: no path occurs twice among them, at any
    /// depth, and the index finds each of them.
    pub open spec fn wf(&self) -> bool {
        self@.wf() && self.indexed()
    }

    /// The value of this node is made of its fields and the values of its
    /// children.
    proof fn lemma_view(&self)
        ensures
            self@.path == self.path@,
            self@.total_size == self.total_size,
            self@.file_count == self.file_count,
            self@.last_scan == self.last_scan,
            self@.children == views(self.children@),
            views(self.children@).len() == self.children@.len(),
            forall|i: int|
                0 <= i < self.children@.len() ==> #[trigger] views(self.children@)[i]
                    == self.children@[i]@,
    {
        lemma_views(self.children@);
    }

    /// A node for `path` with the given totals and no children.
    pub fn new(path: String, total_size: u64, file_count: u64, last_scan: Timestamp) -> (node:
        DirStat)
        ensures
            node@ == DirTree::leaf(path@, total_size, file_count, last_scan),
            node.wf(),
    {
        DirStat {
            path,
            total_size,
            file_count,
            last_scan,
            children: Vec::new(),
            places: StringHashMap::new(),
        }
    }

    /// The total size in bytes of the files in this directory and below.
    pub fn total_size(&self) -> (size: u64)
        ensures
            size == self@.total_size,
    {
        self.total_size
    }

    /// The number of files in this directory and below.
    pub fn file_count(&self) -> (count: u64)
        ensures
            count == self@.file_count,
    {
        self.file_count
    }

    /// When this directory was last scanned.
    pub fn last_scan(&self) -> (time: Timestamp)
        ensures
            time == self@.last_scan,
    {
        self.last_scan
    }

    /// The path of this directory.
    pub fn path(&self) -> (path: &str)
        ensures
            path@ == self@.path,
    {
        self.path.as_str()
    }

    /// The nodes of the subdirectories, in the order in which they were put
    /// in.
    pub fn children(&self) -> (children: &Vec<DirStat>)
        ensures
            views(children@) == self@.children,
            self.wf() ==> forall|i: int|
                0 <= i < children@.len() ==> (#[trigger] children@[i]).wf(),
    {
        proof {
            self.lemma_view();
            if self.wf() {
                assert forall|i: int| 0 <= i < self.children@.len() implies (
                #[trigger] self.children@[i]).wf() by {
                    assert(self@.children[i].wf());
                }
            }
        }
        &self.children
    }

    /// The node kept for the subdirectory `path`, if there is one.
    pub fn child(&self, path: &str) -> (found: Option<&DirStat>)
        requires
            self.wf(),
        ensures
            match found {
                Some(node) => self@.child(path@) == Some(node@) && node.wf(),
                None => self@.child(path@) is None,
            },
    {
        proof {
            self.lemma_view();
        }
        match self.places.get(path) {
            Some(place) => {
                let i = *place;
                proof {
                    assert(self.children@[i as int].path@ == path@);
                    self.children@[i as int].lemma_view();
                    lemma_place_of(self@.children, i as int);
                    assert(self@.children[i as int].wf());
                }
                Some(&self.children[i])
            },
            None => {
                proof {
                    if has_path(self@.children, path@) {
                        let i = place_of(self@.children, path@);
                        self.children@[i].lemma_view();
                        assert(self.places@.contains_key(self.children@[i].path@));
                    }
                }
                None
            },
        }
    }

    /// Puts `child` among the children under its own path, in the place of
    /// the child that had that path, if there was one.
    pub fn insert_child(&mut self, child: DirStat)
        requires
            old(self).wf(),
            child.wf(),
        ensures
            final(self).wf(),
            final(self)@ == old(self)@.with_children(with_node(old(self)@.children, child@)),
    {
        proof {
            self.lemma_view();
            child.lemma_view();
            lemma_with_node_wf(self@.children, child@);
        }
        let ghost before = self@;
        let ghost nodes = self.children@;
        let ghost node = child@;
        let found = match self.places.get(child.path.as_str()) {
            Some(place) => Some(*place),
            None => None,
        };
        match found {
            Some(i) => {
                proof {
                    nodes[i as int].lemma_view();
                    lemma_place_of(before.children, i as int);
                }
                self.children[i] = child;
            },
            None => {
                proof {
                    if has_path(before.children, node.path) {
                        let i = place_of(before.children, node.path);
                        nodes[i].lemma_view();
                        assert(self.places@.contains_key(nodes[i].path@));
                    }
                }
                let at = self.children.len();
                self.places.insert(child.path.clone(), at);
                self.children.push(child);
            },
        }
        proof {
            self.lemma_view();
            assert(self@.children =~= with_node(before.children, node));
        }
    }

    /// Sets the totals of this node and the time of its scan.
    pub fn set_totals(&mut self, total_size: u64, file_count: u64, last_scan: Timestamp)
        ensures
            final(self)@ == (DirTree { total_size, file_count, last_scan, ..old(self)@ }),
            old(self).wf() ==> final(self).wf(),
    {
        proof {
            self.lemma_view();
        }
        self.total_size = total_size;
        self.file_count = file_count;
        self.last_scan = last_scan;
        proof {
            self.lemma_view();
        }
    }

    /// Takes the children out of this node, which is left without any.
    pub fn take_children(&mut self) -> (children: Vec<DirStat>)
        ensures
            views(children@) == old(self)@.children,
            old(self).wf() ==> forall|i: int|
                0 <= i < children@.len() ==> (#[trigger] children@[i]).wf(),
            final(self)@ == old(self)@.with_children(Seq::empty()),
            final(self).wf(),
    {
        proof {
            self.lemma_view();
            if self.wf() {
                assert forall|i: int| 0 <= i < self.children@.len() implies (
                #[trigger] self.children@[i]).wf() by {
                    assert(self@.children[i].wf());
                }
            }
        }
        let mut children: Vec<DirStat> = Vec::new();
        std::mem::swap(&mut children, &mut self.children);
        self.places = StringHashMap::new();
        proof {
            self.lemma_view();
            assert(self@.children =~= Seq::<DirTree>::empty());
        }
        children
    }

    /// Puts `children` in the place of the children of this node.
    pub fn set_children(&mut self, children: Vec<DirStat>)
        requires
            distinct_paths(views(children@)),
            forall|i: int| 0 <= i < children@.len() ==> (#[trigger] children@[i]).wf(),
        ensures
            final(self)@ == old(self)@.with_children(views(children@)),
            final(self).wf(),
    {
        proof {
            self.lemma_view();
            lemma_views(children@);
        }
        self.places = index_of(&children);
        self.children = children;
        proof {
            self.lemma_view();
        }
    }

    /// Adds the paths of all nodes below this one, at any depth, to `paths`.
    pub fn collect_paths(&self, paths: &mut Vec<String>)
        ensures
            paths_of(final(paths)@) == paths_of(old(paths)@) + paths_below(self@),
        decreases self,
    {
        proof {
            self.lemma_view();
            assert(paths_below_upto(self@, 0) == Seq::<Seq<char>>::empty());
            assert(paths_of(paths@) + Seq::<Seq<char>>::empty() =~= paths_of(paths@));
        }
        let mut i: usize = 0;
        while i < self.children.len()
            invariant
                i <= self.children.len(),
                self@.children == views(self.children@),
                views(self.children@).len() == self.children@.len(),
                forall|k: int|
                    0 <= k < self.children@.len() ==> #[trigger] views(self.children@)[k]
                        == self.children@[k]@,
                paths_of(paths@) == paths_of(old(paths)@) + paths_below_upto(self@, i as nat),
            decreases self.children.len() - i,
        {
            let ghost before = paths@;
            let child = &self.children[i];
            proof {
                child.lemma_view();
            }
            paths.push(child.path.clone());
            let ghost pushed = paths@;
            child.collect_paths(paths);
            proof {
                assert(paths_of(pushed) =~= paths_of(before).push(child@.path));
                assert(paths_below_upto(self@, (i + 1) as nat) == paths_below_upto(
                    self@,
                    i as nat,
                ).push(child@.path) + paths_below(child@));
                assert(paths_of(paths@) =~= paths_of(old(paths)@) + paths_below_upto(
                    self@,
                    (i + 1) as nat,
                ));
            }
            i += 1;
        }
    }
}

/// The paths that the strings stand for.
pub open spec fn paths_of(paths: Seq<String>) -> Seq<Seq<char>> {
    paths.map_values(|path: String| path@)
}

} // verus!
