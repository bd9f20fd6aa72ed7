//! A survey that was answered truthfully and has come to its end holds all
//! that a scan looks at: the scan of what it recorded is the scan of the
//! whole filesystem.

use crate::agreement::{agree_at, agree_below, lemma_counts_agree, lemma_scans_agree};
use crate::listing::subdirs;
use crate::scanner::{counted, scan};
use crate::snapshot::{PathProbe, Snapshot, Timestamp};
use crate::survey::{
    accepted, found_below, handed_out, started, took_note, without_asked, Survey,
};
use crate::tree::{paths_below, paths_below_upto, DirTree};
use vstd::prelude::*;

verus! {

/// What a truthful caller hands back for `path`: what the filesystem `world`
/// holds about it, and nothing where nothing exists there.
pub open spec fn answer(world: Snapshot, path: Seq<char>) -> Option<PathProbe> {
    if world.has(path) {
        Some(world@[path])
    } else {
        None
    }
}

/// The survey has `path` on its list: it is still to be asked about, or it
/// was handed out.
pub open spec fn covered(survey: Survey, path: Seq<char>) -> bool {
    survey.asked().contains(path) || survey.pending().contains(path)
}

/// The survey holds the truth about the filesystem `world` as far as it got:
/// what it recorded is what `world` holds; about every path that it handed
/// out, but for the one that is `open`, it knows what `world` holds; and
/// every directory that a recorded listing shows is on its list.
pub open spec fn truthful(survey: Survey, world: Snapshot, open: Option<Seq<char>>) -> bool {
    &&& survey.wf()
    &&& forall|path: Seq<char>| #[trigger]
        survey.recorded().has(path) ==> world.has(path) && survey.recorded()@[path]
            == world@[path]
    &&& forall|path: Seq<char>| #[trigger]
        survey.asked().contains(path) ==> open == Some(path) || agree_at(
            survey.recorded(),
            world,
            path,
        )
    &&& forall|path: Seq<char>, k: int|
        0 <= k < subdirs(survey.recorded(), path).len() ==> covered(
            survey,
            #[trigger] subdirs(survey.recorded(), path)[k],
        )
}

/// A survey at its start is truthful, and has the directory to scan and the
/// paths of all cached nodes on its list.
pub proof fn lemma_start_is_truthful(
    survey: Survey,
    root: Seq<char>,
    cached: Option<DirTree>,
    world: Snapshot,
)
    requires
        started(survey, root, cached),
    ensures
        truthful(survey, world, None),
        covered(survey, root),
        cached matches Some(node) ==> forall|i: int|
            0 <= i < paths_below(node).len() ==> covered(survey, #[trigger] paths_below(node)[i]),
{
    assert(survey.pending()[0] == root);
    if cached is Some {
        let node = cached->Some_0;
        assert forall|i: int| 0 <= i < paths_below(node).len() implies covered(
            survey,
            #[trigger] paths_below(node)[i],
        ) by {
            assert(survey.pending()[i + 1] == paths_below(node)[i]);
        }
    }
}

/// What `without_asked` leaves out of the pending paths was asked about.
proof fn lemma_without_asked(pending: Seq<Seq<char>>, asked: Set<Seq<char>>, path: Seq<char>)
    requires
        pending.contains(path),
    ensures
        asked.contains(path) || without_asked(pending, asked).contains(path),
    decreases pending.len(),
{
    if pending.len() > 0 && asked.contains(pending.last()) {
        let i = choose|i: int| 0 <= i < pending.len() && pending[i] == path;
        if i < pending.len() - 1 {
            assert(pending.drop_last()[i] == path);
            lemma_without_asked(pending.drop_last(), asked, path);
        }
    }
}

/// Handing out a path keeps a survey truthful, with the path open, and keeps
/// every path on its list. Where no path is left to hand out, none is
/// pending.
pub proof fn lemma_next_keeps_truth(
    before: Survey,
    after: Survey,
    path: Option<Seq<char>>,
    world: Snapshot,
)
    requires
        truthful(before, world, None),
        handed_out(before, after, path),
    ensures
        truthful(after, world, path),
        path is None ==> after.pending().len() == 0,
        forall|other: Seq<char>| covered(before, other) ==> #[trigger] covered(after, other),
{
    let rest = without_asked(before.pending(), before.asked());
    assert forall|other: Seq<char>| covered(before, other) implies #[trigger] covered(
        after,
        other,
    ) by {
        if !before.asked().contains(other) {
            lemma_without_asked(before.pending(), before.asked(), other);
            let i = choose|i: int| 0 <= i < rest.len() && rest[i] == other;
            if path is Some && i < rest.len() - 1 {
                assert(rest.drop_last()[i] == other);
            }
        }
    }
    assert forall|p: Seq<char>, k: int|
        0 <= k < subdirs(after.recorded(), p).len() implies covered(
        after,
        #[trigger] subdirs(after.recorded(), p)[k],
    ) by {
        assert(covered(before, subdirs(before.recorded(), p)[k]));
    }
}

/// Taking note of a truthful answer for the open path keeps a survey
/// truthful, with no path open, and keeps every path on its list.
pub proof fn lemma_record_keeps_truth(
    before: Survey,
    after: Survey,
    path: Seq<char>,
    world: Snapshot,
)
    requires
        world.wf(),
        truthful(before, world, Some(path)),
        took_note(before, after, path, answer(world, path)),
    ensures
        truthful(after, world, None),
        forall|other: Seq<char>| covered(before, other) ==> #[trigger] covered(after, other),
{
    let found = answer(world, path);
    assert forall|other: Seq<char>| covered(before, other) implies #[trigger] covered(
        after,
        other,
    ) by {
        if before.pending().contains(other) {
            let i = choose|i: int| 0 <= i < before.pending().len() && before.pending()[i] == other;
            assert(after.pending()[i] == other);
        }
    }
    if found is Some {
        let probe = found->Some_0;
        world.lemma_listing_below(path);
        assert(accepted(path, probe) == probe);
        assert forall|p: Seq<char>, k: int|
            0 <= k < subdirs(after.recorded(), p).len() implies covered(
            after,
            #[trigger] subdirs(after.recorded(), p)[k],
        ) by {
            if p == path {
                let below = found_below(path, probe);
                assert(subdirs(after.recorded(), p) == below);
                assert(after.pending()[before.pending().len() + k] == below[k]);
            } else {
                assert(subdirs(after.recorded(), p) == subdirs(before.recorded(), p));
                assert(covered(before, subdirs(before.recorded(), p)[k]));
            }
        }
        assert forall|p: Seq<char>| #[trigger] after.asked().contains(p) implies agree_at(
            after.recorded(),
            world,
            p,
        ) by {
            if p != path {
                assert(agree_at(before.recorded(), world, p));
            }
        }
    } else {
        assert forall|p: Seq<char>, k: int|
            0 <= k < subdirs(after.recorded(), p).len() implies covered(
            after,
            #[trigger] subdirs(after.recorded(), p)[k],
        ) by {
            assert(covered(before, subdirs(before.recorded(), p)[k]));
        }
        assert forall|p: Seq<char>| #[trigger] after.asked().contains(p) implies agree_at(
            after.recorded(),
            world,
            p,
        ) by {
            if p == path {
                assert(!before.recorded().has(path));
            }
        }
    }
    assert forall|p: Seq<char>| #[trigger] after.recorded().has(p) implies world.has(p)
        && after.recorded()@[p] == world@[p] by {
        if !(found is Some && p == path) {
            assert(before.recorded().has(p));
        }
    }
}

/// The path of every node below `node` is among the paths below it.
proof fn lemma_paths_below(node: DirTree, n: nat, j: int)
    requires
        n <= node.children.len(),
        0 <= j < n,
    ensures
        paths_below_upto(node, n).contains(node.children[j].path),
        forall|i: int|
            0 <= i < paths_below(node.children[j]).len() ==> paths_below_upto(node, n).contains(
                #[trigger] paths_below(node.children[j])[i],
            ),
    decreases n,
{
    let before = paths_below_upto(node, (n - 1) as nat);
    let last = node.children[n - 1];
    let now = paths_below_upto(node, n);
    assert(now == before.push(last.path) + paths_below(last));
    if j < n - 1 {
        lemma_paths_below(node, (n - 1) as nat, j);
        let at = choose|at: int| 0 <= at < before.len() && before[at] == node.children[j].path;
        assert(now[at] == node.children[j].path);
        assert forall|i: int| 0 <= i < paths_below(node.children[j]).len() implies now.contains(
            #[trigger] paths_below(node.children[j])[i],
        ) by {
            let at = choose|at: int|
                0 <= at < before.len() && before[at] == paths_below(node.children[j])[i];
            assert(now[at] == paths_below(node.children[j])[i]);
        }
    } else {
        assert(now[before.len() as int] == last.path);
        assert forall|i: int| 0 <= i < paths_below(last).len() implies now.contains(
            #[trigger] paths_below(last)[i],
        ) by {
            assert(now[before.len() + 1 + i] == paths_below(last)[i]);
        }
    }
}

/// Snapshots that report the same about every path below a node agree below
/// the node.
proof fn lemma_agree_below(part: Snapshot, whole: Snapshot, node: DirTree)
    requires
        forall|i: int|
            0 <= i < paths_below(node).len() ==> agree_at(
                part,
                whole,
                #[trigger] paths_below(node)[i],
            ),
    ensures
        agree_below(part, whole, node),
    decreases node,
{
    assert forall|j: int| 0 <= j < node.children.len() implies agree_at(
        part,
        whole,
        (#[trigger] node.children[j]).path,
    ) && agree_below(part, whole, node.children[j]) by {
        let child = node.children[j];
        lemma_paths_below(node, node.children.len(), j);
        let at = choose|at: int|
            0 <= at < paths_below(node).len() && paths_below(node)[at] == child.path;
        assert(agree_at(part, whole, paths_below(node)[at]));
        assert forall|i: int| 0 <= i < paths_below(child).len() implies agree_at(
            part,
            whole,
            #[trigger] paths_below(child)[i],
        ) by {
            let at = choose|at: int|
                0 <= at < paths_below(node).len() && paths_below(node)[at] == paths_below(
                    child,
                )[i];
            assert(agree_at(part, whole, paths_below(node)[at]));
        }
        lemma_agree_below(part, whole, child);
    }
}

/// The scan of a complete survey is the scan of the filesystem: where a
/// truthful survey has no path left to ask about, and had the directory to
/// scan and the paths of all nodes below the cached node on its list, a scan
/// and a count of files give in what it recorded what they give in the whole
/// filesystem.
pub proof fn lemma_complete_survey(
    survey: Survey,
    world: Snapshot,
    root: Seq<char>,
    cache: Option<DirTree>,
    now: Timestamp,
)
    requires
        world.wf(),
        truthful(survey, world, None),
        survey.pending().len() == 0,
        covered(survey, root),
        cache matches Some(node) ==> forall|i: int|
            0 <= i < paths_below(node).len() ==> covered(survey, #[trigger] paths_below(node)[i]),
    ensures
        scan(survey.recorded(), root, cache, now) == scan(world, root, cache, now),
        counted(survey.recorded(), root) == counted(world, root),
{
    let part = survey.recorded();
    assert forall|path: Seq<char>, k: int| 0 <= k < subdirs(part, path).len() implies agree_at(
        part,
        world,
        #[trigger] subdirs(part, path)[k],
    ) by {
        assert(covered(survey, subdirs(part, path)[k]));
    }
    if cache is Some {
        let node = cache->Some_0;
        assert forall|i: int| 0 <= i < paths_below(node).len() implies agree_at(
            part,
            world,
            #[trigger] paths_below(node)[i],
        ) by {
            assert(covered(survey, paths_below(node)[i]));
        }
        lemma_agree_below(part, world, node);
    }
    lemma_scans_agree(part, world, root, cache, now);
    lemma_counts_agree(part, world, root);
}

} // verus!
