//! Gathering a snapshot: which paths a scan has to ask the filesystem about,
//! and what becomes of the answers.
//!
//! A survey starts from the directory to scan and the paths that a cached
//! node keeps nodes for. It hands out one path at a time; the caller asks the
//! filesystem about it and hands back what it found, and the directories that
//! a listing shows are asked about in turn.

use crate::listing::{subdirectories, subdirs_upto};
use crate::snapshot::{IoFailure, PathProbe, Snapshot};
use crate::tree::{paths_below, paths_of, DirStat, DirTree};
use vstd::hash_map::StringHashMap;
use vstd::prelude::*;

verus! {

/// The state of a survey: what was recorded so far, the paths that are still
/// to be asked about, and the paths that were handed out already.
pub struct Survey {
    snapshot: Snapshot,
    pending: Vec<String>,
    asked: StringHashMap<bool>,
}

/// `pending` without the paths at its end that were asked about already.
pub open spec fn without_asked(pending: Seq<Seq<char>>, asked: Set<Seq<char>>) -> Seq<Seq<char>>
    decreases pending.len(),
{
    if pending.len() > 0 && asked.contains(pending.last()) {
        without_asked(pending.drop_last(), asked)
    } else {
        pending
    }
}

/// What is recorded for a path at which the filesystem reported `probe`: the
/// probe itself, or, where its listing holds an entry that does not lie below
/// the path, the probe with a listing that counts as unreadable.
pub open spec fn accepted(path: Seq<char>, probe: PathProbe) -> PathProbe {
    if crate::snapshot::listing_below(path, probe) {
        probe
    } else {
        PathProbe { modified: probe.modified, listing: Err(IoFailure::Other) }
    }
}

/// The paths that a probe adds to the paths to ask about: the directories
/// that its listing shows, where it is accepted as it is.
pub open spec fn found_below(path: Seq<char>, probe: PathProbe) -> Seq<Seq<char>> {
    match probe.listing {
        Ok(entries) => if crate::snapshot::listing_below(path, probe) {
            subdirs_upto(entries@, entries@.len())
        } else {
            Seq::empty()
        },
        Err(_) => Seq::empty(),
    }
}

/// The survey `survey` is at its start, for a scan of the directory at `root`
/// that starts from the node `cached`: nothing is recorded, nothing was
/// handed out, and the paths to ask about are `root` and the paths of all
/// nodes below `cached`.
pub open spec fn started(survey: Survey, root: Seq<char>, cached: Option<DirTree>) -> bool {
    &&& survey.wf()
    &&& survey.recorded()@ == Map::<Seq<char>, PathProbe>::empty()
    &&& survey.pending() == seq![root] + match cached {
        Some(node) => paths_below(node),
        None => Seq::<Seq<char>>::empty(),
    }
    &&& survey.asked() == Set::<Seq<char>>::empty()
}

/// The survey went from `before` to `after` by handing out `path`: the last
/// of the pending paths that was not handed out before, or none where there
/// is no such path.
pub open spec fn handed_out(before: Survey, after: Survey, path: Option<Seq<char>>) -> bool {
    let rest = without_asked(before.pending(), before.asked());
    &&& after.recorded() == before.recorded()
    &&& match path {
        Some(next) => {
            &&& rest.len() > 0
            &&& next == rest.last()
            &&& after.pending() == rest.drop_last()
            &&& after.asked() == before.asked().insert(next)
        },
        None => {
            &&& rest.len() == 0
            &&& after.pending() == rest
            &&& after.asked() == before.asked()
        },
    }
}

/// The survey went from `before` to `after` by taking note of what was found
/// at `path`.
pub open spec fn took_note(
    before: Survey,
    after: Survey,
    path: Seq<char>,
    found: Option<PathProbe>,
) -> bool {
    &&& after.wf()
    &&& after.asked() == before.asked()
    &&& match found {
        None => {
            &&& after.recorded() == before.recorded()
            &&& after.pending() == before.pending()
        },
        Some(probe) => {
            &&& after.recorded()@ == before.recorded()@.insert(path, accepted(path, probe))
            &&& after.pending() == before.pending() + found_below(path, probe)
        },
    }
}

impl Survey {
    /// What was recorded so far.
    pub closed spec fn recorded(&self) -> Snapshot {
        self.snapshot
    }

    /// The paths that are still to be asked about; the last comes first.
    pub closed spec fn pending(&self) -> Seq<Seq<char>> {
        paths_of(self.pending@)
    }

    /// The paths that were handed out already.
    pub closed spec fn asked(&self) -> Set<Seq<char>> {
        self.asked@.dom()
    }

    /// What was recorded so far is a well-formed snapshot.
    pub open spec fn wf(&self) -> bool {
        self.recorded().wf()
    }

    /// A survey for a scan of the directory at `root` that starts from the
    /// node `cached`: the paths to ask about are `root` and the paths of all
    /// nodes below `cached`.
    pub fn new(root: String, cached: Option<&DirStat>) -> (survey: Survey)
        ensures
            started(
                survey,
                root@,
                match cached {
                    Some(node) => Some(node@),
                    None => None,
                },
            ),
    {
        let mut pending: Vec<String> = Vec::new();
        pending.push(root);
        assert(paths_of(pending@) =~= seq![root@]);
        if let Some(node) = cached {
            node.collect_paths(&mut pending);
        } else {
            assert(paths_of(pending@) =~= seq![root@] + Seq::<Seq<char>>::empty());
        }
        let survey = Survey { snapshot: Snapshot::new(), pending, asked: StringHashMap::new() };
        assert(survey.asked() =~= Set::<Seq<char>>::empty());
        survey
    }

    /// Hands out the next path to ask the filesystem about: the last of the
    /// pending paths that was not handed out before. There is none where all
    /// pending paths were asked about; the survey is then complete.
    pub fn next(&mut self) -> (path: Option<String>)
        ensures
            old(self).wf() ==> final(self).wf(),
            handed_out(
                *old(self),
                *final(self),
                match path {
                    Some(next) => Some(next@),
                    None => None,
                },
            ),
    {
        loop
            invariant
                self.snapshot == old(self).snapshot,
                self.asked == old(self).asked,
                without_asked(paths_of(self.pending@), self.asked@.dom()) == without_asked(
                    paths_of(old(self).pending@),
                    old(self).asked@.dom(),
                ),
            decreases self.pending.len(),
        {
            let ghost before = self.pending@;
            match self.pending.pop() {
                None => {
                    assert(paths_of(self.pending@) =~= Seq::<Seq<char>>::empty());
                    return None;
                },
                Some(path) => {
                    proof {
                        assert(paths_of(before).last() == path@);
                        assert(paths_of(self.pending@) =~= paths_of(before).drop_last());
                    }
                    if !self.asked.contains_key(path.as_str()) {
                        self.asked.insert(path.clone(), true);
                        assert(self.asked@.dom() =~= old(self).asked@.dom().insert(path@));
                        return Some(path);
                    }
                },
            }
        }
    }

    /// Takes note of what the filesystem reported about `path`: nothing where
    /// nothing exists there, and otherwise its probe. A probe is recorded,
    /// and the directories that its listing shows are added to the paths to
    /// ask about. A listing with an entry that does not lie below `path` is
    /// not followed: it is recorded as unreadable.
    pub fn record(&mut self, path: String, found: Option<PathProbe>)
        requires
            old(self).wf(),
        ensures
            took_note(*old(self), *final(self), path@, found),
    {
        let probe = match found {
            None => {
                return ;
            },
            Some(probe) => probe,
        };
        let ghost given = probe;
        let ghost before = self.pending@;
        let modified = probe.modified;
        let mut below = match &probe.listing {
            Ok(entries) => subdirectories(entries),
            Err(_) => Vec::new(),
        };
        if self.snapshot.record(path.clone(), probe) {
            let ghost added = below@;
            self.pending.append(&mut below);
            proof {
                assert(paths_of(self.pending@) =~= paths_of(before) + paths_of(added));
                assert(paths_of(added) =~= found_below(path@, given));
            }
        } else {
            let unreadable = PathProbe { modified, listing: Err(IoFailure::Other) };
            let recorded = self.snapshot.record(path, unreadable);
            assert(recorded);
            assert(paths_of(self.pending@) =~= paths_of(before) + Seq::<Seq<char>>::empty());
        }
    }

    /// Ends the survey and gives what was recorded.
    pub fn finish(self) -> (snapshot: Snapshot)
        ensures
            snapshot == self.recorded(),
    {
        self.snapshot
    }
}

} // verus!
