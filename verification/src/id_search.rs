//! The search for the namespace that a newly assigned id belongs to.
//!
//! The search asks the kernel, file by file, which id the namespace behind
//! the file has, and stops at the first file whose namespace has the id in
//! question. It goes through three tiers: the namespaces of the inventory,
//! then the `nsfs` mounts of a rescanned mount table, then the namespace
//! handles of all processes. The search itself decides which file is next
//! and when a tier is exhausted; the caller opens the files and asks.
use crate::mount_monitor::{mount_views, nsfs_mount_paths, nsfs_paths, MountPoint};
use crate::netns::{INode, NsId};
use crate::netns_tracker::{file_views, State};
use crate::paths::{sorted_unique, strictly_sorted_texts};
use crate::procfs::{names_process, parse_procfs_path_start};
use crate::search::lemma_filter_step;
use crate::text::views;
use vstd::prelude::*;
use vstd::string::*;

verus! {

/// The tiers of the search, in the order in which they are gone through.
#[derive(Debug, Clone, Copy, PartialEq, Eq, Structural)]
pub enum Tier {
    /// The namespaces of the inventory, each through any of its files.
    Known,
    /// The `nsfs` mounts of the mount table.
    Mounts,
    /// The namespace handles of all processes.
    Processes,
}

/// A file whose namespace may have the id in question.
#[derive(Debug, PartialEq)]
pub struct Candidate {
    /// The file to open.
    pub path: String,
    /// The inode of the namespace behind the file, where the inventory knows
    /// it; where it does not, the caller has to ask for it.
    pub inode: Option<INode>,
}

/// What `Candidate` holds, as mathematical values.
pub struct CandidateView {
    pub path: Seq<char>,
    pub inode: Option<INode>,
}

impl View for Candidate {
    type V = CandidateView;

    open spec fn view(&self) -> CandidateView {
        CandidateView { path: self.path@, inode: self.inode }
    }
}

/// What a list of candidates holds, in order.
pub open spec fn candidate_views(v: Seq<Candidate>) -> Seq<CandidateView> {
    Seq::new(v.len(), |i: int| v[i]@)
}

/// What the search needs next.
#[derive(Debug, PartialEq)]
pub enum SearchStep {
    /// The id of the namespace behind this file, and its inode where the
    /// candidate does not know it; the answer goes to `IdSearch::probed`.
    Probe(Candidate),
    /// The mount table, to go on with its `nsfs` mounts; it goes to
    /// `IdSearch::load_mounts`.
    ScanMounts,
    /// The namespace handles of all processes; they go to
    /// `IdSearch::load_processes`.
    ScanProcesses,
    /// Nothing: every tier is exhausted and no namespace has the id.
    GiveUp,
}

/// What `SearchStep` holds, as mathematical values.
pub enum SearchStepView {
    Probe(CandidateView),
    ScanMounts,
    ScanProcesses,
    GiveUp,
}

impl View for SearchStep {
    type V = SearchStepView;

    open spec fn view(&self) -> SearchStepView {
        match self {
            SearchStep::Probe(candidate) => SearchStepView::Probe(candidate@),
            SearchStep::ScanMounts => SearchStepView::ScanMounts,
            SearchStep::ScanProcesses => SearchStepView::ScanProcesses,
            SearchStep::GiveUp => SearchStepView::GiveUp,
        }
    }
}

/// A search for the namespace that has a given id.
#[derive(Debug)]
pub struct IdSearch {
    id: NsId,
    tier: Tier,
    candidates: Vec<Candidate>,
    next: usize,
}

/// What `IdSearch` holds, as mathematical values.
pub struct IdSearchView {
    /// The id in question.
    pub id: NsId,
    /// The tier that the search is in.
    pub tier: Tier,
    /// The files of the tier, in the order in which they are tried.
    pub candidates: Seq<CandidateView>,
    /// How many of them were tried.
    pub next: int,
}

impl View for IdSearch {
    type V = IdSearchView;

    closed spec fn view(&self) -> IdSearchView {
        IdSearchView {
            id: self.id,
            tier: self.tier,
            candidates: candidate_views(self.candidates@),
            next: self.next as int,
        }
    }
}

/// The candidate of a file of a namespace whose inode the inventory knows.
pub open spec fn known_candidate() -> spec_fn((INode, Seq<char>)) -> CandidateView {
    |file: (INode, Seq<char>)| CandidateView { path: file.1, inode: Some(file.0) }
}

/// The candidate of a file of which only the path is known.
pub open spec fn unknown_candidate() -> spec_fn(Seq<char>) -> CandidateView {
    |path: Seq<char>| CandidateView { path, inode: None }
}

/// Paths that name something of a process below `/proc`.
pub open spec fn process_paths() -> spec_fn(Seq<char>) -> bool {
    |path: Seq<char>| names_process(path)
}

impl IdSearchView {
    /// What the search needs next: the next file of the tier, or what the
    /// next tier is made from, or nothing after the last tier.
    pub open spec fn step(self) -> SearchStepView {
        if 0 <= self.next < self.candidates.len() {
            SearchStepView::Probe(self.candidates[self.next])
        } else {
            match self.tier {
                Tier::Known => SearchStepView::ScanMounts,
                Tier::Mounts => SearchStepView::ScanProcesses,
                Tier::Processes => SearchStepView::GiveUp,
            }
        }
    }

    /// The namespace that the search has found when the kernel reported
    /// `nsid` as the id of the namespace behind the next file, and `inode` as
    /// its inode: the namespace of the file, if the id is the one in question
    /// and the inode is known to the candidate or was reported.
    pub open spec fn hit(self, inode: Option<INode>, nsid: Option<NsId>) -> Option<INode> {
        if 0 <= self.next < self.candidates.len() && nsid == Some(self.id) {
            match self.candidates[self.next].inode {
                Some(known) => Some(known),
                None => inode,
            }
        } else {
            None
        }
    }

    /// The search after the next file was tried without a hit.
    pub open spec fn passed(self) -> IdSearchView {
        if 0 <= self.next < self.candidates.len() {
            IdSearchView { next: self.next + 1, ..self }
        } else {
            self
        }
    }
}

impl IdSearch {
    /// A search for the namespace that has `id`, which starts with the
    /// namespaces of the inventory: one file of each that has a file, in the
    /// order of the rows.
    pub fn new(state: &State, id: NsId) -> (r: IdSearch)
        ensures
            r@ == (IdSearchView {
                id,
                tier: Tier::Known,
                candidates: state@.files().map_values(known_candidate()),
                next: 0,
            }),
    {
        let files = state.namespace_files();
        let mut candidates: Vec<Candidate> = Vec::new();
        let mut i: usize = 0;
        while i < files.len()
            invariant
                i <= files.len(),
                candidates@.len() == i,
                forall|j: int|
                    0 <= j < i ==> (#[trigger] candidates@[j])@ == known_candidate()(
                        file_views(files@)[j],
                    ),
            decreases files.len() - i,
        {
            candidates.push(Candidate { path: files[i].1.clone(), inode: Some(files[i].0) });
            i += 1;
        }
        assert(candidate_views(candidates@) =~= state@.files().map_values(known_candidate()));
        IdSearch { id, tier: Tier::Known, candidates, next: 0 }
    }

    /// What the search needs next.
    pub fn step(&self) -> (r: SearchStep)
        ensures
            r@ == self@.step(),
    {
        if self.next < self.candidates.len() {
            let candidate = &self.candidates[self.next];
            SearchStep::Probe(Candidate { path: candidate.path.clone(), inode: candidate.inode })
        } else {
            match self.tier {
                Tier::Known => SearchStep::ScanMounts,
                Tier::Mounts => SearchStep::ScanProcesses,
                Tier::Processes => SearchStep::GiveUp,
            }
        }
    }

    /// Takes the answer to the probe of the next file: `nsid` is the id of
    /// the namespace behind the file and `inode` its inode, each `None` where
    /// it could not be found out or was not asked for. Returns the namespace
    /// that has the id in question if it is the one behind the file;
    /// otherwise the search passes on to the file after it.
    pub fn probed(&mut self, inode: Option<INode>, nsid: Option<NsId>) -> (r: Option<INode>)
        ensures
            r == old(self)@.hit(inode, nsid),
            final(self)@ == if r is Some {
                old(self)@
            } else {
                old(self)@.passed()
            },
    {
        if self.next >= self.candidates.len() {
            return None;
        }
        let matches = match nsid {
            Some(found) => found == self.id,
            None => false,
        };
        if matches {
            let found = match self.candidates[self.next].inode {
                Some(known) => Some(known),
                None => inode,
            };
            if found.is_some() {
                return found;
            }
        }
        self.next = self.next + 1;
        None
    }

    /// Starts the second tier: the paths of the `nsfs` mounts of the
    /// rescanned mount table, each once, in the ascending order of strings.
    pub fn load_mounts(&mut self, mounts: &Vec<MountPoint>)
        ensures
            final(self)@.id == old(self)@.id,
            final(self)@.tier == Tier::Mounts,
            final(self)@.next == 0,
            exists|paths: Seq<Seq<char>>|
                strictly_sorted_texts(paths) && (forall|path: Seq<char>| #[trigger]
                    paths.contains(path) <==> nsfs_paths(mount_views(mounts@)).contains(path))
                    && final(self)@.candidates == paths.map_values(unknown_candidate()),
    {
        let paths = sorted_unique(nsfs_mount_paths(mounts));
        let ghost texts = views(paths@);
        self.candidates = candidates_of(paths);
        self.tier = Tier::Mounts;
        self.next = 0;
        assert(self@.candidates == texts.map_values(unknown_candidate()));
    }

    /// Starts the third tier: those of `files`, in their order, that name
    /// something of a process below `/proc`.
    pub fn load_processes(&mut self, files: Vec<String>)
        ensures
            final(self)@ == (IdSearchView {
                id: old(self)@.id,
                tier: Tier::Processes,
                candidates: views(files@).filter(process_paths()).map_values(unknown_candidate()),
                next: 0,
            }),
    {
        let ghost all = views(files@);
        let mut kept: Vec<String> = Vec::new();
        let mut i: usize = 0;
        proof {
            if all.len() > 0 {
                lemma_filter_step(all, process_paths(), 0);
            } else {
                assert(all.take(0) =~= all);
                assert(all.filter(process_paths()) =~= Seq::empty()) by {
                    reveal(Seq::filter);
                }
            }
            assert(views(kept@) =~= all.take(0).filter(process_paths()));
        }
        while i < files.len()
            invariant
                i <= files.len(),
                all == views(files@),
                views(kept@) == all.take(i as int).filter(process_paths()),
            decreases files.len() - i,
        {
            proof {
                lemma_filter_step(all, process_paths(), i as int);
            }
            let ghost before = views(kept@);
            if parse_procfs_path_start(files[i].as_str()).is_ok() {
                kept.push(files[i].clone());
                assert(views(kept@) =~= before.push(all[i as int]));
            }
            i += 1;
        }
        assert(all.take(i as int) =~= all);
        self.candidates = candidates_of(kept);
        self.tier = Tier::Processes;
        self.next = 0;
    }
}

/// The candidates of files of which only the paths are known.
fn candidates_of(paths: Vec<String>) -> (r: Vec<Candidate>)
    ensures
        candidate_views(r@) == views(paths@).map_values(unknown_candidate()),
{
    let mut out: Vec<Candidate> = Vec::new();
    let mut i: usize = 0;
    while i < paths.len()
        invariant
            i <= paths.len(),
            out@.len() == i,
            forall|j: int|
                0 <= j < i ==> (#[trigger] out@[j])@ == unknown_candidate()(views(paths@)[j]),
        decreases paths.len() - i,
    {
        out.push(Candidate { path: paths[i].clone(), inode: None });
        i += 1;
    }
    assert(candidate_views(out@) =~= views(paths@).map_values(unknown_candidate()));
    out
}

/// What a probe found: the inode and the id of the namespace behind a file,
/// each `None` where it could not be found out.
pub struct Answer {
    pub inode: Option<INode>,
    pub nsid: Option<NsId>,
}

impl IdSearchView {
    /// The search with `n` files of the tier tried.
    pub open spec fn at(self, n: int) -> IdSearchView {
        IdSearchView { next: n, ..self }
    }

    /// What the search has found, and where it stands, after it took
    /// `answers` in turn, one for each file from the next one on, and stopped
    /// at the first hit.
    pub open spec fn after_probes(self, answers: Seq<Answer>) -> (Option<INode>, IdSearchView)
        decreases answers.len(),
    {
        if answers.len() == 0 {
            (None, self)
        } else {
            let (found, search) = self.after_probes(answers.drop_last());
            if found is Some {
                (found, search)
            } else {
                match search.hit(answers.last().inode, answers.last().nsid) {
                    Some(inode) => (Some(inode), search),
                    None => (None, search.passed()),
                }
            }
        }
    }
}

/// A tier of the search finds the namespace of the first file whose answer
/// is a hit, and stands at that file; if no answer is a hit, it finds none
/// and has tried a file for each answer.
pub proof fn lemma_search_stops_at_first_hit(search: IdSearchView, answers: Seq<Answer>)
    requires
        0 <= search.next,
        search.next + answers.len() <= search.candidates.len(),
    ensures
        match search.after_probes(answers).0 {
            Some(inode) => exists|k: int|
                {
                    &&& 0 <= k < answers.len()
                    &&& #[trigger] search.at(search.next + k).hit(
                        answers[k].inode,
                        answers[k].nsid,
                    ) == Some(inode)
                    &&& search.after_probes(answers).1 == search.at(search.next + k)
                    &&& forall|j: int|
                        0 <= j < k ==> #[trigger] search.at(search.next + j).hit(
                            answers[j].inode,
                            answers[j].nsid,
                        ) is None
                },
            None => {
                &&& search.after_probes(answers).1 == search.at(search.next + answers.len())
                &&& forall|j: int|
                    0 <= j < answers.len() ==> #[trigger] search.at(search.next + j).hit(
                        answers[j].inode,
                        answers[j].nsid,
                    ) is None
            },
        },
    decreases answers.len(),
{
    if answers.len() == 0 {
        assert(search.at(search.next) == search);
    } else {
        let init = answers.drop_last();
        let last = answers.last();
        lemma_search_stops_at_first_hit(search, init);
        let (found, standing) = search.after_probes(init);
        match found {
            Some(inode) => {
                let k = choose|k: int|
                    {
                        &&& 0 <= k < init.len()
                        &&& #[trigger] search.at(search.next + k).hit(init[k].inode, init[k].nsid)
                            == Some(inode)
                        &&& standing == search.at(search.next + k)
                        &&& forall|j: int|
                            0 <= j < k ==> #[trigger] search.at(search.next + j).hit(
                                init[j].inode,
                                init[j].nsid,
                            ) is None
                    };
                assert(answers[k] == init[k]);
                assert forall|j: int| 0 <= j < k implies #[trigger] search.at(
                    search.next + j,
                ).hit(answers[j].inode, answers[j].nsid) is None by {
                    assert(answers[j] == init[j]);
                }
            },
            None => {
                let n = init.len() as int;
                assert(standing == search.at(search.next + n));
                assert(answers[n] == last);
                assert forall|j: int| 0 <= j < n implies #[trigger] search.at(
                    search.next + j,
                ).hit(answers[j].inode, answers[j].nsid) is None by {
                    assert(answers[j] == init[j]);
                }
                match standing.hit(last.inode, last.nsid) {
                    Some(inode) => {
                        assert(search.at(search.next + n).hit(answers[n].inode, answers[n].nsid)
                            == Some(inode));
                    },
                    None => {
                        assert(standing.passed() == search.at(search.next + n + 1));
                    },
                }
            },
        }
    }
}

} // verus!
