//! The tracker core: the inventory of namespaces, and how each event changes it.
use crate::id_search::{known_candidate, IdSearch, IdSearchView, Tier};
use crate::inventory::{
    bare_row, entry_from, entry_in, entry_of, entry_outside, grouped, inverted,
    lemma_grouped_inverted, listed, row_of, row_with_id, row_with_path, Inventory, NamespaceRow,
};
use crate::mount_monitor::{
    bound_mount, distinct_uuids, mounts_after, nsfs, MountBindings, MountChange,
    MountChangeView, MountPointView, MountTable, MountUuid,
};
use crate::netns::{namespace_views, INode, NetworkNamespace, NetworkNamespaceView, NsId, Pid};
use crate::nsid_monitor::NetnsIdEvent;
use crate::paths::{sorted_unique, strictly_sorted_texts};
use crate::search::{lemma_filter_step, lemma_first_index_is, lemma_first_index_none};
use crate::syscall_monitor::{EbpfEvent, EventType};
use crate::text::{
    clone_strings, decimal_digits, optional_view, position_of, push_decimal, views,
};
use itertools::Itertools;
use std::collections::HashMap;
use vstd::prelude::*;
use vstd::string::*;

verus! {

/// The text of the namespace handle of process `pid`: `/proc/<pid>/ns/net`.
pub open spec fn process_netns_path_spec(pid: Pid) -> Seq<char> {
    "/proc/"@ + decimal_digits(pid as nat) + "/ns/net"@
}

/// The file through which the network namespace of process `pid` can be opened.
pub fn process_netns_path(pid: Pid) -> (r: String)
    ensures
        r@ == process_netns_path_spec(pid),
{
    let mut out = String::from_str("/proc/");
    push_decimal(&mut out, pid);
    out.append("/ns/net");
    out
}

/// Groups the processes by their namespace.
///
/// Calls `Itertools::into_group_map` on the pairs. Taken on trust from its
/// source: the map has a key for exactly the namespaces that stand first in
/// some pair, and under each key the processes of its pairs, in the order of
/// the pairs.
#[verifier::external_body]
fn group_by_namespace(pairs: Vec<(INode, Pid)>) -> (groups: HashMap<INode, Vec<Pid>>)
    ensures
        groups@.dom() == Set::new(|inode: INode| listed(pairs@, inode)),
        forall|inode: INode| #[trigger]
            groups@.contains_key(inode) ==> groups@[inode]@ == grouped(pairs@, inode),
{
    pairs.into_iter().into_group_map()
}

/// What a list of files of namespaces holds, in order.
pub open spec fn file_views(v: Seq<(INode, String)>) -> Seq<(INode, Seq<char>)> {
    Seq::new(v.len(), |i: int| (v[i].0, v[i].1@))
}

/// What the inventory stores of one namespace: its id and its bound paths.
/// The processes are kept in the process map.
#[derive(Debug, PartialEq)]
pub struct ShallowNamespace {
    /// The id that the kernel assigned to the namespace, if it assigned one.
    pub id: Option<NsId>,
    /// The `nsfs` bind mounts that resolve to the namespace.
    pub fs_paths: Vec<String>,
}

impl ShallowNamespace {
    /// The row that this value makes for `inode`.
    pub open spec fn row(self, inode: INode) -> NamespaceRow {
        NamespaceRow { inode, id: self.id, fs_paths: views(self.fs_paths@) }
    }
}

/// The inventory: the namespaces by inode, and the namespace of each process.
pub struct State {
    /// One entry per namespace, in the order in which the rows were created.
    namespaces: Vec<(INode, ShallowNamespace)>,
    /// Each process is in exactly one network namespace. Ascending by pid.
    pids: Vec<(Pid, INode)>,
}

impl View for State {
    type V = Inventory;

    closed spec fn view(&self) -> Inventory {
        Inventory {
            rows: Seq::new(
                self.namespaces@.len(),
                |k: int| self.namespaces@[k].1.row(self.namespaces@[k].0),
            ),
            pids: self.pids@,
        }
    }
}

impl State {
    /// The inventory is consistent (see `Inventory::wf`).
    pub open spec fn wf(&self) -> bool {
        self@.wf()
    }

    /// An inventory without rows and without processes.
    pub fn empty() -> (r: State)
        ensures
            r@ == Inventory::empty(),
            r.wf(),
    {
        let r = State { namespaces: Vec::new(), pids: Vec::new() };
        assert(r@.rows =~= Seq::empty());
        r
    }

    /// The position of the row of `inode`.
    fn find_row(&self, inode: INode) -> (r: Option<usize>)
        ensures
            match r {
                Some(k) => k < self.namespaces.len() && self@.position(inode) == Some(k as int),
                None => self@.position(inode) is None,
            },
    {
        let mut i: usize = 0;
        while i < self.namespaces.len()
            invariant
                i <= self.namespaces.len(),
                forall|j: int| 0 <= j < i ==> !#[trigger] row_of(inode)(self@.rows[j]),
            decreases self.namespaces.len() - i,
        {
            if self.namespaces[i].0 == inode {
                proof {
                    assert(row_of(inode)(self@.rows[i as int]));
                    lemma_first_index_is(self@.rows, row_of(inode), i as int);
                }
                return Some(i);
            }
            i += 1;
        }
        proof {
            lemma_first_index_none(self@.rows, row_of(inode));
        }
        None
    }

    /// The position at which `pid` stands in the process map, or would be put.
    fn find_pid_slot(&self, pid: Pid) -> (r: usize)
        ensures
            r == self@.pid_slot(pid),
            r <= self.pids.len(),
    {
        let mut i: usize = 0;
        while i < self.pids.len()
            invariant
                i <= self.pids.len(),
                forall|j: int| 0 <= j < i ==> !#[trigger] entry_from(pid)(self@.pids[j]),
            decreases self.pids.len() - i,
        {
            if self.pids[i].0 >= pid {
                proof {
                    assert(entry_from(pid)(self@.pids[i as int]));
                    lemma_first_index_is(self@.pids, entry_from(pid), i as int);
                }
                return i;
            }
            i += 1;
        }
        proof {
            lemma_first_index_none(self@.pids, entry_from(pid));
        }
        i
    }

    /// The position of `pid` in the process map.
    fn find_pid(&self, pid: Pid) -> (r: Option<usize>)
        ensures
            match r {
                Some(k) => k < self.pids.len() && self@.pid_position(pid) == Some(k as int),
                None => self@.pid_position(pid) is None,
            },
    {
        let mut i: usize = 0;
        while i < self.pids.len()
            invariant
                i <= self.pids.len(),
                forall|j: int| 0 <= j < i ==> !#[trigger] entry_of(pid)(self@.pids[j]),
            decreases self.pids.len() - i,
        {
            if self.pids[i].0 == pid {
                proof {
                    assert(entry_of(pid)(self@.pids[i as int]));
                    lemma_first_index_is(self@.pids, entry_of(pid), i as int);
                }
                return Some(i);
            }
            i += 1;
        }
        proof {
            lemma_first_index_none(self@.pids, entry_of(pid));
        }
        None
    }

    /// The position of the first row that carries `id`.
    fn find_by_id(&self, id: NsId) -> (r: Option<usize>)
        ensures
            match r {
                Some(k) => k < self.namespaces.len() && self@.position_by_id(id) == Some(k as int),
                None => self@.position_by_id(id) is None,
            },
    {
        let mut i: usize = 0;
        while i < self.namespaces.len()
            invariant
                i <= self.namespaces.len(),
                forall|j: int| 0 <= j < i ==> !#[trigger] row_with_id(id)(self@.rows[j]),
            decreases self.namespaces.len() - i,
        {
            let carried = self.namespaces[i].1.id;
            let found = match carried {
                Some(x) => x == id,
                None => false,
            };
            if found {
                proof {
                    assert(row_with_id(id)(self@.rows[i as int]));
                    lemma_first_index_is(self@.rows, row_with_id(id), i as int);
                }
                return Some(i);
            }
            i += 1;
        }
        proof {
            lemma_first_index_none(self@.rows, row_with_id(id));
        }
        None
    }

    /// The position of the first row that `path` is bound to.
    fn find_by_path(&self, path: &String) -> (r: Option<usize>)
        ensures
            match r {
                Some(k) => k < self.namespaces.len() && self@.position_by_path(path@) == Some(
                    k as int,
                ),
                None => self@.position_by_path(path@) is None,
            },
    {
        let mut i: usize = 0;
        while i < self.namespaces.len()
            invariant
                i <= self.namespaces.len(),
                forall|j: int| 0 <= j < i ==> !#[trigger] row_with_path(path@)(self@.rows[j]),
            decreases self.namespaces.len() - i,
        {
            match position_of(&self.namespaces[i].1.fs_paths, path) {
                Some(at) => {
                    proof {
                        assert(self@.rows[i as int].fs_paths[at as int] == path@);
                        assert(row_with_path(path@)(self@.rows[i as int]));
                        lemma_first_index_is(self@.rows, row_with_path(path@), i as int);
                    }
                    return Some(i);
                },
                None => {},
            }
            i += 1;
        }
        proof {
            lemma_first_index_none(self@.rows, row_with_path(path@));
        }
        None
    }

    /// The inode of the first row that carries `id`.
    pub fn inode_by_id(&self, id: NsId) -> (r: Option<INode>)
        ensures
            r == match self@.position_by_id(id) {
                Some(k) => Some(self@.rows[k].inode),
                None => None,
            },
    {
        match self.find_by_id(id) {
            Some(k) => Some(self.namespaces[k].0),
            None => None,
        }
    }

    /// The inode of the first row that `path` is bound to.
    pub fn inode_by_path(&self, path: &String) -> (r: Option<INode>)
        ensures
            r == match self@.position_by_path(path@) {
                Some(k) => Some(self@.rows[k].inode),
                None => None,
            },
    {
        match self.find_by_path(path) {
            Some(k) => Some(self.namespaces[k].0),
            None => None,
        }
    }

    /// The namespace that `pid` is known to inhabit.
    pub fn inode_of(&self, pid: Pid) -> (r: Option<INode>)
        ensures
            r == self@.inode_of(pid),
    {
        match self.find_pid(pid) {
            Some(k) => Some(self.pids[k].1),
            None => None,
        }
    }

    /// Makes sure that `inode` has a row: a bare one is added if it has none.
    pub fn ensure_namespace(&mut self, inode: INode)
        requires
            old(self).wf(),
        ensures
            final(self)@ == old(self)@.ensure(inode),
            final(self).wf(),
            final(self)@.has_row(inode),
    {
        proof {
            self@.lemma_position(inode);
            self@.lemma_ensure(inode);
        }
        if self.find_row(inode).is_none() {
            self.namespaces.push((inode, ShallowNamespace { id: None, fs_paths: Vec::new() }));
            assert(views(Seq::<String>::empty()) =~= Seq::<Seq<char>>::empty());
            assert(self@.rows =~= old(self)@.rows.push(bare_row(inode)));
        }
    }

    /// Sets the id of the row of `inode`, if it has one.
    pub fn set_id(&mut self, inode: INode, id: Option<NsId>)
        requires
            old(self).wf(),
        ensures
            final(self)@ == old(self)@.with_id(inode, id),
            final(self).wf(),
    {
        proof {
            self@.lemma_with_id(inode, id);
        }
        match self.find_row(inode) {
            Some(k) => {
                self.namespaces[k].1.id = id;
                assert(self@.rows =~= old(self)@.with_id(inode, id).rows);
            },
            None => {},
        }
    }

    /// Binds `path` to the row of `inode`, if it has one and does not list the
    /// path already.
    pub fn insert_path(&mut self, inode: INode, path: String)
        requires
            old(self).wf(),
        ensures
            final(self)@ == old(self)@.with_path(inode, path@),
            final(self).wf(),
    {
        proof {
            self@.lemma_with_path(inode, path@);
        }
        match self.find_row(inode) {
            Some(k) => {
                let ghost before = views(self.namespaces[k as int].1.fs_paths@);
                match position_of(&self.namespaces[k].1.fs_paths, &path) {
                    Some(at) => {
                        assert(before[at as int] == path@);
                    },
                    None => {
                        self.namespaces[k].1.fs_paths.push(path);
                        assert(views(self.namespaces[k as int].1.fs_paths@) =~= before.push(path@));
                        assert(self@.rows =~= old(self)@.with_path(inode, path@).rows);
                    },
                }
            },
            None => {},
        }
    }

    /// Takes `path` from the row of `inode`, if it has one.
    pub fn remove_path(&mut self, inode: INode, path: &String)
        requires
            old(self).wf(),
        ensures
            final(self)@ == old(self)@.without_path(inode, path@),
            final(self).wf(),
    {
        proof {
            self@.lemma_without_path(inode, path@);
        }
        match self.find_row(inode) {
            Some(k) => {
                let ghost before = views(self.namespaces[k as int].1.fs_paths@);
                proof {
                    before.index_of_first_ensures(path@);
                }
                match position_of(&self.namespaces[k].1.fs_paths, path) {
                    Some(at) => {
                        proof {
                            assert(before[at as int] == path@);
                            assert(before.contains(path@));
                            let first = before.index_of_first(path@)->0;
                            if first < at {
                                assert(self.namespaces[k as int].1.fs_paths[first]@ != path@);
                            }
                            if at < first {
                                assert(before[at as int] != path@);
                            }
                        }
                        self.namespaces[k].1.fs_paths.remove(at);
                        assert(views(self.namespaces[k as int].1.fs_paths@) =~= before.remove(
                            at as int,
                        ));
                    },
                    None => {},
                }
                assert(self@.rows =~= old(self)@.without_path(inode, path@).rows);
            },
            None => {},
        }
    }

    /// The snapshot of the inventory: every namespace in the order of the
    /// rows, each with its id, its bound paths and the processes that inhabit
    /// it in ascending order.
    pub fn current_state(&self) -> (r: Vec<NetworkNamespace>)
        ensures
            namespace_views(r@) == self@.snapshot(),
    {
        broadcast use vstd::std_specs::hash::group_hash_axioms;
        // Invert the process map.

        let mut pairs: Vec<(INode, Pid)> = Vec::new();
        let mut i: usize = 0;
        while i < self.pids.len()
            invariant
                i <= self.pids.len(),
                pairs@.len() == i,
                forall|j: int| 0 <= j < i ==> pairs@[j] == (self.pids@[j].1, self.pids@[j].0),
            decreases self.pids.len() - i,
        {
            pairs.push((self.pids[i].1, self.pids[i].0));
            i += 1;
        }
        assert(pairs@ =~= inverted(self.pids@));
        let pids_per_inode = group_by_namespace(pairs);
        // Reconstruct the state.
        let mut out: Vec<NetworkNamespace> = Vec::new();
        let mut k: usize = 0;
        while k < self.namespaces.len()
            invariant
                k <= self.namespaces.len(),
                out@.len() == k,
                pids_per_inode@.dom() == Set::new(
                    |inode: INode| listed(inverted(self.pids@), inode),
                ),
                forall|inode: INode| #[trigger]
                    pids_per_inode@.contains_key(inode) ==> pids_per_inode@[inode]@ == grouped(
                        inverted(self.pids@),
                        inode,
                    ),
                forall|j: int| 0 <= j < k ==> (#[trigger] out@[j])@ == self@.snapshot()[j],
            decreases self.namespaces.len() - k,
        {
            let inode = self.namespaces[k].0;
            proof {
                lemma_grouped_inverted(self.pids@, inode);
            }
            let pids: Vec<Pid> = match pids_per_inode.get(&inode) {
                Some(found) => found.clone(),
                None => {
                    assert(self@.pids_of(inode) =~= Seq::empty());
                    Vec::new()
                },
            };
            assert(pids@ == self@.pids_of(inode));
            out.push(
                NetworkNamespace {
                    inode,
                    id: self.namespaces[k].1.id,
                    fs_paths: clone_strings(&self.namespaces[k].1.fs_paths),
                    pids,
                },
            );
            k += 1;
        }
        assert(namespace_views(out@) =~= self@.snapshot());
        out
    }

    /// The row of `inode`, to read and to change, after a bare one was added
    /// if the inode had none. The inventory stays consistent as long as the
    /// row is left without a path that it lists twice.
    pub fn ensure_namespace_mut(&mut self, inode: INode) -> (r: &mut ShallowNamespace)
        requires
            old(self).wf(),
        ensures
            Some(r.row(inode)) == old(self)@.ensure(inode).row(inode),
            final(self)@.rows == old(self)@.ensure(inode).with_row(
                inode,
                final(r).row(inode),
            ).rows,
            final(self)@.pids == old(self)@.pids,
            final(r).row(inode).fs_paths.no_duplicates() ==> final(self).wf(),
    {
        self.ensure_namespace(inode);
        proof {
            self@.lemma_position(inode);
        }
        let ghost ensured = self@;
        assert forall|row: NamespaceRow|
            row.inode == inode && row.fs_paths.no_duplicates() implies (#[trigger] ensured.with_row(
            inode,
            row,
        )).wf() by {
            ensured.lemma_with_row(inode, row);
        }
        let k = self.find_row(inode).unwrap();
        &mut self.namespaces[k].1
    }

    /// The row of `inode`, to read and to change, if the inode has one.
    pub fn namespace_mut(&mut self, inode: INode) -> (r: Option<&mut ShallowNamespace>)
        requires
            old(self).wf(),
        ensures
            match r {
                Some(row) => {
                    &&& Some(row.row(inode)) == old(self)@.row(inode)
                    &&& final(self)@.rows == old(self)@.with_row(inode, final(row).row(inode)).rows
                    &&& final(self)@.pids == old(self)@.pids
                    &&& final(row).row(inode).fs_paths.no_duplicates() ==> final(self).wf()
                },
                None => old(self)@.row(inode) is None && final(self)@ == old(self)@,
            },
    {
        let ghost before = self@;
        assert forall|row: NamespaceRow|
            row.inode == inode && row.fs_paths.no_duplicates() implies (#[trigger] before.with_row(
            inode,
            row,
        )).wf() by {
            before.lemma_with_row(inode, row);
        }
        match self.find_row(inode) {
            Some(k) => Some(&mut self.namespaces[k].1),
            None => None,
        }
    }

    /// The first row that carries `id`, to read and to change, with its inode.
    pub fn namespace_by_id(&mut self, id: NsId) -> (r: Option<(INode, &mut ShallowNamespace)>)
        requires
            old(self).wf(),
        ensures
            match r {
                Some((inode, row)) => {
                    &&& old(self)@.position_by_id(id) == old(self)@.position(inode)
                    &&& Some(row.row(inode)) == old(self)@.row(inode)
                    &&& final(self)@.rows == old(self)@.with_row(inode, final(row).row(inode)).rows
                    &&& final(self)@.pids == old(self)@.pids
                    &&& final(row).row(inode).fs_paths.no_duplicates() ==> final(self).wf()
                },
                None => old(self)@.position_by_id(id) is None && final(self)@ == old(self)@,
            },
    {
        match self.find_by_id(id) {
            Some(k) => {
                let inode = self.namespaces[k].0;
                proof {
                    self@.lemma_position(inode);
                    assert(self@.rows[k as int].inode == inode);
                }
                match self.namespace_mut(inode) {
                    Some(row) => Some((inode, row)),
                    None => None,
                }
            },
            None => None,
        }
    }

    /// The first row that `path` is bound to, to read and to change, with its
    /// inode.
    pub fn namespace_by_path(&mut self, path: &String) -> (r: Option<
        (INode, &mut ShallowNamespace),
    >)
        requires
            old(self).wf(),
        ensures
            match r {
                Some((inode, row)) => {
                    &&& old(self)@.position_by_path(path@) == old(self)@.position(inode)
                    &&& Some(row.row(inode)) == old(self)@.row(inode)
                    &&& final(self)@.rows == old(self)@.with_row(inode, final(row).row(inode)).rows
                    &&& final(self)@.pids == old(self)@.pids
                    &&& final(row).row(inode).fs_paths.no_duplicates() ==> final(self).wf()
                },
                None => old(self)@.position_by_path(path@) is None && final(self)@ == old(self)@,
            },
    {
        match self.find_by_path(path) {
            Some(k) => {
                let inode = self.namespaces[k].0;
                proof {
                    self@.lemma_position(inode);
                    assert(self@.rows[k as int].inode == inode);
                }
                match self.namespace_mut(inode) {
                    Some(row) => Some((inode, row)),
                    None => None,
                }
            },
            None => None,
        }
    }

    /// Takes every path from the row of `inode`, if it has one.
    pub fn clear_paths(&mut self, inode: INode)
        requires
            old(self).wf(),
        ensures
            final(self)@ == old(self)@.without_paths(inode),
            final(self).wf(),
    {
        proof {
            self@.lemma_without_paths(inode);
        }
        match self.find_row(inode) {
            Some(k) => {
                self.namespaces[k].1.fs_paths = Vec::new();
                assert(views(self.namespaces[k as int].1.fs_paths@) =~= Seq::empty());
                assert(self@.rows =~= old(self)@.without_paths(inode).rows);
            },
            None => {},
        }
    }

    /// Takes in what `netns` says in the place of what was known of its inode.
    fn absorb(&mut self, netns: &NetworkNamespace)
        requires
            old(self).wf(),
        ensures
            final(self)@ == old(self)@.with_namespace(netns@),
            final(self).wf(),
    {
        let inode = netns.inode;
        self.ensure_namespace(inode);
        self.set_id(inode, netns.id);
        self.clear_paths(inode);
        let ghost cleared = self@;
        let ghost paths = views(netns.fs_paths@);
        let mut i: usize = 0;
        while i < netns.fs_paths.len()
            invariant
                i <= netns.fs_paths.len(),
                self.wf(),
                paths == views(netns.fs_paths@),
                self@ == cleared.with_paths(inode, paths.take(i as int)),
            decreases netns.fs_paths.len() - i,
        {
            proof {
                assert(paths.take(i + 1).drop_last() =~= paths.take(i as int));
                assert(paths.take(i + 1).last() == netns.fs_paths[i as int]@);
            }
            self.insert_path(inode, netns.fs_paths[i].clone());
            i += 1;
        }
        proof {
            assert(paths.take(i as int) =~= paths);
            old(self)@.lemma_ensure(inode);
            let a = old(self)@.ensure(inode);
            a.lemma_with_id(inode, netns.id);
            a.lemma_position(inode);
            let b = a.with_id(inode, netns.id);
            b.lemma_position(inode);
            assert(b.has_row(inode)) by {
                let k = a.position(inode)->0;
                assert(b.rows[k].inode == inode);
            }
            b.lemma_without_paths(inode);
            cleared.lemma_with_paths(inode, paths);
        }
        let ghost bound = self@;
        let mut j: usize = 0;
        while j < netns.pids.len()
            invariant
                j <= netns.pids.len(),
                self.wf(),
                bound.wf(),
                bound.has_row(inode),
                self@ == bound.with_pids(netns.pids@.take(j as int), inode),
            decreases netns.pids.len() - j,
        {
            proof {
                assert(netns.pids@.take(j + 1).drop_last() =~= netns.pids@.take(j as int));
                assert(netns.pids@.take(j + 1).last() == netns.pids@[j as int]);
                bound.lemma_with_pids(netns.pids@.take(j as int), inode);
                let k = choose|k: int|
                    0 <= k < bound.rows.len() && (#[trigger] bound.rows[k]).inode == inode;
                assert(self@.rows[k].inode == inode);
            }
            self.insert_pid(netns.pids[j], inode);
            j += 1;
        }
        proof {
            assert(netns.pids@.take(j as int) =~= netns.pids@);
        }
    }

    /// The inventory that a scan of the host seeds: what each namespace of
    /// the scan says, taken in turn.
    pub fn new(scan: Vec<NetworkNamespace>) -> (r: State)
        ensures
            r@ == Inventory::seeded(namespace_views(scan@)),
            r.wf(),
    {
        let mut state = State::empty();
        let ghost all = namespace_views(scan@);
        let mut i: usize = 0;
        assert(all.take(0) =~= Seq::empty());
        while i < scan.len()
            invariant
                i <= scan.len(),
                all == namespace_views(scan@),
                state.wf(),
                state@ == Inventory::seeded(all.take(i as int)),
            decreases scan.len() - i,
        {
            proof {
                assert(all.take(i + 1).drop_last() =~= all.take(i as int));
                assert(all.take(i + 1).last() == scan@[i as int]@);
            }
            state.absorb(&scan[i]);
            i += 1;
        }
        assert(all.take(i as int) =~= all);
        state
    }

    /// Adds `netns` to the inventory unless its inode has a row already, in
    /// which case the inventory stays as it is and `netns` is handed back.
    pub fn add_namespace(&mut self, netns: NetworkNamespace) -> (r: Option<NetworkNamespace>)
        requires
            old(self).wf(),
        ensures
            final(self).wf(),
            match r {
                Some(back) => old(self)@.has_row(netns.inode) && back == netns && final(self)@
                    == old(self)@,
                None => !old(self)@.has_row(netns.inode) && final(self)@ == old(
                    self,
                )@.with_namespace(netns@),
            },
    {
        proof {
            self@.lemma_position(netns.inode);
        }
        if self.find_row(netns.inode).is_some() {
            Some(netns)
        } else {
            self.absorb(&netns);
            None
        }
    }

    /// Any file through which the namespace of `namespace` can be opened: the
    /// first path bound to it, else the handle of the first process in it.
    pub fn namespace_any_file(&self, namespace: INode) -> (r: Option<String>)
        ensures
            optional_view(r) == self@.any_file(namespace),
    {
        match self.find_row(namespace) {
            Some(k) => {
                if self.namespaces[k].1.fs_paths.len() > 0 {
                    return Some(self.namespaces[k].1.fs_paths[0].clone());
                }
            },
            None => {},
        }
        let mut i: usize = 0;
        while i < self.pids.len()
            invariant
                i <= self.pids.len(),
                match self@.position(namespace) {
                    Some(k) => self@.rows[k].fs_paths.len() == 0,
                    None => true,
                },
                forall|j: int| 0 <= j < i ==> !#[trigger] entry_in(namespace)(self@.pids[j]),
            decreases self.pids.len() - i,
        {
            if self.pids[i].1 == namespace {
                proof {
                    assert(entry_in(namespace)(self@.pids[i as int]));
                    lemma_first_index_is(self@.pids, entry_in(namespace), i as int);
                }
                return Some(process_netns_path(self.pids[i].0));
            }
            i += 1;
        }
        proof {
            lemma_first_index_none(self@.pids, entry_in(namespace));
        }
        None
    }

    /// For each row that can be opened through some file, its inode and that
    /// file, in the order of the rows.
    pub fn namespace_files(&self) -> (r: Vec<(INode, String)>)
        ensures
            file_views(r@) == self@.files(),
    {
        let mut out: Vec<(INode, String)> = Vec::new();
        let mut k: usize = 0;
        assert(file_views(out@) =~= self@.files_before(0));
        while k < self.namespaces.len()
            invariant
                k <= self.namespaces.len(),
                file_views(out@) == self@.files_before(k as int),
            decreases self.namespaces.len() - k,
        {
            let inode = self.namespaces[k].0;
            let ghost before = file_views(out@);
            match self.namespace_any_file(inode) {
                Some(file) => {
                    out.push((inode, file));
                    assert(file_views(out@) =~= before.push((inode, file@)));
                },
                None => {},
            }
            k += 1;
        }
        out
    }

    /// Whether some process inhabits `namespace`.
    pub fn does_namespace_has_pids(&self, namespace: &INode) -> (r: bool)
        ensures
            r == self@.has_pids(*namespace),
    {
        let mut i: usize = 0;
        while i < self.pids.len()
            invariant
                i <= self.pids.len(),
                forall|j: int| 0 <= j < i ==> (#[trigger] self@.pids[j]).1 != *namespace,
            decreases self.pids.len() - i,
        {
            if self.pids[i].1 == *namespace {
                assert(self@.pids[i as int].1 == *namespace);
                return true;
            }
            i += 1;
        }
        false
    }

    /// Drops the row of `inode` and the processes that inhabited it. Returns
    /// whether there was such a row.
    pub fn remove_namespace(&mut self, inode: INode) -> (r: bool)
        requires
            old(self).wf(),
        ensures
            r == old(self)@.has_row(inode),
            final(self)@ == old(self)@.without_row(inode),
            final(self).wf(),
    {
        proof {
            self@.lemma_position(inode);
            self@.lemma_without_row(inode);
        }
        match self.find_row(inode) {
            Some(k) => {
                self.namespaces.remove(k);
                let mut kept: Vec<(Pid, INode)> = Vec::new();
                let mut i: usize = 0;
                proof {
                    if self.pids.len() > 0 {
                        lemma_filter_step(self.pids@, entry_outside(inode), 0);
                    } else {
                        assert(self.pids@.take(0) =~= self.pids@);
                        assert(self.pids@.filter(entry_outside(inode)) =~= Seq::empty()) by {
                            reveal(Seq::filter);
                        }
                    }
                }
                while i < self.pids.len()
                    invariant
                        i <= self.pids.len(),
                        kept@ == self.pids@.take(i as int).filter(entry_outside(inode)),
                    decreases self.pids.len() - i,
                {
                    proof {
                        lemma_filter_step(self.pids@, entry_outside(inode), i as int);
                    }
                    if self.pids[i].1 != inode {
                        kept.push(self.pids[i]);
                    }
                    i += 1;
                }
                proof {
                    assert(self.pids@.take(i as int) =~= self.pids@);
                }
                self.pids = kept;
                assert(self@.rows =~= old(self)@.without_row(inode).rows);
                true
            },
            None => false,
        }
    }

    /// Drops the row of `inode` if it has neither processes nor bound paths.
    pub fn drop_if_idle(&mut self, inode: INode)
        requires
            old(self).wf(),
        ensures
            final(self)@ == old(self)@.drop_if_idle(inode),
            final(self).wf(),
    {
        proof {
            self@.lemma_drop_if_idle(inode);
        }
        match self.find_row(inode) {
            Some(k) => {
                if self.namespaces[k].1.fs_paths.len() == 0 && !self.does_namespace_has_pids(
                    &inode,
                ) {
                    self.remove_namespace(inode);
                }
            },
            None => {},
        }
    }

    /// Records that `pid` inhabits `inode`, which gets a bare row if it has
    /// none.
    pub fn insert_pid(&mut self, pid: Pid, inode: INode)
        requires
            old(self).wf(),
        ensures
            final(self)@ == old(self)@.ensure(inode).place(pid, inode),
            final(self).wf(),
    {
        self.ensure_namespace(inode);
        proof {
            self@.lemma_place(pid, inode);
        }
        let ghost ensured = self@;
        let k = self.find_pid_slot(pid);
        if k < self.pids.len() && self.pids[k].0 == pid {
            self.pids.set(k, (pid, inode));
        } else {
            self.pids.insert(k, (pid, inode));
        }
        assert(self@.rows =~= ensured.rows);
    }

    /// Forgets `pid`. The row of its namespace stays.
    pub fn remove_pid(&mut self, pid: Pid)
        requires
            old(self).wf(),
        ensures
            final(self)@ == old(self)@.without_pid(pid),
            final(self).wf(),
    {
        proof {
            self@.lemma_without_pid(pid);
        }
        match self.find_pid(pid) {
            Some(k) => {
                self.pids.remove(k);
                assert(self@.rows =~= old(self)@.rows);
            },
            None => {},
        }
    }
}

/// The paths that the mounts of interest were last seen at, by the uuid of each.
#[derive(Debug)]
pub struct MountState {
    mounts: MountTable,
}

impl View for MountState {
    type V = MountBindings;

    closed spec fn view(&self) -> MountBindings {
        self.mounts@
    }
}

/// The path of the mount point bound to `uuid`.
pub open spec fn bound_path(mounts: MountBindings, uuid: MountUuid) -> Option<Seq<char>> {
    match bound_mount(mounts, uuid) {
        Some(mount) => Some(mount.path),
        None => None,
    }
}

impl MountState {
    /// No uuid is bound twice.
    pub open spec fn wf(&self) -> bool {
        distinct_uuids(self@)
    }

    /// A state in which no mount is bound.
    pub fn new() -> (r: MountState)
        ensures
            r@ == Seq::<(MountUuid, MountPointView)>::empty(),
            r.wf(),
    {
        MountState { mounts: MountTable::new() }
    }

    /// Records what a mount change says about its uuid.
    pub fn on_event(&mut self, event: MountChange)
        requires
            old(self).wf(),
        ensures
            final(self)@ == mounts_after(old(self)@, event@),
            final(self).wf(),
    {
        match event {
            MountChange::Added(uuid, mount_point) => self.mounts.insert(uuid, mount_point),
            MountChange::Removed(uuid) => self.mounts.remove(uuid),
            MountChange::Modified(uuid, mount_point) => self.mounts.insert(uuid, mount_point),
        }
    }

    /// The path of the mount point bound to `uuid`.
    pub fn get_path(&self, uuid: MountUuid) -> (r: Option<&String>)
        ensures
            match r {
                Some(path) => bound_path(self@, uuid) == Some(path@),
                None => bound_path(self@, uuid) is None,
            },
    {
        match self.mounts.get(uuid) {
            Some(mount) => Some(&mount.path),
            None => None,
        }
    }

    /// The paths at which mount points are bound, each once, in the ascending
    /// order of strings.
    pub fn all_paths(&self) -> (r: Vec<String>)
        ensures
            strictly_sorted_texts(views(r@)),
            views(r@).no_duplicates(),
            forall|path: Seq<char>|
                views(r@).contains(path) <==> exists|k: int|
                    0 <= k < self@.len() && (#[trigger] self@[k]).1.path == path,
    {
        let mut paths: Vec<String> = Vec::new();
        let mut i: usize = 0;
        while i < self.mounts.len()
            invariant
                i <= self@.len(),
                paths@.len() == i,
                forall|j: int| 0 <= j < i ==> (#[trigger] paths@[j])@ == self@[j].1.path,
            decreases self@.len() - i,
        {
            paths.push(self.mounts.mount_at(i).path.clone());
            i += 1;
        }
        let ghost listed = views(paths@);
        let r = sorted_unique(paths);
        proof {
            assert forall|path: Seq<char>|
                views(r@).contains(path) <==> exists|k: int|
                    0 <= k < self@.len() && (#[trigger] self@[k]).1.path == path by {
                assert(views(r@).contains(path) <==> listed.contains(path));
                if listed.contains(path) {
                    let k = choose|k: int| 0 <= k < listed.len() && listed[k] == path;
                    assert(self@[k].1.path == path);
                }
                if exists|k: int| 0 <= k < self@.len() && (#[trigger] self@[k]).1.path == path {
                    let k = choose|k: int|
                        0 <= k < self@.len() && (#[trigger] self@[k]).1.path == path;
                    assert(listed[k] == path);
                }
            }
        }
        r
    }

    /// Whether some mount point is bound at `path`.
    pub fn has_path(&self, path: &String) -> (r: bool)
        ensures
            r == exists|k: int| 0 <= k < self@.len() && (#[trigger] self@[k]).1.path == path@,
    {
        let mut i: usize = 0;
        while i < self.mounts.len()
            invariant
                i <= self.mounts@.len(),
                forall|j: int| 0 <= j < i ==> (#[trigger] self@[j]).1.path != path@,
            decreases self.mounts@.len() - i,
        {
            if self.mounts.mount_at(i).path == *path {
                assert(self@[i as int].1.path == path@);
                return true;
            }
            i += 1;
        }
        false
    }
}

/// A request for the current state.
pub type StateRequest = ();

/// The answer to a request for the current state: every namespace of the
/// inventory with its processes.
pub type StateResponse = Vec<NetworkNamespace>;

/// One event of the merged stream that the tracker consumes.
#[derive(Debug)]
pub enum Event {
    /// A namespace id was assigned or taken away.
    NetnsIdEvent(NetnsIdEvent),
    /// A mount point appeared, went away or changed.
    MountChange(MountChange),
    /// A process did something that may have changed its namespace.
    Syscall(EbpfEvent),
    /// A client asks for the current state.
    StateRequested(StateRequest),
}

/// What `Event` holds, as mathematical values.
pub enum EventView {
    NetnsIdEvent(NetnsIdEvent),
    MountChange(MountChangeView),
    Syscall(EbpfEvent),
    StateRequested,
}

impl View for Event {
    type V = EventView;

    open spec fn view(&self) -> EventView {
        match self {
            Event::NetnsIdEvent(e) => EventView::NetnsIdEvent(*e),
            Event::MountChange(change) => EventView::MountChange(change@),
            Event::Syscall(e) => EventView::Syscall(*e),
            Event::StateRequested(_) => EventView::StateRequested,
        }
    }
}

/// Whether a process event of this kind may have changed the namespace of its
/// process, so that the namespace has to be looked up again.
pub open spec fn relocates(kind: EventType) -> bool {
    kind == EventType::Fork || kind == EventType::Clone || kind == EventType::Unshare || kind
        == EventType::Setns
}

/// What has to be found out from the system before an event can be handled.
#[derive(Debug, PartialEq)]
pub enum Probe {
    /// Nothing: the event can be handled as it is.
    Nothing,
    /// The inode of the file at this path.
    Inode(String),
    /// The inode of the namespace that was just assigned this id.
    Namespace(NsId),
}

/// What `Probe` holds, as mathematical values.
pub enum ProbeView {
    Nothing,
    Inode(Seq<char>),
    Namespace(NsId),
}

impl View for Probe {
    type V = ProbeView;

    open spec fn view(&self) -> ProbeView {
        match self {
            Probe::Nothing => ProbeView::Nothing,
            Probe::Inode(path) => ProbeView::Inode(path@),
            Probe::Namespace(id) => ProbeView::Namespace(*id),
        }
    }
}

impl EventView {
    /// What has to be found out before the event can be handled: the
    /// namespace of a newly assigned id, the inode behind a new `nsfs` mount,
    /// or the inode of the namespace handle of a process that may have moved.
    pub open spec fn probe(self) -> ProbeView {
        match self {
            EventView::NetnsIdEvent(NetnsIdEvent::Added(id)) => ProbeView::Namespace(id),
            EventView::MountChange(MountChangeView::Added(_, mount)) => if mount.fstype == nsfs() {
                ProbeView::Inode(mount.path)
            } else {
                ProbeView::Nothing
            },
            EventView::Syscall(e) => if relocates(e.kind) {
                ProbeView::Inode(process_netns_path_spec(e.pid))
            } else {
                ProbeView::Nothing
            },
            _ => ProbeView::Nothing,
        }
    }

    /// The inventory after the event, where `observed` is what the probe of
    /// the event found: the inode it asked for, or `None` where it failed.
    pub open spec fn apply(
        self,
        inventory: Inventory,
        mounts: MountBindings,
        observed: Option<INode>,
    ) -> Inventory {
        match self {
            EventView::NetnsIdEvent(NetnsIdEvent::Added(id)) => inventory.id_added(id, observed),
            EventView::NetnsIdEvent(NetnsIdEvent::Removed(id)) => inventory.id_removed(id),
            EventView::MountChange(change) => if change.concerns_namespaces() {
                match change {
                    MountChangeView::Added(_, mount) => inventory.mount_added(mount.path, observed),
                    MountChangeView::Removed(uuid) => inventory.mount_removed(
                        bound_path(mounts, uuid),
                    ),
                    MountChangeView::Modified(uuid, mount) => inventory.mount_modified(
                        bound_path(mounts, uuid),
                        mount.path,
                    ),
                }
            } else {
                inventory
            },
            EventView::Syscall(e) => if relocates(e.kind) {
                inventory.process_seen(e.pid, observed)
            } else if e.kind == EventType::Exit {
                inventory.process_exited(e.pid)
            } else {
                inventory
            },
            EventView::StateRequested => inventory,
        }
    }

    /// What the tracker answers to the event: the snapshot of the inventory
    /// to a request for the current state, nothing to any other event.
    pub open spec fn answer(self, inventory: Inventory) -> Option<Seq<NetworkNamespaceView>> {
        match self {
            EventView::StateRequested => Some(inventory.snapshot()),
            _ => None,
        }
    }

    /// The mount bindings after the event.
    pub open spec fn apply_mounts(self, mounts: MountBindings) -> MountBindings {
        match self {
            EventView::MountChange(change) => if change.concerns_namespaces() {
                mounts_after(mounts, change)
            } else {
                mounts
            },
            _ => mounts,
        }
    }
}

impl Event {
    /// What has to be found out from the system before the event can be
    /// handled. The answer is handed to `process_event` with the event.
    pub fn probe(&self) -> (r: Probe)
        ensures
            r@ == self@.probe(),
    {
        match self {
            Event::NetnsIdEvent(NetnsIdEvent::Added(id)) => Probe::Namespace(*id),
            Event::MountChange(MountChange::Added(_, mount)) => {
                if mount.fstype.is_nsfs() {
                    Probe::Inode(mount.path.clone())
                } else {
                    Probe::Nothing
                }
            },
            Event::Syscall(e) => {
                match e.kind {
                    EventType::Fork | EventType::Clone | EventType::Unshare | EventType::Setns => {
                        Probe::Inode(process_netns_path(e.pid))
                    },
                    _ => Probe::Nothing,
                }
            },
            _ => Probe::Nothing,
        }
    }
}

/// Handles one event of the merged stream.
///
/// `observed` is what the probe of the event found (see `Event::probe`): the
/// inode that it asked for, or `None` where it asked for nothing or failed.
/// A failed probe leaves the inventory as it is; the source that reported the
/// event will soon report what made the probe fail.
///
/// Returns the snapshot to publish when the event is a request for the
/// current state, and `None` otherwise.
pub fn process_event(
    state: &mut State,
    mount_state: &mut MountState,
    event: Event,
    observed: Option<INode>,
) -> (r: Option<StateResponse>)
    requires
        old(state).wf(),
        old(mount_state).wf(),
    ensures
        final(state).wf(),
        final(mount_state).wf(),
        final(state)@ == event@.apply(old(state)@, old(mount_state)@, observed),
        final(mount_state)@ == event@.apply_mounts(old(mount_state)@),
        match r {
            Some(response) => event@.answer(old(state)@) == Some(namespace_views(response@)),
            None => event@.answer(old(state)@) is None,
        },
{
    match event {
        // ==== Network namespace id change ====
        Event::NetnsIdEvent(NetnsIdEvent::Added(id)) => {
            match observed {
                Some(inode) => {
                    state.ensure_namespace(inode);
                    state.set_id(inode, Some(id));
                },
                None => {},
            }
            None
        },
        Event::NetnsIdEvent(NetnsIdEvent::Removed(id)) => {
            // Losing an id means that the namespace is removed.
            match state.inode_by_id(id) {
                Some(inode) => {
                    state.remove_namespace(inode);
                },
                None => {},
            }
            None
        },
        // ==== An nsfs mount was mounted, unmounted, or remounted ====
        Event::MountChange(change) => {
            if change.concerns_namespaces() {
                match &change {
                    MountChange::Added(_uuid, mount_point) => {
                        // Add the bound path.
                        match observed {
                            Some(inode) => {
                                state.ensure_namespace(inode);
                                state.insert_path(inode, mount_point.path.clone());
                            },
                            None => {},
                        }
                    },
                    MountChange::Removed(uuid) => {
                        match mount_state.get_path(*uuid) {
                            Some(path) => {
                                match state.inode_by_path(path) {
                                    Some(inode) => {
                                        state.remove_path(inode, path);
                                        // No pids and no bound path: the namespace is gone.
                                        state.drop_if_idle(inode);
                                    },
                                    None => {},
                                }
                            },
                            None => {},
                        }
                    },
                    MountChange::Modified(uuid, mount_point) => {
                        // Update the path it is bound to.
                        match mount_state.get_path(*uuid) {
                            Some(old_path) => {
                                match state.inode_by_path(old_path) {
                                    Some(inode) => {
                                        state.remove_path(inode, old_path);
                                        state.insert_path(inode, mount_point.path.clone());
                                    },
                                    None => {},
                                }
                            },
                            None => {},
                        }
                    },
                }
                mount_state.on_event(change);
            }
            None
        },
        // ==== Some process did one of the syscalls of interest ====
        Event::Syscall(ebpf_event) => {
            match ebpf_event.kind {
                EventType::Fork | EventType::Clone | EventType::Unshare | EventType::Setns => {
                    // Check the namespace of the process: it may be new, or have changed.
                    match observed {
                        Some(inode) => {
                            let left = state.inode_of(ebpf_event.pid);
                            state.insert_pid(ebpf_event.pid, inode);
                            match left {
                                Some(left) => {
                                    if left != inode {
                                        state.drop_if_idle(left);
                                    }
                                },
                                None => {},
                            }
                        },
                        None => {},
                    }
                },
                EventType::Exit => {
                    state.remove_pid(ebpf_event.pid);
                },
                EventType::Exec => {},  // Does not do anything with namespaces
            }
            None
        },
        // ==== A client requested the current state ====
        Event::StateRequested(_) => Some(state.current_state()),
    }
}

/// Starts the search for the namespace that was just assigned `id`: with the
/// namespaces of the inventory, one file of each. The caller runs the search
/// (see `IdSearch`) and hands what it finds to `process_event`.
pub fn find_netns_id_addition(state: &State, id: NsId) -> (r: IdSearch)
    ensures
        r@ == (IdSearchView {
            id,
            tier: Tier::Known,
            candidates: state@.files().map_values(known_candidate()),
            next: 0,
        }),
{
    IdSearch::new(state, id)
}

} // verus!
