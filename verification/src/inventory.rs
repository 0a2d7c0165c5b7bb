//! The namespace inventory as a mathematical value: the rows in the order in
//! which they were created, and the process map in ascending order of pid.
//!
//! The tracker's contracts are stated over this model: each operation of the
//! inventory is a function here, with the proof that it keeps the inventory
//! consistent.
use crate::netns::{INode, NetworkNamespaceView, NsId, Pid};
use crate::netns_tracker::process_netns_path_spec;
use crate::search::{first_index, lemma_first_index, lemma_first_index_is};
use vstd::prelude::*;

verus! {

/// One row of the inventory.
pub struct NamespaceRow {
    pub inode: INode,
    pub id: Option<NsId>,
    pub fs_paths: Seq<Seq<char>>,
}

/// The inventory: one row per namespace, and the namespace of each process.
pub struct Inventory {
    pub rows: Seq<NamespaceRow>,
    pub pids: Seq<(Pid, INode)>,
}

/// A row that nothing is known about but its inode.
pub open spec fn bare_row(inode: INode) -> NamespaceRow {
    NamespaceRow { inode, id: None, fs_paths: Seq::empty() }
}

/// Whether the keys of `pids` ascend strictly.
pub open spec fn ascending(pids: Seq<(Pid, INode)>) -> bool {
    forall|i: int, j: int| 0 <= i < j < pids.len() ==> (#[trigger] pids[i]).0 < (#[trigger] pids[j]).0
}

/// Rows of `inode`.
pub open spec fn row_of(inode: INode) -> spec_fn(NamespaceRow) -> bool {
    |r: NamespaceRow| r.inode == inode
}

/// Rows that carry `id`.
pub open spec fn row_with_id(id: NsId) -> spec_fn(NamespaceRow) -> bool {
    |r: NamespaceRow| r.id == Some(id)
}

/// Rows that `path` is bound to.
pub open spec fn row_with_path(path: Seq<char>) -> spec_fn(NamespaceRow) -> bool {
    |r: NamespaceRow| r.fs_paths.contains(path)
}

/// The entry of `pid` in a process map.
pub open spec fn entry_of(pid: Pid) -> spec_fn((Pid, INode)) -> bool {
    |e: (Pid, INode)| e.0 == pid
}

/// Entries of a process map whose pid is `pid` or greater.
pub open spec fn entry_from(pid: Pid) -> spec_fn((Pid, INode)) -> bool {
    |e: (Pid, INode)| e.0 >= pid
}

/// Entries of a process map that inhabit `inode`.
pub open spec fn entry_in(inode: INode) -> spec_fn((Pid, INode)) -> bool {
    |e: (Pid, INode)| e.1 == inode
}

/// Entries of a process map that do not inhabit `inode`.
pub open spec fn entry_outside(inode: INode) -> spec_fn((Pid, INode)) -> bool {
    |e: (Pid, INode)| e.1 != inode
}

/// The pid of an entry of a process map.
pub open spec fn entry_pid() -> spec_fn((Pid, INode)) -> Pid {
    |e: (Pid, INode)| e.0
}

/// Pairs of a namespace and one of its processes that stand under `inode`.
pub open spec fn pair_under(inode: INode) -> spec_fn((INode, Pid)) -> bool {
    |e: (INode, Pid)| e.0 == inode
}

/// The process of a pair of a namespace and one of its processes.
pub open spec fn pair_pid() -> spec_fn((INode, Pid)) -> Pid {
    |e: (INode, Pid)| e.1
}

/// The processes that `pairs` lists under `inode`, in the order of the pairs.
pub open spec fn grouped(pairs: Seq<(INode, Pid)>, inode: INode) -> Seq<Pid> {
    pairs.filter(pair_under(inode)).map_values(pair_pid())
}

/// Whether `pairs` lists some process under `inode`.
pub open spec fn listed(pairs: Seq<(INode, Pid)>, inode: INode) -> bool {
    exists|i: int| 0 <= i < pairs.len() && (#[trigger] pairs[i]).0 == inode
}

/// The process map with each entry turned round: the namespace first.
pub open spec fn inverted(pids: Seq<(Pid, INode)>) -> Seq<(INode, Pid)> {
    Seq::new(pids.len(), |i: int| (pids[i].1, pids[i].0))
}

/// Grouping the inverted process map by namespace gives the processes of
/// each namespace.
pub proof fn lemma_grouped_inverted(pids: Seq<(Pid, INode)>, inode: INode)
    ensures
        grouped(inverted(pids), inode) == pids.filter(entry_in(inode)).map_values(entry_pid()),
        pids.filter(entry_in(inode)).len() == 0 <==> !listed(inverted(pids), inode),
    decreases pids.len(),
{
    reveal(Seq::filter);
    let pairs = inverted(pids);
    if pids.len() > 0 {
        let init = pids.drop_last();
        lemma_grouped_inverted(init, inode);
        assert(pairs.drop_last() =~= inverted(init));
        assert(pairs.last() == (pids.last().1, pids.last().0));
        let a = pairs.drop_last().filter(pair_under(inode));
        let b = init.filter(entry_in(inode));
        if pids.last().1 == inode {
            assert(a.push(pairs.last()).map_values(pair_pid()) =~= a.map_values(pair_pid()).push(
                pids.last().0,
            ));
            assert(b.push(pids.last()).map_values(entry_pid()) =~= b.map_values(entry_pid()).push(
                pids.last().0,
            ));
            assert(pairs[pids.len() - 1].0 == inode);
        } else {
            if listed(inverted(pids), inode) {
                let i = choose|i: int|
                    0 <= i < pids.len() && (#[trigger] inverted(pids)[i]).0 == inode;
                assert(inverted(init)[i].0 == inode);
            }
            if listed(inverted(init), inode) {
                let i = choose|i: int|
                    0 <= i < init.len() && (#[trigger] inverted(init)[i]).0 == inode;
                assert(inverted(pids)[i].0 == inode);
            }
        }
    } else {
        assert(grouped(pairs, inode) =~= pids.filter(entry_in(inode)).map_values(entry_pid()));
    }
}

impl Inventory {
    /// The inventory without rows and without processes.
    pub open spec fn empty() -> Inventory {
        Inventory { rows: Seq::empty(), pids: Seq::empty() }
    }

    /// Whether a row exists for `inode`.
    pub open spec fn has_row(self, inode: INode) -> bool {
        exists|k: int| 0 <= k < self.rows.len() && (#[trigger] self.rows[k]).inode == inode
    }

    /// The position of the row of `inode`.
    pub open spec fn position(self, inode: INode) -> Option<int> {
        first_index(self.rows, row_of(inode))
    }

    /// The position of the first row that carries `id`.
    pub open spec fn position_by_id(self, id: NsId) -> Option<int> {
        first_index(self.rows, row_with_id(id))
    }

    /// The position of the first row that `path` is bound to.
    pub open spec fn position_by_path(self, path: Seq<char>) -> Option<int> {
        first_index(self.rows, row_with_path(path))
    }

    /// The position of `pid` in the process map.
    pub open spec fn pid_position(self, pid: Pid) -> Option<int> {
        first_index(self.pids, entry_of(pid))
    }

    /// The position at which `pid` stands in the process map, or would be put.
    pub open spec fn pid_slot(self, pid: Pid) -> int {
        match first_index(self.pids, entry_from(pid)) {
            Some(k) => k,
            None => self.pids.len() as int,
        }
    }

    /// The namespace that `pid` is known to inhabit.
    pub open spec fn inode_of(self, pid: Pid) -> Option<INode> {
        match self.pid_position(pid) {
            Some(k) => Some(self.pids[k].1),
            None => None,
        }
    }

    /// Whether some process inhabits `inode`.
    pub open spec fn has_pids(self, inode: INode) -> bool {
        exists|i: int| 0 <= i < self.pids.len() && (#[trigger] self.pids[i]).1 == inode
    }

    /// The processes that inhabit `inode`, in ascending order.
    pub open spec fn pids_of(self, inode: INode) -> Seq<Pid> {
        self.pids.filter(entry_in(inode)).map_values(entry_pid())
    }

    /// The inventory is consistent: no inode has two rows, no row lists a path
    /// twice, no pid stands twice in the process map, which is kept in
    /// ascending order, and every process inhabits a namespace that has a row.
    pub open spec fn wf(self) -> bool {
        &&& forall|i: int, j: int|
            0 <= i < j < self.rows.len() ==> (#[trigger] self.rows[i]).inode != (
            #[trigger] self.rows[j]).inode
        &&& forall|i: int| 0 <= i < self.rows.len() ==> (#[trigger] self.rows[i]).fs_paths.no_duplicates()
        &&& ascending(self.pids)
        &&& self.pids_have_rows()
    }

    /// Every process of the process map inhabits a namespace that has a row.
    pub open spec fn pids_have_rows(self) -> bool {
        forall|i: int| 0 <= i < self.pids.len() ==> self.has_row((#[trigger] self.pids[i]).1)
    }

    /// No row is without both processes and bound paths.
    pub open spec fn no_idle_rows(self) -> bool {
        forall|k: int|
            0 <= k < self.rows.len() ==> (#[trigger] self.rows[k]).fs_paths.len() > 0
                || self.has_pids(self.rows[k].inode)
    }

    /// No id is carried by two rows.
    pub open spec fn ids_unique(self) -> bool {
        forall|i: int, j: int|
            0 <= i < self.rows.len() && 0 <= j < self.rows.len() && i != j && (
            #[trigger] self.rows[i]).id is Some ==> self.rows[i].id != (#[trigger] self.rows[j]).id
    }

    /// The inventory with a row for `inode`: a bare one at the end if it had none.
    pub open spec fn ensure(self, inode: INode) -> Inventory {
        if self.has_row(inode) {
            self
        } else {
            Inventory { rows: self.rows.push(bare_row(inode)), pids: self.pids }
        }
    }

    /// The inventory with the id of the row of `inode` set to `id`.
    pub open spec fn with_id(self, inode: INode, id: Option<NsId>) -> Inventory {
        match self.position(inode) {
            Some(k) => Inventory {
                rows: self.rows.update(k, NamespaceRow { id, ..self.rows[k] }),
                pids: self.pids,
            },
            None => self,
        }
    }

    /// The inventory with `path` bound to the row of `inode`, at the end of its
    /// paths unless the row lists it already.
    pub open spec fn with_path(self, inode: INode, path: Seq<char>) -> Inventory {
        match self.position(inode) {
            Some(k) => if self.rows[k].fs_paths.contains(path) {
                self
            } else {
                Inventory {
                    rows: self.rows.update(
                        k,
                        NamespaceRow { fs_paths: self.rows[k].fs_paths.push(path), ..self.rows[k] },
                    ),
                    pids: self.pids,
                }
            },
            None => self,
        }
    }

    /// The inventory with `path` taken from the row of `inode`.
    pub open spec fn without_path(self, inode: INode, path: Seq<char>) -> Inventory {
        match self.position(inode) {
            Some(k) => Inventory {
                rows: self.rows.update(
                    k,
                    NamespaceRow {
                        fs_paths: self.rows[k].fs_paths.remove_value(path),
                        ..self.rows[k]
                    },
                ),
                pids: self.pids,
            },
            None => self,
        }
    }

    /// The inventory without the row of `inode` and without the processes that
    /// inhabited it.
    pub open spec fn without_row(self, inode: INode) -> Inventory {
        match self.position(inode) {
            Some(k) => Inventory {
                rows: self.rows.remove(k),
                pids: self.pids.filter(entry_outside(inode)),
            },
            None => self,
        }
    }

    /// The inventory without the row of `inode` if that row has neither
    /// processes nor bound paths, and unchanged otherwise.
    pub open spec fn drop_if_idle(self, inode: INode) -> Inventory {
        match self.position(inode) {
            Some(k) => if self.rows[k].fs_paths.len() == 0 && !self.has_pids(inode) {
                self.without_row(inode)
            } else {
                self
            },
            None => self,
        }
    }

    /// The inventory with `pid` mapped to `inode`.
    pub open spec fn place(self, pid: Pid, inode: INode) -> Inventory {
        let k = self.pid_slot(pid);
        if k < self.pids.len() && self.pids[k].0 == pid {
            Inventory { rows: self.rows, pids: self.pids.update(k, (pid, inode)) }
        } else {
            Inventory { rows: self.rows, pids: self.pids.insert(k, (pid, inode)) }
        }
    }

    /// The inventory without `pid` in the process map.
    pub open spec fn without_pid(self, pid: Pid) -> Inventory {
        match self.pid_position(pid) {
            Some(k) => Inventory { rows: self.rows, pids: self.pids.remove(k) },
            None => self,
        }
    }

    /// The row of `inode`.
    pub open spec fn row(self, inode: INode) -> Option<NamespaceRow> {
        match self.position(inode) {
            Some(k) => Some(self.rows[k]),
            None => None,
        }
    }

    /// The inventory with the row of `inode` replaced by `row`, which is for
    /// the same inode.
    pub open spec fn with_row(self, inode: INode, row: NamespaceRow) -> Inventory {
        match self.position(inode) {
            Some(k) => Inventory { rows: self.rows.update(k, row), pids: self.pids },
            None => self,
        }
    }

    /// The inventory with no path bound to the row of `inode`.
    pub open spec fn without_paths(self, inode: INode) -> Inventory {
        match self.position(inode) {
            Some(k) => Inventory {
                rows: self.rows.update(k, NamespaceRow { fs_paths: Seq::empty(), ..self.rows[k] }),
                pids: self.pids,
            },
            None => self,
        }
    }

    /// The inventory with each of `paths` bound to the row of `inode`, in order.
    pub open spec fn with_paths(self, inode: INode, paths: Seq<Seq<char>>) -> Inventory
        decreases paths.len(),
    {
        if paths.len() == 0 {
            self
        } else {
            self.with_paths(inode, paths.drop_last()).with_path(inode, paths.last())
        }
    }

    /// The inventory with each of `pids` mapped to `inode`, in order.
    pub open spec fn with_pids(self, pids: Seq<Pid>, inode: INode) -> Inventory
        decreases pids.len(),
    {
        if pids.len() == 0 {
            self
        } else {
            self.with_pids(pids.drop_last(), inode).place(pids.last(), inode)
        }
    }

    /// The inventory with what `namespace` says in the place of what was known
    /// of its inode: its id, its paths without repetitions, and its processes,
    /// which leave the namespaces that they were known to inhabit.
    pub open spec fn with_namespace(self, namespace: NetworkNamespaceView) -> Inventory {
        self.ensure(namespace.inode).with_id(namespace.inode, namespace.id).without_paths(
            namespace.inode,
        ).with_paths(namespace.inode, namespace.fs_paths).with_pids(
            namespace.pids,
            namespace.inode,
        )
    }

    /// The inventory that a scan of the host seeds: what each namespace of the
    /// scan says, taken in turn.
    pub open spec fn seeded(scan: Seq<NetworkNamespaceView>) -> Inventory
        decreases scan.len(),
    {
        if scan.len() == 0 {
            Inventory::empty()
        } else {
            Inventory::seeded(scan.drop_last()).with_namespace(scan.last())
        }
    }

    /// Any file through which the namespace of `inode` can be opened: the
    /// first path bound to it, else the handle of the first process in it.
    pub open spec fn any_file(self, inode: INode) -> Option<Seq<char>> {
        let bound = match self.position(inode) {
            Some(k) => if self.rows[k].fs_paths.len() > 0 {
                Some(self.rows[k].fs_paths[0])
            } else {
                None
            },
            None => None,
        };
        if bound is Some {
            bound
        } else {
            match first_index(self.pids, entry_in(inode)) {
                Some(i) => Some(process_netns_path_spec(self.pids[i].0)),
                None => None,
            }
        }
    }

    /// For each of the first `n` rows that can be opened through some file,
    /// its inode and that file, in the order of the rows.
    pub open spec fn files_before(self, n: int) -> Seq<(INode, Seq<char>)>
        decreases n,
    {
        if n <= 0 {
            Seq::empty()
        } else {
            let rest = self.files_before(n - 1);
            match self.any_file(self.rows[n - 1].inode) {
                Some(file) => rest.push((self.rows[n - 1].inode, file)),
                None => rest,
            }
        }
    }

    /// For each row that can be opened through some file, its inode and that
    /// file, in the order of the rows.
    pub open spec fn files(self) -> Seq<(INode, Seq<char>)> {
        self.files_before(self.rows.len() as int)
    }

    /// The snapshot of the inventory: one entry per row, in the order of the
    /// rows, each with the processes that inhabit it in ascending order.
    pub open spec fn snapshot(self) -> Seq<NetworkNamespaceView> {
        Seq::new(
            self.rows.len(),
            |k: int|
                NetworkNamespaceView {
                    inode: self.rows[k].inode,
                    id: self.rows[k].id,
                    fs_paths: self.rows[k].fs_paths,
                    pids: self.pids_of(self.rows[k].inode),
                },
        )
    }

    /// The inventory after a namespace id was assigned and the search for its
    /// namespace ended with `resolved`.
    pub open spec fn id_added(self, id: NsId, resolved: Option<INode>) -> Inventory {
        match resolved {
            Some(inode) => self.ensure(inode).with_id(inode, Some(id)),
            None => self,
        }
    }

    /// The inventory after a namespace id was taken away: without the first row
    /// that carried it.
    pub open spec fn id_removed(self, id: NsId) -> Inventory {
        match self.position_by_id(id) {
            Some(k) => self.without_row(self.rows[k].inode),
            None => self,
        }
    }

    /// The inventory after an `nsfs` mount appeared at `path`, whose inode
    /// `stat` reported as `inode`, if it could.
    pub open spec fn mount_added(self, path: Seq<char>, inode: Option<INode>) -> Inventory {
        match inode {
            Some(inode) => self.ensure(inode).with_path(inode, path),
            None => self,
        }
    }

    /// The inventory after the mount that was bound to `bound` went away.
    pub open spec fn mount_removed(self, bound: Option<Seq<char>>) -> Inventory {
        match bound {
            Some(path) => match self.position_by_path(path) {
                Some(k) => self.without_path(self.rows[k].inode, path).drop_if_idle(
                    self.rows[k].inode,
                ),
                None => self,
            },
            None => self,
        }
    }

    /// The inventory after the mount that was bound to `bound` moved to `path`.
    pub open spec fn mount_modified(self, bound: Option<Seq<char>>, path: Seq<char>) -> Inventory {
        match bound {
            Some(old_path) => match self.position_by_path(old_path) {
                Some(k) => self.without_path(self.rows[k].inode, old_path).with_path(
                    self.rows[k].inode,
                    path,
                ),
                None => self,
            },
            None => self,
        }
    }

    /// The inventory after `pid` was seen to fork, clone, unshare or enter a
    /// namespace, and `stat` reported the inode of its namespace as `inode`, if
    /// it could. A namespace that the process left is dropped if nothing else
    /// holds it.
    pub open spec fn process_seen(self, pid: Pid, inode: Option<INode>) -> Inventory {
        match inode {
            Some(inode) => {
                let placed = self.ensure(inode).place(pid, inode);
                match self.inode_of(pid) {
                    Some(left) => if left != inode {
                        placed.drop_if_idle(left)
                    } else {
                        placed
                    },
                    None => placed,
                }
            },
            None => self,
        }
    }

    /// The inventory after `pid` exited. Its namespace keeps its row.
    pub open spec fn process_exited(self, pid: Pid) -> Inventory {
        self.without_pid(pid)
    }
}

/// Filtering keeps the order: what ascends before ascends after, and nothing is
/// kept that was not there.
pub proof fn lemma_filter_ascending(pids: Seq<(Pid, INode)>, p: spec_fn((Pid, INode)) -> bool)
    requires
        ascending(pids),
    ensures
        ascending(pids.filter(p)),
        forall|i: int|
            0 <= i < pids.filter(p).len() ==> pids.contains(#[trigger] pids.filter(p)[i]) && p(
                pids.filter(p)[i],
            ),
        forall|i: int| 0 <= i < pids.len() && p(pids[i]) ==> pids.filter(p).contains(#[trigger] pids[i]),
    decreases pids.len(),
{
    reveal(Seq::filter);
    if pids.len() > 0 {
        let init = pids.drop_last();
        let last = pids.last();
        lemma_filter_ascending(init, p);
        let kept = init.filter(p);
        assert forall|i: int| 0 <= i < kept.len() implies (#[trigger] kept[i]).0 < last.0 by {
            assert(init.contains(kept[i]));
            let m = choose|m: int| 0 <= m < init.len() && init[m] == kept[i];
            assert(pids[m] == kept[i]);
            assert(pids[pids.len() - 1] == last);
        }
        assert forall|i: int| 0 <= i < pids.filter(p).len() implies pids.contains(
            #[trigger] pids.filter(p)[i],
        ) && p(pids.filter(p)[i]) by {
            if i < kept.len() {
                assert(init.contains(kept[i]));
                let m = choose|m: int| 0 <= m < init.len() && init[m] == kept[i];
                assert(pids[m] == kept[i]);
            } else {
                assert(pids[pids.len() - 1] == last);
            }
        }
        assert forall|i: int| 0 <= i < pids.len() && p(pids[i]) implies pids.filter(p).contains(
            #[trigger] pids[i],
        ) by {
            if i < init.len() {
                assert(init[i] == pids[i]);
                assert(kept.contains(init[i]));
                let m = choose|m: int| 0 <= m < kept.len() && kept[m] == init[i];
                assert(pids.filter(p)[m] == pids[i]);
            } else {
                assert(pids.filter(p)[kept.len() as int] == pids[i]);
            }
        }
    }
}

impl Inventory {
    /// `position` finds the row of `inode` exactly when there is one.
    pub proof fn lemma_position(self, inode: INode)
        ensures
            match self.position(inode) {
                Some(k) => 0 <= k < self.rows.len() && self.rows[k].inode == inode && self.has_row(
                    inode,
                ),
                None => !self.has_row(inode),
            },
            self.wf() ==> forall|k: int|
                0 <= k < self.rows.len() && (#[trigger] self.rows[k]).inode == inode
                    ==> self.position(inode) == Some(k),
    {
        let p = row_of(inode);
        lemma_first_index(self.rows, p);
        if self.position(inode) is None {
            assert forall|k: int| 0 <= k < self.rows.len() implies (#[trigger] self.rows[k]).inode
                != inode by {
                assert(!p(self.rows[k]));
            }
        }
        if self.wf() {
            assert forall|k: int|
                0 <= k < self.rows.len() && (#[trigger] self.rows[k]).inode == inode implies self.position(
                inode,
            ) == Some(k) by {
                assert(p(self.rows[k]));
                assert forall|j: int| 0 <= j < k implies !#[trigger] p(self.rows[j]) by {}
                lemma_first_index_is(self.rows, p, k);
            }
        }
    }

    /// `pid_position` finds `pid` exactly when the process map holds it.
    pub proof fn lemma_pid_position(self, pid: Pid)
        ensures
            match self.pid_position(pid) {
                Some(k) => 0 <= k < self.pids.len() && self.pids[k].0 == pid,
                None => forall|i: int| 0 <= i < self.pids.len() ==> (#[trigger] self.pids[i]).0 != pid,
            },
            ascending(self.pids) ==> forall|k: int|
                0 <= k < self.pids.len() && (#[trigger] self.pids[k]).0 == pid
                    ==> self.pid_position(pid) == Some(k),
    {
        let p = entry_of(pid);
        lemma_first_index(self.pids, p);
        if self.pid_position(pid) is None {
            assert forall|i: int| 0 <= i < self.pids.len() implies (#[trigger] self.pids[i]).0
                != pid by {
                assert(!p(self.pids[i]));
            }
        }
        if ascending(self.pids) {
            assert forall|k: int|
                0 <= k < self.pids.len() && (#[trigger] self.pids[k]).0 == pid implies self.pid_position(
                pid,
            ) == Some(k) by {
                assert(p(self.pids[k]));
                assert forall|j: int| 0 <= j < k implies !#[trigger] p(self.pids[j]) by {}
                lemma_first_index_is(self.pids, p, k);
            }
        }
    }

    /// `pid_slot` splits an ascending process map: smaller pids stand before
    /// it, and no smaller pid stands at or behind it.
    pub proof fn lemma_pid_slot(self, pid: Pid)
        requires
            ascending(self.pids),
        ensures
            0 <= self.pid_slot(pid) <= self.pids.len(),
            forall|i: int| 0 <= i < self.pid_slot(pid) ==> (#[trigger] self.pids[i]).0 < pid,
            forall|i: int|
                self.pid_slot(pid) <= i < self.pids.len() ==> (#[trigger] self.pids[i]).0 >= pid,
    {
        let p = entry_from(pid);
        lemma_first_index(self.pids, p);
        let k = self.pid_slot(pid);
        assert forall|i: int| 0 <= i < k implies (#[trigger] self.pids[i]).0 < pid by {
            assert(!p(self.pids[i]));
        }
        assert forall|i: int| k <= i < self.pids.len() implies (#[trigger] self.pids[i]).0
            >= pid by {
            assert(p(self.pids[k]));
        }
    }

    /// A consistent inventory stays consistent when a row is ensured.
    pub proof fn lemma_ensure(self, inode: INode)
        requires
            self.wf(),
        ensures
            self.ensure(inode).wf(),
            self.ensure(inode).has_row(inode),
            self.ensure(inode).pids == self.pids,
    {
        let after = self.ensure(inode);
        if !self.has_row(inode) {
            assert(after.rows[self.rows.len() as int].inode == inode);
            assert forall|i: int| 0 <= i < after.pids.len() implies after.has_row(
                (#[trigger] after.pids[i]).1,
            ) by {
                assert(self.has_row(self.pids[i].1));
                let k = choose|k: int|
                    0 <= k < self.rows.len() && (#[trigger] self.rows[k]).inode == self.pids[i].1;
                assert(after.rows[k].inode == self.pids[i].1);
            }
            assert forall|i: int, j: int| 0 <= i < j < after.rows.len() implies (
            #[trigger] after.rows[i]).inode != (#[trigger] after.rows[j]).inode by {
                if j == self.rows.len() {
                    assert(after.rows[i] == self.rows[i]);
                }
            }
        }
    }

    /// Rows that keep their inodes keep the processes at home.
    proof fn lemma_same_inodes(self, after: Inventory)
        requires
            self.pids_have_rows(),
            after.pids == self.pids,
            after.rows.len() == self.rows.len(),
            forall|k: int|
                0 <= k < self.rows.len() ==> (#[trigger] after.rows[k]).inode == self.rows[k].inode,
        ensures
            after.pids_have_rows(),
    {
        assert forall|i: int| 0 <= i < after.pids.len() implies after.has_row(
            (#[trigger] after.pids[i]).1,
        ) by {
            assert(self.has_row(self.pids[i].1));
            let k = choose|k: int|
                0 <= k < self.rows.len() && (#[trigger] self.rows[k]).inode == self.pids[i].1;
            assert(after.rows[k].inode == self.pids[i].1);
        }
    }

    /// A consistent inventory stays consistent when an id is set.
    pub proof fn lemma_with_id(self, inode: INode, id: Option<NsId>)
        requires
            self.wf(),
        ensures
            self.with_id(inode, id).wf(),
    {
        self.lemma_position(inode);
        self.lemma_same_inodes(self.with_id(inode, id));
    }

    /// A consistent inventory stays consistent when the paths of a row are
    /// cleared.
    pub proof fn lemma_without_paths(self, inode: INode)
        requires
            self.wf(),
        ensures
            self.without_paths(inode).wf(),
            self.without_paths(inode).has_row(inode) == self.has_row(inode),
    {
        self.lemma_position(inode);
        self.lemma_same_inodes(self.without_paths(inode));
        self.without_paths(inode).lemma_position(inode);
        if self.position(inode) is Some {
            let k = self.position(inode)->0;
            assert(self.without_paths(inode).rows[k].inode == inode);
        }
    }

    /// A consistent inventory stays consistent when a row is replaced by one
    /// for the same inode that lists no path twice.
    pub proof fn lemma_with_row(self, inode: INode, row: NamespaceRow)
        requires
            self.wf(),
            row.inode == inode,
            row.fs_paths.no_duplicates(),
        ensures
            self.with_row(inode, row).wf(),
    {
        self.lemma_position(inode);
        self.lemma_same_inodes(self.with_row(inode, row));
    }

    /// A consistent inventory stays consistent when paths are bound, and keeps
    /// its rows for the inodes that had one.
    pub proof fn lemma_with_paths(self, inode: INode, paths: Seq<Seq<char>>)
        requires
            self.wf(),
        ensures
            self.with_paths(inode, paths).wf(),
            self.with_paths(inode, paths).has_row(inode) == self.has_row(inode),
        decreases paths.len(),
    {
        if paths.len() > 0 {
            self.lemma_with_paths(inode, paths.drop_last());
            let before = self.with_paths(inode, paths.drop_last());
            before.lemma_with_path(inode, paths.last());
            before.lemma_position(inode);
            let after = before.with_path(inode, paths.last());
            after.lemma_position(inode);
            if before.position(inode) is Some {
                let k = before.position(inode)->0;
                assert(after.rows[k].inode == inode);
            }
        }
    }

    /// A consistent inventory stays consistent when processes are placed in a
    /// namespace that has a row.
    pub proof fn lemma_with_pids(self, pids: Seq<Pid>, inode: INode)
        requires
            self.wf(),
            self.has_row(inode),
        ensures
            self.with_pids(pids, inode).wf(),
            self.with_pids(pids, inode).rows == self.rows,
        decreases pids.len(),
    {
        if pids.len() > 0 {
            self.lemma_with_pids(pids.drop_last(), inode);
            let before = self.with_pids(pids.drop_last(), inode);
            assert(before.has_row(inode)) by {
                let k = choose|k: int|
                    0 <= k < self.rows.len() && (#[trigger] self.rows[k]).inode == inode;
                assert(before.rows[k].inode == inode);
            }
            before.lemma_place(pids.last(), inode);
        }
    }

    /// A consistent inventory stays consistent when it takes in what a
    /// namespace says.
    pub proof fn lemma_with_namespace(self, namespace: NetworkNamespaceView)
        requires
            self.wf(),
        ensures
            self.with_namespace(namespace).wf(),
    {
        let inode = namespace.inode;
        self.lemma_ensure(inode);
        let a = self.ensure(inode);
        a.lemma_with_id(inode, namespace.id);
        let b = a.with_id(inode, namespace.id);
        a.lemma_position(inode);
        b.lemma_position(inode);
        assert(b.has_row(inode)) by {
            let k = a.position(inode)->0;
            assert(b.rows[k].inode == inode);
        }
        b.lemma_without_paths(inode);
        let c = b.without_paths(inode);
        c.lemma_with_paths(inode, namespace.fs_paths);
        let d = c.with_paths(inode, namespace.fs_paths);
        d.lemma_with_pids(namespace.pids, inode);
    }

    /// The inventory that a scan seeds is consistent.
    pub proof fn lemma_seeded(scan: Seq<NetworkNamespaceView>)
        ensures
            Inventory::seeded(scan).wf(),
        decreases scan.len(),
    {
        if scan.len() > 0 {
            Inventory::lemma_seeded(scan.drop_last());
            Inventory::seeded(scan.drop_last()).lemma_with_namespace(scan.last());
        }
    }

    /// A consistent inventory stays consistent when a path is bound.
    pub proof fn lemma_with_path(self, inode: INode, path: Seq<char>)
        requires
            self.wf(),
        ensures
            self.with_path(inode, path).wf(),
    {
        self.lemma_position(inode);
        self.lemma_same_inodes(self.with_path(inode, path));
    }

    /// A consistent inventory stays consistent when a path is taken from a row,
    /// and the row no longer lists the path.
    pub proof fn lemma_without_path(self, inode: INode, path: Seq<char>)
        requires
            self.wf(),
        ensures
            self.without_path(inode, path).wf(),
            match self.position(inode) {
                Some(k) => !self.without_path(inode, path).rows[k].fs_paths.contains(path),
                None => true,
            },
    {
        self.lemma_position(inode);
        let after = self.without_path(inode, path);
        self.lemma_same_inodes(after);
        match self.position(inode) {
            Some(k) => {
                let paths = self.rows[k].fs_paths;
                paths.index_of_first_ensures(path);
                let left = paths.remove_value(path);
                assert(after.rows[k].fs_paths == left);
                match paths.index_of_first(path) {
                    Some(at) => {
                        assert forall|i: int, j: int|
                            0 <= i < left.len() && 0 <= j < left.len() && i != j implies left[i]
                            != left[j] by {
                            let a = if i < at { i } else { i + 1 };
                            let b = if j < at { j } else { j + 1 };
                            assert(left[i] == paths[a] && left[j] == paths[b]);
                        }
                        assert forall|i: int| 0 <= i < left.len() implies left[i] != path by {
                            let a = if i < at { i } else { i + 1 };
                            assert(left[i] == paths[a]);
                        }
                    },
                    None => {},
                }
            },
            None => {},
        }
    }

    /// A consistent inventory stays consistent when a row is dropped, and the
    /// row is gone.
    pub proof fn lemma_without_row(self, inode: INode)
        requires
            self.wf(),
        ensures
            self.without_row(inode).wf(),
            !self.without_row(inode).has_row(inode),
            !self.without_row(inode).has_pids(inode),
    {
        self.lemma_position(inode);
        let after = self.without_row(inode);
        match self.position(inode) {
            Some(k) => {
                let keep = entry_outside(inode);
                lemma_filter_ascending(self.pids, keep);
                assert forall|i: int| 0 <= i < after.pids.len() implies after.has_row(
                    (#[trigger] after.pids[i]).1,
                ) by {
                    let e = after.pids[i];
                    assert(self.pids.contains(e) && keep(e));
                    let m = choose|m: int| 0 <= m < self.pids.len() && self.pids[m] == e;
                    assert(self.has_row(self.pids[m].1));
                    let r = choose|r: int|
                        0 <= r < self.rows.len() && (#[trigger] self.rows[r]).inode == e.1;
                    let at = if r < k { r } else { r - 1 };
                    assert(after.rows[at] == self.rows[r]);
                }
                assert forall|i: int, j: int| 0 <= i < j < after.rows.len() implies (
                #[trigger] after.rows[i]).inode != (#[trigger] after.rows[j]).inode by {
                    let a = if i < k { i } else { i + 1 };
                    let b = if j < k { j } else { j + 1 };
                    assert(after.rows[i] == self.rows[a] && after.rows[j] == self.rows[b]);
                }
                assert forall|i: int| 0 <= i < after.rows.len() implies (
                #[trigger] after.rows[i]).fs_paths.no_duplicates() by {
                    let a = if i < k { i } else { i + 1 };
                    assert(after.rows[i] == self.rows[a]);
                }
                assert forall|i: int| 0 <= i < after.rows.len() implies (
                #[trigger] after.rows[i]).inode != inode by {
                    let a = if i < k { i } else { i + 1 };
                    assert(after.rows[i] == self.rows[a]);
                }
                assert forall|i: int| 0 <= i < after.pids.len() implies (
                #[trigger] after.pids[i]).1 != inode by {
                    assert(keep(after.pids[i]));
                }
            },
            None => {
                if self.has_pids(inode) {
                    let i = choose|i: int|
                        0 <= i < self.pids.len() && (#[trigger] self.pids[i]).1 == inode;
                    assert(self.has_row(self.pids[i].1));
                }
            },
        }
    }

    /// A consistent inventory stays consistent when an idle row is dropped.
    pub proof fn lemma_drop_if_idle(self, inode: INode)
        requires
            self.wf(),
        ensures
            self.drop_if_idle(inode).wf(),
    {
        self.lemma_without_row(inode);
    }

    /// A consistent inventory stays consistent when a process is placed in a
    /// namespace that has a row, and the process map then holds it there.
    pub proof fn lemma_place(self, pid: Pid, inode: INode)
        requires
            self.wf(),
            self.has_row(inode),
        ensures
            self.place(pid, inode).wf(),
            self.place(pid, inode).inode_of(pid) == Some(inode),
            self.place(pid, inode).rows == self.rows,
    {
        self.lemma_pid_slot(pid);
        let k = self.pid_slot(pid);
        let after = self.place(pid, inode);
        assert(after.pids[k] == (pid, inode));
        if k < self.pids.len() && self.pids[k].0 == pid {
            assert forall|i: int| 0 <= i < after.pids.len() implies after.has_row(
                (#[trigger] after.pids[i]).1,
            ) by {
                if i != k {
                    assert(self.has_row(self.pids[i].1));
                }
            }
            assert forall|i: int, j: int| 0 <= i < j < after.pids.len() implies (
            #[trigger] after.pids[i]).0 < (#[trigger] after.pids[j]).0 by {
                assert(after.pids[i].0 == self.pids[i].0 && after.pids[j].0 == self.pids[j].0);
            }
        } else {
            assert forall|i: int| 0 <= i < after.pids.len() implies after.has_row(
                (#[trigger] after.pids[i]).1,
            ) by {
                if i < k {
                    assert(after.pids[i] == self.pids[i]);
                    assert(self.has_row(self.pids[i].1));
                } else if i > k {
                    assert(after.pids[i] == self.pids[i - 1]);
                    assert(self.has_row(self.pids[i - 1].1));
                }
            }
            assert forall|i: int, j: int| 0 <= i < j < after.pids.len() implies (
            #[trigger] after.pids[i]).0 < (#[trigger] after.pids[j]).0 by {
                let a = if i < k { i } else { i - 1 };
                let b = if j < k { j } else { j - 1 };
                if i != k {
                    assert(after.pids[i] == self.pids[a]);
                }
                if j != k {
                    assert(after.pids[j] == self.pids[b]);
                }
                if k < self.pids.len() {
                    assert(self.pids[k].0 >= pid);
                }
            }
        }
        after.lemma_pid_position(pid);
    }

    /// A consistent inventory stays consistent when a process is taken out,
    /// and the process map no longer holds it.
    pub proof fn lemma_without_pid(self, pid: Pid)
        requires
            self.wf(),
        ensures
            self.without_pid(pid).wf(),
            self.without_pid(pid).inode_of(pid) is None,
            self.without_pid(pid).rows == self.rows,
    {
        self.lemma_pid_position(pid);
        let after = self.without_pid(pid);
        match self.pid_position(pid) {
            Some(k) => {
                assert forall|i: int| 0 <= i < after.pids.len() implies after.has_row(
                    (#[trigger] after.pids[i]).1,
                ) && after.pids[i].0 != pid by {
                    let a = if i < k { i } else { i + 1 };
                    assert(after.pids[i] == self.pids[a]);
                    assert(self.has_row(self.pids[a].1));
                }
                assert forall|i: int, j: int| 0 <= i < j < after.pids.len() implies (
                #[trigger] after.pids[i]).0 < (#[trigger] after.pids[j]).0 by {
                    let a = if i < k { i } else { i + 1 };
                    let b = if j < k { j } else { j + 1 };
                    assert(after.pids[i] == self.pids[a] && after.pids[j] == self.pids[b]);
                }
            },
            None => {},
        }
        after.lemma_pid_position(pid);
        if after.pid_position(pid) is Some {
            assert(after.pids[after.pid_position(pid)->0].0 == pid);
        }
    }
}

} // verus!
