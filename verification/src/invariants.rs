//! What holds of the inventory after every event, and what pairs of events
//! undo each other.
use crate::inventory::{
    entry_outside, lemma_filter_ascending, row_with_id, row_with_path, Inventory,
};
use crate::mount_monitor::{MountBindings, MountChangeView};
use crate::netns::{INode, NsId, Pid};
use crate::netns_tracker::{bound_path, relocates, EventView};
use crate::nsid_monitor::NetnsIdEvent;
use crate::search::{lemma_filter_all, lemma_first_index, lemma_first_index_is};
use crate::syscall_monitor::{EbpfEvent, EventType};
use vstd::prelude::*;

verus! {

impl Inventory {
    /// What `position_by_id` finds: the first row that carries `id`.
    pub proof fn lemma_position_by_id(self, id: NsId)
        ensures
            match self.position_by_id(id) {
                Some(k) => 0 <= k < self.rows.len() && self.rows[k].id == Some(id),
                None => forall|k: int| 0 <= k < self.rows.len() ==> (#[trigger] self.rows[k]).id != Some(id),
            },
    {
        lemma_first_index(self.rows, row_with_id(id));
        if self.position_by_id(id) is None {
            assert forall|k: int| 0 <= k < self.rows.len() implies (#[trigger] self.rows[k]).id
                != Some(id) by {
                assert(!row_with_id(id)(self.rows[k]));
            }
        }
    }

    /// What `position_by_path` finds: the first row that lists `path`.
    pub proof fn lemma_position_by_path(self, path: Seq<char>)
        ensures
            match self.position_by_path(path) {
                Some(k) => 0 <= k < self.rows.len() && self.rows[k].fs_paths.contains(path),
                None => forall|k: int|
                    0 <= k < self.rows.len() ==> !(#[trigger] self.rows[k]).fs_paths.contains(path),
            },
    {
        lemma_first_index(self.rows, row_with_path(path));
        if self.position_by_path(path) is None {
            assert forall|k: int| 0 <= k < self.rows.len() implies !(
            #[trigger] self.rows[k]).fs_paths.contains(path) by {
                assert(!row_with_path(path)(self.rows[k]));
            }
        }
    }
}

/// After every event the inventory is consistent, whatever the probe of the
/// event found. In particular every process of the process map inhabits a
/// namespace that has a row.
pub proof fn lemma_event_keeps_consistency(
    inventory: Inventory,
    mounts: MountBindings,
    event: EventView,
    observed: Option<INode>,
)
    requires
        inventory.wf(),
    ensures
        event.apply(inventory, mounts, observed).wf(),
        event.apply(inventory, mounts, observed).pids_have_rows(),
{
    match event {
        EventView::NetnsIdEvent(NetnsIdEvent::Added(id)) => {
            match observed {
                Some(inode) => {
                    inventory.lemma_ensure(inode);
                    inventory.ensure(inode).lemma_with_id(inode, Some(id));
                },
                None => {},
            }
        },
        EventView::NetnsIdEvent(NetnsIdEvent::Removed(id)) => {
            inventory.lemma_position_by_id(id);
            match inventory.position_by_id(id) {
                Some(k) => {
                    inventory.lemma_without_row(inventory.rows[k].inode);
                },
                None => {},
            }
        },
        EventView::MountChange(change) => {
            if change.concerns_namespaces() {
                match change {
                    MountChangeView::Added(_, mount) => {
                        match observed {
                            Some(inode) => {
                                inventory.lemma_ensure(inode);
                                inventory.ensure(inode).lemma_with_path(inode, mount.path);
                            },
                            None => {},
                        }
                    },
                    MountChangeView::Removed(uuid) => {
                        match bound_path(mounts, uuid) {
                            Some(path) => {
                                inventory.lemma_position_by_path(path);
                                match inventory.position_by_path(path) {
                                    Some(k) => {
                                        let inode = inventory.rows[k].inode;
                                        inventory.lemma_without_path(inode, path);
                                        inventory.without_path(inode, path).lemma_drop_if_idle(
                                            inode,
                                        );
                                    },
                                    None => {},
                                }
                            },
                            None => {},
                        }
                    },
                    MountChangeView::Modified(uuid, mount) => {
                        match bound_path(mounts, uuid) {
                            Some(path) => {
                                inventory.lemma_position_by_path(path);
                                match inventory.position_by_path(path) {
                                    Some(k) => {
                                        let inode = inventory.rows[k].inode;
                                        inventory.lemma_without_path(inode, path);
                                        inventory.without_path(inode, path).lemma_with_path(
                                            inode,
                                            mount.path,
                                        );
                                    },
                                    None => {},
                                }
                            },
                            None => {},
                        }
                    },
                }
            }
        },
        EventView::Syscall(e) => {
            if relocates(e.kind) {
                match observed {
                    Some(inode) => {
                        inventory.lemma_ensure(inode);
                        inventory.ensure(inode).lemma_place(e.pid, inode);
                        let placed = inventory.ensure(inode).place(e.pid, inode);
                        match inventory.inode_of(e.pid) {
                            Some(left) => {
                                placed.lemma_drop_if_idle(left);
                            },
                            None => {},
                        }
                    },
                    None => {},
                }
            } else if e.kind == EventType::Exit {
                inventory.lemma_without_pid(e.pid);
            }
        },
        EventView::StateRequested => {},
    }
}

/// A fork of a process that the process map does not hold, followed at once
/// by the exit of the process, leaves the process map as it was before the
/// fork, whatever the probes found.
pub proof fn lemma_fork_then_exit(
    inventory: Inventory,
    mounts: MountBindings,
    fork: EbpfEvent,
    exit: EbpfEvent,
    observed: Option<INode>,
    observed_at_exit: Option<INode>,
)
    requires
        inventory.wf(),
        fork.kind == EventType::Fork,
        exit.kind == EventType::Exit,
        exit.pid == fork.pid,
        inventory.inode_of(fork.pid) is None,
    ensures
        EventView::Syscall(exit).apply(
            EventView::Syscall(fork).apply(inventory, mounts, observed),
            mounts,
            observed_at_exit,
        ).pids == inventory.pids,
{
    let pid = fork.pid;
    inventory.lemma_pid_position(pid);
    match observed {
        Some(inode) => {
            let ensured = inventory.ensure(inode);
            inventory.lemma_ensure(inode);
            ensured.lemma_pid_position(pid);
            ensured.lemma_pid_slot(pid);
            ensured.lemma_place(pid, inode);
            let k = ensured.pid_slot(pid);
            let placed = ensured.place(pid, inode);
            assert(placed.pids == inventory.pids.insert(k, (pid, inode)));
            assert(placed.pids[k].0 == pid);
            placed.lemma_pid_position(pid);
            assert(placed.pid_position(pid) == Some(k));
            assert(placed.pids.remove(k) =~= inventory.pids);
        },
        None => {},
    }
}

impl Inventory {
    /// Whether the removal of `id`, right after its assignment was resolved to
    /// `resolved`, takes the row that the assignment gave the id to: no row
    /// before that one carries the id, and no row at all where the assignment
    /// could not be resolved.
    pub open spec fn removal_meets_assignment(self, id: NsId, resolved: Option<INode>) -> bool {
        match resolved {
            Some(inode) => forall|j: int|
                0 <= j < self.rows.len() && (#[trigger] self.rows[j]).id == Some(id) ==> (
                match self.position(inode) {
                    Some(k) => k <= j,
                    None => false,
                }),
            None => self.position_by_id(id) is None,
        }
    }
}

/// The assignment of an id, followed by the removal of the id, leaves the
/// inventory as it was before the assignment but for the row that the id was
/// resolved to, which is dropped with its processes; provided that the
/// removal takes that row and not an earlier one that carries the id too.
pub proof fn lemma_id_added_then_removed(
    inventory: Inventory,
    mounts: MountBindings,
    id: NsId,
    resolved: Option<INode>,
    observed_at_removal: Option<INode>,
)
    requires
        inventory.wf(),
        inventory.removal_meets_assignment(id, resolved),
    ensures
        EventView::NetnsIdEvent(NetnsIdEvent::Removed(id)).apply(
            EventView::NetnsIdEvent(NetnsIdEvent::Added(id)).apply(inventory, mounts, resolved),
            mounts,
            observed_at_removal,
        ) == match resolved {
            Some(inode) => inventory.without_row(inode),
            None => inventory,
        },
{
    inventory.lemma_position_by_id(id);
    match resolved {
        Some(inode) => {
            let ensured = inventory.ensure(inode);
            inventory.lemma_ensure(inode);
            inventory.lemma_position(inode);
            ensured.lemma_position(inode);
            let k = ensured.position(inode)->0;
            let assigned = ensured.with_id(inode, Some(id));
            ensured.lemma_with_id(inode, Some(id));
            assert(row_with_id(id)(assigned.rows[k]));
            assert forall|j: int| 0 <= j < k implies !#[trigger] row_with_id(id)(
                assigned.rows[j],
            ) by {
                assert(assigned.rows[j] == ensured.rows[j]);
                assert(ensured.rows[j] == inventory.rows[j]);
                if inventory.rows[j].id == Some(id) {
                    assert(inventory.position(inode) is Some);
                    assert(inventory.position(inode)->0 <= j);
                    assert(inventory.rows[inventory.position(inode)->0].inode == inode);
                    assert(ensured.rows[inventory.position(inode)->0].inode == inode);
                    assert(ensured.position(inode) == Some(inventory.position(inode)->0));
                }
            }
            lemma_first_index_is(assigned.rows, row_with_id(id), k);
            assigned.lemma_position(inode);
            assert(assigned.position(inode) == Some(k));
            let after = assigned.without_row(inode);
            if inventory.has_row(inode) {
                assert(after.rows =~= inventory.rows.remove(k));
            } else {
                assert(after.rows =~= inventory.rows);
                assert forall|i: int| 0 <= i < inventory.pids.len() implies #[trigger] entry_outside(
                    inode,
                )(inventory.pids[i]) by {
                    assert(inventory.has_row(inventory.pids[i].1));
                }
                lemma_filter_all(inventory.pids, entry_outside(inode));
            }
        },
        None => {},
    }
}

impl EventView {
    /// Whether the event assigns to one row an id that another row carries:
    /// the one event after which two rows may carry the same id.
    pub open spec fn reassigns_id(self, inventory: Inventory, observed: Option<INode>) -> bool {
        match (self, observed) {
            (EventView::NetnsIdEvent(NetnsIdEvent::Added(id)), Some(inode)) => exists|k: int|
                0 <= k < inventory.rows.len() && (#[trigger] inventory.rows[k]).id == Some(id)
                    && inventory.rows[k].inode != inode,
            _ => false,
        }
    }

    /// Whether the event leaves a row without processes and without bound
    /// paths: the exit of the last process of a namespace that no path is
    /// bound to, whose row is kept, or the assignment of an id to a namespace
    /// that had no row.
    pub open spec fn strands_row(self, inventory: Inventory, observed: Option<INode>) -> bool {
        match self {
            EventView::NetnsIdEvent(NetnsIdEvent::Added(_)) => match observed {
                Some(inode) => !inventory.has_row(inode),
                None => false,
            },
            EventView::Syscall(e) => e.kind == EventType::Exit && match inventory.inode_of(e.pid) {
                Some(inode) => match inventory.position(inode) {
                    Some(k) => inventory.rows[k].fs_paths.len() == 0 && forall|i: int|
                        0 <= i < inventory.pids.len() && (#[trigger] inventory.pids[i]).1 == inode
                            ==> inventory.pids[i].0 == e.pid,
                    None => false,
                },
                None => false,
            },
            _ => false,
        }
    }
}

/// Rows that keep their ids, one for one, keep them unique.
proof fn lemma_same_ids(before: Inventory, after: Inventory)
    requires
        before.ids_unique(),
        after.rows.len() == before.rows.len(),
        forall|k: int| 0 <= k < before.rows.len() ==> (#[trigger] after.rows[k]).id == before.rows[k].id,
    ensures
        after.ids_unique(),
{
    assert forall|i: int, j: int|
        0 <= i < after.rows.len() && 0 <= j < after.rows.len() && i != j && (
        #[trigger] after.rows[i]).id is Some implies after.rows[i].id != (
    #[trigger] after.rows[j]).id by {
        assert(before.rows[i].id is Some);
        assert(before.rows[i].id != before.rows[j].id);
    }
}

/// Dropping a row keeps the ids of the others unique.
proof fn lemma_without_row_ids(before: Inventory, inode: INode)
    requires
        before.ids_unique(),
    ensures
        before.without_row(inode).ids_unique(),
        before.drop_if_idle(inode).ids_unique(),
{
    before.lemma_position(inode);
    let after = before.without_row(inode);
    match before.position(inode) {
        Some(k) => {
            assert forall|i: int, j: int|
                0 <= i < after.rows.len() && 0 <= j < after.rows.len() && i != j && (
                #[trigger] after.rows[i]).id is Some implies after.rows[i].id != (
            #[trigger] after.rows[j]).id by {
                let a = if i < k { i } else { i + 1 };
                let b = if j < k { j } else { j + 1 };
                assert(after.rows[i] == before.rows[a] && after.rows[j] == before.rows[b]);
                assert(before.rows[a].id is Some);
            }
        },
        None => {},
    }
}

/// Ensuring a row keeps the ids unique: a bare row carries none.
proof fn lemma_ensure_ids(before: Inventory, inode: INode)
    requires
        before.ids_unique(),
    ensures
        before.ensure(inode).ids_unique(),
{
    let after = before.ensure(inode);
    if !before.has_row(inode) {
        assert forall|i: int, j: int|
            0 <= i < after.rows.len() && 0 <= j < after.rows.len() && i != j && (
            #[trigger] after.rows[i]).id is Some implies after.rows[i].id != (
        #[trigger] after.rows[j]).id by {
            if i < before.rows.len() {
                assert(after.rows[i] == before.rows[i]);
                if j < before.rows.len() {
                    assert(after.rows[j] == before.rows[j]);
                }
            }
        }
    }
}

/// After every event no id is carried by two rows, if none was before, unless
/// the event assigns to one row an id that another row carries.
pub proof fn lemma_event_keeps_ids_unique(
    inventory: Inventory,
    mounts: MountBindings,
    event: EventView,
    observed: Option<INode>,
)
    requires
        inventory.wf(),
        inventory.ids_unique(),
        !event.reassigns_id(inventory, observed),
    ensures
        event.apply(inventory, mounts, observed).ids_unique(),
{
    match event {
        EventView::NetnsIdEvent(NetnsIdEvent::Added(id)) => {
            match observed {
                Some(inode) => {
                    let ensured = inventory.ensure(inode);
                    inventory.lemma_ensure(inode);
                    lemma_ensure_ids(inventory, inode);
                    ensured.lemma_position(inode);
                    let k = ensured.position(inode)->0;
                    let after = ensured.with_id(inode, Some(id));
                    assert forall|i: int, j: int|
                        0 <= i < after.rows.len() && 0 <= j < after.rows.len() && i != j && (
                        #[trigger] after.rows[i]).id is Some implies after.rows[i].id != (
                    #[trigger] after.rows[j]).id by {
                        let other = if i == k { j } else { i };
                        if i == k || j == k {
                            assert(after.rows[other] == ensured.rows[other]);
                            assert(ensured.rows[other].inode != inode);
                            if other < inventory.rows.len() {
                                assert(ensured.rows[other] == inventory.rows[other]);
                                assert(inventory.rows[other].id != Some(id));
                            }
                        } else {
                            assert(after.rows[i] == ensured.rows[i]);
                            assert(after.rows[j] == ensured.rows[j]);
                        }
                    }
                },
                None => {},
            }
        },
        EventView::NetnsIdEvent(NetnsIdEvent::Removed(id)) => {
            inventory.lemma_position_by_id(id);
            match inventory.position_by_id(id) {
                Some(k) => {
                    lemma_without_row_ids(inventory, inventory.rows[k].inode);
                },
                None => {},
            }
        },
        EventView::MountChange(change) => {
            if change.concerns_namespaces() {
                match change {
                    MountChangeView::Added(_, mount) => {
                        match observed {
                            Some(inode) => {
                                lemma_ensure_ids(inventory, inode);
                                inventory.ensure(inode).lemma_position(inode);
                                lemma_same_ids(
                                    inventory.ensure(inode),
                                    inventory.ensure(inode).with_path(inode, mount.path),
                                );
                            },
                            None => {},
                        }
                    },
                    MountChangeView::Removed(uuid) => {
                        match bound_path(mounts, uuid) {
                            Some(path) => {
                                inventory.lemma_position_by_path(path);
                                match inventory.position_by_path(path) {
                                    Some(k) => {
                                        let inode = inventory.rows[k].inode;
                                        inventory.lemma_position(inode);
                                        lemma_same_ids(
                                            inventory,
                                            inventory.without_path(inode, path),
                                        );
                                        lemma_without_row_ids(
                                            inventory.without_path(inode, path),
                                            inode,
                                        );
                                    },
                                    None => {},
                                }
                            },
                            None => {},
                        }
                    },
                    MountChangeView::Modified(uuid, mount) => {
                        match bound_path(mounts, uuid) {
                            Some(path) => {
                                inventory.lemma_position_by_path(path);
                                match inventory.position_by_path(path) {
                                    Some(k) => {
                                        let inode = inventory.rows[k].inode;
                                        inventory.lemma_position(inode);
                                        let without = inventory.without_path(inode, path);
                                        lemma_same_ids(inventory, without);
                                        without.lemma_position(inode);
                                        lemma_same_ids(
                                            without,
                                            without.with_path(inode, mount.path),
                                        );
                                    },
                                    None => {},
                                }
                            },
                            None => {},
                        }
                    },
                }
            }
        },
        EventView::Syscall(e) => {
            if relocates(e.kind) {
                match observed {
                    Some(inode) => {
                        lemma_ensure_ids(inventory, inode);
                        let placed = inventory.ensure(inode).place(e.pid, inode);
                        lemma_same_ids(inventory.ensure(inode), placed);
                        match inventory.inode_of(e.pid) {
                            Some(left) => {
                                lemma_without_row_ids(placed, left);
                            },
                            None => {},
                        }
                    },
                    None => {},
                }
            } else if e.kind == EventType::Exit {
                lemma_same_ids(inventory, inventory.without_pid(e.pid));
            }
        },
        EventView::StateRequested => {},
    }
}

impl Inventory {
    /// Whether some process other than `pid` inhabits `inode`.
    pub open spec fn has_other_pids(self, inode: INode, pid: Pid) -> bool {
        exists|i: int|
            0 <= i < self.pids.len() && (#[trigger] self.pids[i]).1 == inode && self.pids[i].0
                != pid
    }

    /// After a process was placed, its namespace has a process, and every
    /// namespace keeps the other processes that it had.
    proof fn lemma_place_pids(self, pid: Pid, inode: INode, other: INode)
        requires
            self.wf(),
            self.has_row(inode),
        ensures
            self.place(pid, inode).has_pids(inode),
            self.has_other_pids(other, pid) ==> self.place(pid, inode).has_pids(other),
            other != inode && !self.has_other_pids(other, pid) ==> !self.place(pid, inode).has_pids(
                other,
            ),
    {
        self.lemma_pid_slot(pid);
        let k = self.pid_slot(pid);
        let after = self.place(pid, inode);
        assert(after.pids[k] == (pid, inode));
        let replaced = k < self.pids.len() && self.pids[k].0 == pid;
        if self.has_other_pids(other, pid) {
            let i = choose|i: int|
                0 <= i < self.pids.len() && (#[trigger] self.pids[i]).1 == other && self.pids[i].0
                    != pid;
            let at = if replaced || i < k { i } else { i + 1 };
            assert(after.pids[at] == self.pids[i]);
        }
        if other != inode && after.has_pids(other) {
            let i = choose|i: int| 0 <= i < after.pids.len() && (#[trigger] after.pids[i]).1 == other;
            let at = if replaced || i < k { i } else { i - 1 };
            assert(after.pids[i] == self.pids[at]);
            if self.pids[at].0 == pid {
                self.lemma_pid_position(pid);
                if replaced {
                    assert(at == k);
                } else {
                    if at < k {
                        assert(self.pids[at].0 < pid);
                    } else {
                        assert(self.pids[at].0 >= pid);
                        if k < self.pids.len() && at > k {
                            assert(self.pids[k].0 < self.pids[at].0);
                        }
                    }
                }
            }
        }
    }

    /// After a process was taken out, every namespace keeps the other
    /// processes that it had, and no others.
    proof fn lemma_without_pid_pids(self, pid: Pid, other: INode)
        requires
            self.wf(),
        ensures
            self.without_pid(pid).has_pids(other) == self.has_other_pids(other, pid),
    {
        self.lemma_pid_position(pid);
        let after = self.without_pid(pid);
        match self.pid_position(pid) {
            Some(k) => {
                if self.has_other_pids(other, pid) {
                    let i = choose|i: int|
                        0 <= i < self.pids.len() && (#[trigger] self.pids[i]).1 == other
                            && self.pids[i].0 != pid;
                    let at = if i < k { i } else { i - 1 };
                    assert(after.pids[at] == self.pids[i]);
                }
                if after.has_pids(other) {
                    let i = choose|i: int|
                        0 <= i < after.pids.len() && (#[trigger] after.pids[i]).1 == other;
                    let at = if i < k { i } else { i + 1 };
                    assert(after.pids[i] == self.pids[at]);
                    assert(self.pids[at].0 != pid);
                }
            },
            None => {
                if after.has_pids(other) {
                    let i = choose|i: int|
                        0 <= i < after.pids.len() && (#[trigger] after.pids[i]).1 == other;
                    assert(self.pids[i].0 != pid);
                }
            },
        }
    }

    /// After a row was dropped, every other namespace has the processes
    /// that it had.
    proof fn lemma_without_row_pids(self, inode: INode, other: INode)
        requires
            self.wf(),
            other != inode,
        ensures
            self.without_row(inode).has_pids(other) == self.has_pids(other),
    {
        self.lemma_position(inode);
        let after = self.without_row(inode);
        if self.position(inode) is Some {
            lemma_filter_ascending(self.pids, entry_outside(inode));
            if self.has_pids(other) {
                let i = choose|i: int| 0 <= i < self.pids.len() && (#[trigger] self.pids[i]).1 == other;
                assert(entry_outside(inode)(self.pids[i]));
                assert(after.pids.contains(self.pids[i]));
                let m = choose|m: int| 0 <= m < after.pids.len() && after.pids[m] == self.pids[i];
                assert(after.pids[m].1 == other);
            }
            if after.has_pids(other) {
                let i = choose|i: int|
                    0 <= i < after.pids.len() && (#[trigger] after.pids[i]).1 == other;
                assert(self.pids.contains(after.pids[i]));
                let m = choose|m: int| 0 <= m < self.pids.len() && self.pids[m] == after.pids[i];
                assert(self.pids[m].1 == other);
            }
        }
    }

    /// Dropping a row leaves no row idle that was not idle before.
    proof fn lemma_without_row_in_use(self, inode: INode)
        requires
            self.wf(),
            forall|k: int|
                0 <= k < self.rows.len() && (#[trigger] self.rows[k]).inode != inode
                    ==> self.rows[k].fs_paths.len() > 0 || self.has_pids(self.rows[k].inode),
        ensures
            self.without_row(inode).no_idle_rows() || self.position(inode) is None,
    {
        self.lemma_position(inode);
        let after = self.without_row(inode);
        match self.position(inode) {
            Some(k) => {
                assert forall|j: int| 0 <= j < after.rows.len() implies (
                #[trigger] after.rows[j]).fs_paths.len() > 0 || after.has_pids(
                    after.rows[j].inode,
                ) by {
                    let a = if j < k { j } else { j + 1 };
                    assert(after.rows[j] == self.rows[a]);
                    assert(self.rows[a].inode != inode);
                    self.lemma_without_row_pids(inode, self.rows[a].inode);
                }
            },
            None => {},
        }
    }

    /// Dropping a row if it is idle leaves no row idle, if no other row was.
    proof fn lemma_drop_if_idle_in_use(self, inode: INode)
        requires
            self.wf(),
            forall|k: int|
                0 <= k < self.rows.len() && (#[trigger] self.rows[k]).inode != inode
                    ==> self.rows[k].fs_paths.len() > 0 || self.has_pids(self.rows[k].inode),
        ensures
            self.drop_if_idle(inode).no_idle_rows(),
    {
        self.lemma_position(inode);
        self.lemma_without_row_in_use(inode);
        match self.position(inode) {
            Some(k) => {
                if !(self.rows[k].fs_paths.len() == 0 && !self.has_pids(inode)) {
                    assert forall|j: int| 0 <= j < self.rows.len() implies (
                    #[trigger] self.rows[j]).fs_paths.len() > 0 || self.has_pids(
                        self.rows[j].inode,
                    ) by {
                        if self.rows[j].inode == inode {
                            assert(j == k);
                        }
                    }
                }
            },
            None => {
                assert forall|j: int| 0 <= j < self.rows.len() implies (
                #[trigger] self.rows[j]).fs_paths.len() > 0 || self.has_pids(
                    self.rows[j].inode,
                ) by {
                    assert(self.has_row(self.rows[j].inode));
                }
            },
        }
    }
}

/// A namespace that has processes has them in every inventory with the same
/// process map.
proof fn lemma_same_pids(before: Inventory, after: Inventory, inode: INode)
    requires
        after.pids == before.pids,
        before.has_pids(inode),
    ensures
        after.has_pids(inode),
{
    let i = choose|i: int| 0 <= i < before.pids.len() && (#[trigger] before.pids[i]).1 == inode;
    assert(after.pids[i].1 == inode);
}

/// A sequence that contains something is not empty.
proof fn lemma_contains_nonempty(paths: Seq<Seq<char>>, path: Seq<char>)
    requires
        paths.contains(path),
    ensures
        paths.len() > 0,
{
}

/// After every event no row is without both processes and bound paths, if
/// none was before, unless the event is one of the two that leave such a row
/// behind (see `EventView::strands_row`).
pub proof fn lemma_event_keeps_rows_in_use(
    inventory: Inventory,
    mounts: MountBindings,
    event: EventView,
    observed: Option<INode>,
)
    requires
        inventory.wf(),
        inventory.no_idle_rows(),
        !event.strands_row(inventory, observed),
    ensures
        event.apply(inventory, mounts, observed).no_idle_rows(),
{
    match event {
        EventView::NetnsIdEvent(NetnsIdEvent::Added(id)) => {
            match observed {
                Some(inode) => {
                    inventory.lemma_position(inode);
                    let k = inventory.position(inode)->0;
                    let after = inventory.with_id(inode, Some(id));
                    assert forall|j: int| 0 <= j < after.rows.len() implies (
                    #[trigger] after.rows[j]).fs_paths.len() > 0 || after.has_pids(
                        after.rows[j].inode,
                    ) by {
                        assert(inventory.has_row(inode));
                        assert(inventory.ensure(inode) == inventory);
                        assert(after.rows.len() == inventory.rows.len());
                        assert(after.rows[j].fs_paths == inventory.rows[j].fs_paths);
                        assert(after.rows[j].inode == inventory.rows[j].inode);
                        assert(after.pids == inventory.pids);
                        if inventory.has_pids(inventory.rows[j].inode) {
                            let i = choose|i: int|
                                0 <= i < inventory.pids.len() && (#[trigger] inventory.pids[i]).1
                                    == inventory.rows[j].inode;
                            assert(after.pids[i].1 == after.rows[j].inode);
                            assert(after.has_pids(after.rows[j].inode));
                        } else {
                            assert(inventory.rows[j].fs_paths.len() > 0);
                        }
                    }
                },
                None => {},
            }
        },
        EventView::NetnsIdEvent(NetnsIdEvent::Removed(id)) => {
            inventory.lemma_position_by_id(id);
            match inventory.position_by_id(id) {
                Some(k) => {
                    inventory.lemma_without_row_in_use(inventory.rows[k].inode);
                    inventory.lemma_position(inventory.rows[k].inode);
                },
                None => {},
            }
        },
        EventView::MountChange(change) => {
            if change.concerns_namespaces() {
                match change {
                    MountChangeView::Added(_, mount) => {
                        match observed {
                            Some(inode) => {
                                let ensured = inventory.ensure(inode);
                                inventory.lemma_ensure(inode);
                                ensured.lemma_position(inode);
                                let k = ensured.position(inode)->0;
                                let after = ensured.with_path(inode, mount.path);
                                assert forall|j: int| 0 <= j < after.rows.len() implies (
                                #[trigger] after.rows[j]).fs_paths.len() > 0 || after.has_pids(
                                    after.rows[j].inode,
                                ) by {
                                    if j == k {
                                        if ensured.rows[k].fs_paths.contains(mount.path) {
                                            lemma_contains_nonempty(
                                                ensured.rows[k].fs_paths,
                                                mount.path,
                                            );
                                        } else {
                                            assert(after.rows[k].fs_paths.len() > 0);
                                        }
                                    } else {
                                        assert(after.rows[j] == ensured.rows[j]);
                                        assert(ensured.rows[j].inode != inode);
                                        assert(j < inventory.rows.len());
                                        assert(ensured.rows[j] == inventory.rows[j]);
                                        if inventory.has_pids(inventory.rows[j].inode) {
                                            lemma_same_pids(
                                                inventory,
                                                after,
                                                inventory.rows[j].inode,
                                            );
                                        }
                                    }
                                }
                            },
                            None => {},
                        }
                    },
                    MountChangeView::Removed(uuid) => {
                        match bound_path(mounts, uuid) {
                            Some(path) => {
                                inventory.lemma_position_by_path(path);
                                match inventory.position_by_path(path) {
                                    Some(k) => {
                                        let inode = inventory.rows[k].inode;
                                        inventory.lemma_position(inode);
                                        inventory.lemma_without_path(inode, path);
                                        let without = inventory.without_path(inode, path);
                                        assert forall|j: int|
                                            0 <= j < without.rows.len() && (
                                            #[trigger] without.rows[j]).inode
                                                != inode implies without.rows[j].fs_paths.len() > 0
                                            || without.has_pids(without.rows[j].inode) by {
                                            assert(without.rows[j] == inventory.rows[j]);
                                        }
                                        without.lemma_drop_if_idle_in_use(inode);
                                    },
                                    None => {},
                                }
                            },
                            None => {},
                        }
                    },
                    MountChangeView::Modified(uuid, mount) => {
                        match bound_path(mounts, uuid) {
                            Some(path) => {
                                inventory.lemma_position_by_path(path);
                                match inventory.position_by_path(path) {
                                    Some(k) => {
                                        let inode = inventory.rows[k].inode;
                                        inventory.lemma_position(inode);
                                        inventory.lemma_without_path(inode, path);
                                        let without = inventory.without_path(inode, path);
                                        without.lemma_position(inode);
                                        let after = without.with_path(inode, mount.path);
                                        assert forall|j: int| 0 <= j < after.rows.len() implies (
                                        #[trigger] after.rows[j]).fs_paths.len() > 0
                                            || after.has_pids(after.rows[j].inode) by {
                                            if j == k {
                                                if without.rows[k].fs_paths.contains(mount.path) {
                                                    lemma_contains_nonempty(
                                                        without.rows[k].fs_paths,
                                                        mount.path,
                                                    );
                                                } else {
                                                    assert(after.rows[k].fs_paths.len() > 0);
                                                }
                                            } else {
                                                assert(after.rows[j] == without.rows[j]);
                                                assert(without.rows[j] == inventory.rows[j]);
                                                if inventory.has_pids(inventory.rows[j].inode) {
                                                    lemma_same_pids(
                                                        inventory,
                                                        after,
                                                        inventory.rows[j].inode,
                                                    );
                                                }
                                            }
                                        }
                                    },
                                    None => {},
                                }
                            },
                            None => {},
                        }
                    },
                }
            }
        },
        EventView::Syscall(e) => {
            if relocates(e.kind) {
                match observed {
                    Some(inode) => {
                        let ensured = inventory.ensure(inode);
                        inventory.lemma_ensure(inode);
                        ensured.lemma_place(e.pid, inode);
                        let placed = ensured.place(e.pid, inode);
                        inventory.lemma_pid_position(e.pid);
                        let left = inventory.inode_of(e.pid);
                        assert forall|j: int|
                            0 <= j < placed.rows.len() && (left is None || (
                            #[trigger] placed.rows[j]).inode
                                != left->0) implies placed.rows[j].fs_paths.len() > 0
                            || placed.has_pids(placed.rows[j].inode) by {
                            let n = placed.rows[j].inode;
                            ensured.lemma_place_pids(e.pid, inode, n);
                            if n != inode {
                                assert(ensured.rows[j] == inventory.rows[j]);
                                if inventory.rows[j].fs_paths.len() == 0 {
                                    assert(inventory.has_pids(n));
                                    let i = choose|i: int|
                                        0 <= i < inventory.pids.len() && (
                                        #[trigger] inventory.pids[i]).1 == n;
                                    if inventory.pids[i].0 == e.pid {
                                        assert(inventory.pid_position(e.pid) == Some(i));
                                    }
                                    assert(ensured.has_other_pids(n, e.pid));
                                }
                            }
                        }
                        match left {
                            Some(left) => {
                                if left != inode {
                                    placed.lemma_drop_if_idle_in_use(left);
                                } else {
                                    ensured.lemma_place_pids(e.pid, inode, inode);
                                    assert forall|j: int| 0 <= j < placed.rows.len() implies (
                                    #[trigger] placed.rows[j]).fs_paths.len() > 0
                                        || placed.has_pids(placed.rows[j].inode) by {}
                                }
                            },
                            None => {},
                        }
                    },
                    None => {},
                }
            } else if e.kind == EventType::Exit {
                inventory.lemma_pid_position(e.pid);
                let after = inventory.without_pid(e.pid);
                assert forall|j: int| 0 <= j < after.rows.len() implies (
                #[trigger] after.rows[j]).fs_paths.len() > 0 || after.has_pids(
                    after.rows[j].inode,
                ) by {
                    let n = inventory.rows[j].inode;
                    inventory.lemma_without_pid_pids(e.pid, n);
                    inventory.lemma_position(n);
                    if inventory.rows[j].fs_paths.len() == 0 {
                        assert(inventory.has_pids(n));
                        if !inventory.has_other_pids(n, e.pid) {
                            let i = choose|i: int|
                                0 <= i < inventory.pids.len() && (#[trigger] inventory.pids[i]).1
                                    == n;
                            assert(inventory.pids[i].0 == e.pid);
                            assert(inventory.pid_position(e.pid) == Some(i));
                            assert(inventory.inode_of(e.pid) == Some(n));
                            assert(inventory.position(n) == Some(j));
                        }
                    }
                }
            }
        },
        EventView::StateRequested => {},
    }
}

/// An event that the tracker handled, with what the probe of the event found.
pub struct Handled {
    pub event: EventView,
    pub observed: Option<INode>,
}

/// Events that are not requests for the current state.
pub open spec fn not_a_request() -> spec_fn(Handled) -> bool {
    |h: Handled| !(h.event is StateRequested)
}

/// The inventory and the mount bindings after the tracker, starting from
/// `inventory` and `mounts`, handled `inputs` one after the other.
pub open spec fn after_all(inventory: Inventory, mounts: MountBindings, inputs: Seq<Handled>) -> (
    Inventory,
    MountBindings,
)
    decreases inputs.len(),
{
    if inputs.len() == 0 {
        (inventory, mounts)
    } else {
        let (inv, bindings) = after_all(inventory, mounts, inputs.drop_last());
        let last = inputs.last();
        (last.event.apply(inv, bindings, last.observed), last.event.apply_mounts(bindings))
    }
}

/// However many events the tracker handles, the inventory stays consistent.
pub proof fn lemma_all_events_keep_consistency(
    inventory: Inventory,
    mounts: MountBindings,
    inputs: Seq<Handled>,
)
    requires
        inventory.wf(),
    ensures
        after_all(inventory, mounts, inputs).0.wf(),
    decreases inputs.len(),
{
    if inputs.len() > 0 {
        lemma_all_events_keep_consistency(inventory, mounts, inputs.drop_last());
        let (inv, bindings) = after_all(inventory, mounts, inputs.drop_last());
        lemma_event_keeps_consistency(inv, bindings, inputs.last().event, inputs.last().observed);
    }
}

/// The answer to a request for the current state is the snapshot of the
/// inventory folded over the events that the tracker handled before the
/// request, in the order in which it handled them; earlier requests leave no
/// trace in it.
pub proof fn lemma_snapshot_is_fold_of_events(
    inventory: Inventory,
    mounts: MountBindings,
    inputs: Seq<Handled>,
)
    ensures
        after_all(inventory, mounts, inputs) == after_all(
            inventory,
            mounts,
            inputs.filter(not_a_request()),
        ),
        EventView::StateRequested.answer(after_all(inventory, mounts, inputs).0) == Some(
            after_all(inventory, mounts, inputs.filter(not_a_request())).0.snapshot(),
        ),
    decreases inputs.len(),
{
    reveal(Seq::filter);
    if inputs.len() > 0 {
        lemma_snapshot_is_fold_of_events(inventory, mounts, inputs.drop_last());
        let kept = inputs.drop_last().filter(not_a_request());
        if not_a_request()(inputs.last()) {
            assert(kept.push(inputs.last()).drop_last() =~= kept);
        }
    }
}

} // verus!
