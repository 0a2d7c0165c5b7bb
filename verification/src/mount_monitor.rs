//! Mount points as the mount table reports them, and the changes that the
//! differ publishes about them.
use crate::search::{
    first_index, lemma_filter_step, lemma_first_index, lemma_first_index_is,
    lemma_first_index_none,
};
use crate::text::{
    clone_optional_string, clone_strings, optional_view, same_optional_string, same_strings, views,
};
use uuid::Uuid;
use vstd::prelude::*;
use vstd::string::*;

verus! {

/// The opaque 128-bit value under which the differ tracks one mount point.
pub type MountUuid = u128;

/// Whether a mount point is mounted read-only or read-write.
#[derive(Debug, Clone, Copy, PartialEq, Eq, Structural, PartialOrd, Ord)]
pub enum ReadWrite {
    ReadOnly,
    ReadWrite,
}

/// The options of a mount point.
#[derive(Debug, PartialEq)]
pub struct MountOptions {
    /// If it was mounted as read-only or read-write.
    pub read_write: ReadWrite,
    /// Additional options, kept as the mount table spells them.
    pub others: Vec<String>,
}

/// What `MountOptions` holds, as mathematical values.
pub struct MountOptionsView {
    pub read_write: ReadWrite,
    pub others: Seq<Seq<char>>,
}

impl View for MountOptions {
    type V = MountOptionsView;

    open spec fn view(&self) -> MountOptionsView {
        MountOptionsView { read_write: self.read_write, others: views(self.others@) }
    }
}

impl Clone for MountOptions {
    fn clone(&self) -> (r: Self)
        ensures
            r@ == self@,
    {
        MountOptions { read_write: self.read_write, others: clone_strings(&self.others) }
    }
}

impl MountOptions {
    /// Whether both hold the same mode and the same options in the same order.
    pub fn same(&self, other: &MountOptions) -> (r: bool)
        ensures
            r == (self@ == other@),
    {
        self.read_write == other.read_write && same_strings(&self.others, &other.others)
    }
}

/// The filesystem type of a mount point.
#[derive(Debug, PartialEq)]
pub enum FsType {
    /// procfs, the kernel's process table, usually mounted at /proc.
    Proc,
    /// overlayfs, which combines several lower filesystems into one directory.
    Overlay,
    /// tmpfs, a temporary filesystem kept in volatile memory.
    Tmpfs,
    /// sysfs, the kernel's device tree.
    Sysfs,
    /// btrfs.
    Btrfs,
    /// ext2.
    Ext2,
    /// ext3.
    Ext3,
    /// ext4.
    Ext4,
    /// devtmpfs.
    Devtmpfs,
    /// Any other filesystem, by the name the mount table gives it.
    Other(String),
}

/// What `FsType` holds, as mathematical values.
pub enum FsTypeView {
    Proc,
    Overlay,
    Tmpfs,
    Sysfs,
    Btrfs,
    Ext2,
    Ext3,
    Ext4,
    Devtmpfs,
    Other(Seq<char>),
}

impl View for FsType {
    type V = FsTypeView;

    open spec fn view(&self) -> FsTypeView {
        match self {
            FsType::Proc => FsTypeView::Proc,
            FsType::Overlay => FsTypeView::Overlay,
            FsType::Tmpfs => FsTypeView::Tmpfs,
            FsType::Sysfs => FsTypeView::Sysfs,
            FsType::Btrfs => FsTypeView::Btrfs,
            FsType::Ext2 => FsTypeView::Ext2,
            FsType::Ext3 => FsTypeView::Ext3,
            FsType::Ext4 => FsTypeView::Ext4,
            FsType::Devtmpfs => FsTypeView::Devtmpfs,
            FsType::Other(name) => FsTypeView::Other(name@),
        }
    }
}

impl Clone for FsType {
    fn clone(&self) -> (r: Self)
        ensures
            r@ == self@,
    {
        match self {
            FsType::Proc => FsType::Proc,
            FsType::Overlay => FsType::Overlay,
            FsType::Tmpfs => FsType::Tmpfs,
            FsType::Sysfs => FsType::Sysfs,
            FsType::Btrfs => FsType::Btrfs,
            FsType::Ext2 => FsType::Ext2,
            FsType::Ext3 => FsType::Ext3,
            FsType::Ext4 => FsType::Ext4,
            FsType::Devtmpfs => FsType::Devtmpfs,
            FsType::Other(name) => FsType::Other(name.clone()),
        }
    }
}

/// The filesystem type under which the kernel binds namespace handles into the
/// directory tree.
pub open spec fn nsfs() -> FsTypeView {
    FsTypeView::Other("nsfs"@)
}

impl FsType {
    /// Whether both are the same filesystem type.
    pub fn same(&self, other: &FsType) -> (r: bool)
        ensures
            r == (self@ == other@),
    {
        match (self, other) {
            (FsType::Proc, FsType::Proc) => true,
            (FsType::Overlay, FsType::Overlay) => true,
            (FsType::Tmpfs, FsType::Tmpfs) => true,
            (FsType::Sysfs, FsType::Sysfs) => true,
            (FsType::Btrfs, FsType::Btrfs) => true,
            (FsType::Ext2, FsType::Ext2) => true,
            (FsType::Ext3, FsType::Ext3) => true,
            (FsType::Ext4, FsType::Ext4) => true,
            (FsType::Devtmpfs, FsType::Devtmpfs) => true,
            (FsType::Other(a), FsType::Other(b)) => *a == *b,
            _ => false,
        }
    }

    /// Whether this is the filesystem type of namespace handles, `nsfs`.
    pub fn is_nsfs(&self) -> (r: bool)
        ensures
            r == (self@ == nsfs()),
    {
        match self {
            FsType::Other(name) => {
                let wanted = String::from_str("nsfs");
                *name == wanted
            },
            _ => false,
        }
    }
}

/// One entry of the mount table.
#[derive(Debug, PartialEq)]
pub struct MountPoint {
    /// The id of the mount point. It is unique among the mounted entries, but
    /// the kernel hands it out again after an unmount.
    pub id: Option<u32>,
    /// The id of the parent mount.
    pub parent_id: Option<u32>,
    /// The directory that acts as the root for this mount point.
    pub root: Option<String>,
    /// Filesystem-specific information.
    pub what: String,
    /// The mount point directory relative to the root.
    pub path: String,
    /// The filesystem type.
    pub fstype: FsType,
    /// Some additional mount options.
    pub options: MountOptions,
}

/// What `MountPoint` holds, as mathematical values.
pub struct MountPointView {
    pub id: Option<u32>,
    pub parent_id: Option<u32>,
    pub root: Option<Seq<char>>,
    pub what: Seq<char>,
    pub path: Seq<char>,
    pub fstype: FsTypeView,
    pub options: MountOptionsView,
}

impl View for MountPoint {
    type V = MountPointView;

    open spec fn view(&self) -> MountPointView {
        MountPointView {
            id: self.id,
            parent_id: self.parent_id,
            root: optional_view(self.root),
            what: self.what@,
            path: self.path@,
            fstype: self.fstype@,
            options: self.options@,
        }
    }
}

impl Clone for MountPoint {
    fn clone(&self) -> (r: Self)
        ensures
            r@ == self@,
    {
        MountPoint {
            id: self.id,
            parent_id: self.parent_id,
            root: clone_optional_string(&self.root),
            what: self.what.clone(),
            path: self.path.clone(),
            fstype: self.fstype.clone(),
            options: self.options.clone(),
        }
    }
}

impl MountPoint {
    /// Whether both entries agree in every field.
    pub fn same(&self, other: &MountPoint) -> (r: bool)
        ensures
            r == (self@ == other@),
    {
        self.id == other.id && self.parent_id == other.parent_id && same_optional_string(
            &self.root,
            &other.root,
        ) && self.what == other.what && self.path == other.path && self.fstype.same(&other.fstype)
            && self.options.same(&other.options)
    }
}

/// One change of the mount table, as the differ publishes it.
#[derive(Debug, PartialEq)]
pub enum MountChange {
    /// A mount point was seen for the first time and got a uuid.
    Added(MountUuid, MountPoint),
    /// The mount point tracked under the uuid is gone.
    Removed(MountUuid),
    /// The mount point tracked under the uuid now reads as given.
    Modified(MountUuid, MountPoint),
}

/// What `MountChange` holds, as mathematical values.
pub enum MountChangeView {
    Added(MountUuid, MountPointView),
    Removed(MountUuid),
    Modified(MountUuid, MountPointView),
}

impl View for MountChange {
    type V = MountChangeView;

    open spec fn view(&self) -> MountChangeView {
        match self {
            MountChange::Added(uuid, mount) => MountChangeView::Added(*uuid, mount@),
            MountChange::Removed(uuid) => MountChangeView::Removed(*uuid),
            MountChange::Modified(uuid, mount) => MountChangeView::Modified(*uuid, mount@),
        }
    }
}

impl Clone for MountChange {
    fn clone(&self) -> (r: Self)
        ensures
            r@ == self@,
    {
        match self {
            MountChange::Added(uuid, mount) => MountChange::Added(*uuid, mount.clone()),
            MountChange::Removed(uuid) => MountChange::Removed(*uuid),
            MountChange::Modified(uuid, mount) => MountChange::Modified(*uuid, mount.clone()),
        }
    }
}

impl MountChangeView {
    /// Whether the change concerns namespace handles: a removal always may, an
    /// addition or modification only of an `nsfs` mount.
    pub open spec fn concerns_namespaces(self) -> bool {
        match self {
            MountChangeView::Added(_, mount) => mount.fstype == nsfs(),
            MountChangeView::Removed(_) => true,
            MountChangeView::Modified(_, mount) => mount.fstype == nsfs(),
        }
    }
}

impl MountChange {
    /// Whether the change concerns namespace handles.
    pub fn concerns_namespaces(&self) -> (r: bool)
        ensures
            r == self@.concerns_namespaces(),
    {
        match self {
            MountChange::Added(_, mount) => mount.fstype.is_nsfs(),
            MountChange::Removed(_) => true,
            MountChange::Modified(_, mount) => mount.fstype.is_nsfs(),
        }
    }
}

/// The mount points that are tracked, each under its uuid, in the order in
/// which they were first tracked.
pub type MountBindings = Seq<(MountUuid, MountPointView)>;

/// Entries that are tracked under `uuid`.
pub open spec fn bound_as(uuid: MountUuid) -> spec_fn((MountUuid, MountPointView)) -> bool {
    |e: (MountUuid, MountPointView)| e.0 == uuid
}

/// The position of the entry that is tracked under `uuid`.
pub open spec fn slot_of(t: MountBindings, uuid: MountUuid) -> Option<int> {
    first_index(t, bound_as(uuid))
}

/// The mount point that is tracked under `uuid`.
pub open spec fn bound_mount(t: MountBindings, uuid: MountUuid) -> Option<MountPointView> {
    match slot_of(t, uuid) {
        Some(k) => Some(t[k].1),
        None => None,
    }
}

/// `t` with `mount` tracked under `uuid`: in the place of what was tracked
/// under it, or at the end.
pub open spec fn bind(t: MountBindings, uuid: MountUuid, mount: MountPointView) -> MountBindings {
    match slot_of(t, uuid) {
        Some(k) => t.update(k, (uuid, mount)),
        None => t.push((uuid, mount)),
    }
}

/// `t` without what was tracked under `uuid`.
pub open spec fn unbind(t: MountBindings, uuid: MountUuid) -> MountBindings {
    match slot_of(t, uuid) {
        Some(k) => t.remove(k),
        None => t,
    }
}

/// No uuid tracks two entries.
pub open spec fn distinct_uuids(t: MountBindings) -> bool {
    forall|i: int, j: int| 0 <= i < j < t.len() ==> (#[trigger] t[i]).0 != (#[trigger] t[j]).0
}

/// What `slot_of` finds: the one entry tracked under `uuid`, if there is one.
pub proof fn lemma_slot_of(t: MountBindings, uuid: MountUuid)
    ensures
        match slot_of(t, uuid) {
            Some(k) => 0 <= k < t.len() && t[k].0 == uuid,
            None => forall|i: int| 0 <= i < t.len() ==> (#[trigger] t[i]).0 != uuid,
        },
        distinct_uuids(t) ==> forall|k: int|
            0 <= k < t.len() && (#[trigger] t[k]).0 == uuid ==> slot_of(t, uuid) == Some(k),
{
    let p = bound_as(uuid);
    lemma_first_index(t, p);
    if slot_of(t, uuid) is None {
        assert forall|i: int| 0 <= i < t.len() implies (#[trigger] t[i]).0 != uuid by {
            assert(!p(t[i]));
        }
    }
    if distinct_uuids(t) {
        assert forall|k: int| 0 <= k < t.len() && (#[trigger] t[k]).0 == uuid implies slot_of(
            t,
            uuid,
        ) == Some(k) by {
            assert(p(t[k]));
            assert forall|j: int| 0 <= j < k implies !#[trigger] p(t[j]) by {}
            lemma_first_index_is(t, p, k);
        }
    }
}

/// Tracking keeps the uuids distinct, and what was tracked is then found.
pub proof fn lemma_bind(t: MountBindings, uuid: MountUuid, mount: MountPointView)
    requires
        distinct_uuids(t),
    ensures
        distinct_uuids(bind(t, uuid, mount)),
        bound_mount(bind(t, uuid, mount), uuid) == Some(mount),
        forall|other: MountUuid|
            other != uuid ==> bound_mount(bind(t, uuid, mount), other) == bound_mount(t, other),
{
    lemma_slot_of(t, uuid);
    let after = bind(t, uuid, mount);
    match slot_of(t, uuid) {
        Some(k) => {
            assert forall|i: int, j: int| 0 <= i < j < after.len() implies (#[trigger] after[i]).0
                != (#[trigger] after[j]).0 by {
                assert(after[i].0 == t[i].0 && after[j].0 == t[j].0);
            }
            lemma_slot_of(after, uuid);
            assert(after[k].0 == uuid);
        },
        None => {
            assert forall|i: int, j: int| 0 <= i < j < after.len() implies (#[trigger] after[i]).0
                != (#[trigger] after[j]).0 by {
                if j < t.len() {
                    assert(after[i] == t[i] && after[j] == t[j]);
                } else {
                    assert(after[i] == t[i]);
                }
            }
            lemma_slot_of(after, uuid);
            assert(after[t.len() as int].0 == uuid);
        },
    }
    assert forall|other: MountUuid| other != uuid implies bound_mount(after, other) == bound_mount(
        t,
        other,
    ) by {
        lemma_slot_of(t, other);
        lemma_slot_of(after, other);
        match slot_of(t, other) {
            Some(m) => {
                assert(after[m] == t[m]);
            },
            None => {
                if slot_of(after, other) is Some {
                    let m = slot_of(after, other)->0;
                    if m < t.len() {
                        assert(after[m].0 == t[m].0);
                    }
                }
            },
        }
    }
}

/// Untracking keeps the uuids distinct, and the uuid then tracks nothing.
pub proof fn lemma_unbind(t: MountBindings, uuid: MountUuid)
    requires
        distinct_uuids(t),
    ensures
        distinct_uuids(unbind(t, uuid)),
        bound_mount(unbind(t, uuid), uuid) is None,
        forall|other: MountUuid|
            other != uuid ==> bound_mount(unbind(t, uuid), other) == bound_mount(t, other),
{
    lemma_slot_of(t, uuid);
    let after = unbind(t, uuid);
    match slot_of(t, uuid) {
        Some(k) => {
            assert forall|i: int, j: int| 0 <= i < j < after.len() implies (#[trigger] after[i]).0
                != (#[trigger] after[j]).0 by {
                let a = if i < k { i } else { i + 1 };
                let b = if j < k { j } else { j + 1 };
                assert(after[i] == t[a] && after[j] == t[b]);
            }
            assert forall|i: int| 0 <= i < after.len() implies (#[trigger] after[i]).0 != uuid by {
                let a = if i < k { i } else { i + 1 };
                assert(after[i] == t[a]);
            }
            lemma_first_index_none(after, bound_as(uuid));
            assert forall|other: MountUuid| other != uuid implies bound_mount(after, other) == bound_mount(
                t,
                other,
            ) by {
                lemma_slot_of(t, other);
                lemma_slot_of(after, other);
                match slot_of(t, other) {
                    Some(m) => {
                        let at = if m < k { m } else { m - 1 };
                        assert(after[at] == t[m]);
                    },
                    None => {
                        if slot_of(after, other) is Some {
                            let m = slot_of(after, other)->0;
                            let a = if m < k { m } else { m + 1 };
                            assert(after[m] == t[a]);
                        }
                    },
                }
            }
        },
        None => {},
    }
}

/// The bindings after a mount change: an addition or a modification binds the
/// mount point to its uuid, a removal unbinds the uuid.
pub open spec fn mounts_after(mounts: MountBindings, change: MountChangeView) -> MountBindings {
    match change {
        MountChangeView::Added(uuid, mount) => bind(mounts, uuid, mount),
        MountChangeView::Removed(uuid) => unbind(mounts, uuid),
        MountChangeView::Modified(uuid, mount) => bind(mounts, uuid, mount),
    }
}

/// The mount points that are tracked, each under its uuid.
#[derive(Debug)]
pub struct MountTable {
    entries: Vec<(MountUuid, MountPoint)>,
}

impl View for MountTable {
    type V = MountBindings;

    closed spec fn view(&self) -> MountBindings {
        Seq::new(self.entries@.len(), |k: int| (self.entries@[k].0, self.entries@[k].1@))
    }
}

impl MountTable {
    /// No uuid tracks two entries.
    pub open spec fn wf(&self) -> bool {
        distinct_uuids(self@)
    }

    /// A table that tracks nothing.
    pub fn new() -> (r: MountTable)
        ensures
            r@ == Seq::<(MountUuid, MountPointView)>::empty(),
            r.wf(),
    {
        let r = MountTable { entries: Vec::new() };
        assert(r@ =~= Seq::empty());
        r
    }

    /// The number of tracked mount points.
    pub fn len(&self) -> (r: usize)
        ensures
            r == self@.len(),
    {
        self.entries.len()
    }

    /// The uuid of the entry at position `k`.
    pub fn uuid_at(&self, k: usize) -> (r: MountUuid)
        requires
            k < self@.len(),
        ensures
            r == self@[k as int].0,
    {
        self.entries[k].0
    }

    /// The mount point of the entry at position `k`.
    pub fn mount_at(&self, k: usize) -> (r: &MountPoint)
        requires
            k < self@.len(),
        ensures
            r@ == self@[k as int].1,
    {
        &self.entries[k].1
    }

    /// The position of the entry that is tracked under `uuid`.
    pub fn slot(&self, uuid: MountUuid) -> (r: Option<usize>)
        ensures
            match r {
                Some(k) => k < self@.len() && slot_of(self@, uuid) == Some(k as int),
                None => slot_of(self@, uuid) is None,
            },
    {
        let mut i: usize = 0;
        while i < self.entries.len()
            invariant
                i <= self.entries.len(),
                forall|j: int| 0 <= j < i ==> !#[trigger] bound_as(uuid)(self@[j]),
            decreases self.entries.len() - i,
        {
            if self.entries[i].0 == uuid {
                proof {
                    assert(bound_as(uuid)(self@[i as int]));
                    lemma_first_index_is(self@, bound_as(uuid), i as int);
                }
                return Some(i);
            }
            i += 1;
        }
        proof {
            lemma_first_index_none(self@, bound_as(uuid));
        }
        None
    }

    /// The mount point that is tracked under `uuid`.
    pub fn get(&self, uuid: MountUuid) -> (r: Option<&MountPoint>)
        ensures
            match r {
                Some(mount) => bound_mount(self@, uuid) == Some(mount@),
                None => bound_mount(self@, uuid) is None,
            },
    {
        match self.slot(uuid) {
            Some(k) => Some(&self.entries[k].1),
            None => None,
        }
    }

    /// Tracks `mount` under `uuid`, in the place of what was tracked under it.
    pub fn insert(&mut self, uuid: MountUuid, mount: MountPoint)
        requires
            old(self).wf(),
        ensures
            final(self)@ == bind(old(self)@, uuid, mount@),
            final(self).wf(),
    {
        proof {
            lemma_bind(self@, uuid, mount@);
        }
        match self.slot(uuid) {
            Some(k) => {
                self.entries.set(k, (uuid, mount));
            },
            None => {
                self.entries.push((uuid, mount));
            },
        }
        assert(self@ =~= bind(old(self)@, uuid, mount@));
    }

    /// Stops tracking what was tracked under `uuid`.
    pub fn remove(&mut self, uuid: MountUuid)
        requires
            old(self).wf(),
        ensures
            final(self)@ == unbind(old(self)@, uuid),
            final(self).wf(),
    {
        proof {
            lemma_unbind(self@, uuid);
        }
        match self.slot(uuid) {
            Some(k) => {
                self.entries.remove(k);
            },
            None => {},
        }
        assert(self@ =~= unbind(old(self)@, uuid));
    }
}

/// What a list of mount points holds, in order.
pub open spec fn mount_views(v: Seq<MountPoint>) -> Seq<MountPointView> {
    Seq::new(v.len(), |i: int| v[i]@)
}

/// What a list of mount changes holds, in order.
pub open spec fn change_views(v: Seq<MountChange>) -> Seq<MountChangeView> {
    Seq::new(v.len(), |i: int| v[i]@)
}

/// Entries whose mount point has the kernel mount id `id`.
pub open spec fn with_mount_id(id: u32) -> spec_fn((MountUuid, MountPointView)) -> bool {
    |e: (MountUuid, MountPointView)| e.1.id == Some(id)
}

/// Entries whose mount point has no kernel mount id and is mounted at `path`.
pub open spec fn id_less_at(path: Seq<char>) -> spec_fn((MountUuid, MountPointView)) -> bool {
    |e: (MountUuid, MountPointView)| e.1.id is None && e.1.path == path
}

/// The position of the first entry of the previous state that has the kernel
/// mount id of `mount`, the primary key where `mount` has one.
pub open spec fn match_by_id(previous: MountBindings, mount: MountPointView) -> Option<int> {
    match mount.id {
        Some(id) => first_index(previous, with_mount_id(id)),
        None => None,
    }
}

/// The position of the first entry of the previous state that has no kernel
/// mount id and is mounted where `mount` is, the fallback key.
pub open spec fn match_by_path(previous: MountBindings, mount: MountPointView) -> Option<int> {
    first_index(previous, id_less_at(mount.path))
}

/// What the differ has gathered while it walks a rescan: the changes to
/// publish, the state to come, and the uuids of the previous state that were
/// observed again.
pub struct Diff {
    pub events: Seq<MountChangeView>,
    pub next: MountBindings,
    pub seen: Set<MountUuid>,
}

/// `acc` after one more entry of the rescan, for which `fresh` is at hand
/// should the entry need a uuid of its own.
///
/// An entry that matches a previous one by mount id, but at another path, is
/// a removal followed by an addition under the fresh uuid. One that matches
/// by mount id or by path keeps the uuid, and is a modification if anything
/// about it differs. One that matches nothing is an addition under the fresh
/// uuid.
pub open spec fn diff_entry(
    previous: MountBindings,
    acc: Diff,
    mount: MountPointView,
    fresh: MountUuid,
) -> Diff {
    match match_by_id(previous, mount) {
        Some(k) => {
            let (uuid, known) = previous[k];
            if mount.path != known.path {
                Diff {
                    events: acc.events.push(MountChangeView::Removed(uuid)).push(
                        MountChangeView::Added(fresh, mount),
                    ),
                    next: bind(acc.next, fresh, mount),
                    seen: acc.seen.insert(uuid),
                }
            } else if mount != known {
                Diff {
                    events: acc.events.push(MountChangeView::Modified(uuid, mount)),
                    next: bind(acc.next, uuid, mount),
                    seen: acc.seen.insert(uuid),
                }
            } else {
                Diff {
                    events: acc.events,
                    next: bind(acc.next, uuid, mount),
                    seen: acc.seen.insert(uuid),
                }
            }
        },
        None => match match_by_path(previous, mount) {
            Some(k) => {
                let (uuid, known) = previous[k];
                Diff {
                    events: if mount != known {
                        acc.events.push(MountChangeView::Modified(uuid, mount))
                    } else {
                        acc.events
                    },
                    next: bind(acc.next, uuid, mount),
                    seen: acc.seen.insert(uuid),
                }
            },
            None => Diff {
                events: acc.events.push(MountChangeView::Added(fresh, mount)),
                next: bind(acc.next, fresh, mount),
                seen: acc.seen,
            },
        },
    }
}

/// What the differ has gathered after it walked `rescanned`, where `fresh[i]`
/// is the uuid at hand for `rescanned[i]`.
pub open spec fn diff_entries(
    previous: MountBindings,
    rescanned: Seq<MountPointView>,
    fresh: Seq<MountUuid>,
) -> Diff
    decreases rescanned.len(),
{
    if rescanned.len() == 0 {
        Diff { events: Seq::empty(), next: Seq::empty(), seen: Set::empty() }
    } else {
        diff_entry(
            previous,
            diff_entries(previous, rescanned.drop_last(), fresh),
            rescanned.last(),
            fresh[rescanned.len() - 1],
        )
    }
}

/// Entries whose uuid is not in `seen`.
pub open spec fn unseen(seen: Set<MountUuid>) -> spec_fn((MountUuid, MountPointView)) -> bool {
    |e: (MountUuid, MountPointView)| !seen.contains(e.0)
}

/// The removal of an entry.
pub open spec fn removal() -> spec_fn((MountUuid, MountPointView)) -> MountChangeView {
    |e: (MountUuid, MountPointView)| MountChangeView::Removed(e.0)
}

/// The removals of the entries of the previous state that were not observed
/// again, in the order of the previous state.
pub open spec fn departed(previous: MountBindings, seen: Set<MountUuid>) -> Seq<MountChangeView> {
    previous.filter(unseen(seen)).map_values(removal())
}

/// The changes that a rescan publishes and the state that it leaves, where
/// `fresh[i]` is the uuid at hand for `rescanned[i]`.
pub open spec fn rescan(
    previous: MountBindings,
    rescanned: Seq<MountPointView>,
    fresh: Seq<MountUuid>,
) -> (Seq<MountChangeView>, MountBindings) {
    let walked = diff_entries(previous, rescanned, fresh);
    (walked.events + departed(previous, walked.seen), walked.next)
}

/// The state after every mount point of `mounts` was bound in turn, each to
/// the uuid at hand for it.
pub open spec fn bind_all(mounts: Seq<MountPointView>, fresh: Seq<MountUuid>) -> MountBindings
    decreases mounts.len(),
{
    if mounts.len() == 0 {
        Seq::empty()
    } else {
        bind(bind_all(mounts.drop_last(), fresh), fresh[mounts.len() - 1], mounts.last())
    }
}

/// The additions that announce every entry of a state, in order.
pub open spec fn announced(state: MountBindings) -> Seq<MountChangeView> {
    Seq::new(state.len(), |k: int| MountChangeView::Added(state[k].0, state[k].1))
}

/// Whether `uuid` has the shape of a random uuid: version 4, variant 1.
pub open spec fn is_random_uuid(uuid: MountUuid) -> bool {
    uuid & 0x0000_0000_0000_f000_c000_0000_0000_0000u128
        == 0x0000_0000_0000_4000_8000_0000_0000_0000u128
}

/// Draws a random uuid.
///
/// Calls `uuid::Uuid::new_v4` and hands the value out as the 128-bit number
/// that `Uuid::as_u128` gives. Taken on trust from its source: whatever is
/// drawn, the version and variant bits are those of a random uuid.
#[verifier::external_body]
fn fresh_uuid() -> (r: MountUuid)
    ensures
        is_random_uuid(r),
{
    Uuid::new_v4().as_u128()
}

/// The uuids of a list of mount points that each come with a uuid.
pub open spec fn paired_uuids(v: Seq<(MountUuid, MountPoint)>) -> Seq<MountUuid> {
    Seq::new(v.len(), |i: int| v[i].0)
}

/// The mount points of a list of mount points that each come with a uuid.
pub open spec fn paired_mounts(v: Seq<(MountUuid, MountPoint)>) -> Seq<MountPointView> {
    Seq::new(v.len(), |i: int| v[i].1@)
}

/// Draws a random uuid for each mount point.
fn with_fresh_uuids(mounts: Vec<MountPoint>) -> (r: Vec<(MountUuid, MountPoint)>)
    ensures
        paired_mounts(r@) == mount_views(mounts@),
        forall|i: int| 0 <= i < r@.len() ==> is_random_uuid(#[trigger] paired_uuids(r@)[i]),
{
    let mut out: Vec<(MountUuid, MountPoint)> = Vec::new();
    let mut i: usize = 0;
    while i < mounts.len()
        invariant
            i <= mounts.len(),
            out@.len() == i,
            forall|j: int| 0 <= j < i ==> (#[trigger] out@[j]).1@ == mounts@[j]@,
            forall|j: int| 0 <= j < i ==> is_random_uuid(#[trigger] paired_uuids(out@)[j]),
        decreases mounts.len() - i,
    {
        let ghost before = out@;
        out.push((fresh_uuid(), mounts[i].clone()));
        proof {
            assert forall|j: int| 0 <= j < i + 1 implies is_random_uuid(
                #[trigger] paired_uuids(out@)[j],
            ) by {
                if j < i {
                    assert(paired_uuids(before)[j] == paired_uuids(out@)[j]);
                }
            }
        }
        i += 1;
    }
    assert(paired_mounts(out@) =~= mount_views(mounts@));
    out
}

impl MountTable {
    /// The position of the first entry with the kernel mount id `id`.
    pub fn slot_by_mount_id(&self, id: u32) -> (r: Option<usize>)
        ensures
            match r {
                Some(k) => k < self@.len() && first_index(self@, with_mount_id(id)) == Some(
                    k as int,
                ),
                None => first_index(self@, with_mount_id(id)) is None,
            },
    {
        let mut i: usize = 0;
        while i < self.entries.len()
            invariant
                i <= self.entries.len(),
                forall|j: int| 0 <= j < i ==> !#[trigger] with_mount_id(id)(self@[j]),
            decreases self.entries.len() - i,
        {
            let found = match self.entries[i].1.id {
                Some(x) => x == id,
                None => false,
            };
            if found {
                proof {
                    assert(with_mount_id(id)(self@[i as int]));
                    lemma_first_index_is(self@, with_mount_id(id), i as int);
                }
                return Some(i);
            }
            i += 1;
        }
        proof {
            lemma_first_index_none(self@, with_mount_id(id));
        }
        None
    }

    /// The position of the first entry without a kernel mount id at `path`.
    pub fn slot_by_path(&self, path: &String) -> (r: Option<usize>)
        ensures
            match r {
                Some(k) => k < self@.len() && first_index(self@, id_less_at(path@)) == Some(
                    k as int,
                ),
                None => first_index(self@, id_less_at(path@)) is None,
            },
    {
        let mut i: usize = 0;
        while i < self.entries.len()
            invariant
                i <= self.entries.len(),
                forall|j: int| 0 <= j < i ==> !#[trigger] id_less_at(path@)(self@[j]),
            decreases self.entries.len() - i,
        {
            if self.entries[i].1.id.is_none() && self.entries[i].1.path == *path {
                proof {
                    assert(id_less_at(path@)(self@[i as int]));
                    lemma_first_index_is(self@, id_less_at(path@), i as int);
                }
                return Some(i);
            }
            i += 1;
        }
        proof {
            lemma_first_index_none(self@, id_less_at(path@));
        }
        None
    }
}

/// The differ's memory of the mount table: every mount point that the last
/// scan saw, under the uuid that it was given at first sight.
#[derive(Debug)]
pub struct State {
    mountinfo: MountTable,
}

impl View for State {
    type V = MountBindings;

    closed spec fn view(&self) -> MountBindings {
        self.mountinfo@
    }
}

impl State {
    /// No uuid stands for two mount points.
    pub open spec fn wf(&self) -> bool {
        distinct_uuids(self@)
    }

    /// The state after a first scan of the mount table: every mount point
    /// under a random uuid of its own.
    pub fn new(mounts: Vec<MountPoint>) -> (r: State)
        ensures
            r.wf(),
            exists|fresh: Seq<MountUuid>|
                fresh.len() == mounts@.len() && (forall|i: int|
                    0 <= i < fresh.len() ==> is_random_uuid(#[trigger] fresh[i])) && r@
                    == bind_all(mount_views(mounts@), fresh),
    {
        let paired = with_fresh_uuids(mounts);
        let ghost fresh = paired_uuids(paired@);
        let r = State::with_uuids(paired);
        assert(fresh.len() == mounts@.len() && (forall|i: int|
            0 <= i < fresh.len() ==> is_random_uuid(#[trigger] fresh[i])) && r@ == bind_all(
            mount_views(mounts@),
            fresh,
        ));
        r
    }

    /// The state after a first scan of the mount table, where each mount
    /// point comes with the uuid to bind it to.
    pub fn with_uuids(mounts: Vec<(MountUuid, MountPoint)>) -> (r: State)
        ensures
            r.wf(),
            r@ == bind_all(paired_mounts(mounts@), paired_uuids(mounts@)),
    {
        let ghost all = paired_mounts(mounts@);
        let ghost fresh = paired_uuids(mounts@);
        let mut table = MountTable::new();
        let mut i: usize = 0;
        assert(all.take(0) =~= Seq::empty());
        while i < mounts.len()
            invariant
                i <= mounts.len(),
                all == paired_mounts(mounts@),
                fresh == paired_uuids(mounts@),
                table.wf(),
                table@ == bind_all(all.take(i as int), fresh),
            decreases mounts.len() - i,
        {
            proof {
                assert(all.take(i + 1).drop_last() =~= all.take(i as int));
                assert(all.take(i + 1).last() == mounts@[i as int].1@);
                assert(fresh[i as int] == mounts@[i as int].0);
            }
            table.insert(mounts[i].0, mounts[i].1.clone());
            i += 1;
        }
        assert(all.take(i as int) =~= all);
        State { mountinfo: table }
    }

    /// Reconciles the state with a rescan of the mount table, drawing a random
    /// uuid for each entry in case it is new. Returns the changes to publish,
    /// in order.
    pub fn update_mountinfo(&mut self, rescanned: Vec<MountPoint>) -> (events: Vec<MountChange>)
        requires
            old(self).wf(),
        ensures
            final(self).wf(),
            exists|fresh: Seq<MountUuid>|
                fresh.len() == rescanned@.len() && (forall|i: int|
                    0 <= i < fresh.len() ==> is_random_uuid(#[trigger] fresh[i])) && (
                change_views(events@),
                final(self)@,
            ) == rescan(old(self)@, mount_views(rescanned@), fresh),
    {
        let paired = with_fresh_uuids(rescanned);
        let ghost fresh = paired_uuids(paired@);
        let events = self.apply_rescan(paired);
        assert(fresh.len() == rescanned@.len() && (forall|i: int|
            0 <= i < fresh.len() ==> is_random_uuid(#[trigger] fresh[i])) && (
            change_views(events@),
            self@,
        ) == rescan(old(self)@, mount_views(rescanned@), fresh));
        events
    }

    /// Reconciles the state with a rescan of the mount table, where each
    /// entry comes with the uuid to give it should it be new. Returns the
    /// changes to publish, in order.
    pub fn apply_rescan(&mut self, rescanned: Vec<(MountUuid, MountPoint)>) -> (events: Vec<
        MountChange,
    >)
        requires
            old(self).wf(),
        ensures
            final(self).wf(),
            (change_views(events@), final(self)@) == rescan(
                old(self)@,
                paired_mounts(rescanned@),
                paired_uuids(rescanned@),
            ),
    {
        let ghost previous = self@;
        let ghost all = paired_mounts(rescanned@);
        let ghost fresh = paired_uuids(rescanned@);
        // This will become the new state.
        let mut new_map = MountTable::new();
        let mut events: Vec<MountChange> = Vec::new();
        // Which entries of the old state were seen again.
        let mut seen_old: Vec<bool> = Vec::new();
        let mut k: usize = 0;
        while k < self.mountinfo.len()
            invariant
                k <= self.mountinfo@.len(),
                seen_old@.len() == k,
                forall|j: int| 0 <= j < k ==> !#[trigger] seen_old@[j],
            decreases self.mountinfo@.len() - k,
        {
            seen_old.push(false);
            k += 1;
        }
        let ghost mut walked = Diff { events: Seq::empty(), next: Seq::empty(), seen: Set::empty() };
        assert(all.take(0) =~= Seq::empty());
        assert(change_views(events@) =~= Seq::empty());
        // For each newly scanned mount point, decide Added/Modified/Unchanged.
        let mut i: usize = 0;
        while i < rescanned.len()
            invariant
                i <= rescanned.len(),
                previous == self@,
                self.wf(),
                all == paired_mounts(rescanned@),
                fresh == paired_uuids(rescanned@),
                walked == diff_entries(previous, all.take(i as int), fresh),
                change_views(events@) == walked.events,
                new_map@ == walked.next,
                new_map.wf(),
                seen_old@.len() == previous.len(),
                forall|j: int|
                    0 <= j < previous.len() ==> (#[trigger] seen_old@[j] == walked.seen.contains(
                        previous[j].0,
                    )),
            decreases rescanned.len() - i,
        {
            let mp = &rescanned[i].1;
            let new_uuid = rescanned[i].0;
            let ghost before = walked;
            proof {
                assert(all.take(i + 1).drop_last() =~= all.take(i as int));
                assert(all.take(i + 1).last() == mp@);
                assert(fresh[i as int] == new_uuid);
                walked = diff_entry(previous, before, mp@, new_uuid);
            }
            // Try to match by kernel mount id first.
            let by_id = match mp.id {
                Some(id) => self.mountinfo.slot_by_mount_id(id),
                None => None,
            };
            match by_id {
                Some(at) => {
                    let uuid = self.mountinfo.uuid_at(at);
                    let old_mp = self.mountinfo.mount_at(at);
                    if mp.path != old_mp.path {
                        // The mount point moved: treat as remove + add.
                        events.push(MountChange::Removed(uuid));
                        events.push(MountChange::Added(new_uuid, mp.clone()));
                        new_map.insert(new_uuid, mp.clone());
                    } else if !mp.same(old_mp) {
                        // Same path but other metadata changed.
                        events.push(MountChange::Modified(uuid, mp.clone()));
                        new_map.insert(uuid, mp.clone());
                    } else {
                        new_map.insert(uuid, mp.clone());
                    }
                    seen_old.set(at, true);
                    proof {
                        lemma_seen(previous, before.seen, at as int);
                    }
                },
                None => {
                    // Fallback: match by path for mounts without a usable id.
                    match self.mountinfo.slot_by_path(&mp.path) {
                        Some(at) => {
                            let uuid = self.mountinfo.uuid_at(at);
                            let old_mp = self.mountinfo.mount_at(at);
                            if !mp.same(old_mp) {
                                events.push(MountChange::Modified(uuid, mp.clone()));
                            }
                            new_map.insert(uuid, mp.clone());
                            seen_old.set(at, true);
                            proof {
                                lemma_seen(previous, before.seen, at as int);
                            }
                        },
                        None => {
                            // Entirely new mount.
                            events.push(MountChange::Added(new_uuid, mp.clone()));
                            new_map.insert(new_uuid, mp.clone());
                        },
                    }
                },
            }
            assert(change_views(events@) =~= walked.events);
            i += 1;
        }
        assert(all.take(i as int) =~= all);
        // Anything in the old state that was not seen above has been removed.
        let ghost told = change_views(events@);
        let mut j: usize = 0;
        proof {
            if previous.len() > 0 {
                lemma_filter_step(previous, unseen(walked.seen), 0);
            } else {
                assert(previous.take(0) =~= previous);
                assert(previous.filter(unseen(walked.seen)) =~= Seq::empty()) by {
                    reveal(Seq::filter);
                }
            }
            assert(previous.take(0).filter(unseen(walked.seen)).map_values(removal())
                =~= Seq::empty());
            assert(change_views(events@) =~= told + Seq::empty());
        }
        while j < self.mountinfo.len()
            invariant
                j <= previous.len(),
                previous == self@,
                seen_old@.len() == previous.len(),
                forall|m: int|
                    0 <= m < previous.len() ==> (#[trigger] seen_old@[m] == walked.seen.contains(
                        previous[m].0,
                    )),
                change_views(events@) == told + previous.take(j as int).filter(
                    unseen(walked.seen),
                ).map_values(removal()),
            decreases previous.len() - j,
        {
            proof {
                lemma_filter_step(previous, unseen(walked.seen), j as int);
            }
            let ghost partial = previous.take(j as int).filter(unseen(walked.seen));
            let ghost so_far = change_views(events@);
            assert(seen_old@[j as int] == walked.seen.contains(previous[j as int].0));
            if !seen_old[j] {
                events.push(MountChange::Removed(self.mountinfo.uuid_at(j)));
                assert(unseen(walked.seen)(previous[j as int]));
                assert(change_views(events@) =~= so_far.push(
                    MountChangeView::Removed(previous[j as int].0),
                ));
                assert(partial.push(previous[j as int]).map_values(removal())
                    =~= partial.map_values(removal()).push(
                    MountChangeView::Removed(previous[j as int].0),
                ));
                assert(change_views(events@) =~= told + previous.take(j + 1).filter(
                    unseen(walked.seen),
                ).map_values(removal()));
            }
            j += 1;
        }
        assert(previous.take(j as int) =~= previous);
        // Replace the state.
        self.mountinfo = new_map;
        events
    }

    /// Every stored mount point as a newly added one, in order.
    pub fn send_mountinfo(&self) -> (events: Vec<MountChange>)
        ensures
            change_views(events@) == announced(self@),
    {
        let mut events: Vec<MountChange> = Vec::new();
        let mut i: usize = 0;
        while i < self.mountinfo.len()
            invariant
                i <= self@.len(),
                events@.len() == i,
                forall|j: int|
                    0 <= j < i ==> (#[trigger] events@[j])@ == MountChangeView::Added(
                        self@[j].0,
                        self@[j].1,
                    ),
            decreases self@.len() - i,
        {
            events.push(
                MountChange::Added(self.mountinfo.uuid_at(i), self.mountinfo.mount_at(i).clone()),
            );
            i += 1;
        }
        assert(change_views(events@) =~= announced(self@));
        events
    }
}

/// Marking the entry at `at` as seen marks no other entry: uuids are distinct.
proof fn lemma_seen(previous: MountBindings, seen: Set<MountUuid>, at: int)
    requires
        distinct_uuids(previous),
        0 <= at < previous.len(),
    ensures
        forall|j: int|
            0 <= j < previous.len() ==> (#[trigger] seen.insert(previous[at].0).contains(
                previous[j].0,
            ) == (j == at || seen.contains(previous[j].0))),
{
    assert forall|j: int| 0 <= j < previous.len() implies (#[trigger] seen.insert(
        previous[at].0,
    ).contains(previous[j].0) == (j == at || seen.contains(previous[j].0))) by {
        if j != at {
            if j < at {
                assert(previous[j].0 != previous[at].0);
            } else {
                assert(previous[at].0 != previous[j].0);
            }
        }
    }
}

/// Whether `path` is the mount table that the differ scans, the file
/// `/proc/self/mountinfo`: a change of any other file calls for no rescan.
pub fn is_mount_table(path: &str) -> (r: bool)
    ensures
        r == (path@ == "/proc/self/mountinfo"@),
{
    String::from_str(path) == String::from_str("/proc/self/mountinfo")
}

/// Mount points of the filesystem type `nsfs`.
pub open spec fn on_nsfs() -> spec_fn(MountPointView) -> bool {
    |mount: MountPointView| mount.fstype == nsfs()
}

/// The path of a mount point.
pub open spec fn mounted_at() -> spec_fn(MountPointView) -> Seq<char> {
    |mount: MountPointView| mount.path
}

/// The paths of the `nsfs` mounts among `mounts`, in the order of the mount
/// table and as often as the table lists them.
pub open spec fn nsfs_paths(mounts: Seq<MountPointView>) -> Seq<Seq<char>> {
    mounts.filter(on_nsfs()).map_values(mounted_at())
}

/// The paths at which namespace handles are bound: those of the `nsfs`
/// mounts of the mount table, in its order.
pub fn nsfs_mount_paths(mounts: &Vec<MountPoint>) -> (r: Vec<String>)
    ensures
        views(r@) == nsfs_paths(mount_views(mounts@)),
{
    let ghost all = mount_views(mounts@);
    let mut out: Vec<String> = Vec::new();
    let mut i: usize = 0;
    proof {
        if all.len() > 0 {
            lemma_filter_step(all, on_nsfs(), 0);
        } else {
            assert(all.take(0) =~= all);
            assert(all.filter(on_nsfs()) =~= Seq::empty()) by {
                reveal(Seq::filter);
            }
        }
        assert(views(out@) =~= nsfs_paths(all.take(0)));
    }
    while i < mounts.len()
        invariant
            i <= mounts.len(),
            all == mount_views(mounts@),
            views(out@) == nsfs_paths(all.take(i as int)),
        decreases mounts.len() - i,
    {
        proof {
            lemma_filter_step(all, on_nsfs(), i as int);
        }
        let ghost before = views(out@);
        let ghost kept = all.take(i as int).filter(on_nsfs());
        if mounts[i].fstype.is_nsfs() {
            out.push(mounts[i].path.clone());
            assert(views(out@) =~= before.push(mounts[i as int]@.path));
            assert(kept.push(all[i as int]).map_values(mounted_at()) =~= kept.map_values(
                mounted_at(),
            ).push(all[i as int].path));
        }
        i += 1;
    }
    assert(all.take(i as int) =~= all);
    out
}

} // verus!
