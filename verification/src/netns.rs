//! Network namespaces as the tracker reports them.
use crate::netns_tracker::{file_views, process_netns_path, process_netns_path_spec};
use crate::procfs::{parse_procfs_path_start, procfs_pid};
use crate::search::{
    first_index, lemma_filter_step, lemma_first_index, lemma_first_index_is,
    lemma_first_index_none,
};
use crate::text::{clone_strings, position_of, views};
use vstd::prelude::*;
use vstd::string::*;

verus! {

/// The inode number of a namespace handle, unique per namespace while the host runs.
pub type INode = u64;

/// A process or thread id.
pub type Pid = u32;

/// The small non-negative integer under which a peer namespace is known.
pub type NsId = i32;

/// One network namespace with everything the tracker knows about it.
#[derive(Debug, PartialEq)]
pub struct NetworkNamespace {
    /// The way to tell namespaces apart: different namespaces have different
    /// inodes, and the same namespace always has the same inode.
    pub inode: INode,
    /// The id that the kernel assigned to the namespace, if it assigned one.
    pub id: Option<NsId>,
    /// The `nsfs` bind mounts that resolve to the namespace. For example,
    /// `ip netns add <name>` binds a namespace to `/run/netns/<name>`.
    pub fs_paths: Vec<String>,
    /// The processes that run in the namespace.
    pub pids: Vec<Pid>,
}

/// What `NetworkNamespace` holds, as mathematical values.
pub struct NetworkNamespaceView {
    pub inode: INode,
    pub id: Option<NsId>,
    pub fs_paths: Seq<Seq<char>>,
    pub pids: Seq<Pid>,
}

impl View for NetworkNamespace {
    type V = NetworkNamespaceView;

    open spec fn view(&self) -> NetworkNamespaceView {
        NetworkNamespaceView {
            inode: self.inode,
            id: self.id,
            fs_paths: views(self.fs_paths@),
            pids: self.pids@,
        }
    }
}

impl Clone for NetworkNamespace {
    fn clone(&self) -> (r: Self)
        ensures
            r@ == self@,
    {
        NetworkNamespace {
            inode: self.inode,
            id: self.id,
            fs_paths: clone_strings(&self.fs_paths),
            pids: self.pids.clone(),
        }
    }
}

/// What a list of namespaces holds, in order.
pub open spec fn namespace_views(v: Seq<NetworkNamespace>) -> Seq<NetworkNamespaceView> {
    Seq::new(v.len(), |i: int| v[i]@)
}

impl NetworkNamespaceView {
    /// Every file through which the namespace can be opened: its bind mounts
    /// first, then the handle of each of its processes.
    pub open spec fn files(self) -> Seq<Seq<char>> {
        self.fs_paths + Seq::new(self.pids.len(), |i: int| process_netns_path_spec(self.pids[i]))
    }
}

impl NetworkNamespace {
    /// All files that can be used to get a file descriptor of the namespace.
    pub fn files(&self) -> (r: Vec<String>)
        ensures
            views(r@) == self@.files(),
    {
        let mut out: Vec<String> = clone_strings(&self.fs_paths);
        let mut i: usize = 0;
        while i < self.pids.len()
            invariant
                i <= self.pids.len(),
                views(out@) == views(self.fs_paths@) + Seq::new(
                    i as nat,
                    |k: int| process_netns_path_spec(self.pids[k]),
                ),
            decreases self.pids.len() - i,
        {
            let ghost before = views(out@);
            out.push(process_netns_path(self.pids[i]));
            assert(views(out@) =~= before.push(process_netns_path_spec(self.pids[i as int])));
            i += 1;
            assert(views(out@) =~= views(self.fs_paths@) + Seq::new(
                i as nat,
                |k: int| process_netns_path_spec(self.pids[k]),
            ));
        }
        out
    }

    /// Any file that can be used to get a file descriptor of the namespace:
    /// the first of `files`, if there is one.
    pub fn any_file(&self) -> (r: Option<String>)
        ensures
            match r {
                Some(file) => self@.files().len() > 0 && file@ == self@.files()[0],
                None => self@.files().len() == 0,
            },
    {
        if self.fs_paths.len() > 0 {
            Some(self.fs_paths[0].clone())
        } else if self.pids.len() > 0 {
            Some(process_netns_path(self.pids[0]))
        } else {
            None
        }
    }
}

/// A process and the inode of its namespace, as a scan of `/proc` found them.
pub type ProcessEntry = (Pid, INode);

/// The path of an `nsfs` mount and the inode behind it, as a scan of the
/// mount table found them.
pub type MountEntry = (String, INode);

/// What a list of scanned mounts holds, in order.
pub open spec fn mount_entry_views(v: Seq<MountEntry>) -> Seq<(Seq<char>, INode)> {
    Seq::new(v.len(), |i: int| (v[i].0@, v[i].1))
}

/// Namespaces of `inode`.
pub open spec fn namespace_of(inode: INode) -> spec_fn(NetworkNamespaceView) -> bool {
    |ns: NetworkNamespaceView| ns.inode == inode
}

/// Processes that were found in `inode`.
pub open spec fn process_in(inode: INode) -> spec_fn(ProcessEntry) -> bool {
    |e: ProcessEntry| e.1 == inode
}

/// The pid of a scanned process.
pub open spec fn process_pid() -> spec_fn(ProcessEntry) -> Pid {
    |e: ProcessEntry| e.0
}

/// Mounts that were found to lead to `inode`.
pub open spec fn mount_of(inode: INode) -> spec_fn((Seq<char>, INode)) -> bool {
    |e: (Seq<char>, INode)| e.1 == inode
}

/// The processes of `processes` that were found in `inode`, in their order.
pub open spec fn pids_in(processes: Seq<ProcessEntry>, inode: INode) -> Seq<Pid> {
    processes.filter(process_in(inode)).map_values(process_pid())
}

/// The namespaces with a process added: to the processes of its namespace,
/// which is appended if it is new.
pub open spec fn with_process(
    found: Seq<NetworkNamespaceView>,
    pid: Pid,
    inode: INode,
) -> Seq<NetworkNamespaceView> {
    match first_index(found, namespace_of(inode)) {
        Some(k) => found.update(
            k,
            NetworkNamespaceView { pids: found[k].pids.push(pid), ..found[k] },
        ),
        None => found.push(
            NetworkNamespaceView { inode, id: None, fs_paths: Seq::empty(), pids: seq![pid] },
        ),
    }
}

/// The namespaces with a bound path added: to the paths of its namespace,
/// unless it is among them, and the namespace is appended if it is new.
pub open spec fn with_mount(
    found: Seq<NetworkNamespaceView>,
    path: Seq<char>,
    inode: INode,
) -> Seq<NetworkNamespaceView> {
    match first_index(found, namespace_of(inode)) {
        Some(k) => if found[k].fs_paths.contains(path) {
            found
        } else {
            found.update(
                k,
                NetworkNamespaceView { fs_paths: found[k].fs_paths.push(path), ..found[k] },
            )
        },
        None => found.push(
            NetworkNamespaceView { inode, id: None, fs_paths: seq![path], pids: Seq::empty() },
        ),
    }
}

/// The namespaces that the processes of a scan of `/proc` inhabit.
pub open spec fn with_processes(processes: Seq<ProcessEntry>) -> Seq<NetworkNamespaceView>
    decreases processes.len(),
{
    if processes.len() == 0 {
        Seq::empty()
    } else {
        with_process(
            with_processes(processes.drop_last()),
            processes.last().0,
            processes.last().1,
        )
    }
}

/// The namespaces `found` and those that the `nsfs` mounts of a scan of the
/// mount table lead to.
pub open spec fn with_mounts(
    found: Seq<NetworkNamespaceView>,
    mounts: Seq<(Seq<char>, INode)>,
) -> Seq<NetworkNamespaceView>
    decreases mounts.len(),
{
    if mounts.len() == 0 {
        found
    } else {
        with_mount(with_mounts(found, mounts.drop_last()), mounts.last().0, mounts.last().1)
    }
}

/// Every namespace that a scan of the host found, in the order in which the
/// scan came upon them, first through the processes, then through the mounts.
/// No id is known of any.
pub open spec fn scanned(
    processes: Seq<ProcessEntry>,
    mounts: Seq<(Seq<char>, INode)>,
) -> Seq<NetworkNamespaceView> {
    with_mounts(with_processes(processes), mounts)
}

/// The namespace of `inode` as a scan of the host found it: with the
/// processes that inhabit it and the first path bound to it. There is none if
/// no process inhabits it and no path is bound to it.
pub open spec fn scanned_by_inode(
    inode: INode,
    processes: Seq<ProcessEntry>,
    mounts: Seq<(Seq<char>, INode)>,
) -> Option<NetworkNamespaceView> {
    let pids = pids_in(processes, inode);
    let fs_paths = match first_index(mounts, mount_of(inode)) {
        Some(k) => seq![mounts[k].0],
        None => Seq::empty(),
    };
    if pids.len() == 0 && fs_paths.len() == 0 {
        None
    } else {
        Some(NetworkNamespaceView { inode, id: None, fs_paths, pids })
    }
}

/// For each namespace that the mounts of a scan lead to, its inode and the
/// first path that leads to it, in the order in which the scan came upon
/// the namespaces.
pub open spec fn first_paths(mounts: Seq<(Seq<char>, INode)>) -> Seq<(INode, Seq<char>)>
    decreases mounts.len(),
{
    if mounts.len() == 0 {
        Seq::empty()
    } else {
        let rest = first_paths(mounts.drop_last());
        if first_index(mounts.drop_last(), mount_of(mounts.last().1)) is Some {
            rest
        } else {
            rest.push((mounts.last().1, mounts.last().0))
        }
    }
}

/// The position of the namespace of `inode` among `found`.
fn find_namespace(found: &Vec<NetworkNamespace>, inode: INode) -> (r: Option<usize>)
    ensures
        match r {
            Some(k) => k < found.len() && first_index(
                namespace_views(found@),
                namespace_of(inode),
            ) == Some(k as int),
            None => first_index(namespace_views(found@), namespace_of(inode)) is None,
        },
{
    let ghost all = namespace_views(found@);
    let mut i: usize = 0;
    while i < found.len()
        invariant
            i <= found.len(),
            all == namespace_views(found@),
            forall|j: int| 0 <= j < i ==> !#[trigger] namespace_of(inode)(all[j]),
        decreases found.len() - i,
    {
        if found[i].inode == inode {
            proof {
                assert(namespace_of(inode)(all[i as int]));
                lemma_first_index_is(all, namespace_of(inode), i as int);
            }
            return Some(i);
        }
        i += 1;
    }
    proof {
        lemma_first_index_none(all, namespace_of(inode));
    }
    None
}

/// The position of the first mount of a scan that leads to `inode`.
fn first_mount_of(mounts: &Vec<MountEntry>, inode: INode) -> (r: Option<usize>)
    ensures
        match r {
            Some(k) => k < mounts.len() && first_index(
                mount_entry_views(mounts@),
                mount_of(inode),
            ) == Some(k as int),
            None => first_index(mount_entry_views(mounts@), mount_of(inode)) is None,
        },
{
    let ghost bound = mount_entry_views(mounts@);
    let mut i: usize = 0;
    while i < mounts.len()
        invariant
            i <= mounts.len(),
            bound == mount_entry_views(mounts@),
            forall|j: int| 0 <= j < i ==> !#[trigger] mount_of(inode)(bound[j]),
        decreases mounts.len() - i,
    {
        if mounts[i].1 == inode {
            proof {
                assert(mount_of(inode)(bound[i as int]));
                lemma_first_index_is(bound, mount_of(inode), i as int);
            }
            return Some(i);
        }
        i += 1;
    }
    proof {
        lemma_first_index_none(bound, mount_of(inode));
    }
    None
}

/// The processes of a scan that were found in `inode`.
pub fn processes_in(processes: &Vec<ProcessEntry>, inode: INode) -> (r: Vec<Pid>)
    ensures
        r@ == pids_in(processes@, inode),
{
    let mut out: Vec<Pid> = Vec::new();
    let mut i: usize = 0;
    proof {
        if processes@.len() > 0 {
            lemma_filter_step(processes@, process_in(inode), 0);
        } else {
            assert(processes@.take(0) =~= processes@);
            assert(processes@.filter(process_in(inode)) =~= Seq::empty()) by {
                reveal(Seq::filter);
            }
        }
        assert(out@ =~= pids_in(processes@.take(0), inode));
    }
    while i < processes.len()
        invariant
            i <= processes.len(),
            out@ == pids_in(processes@.take(i as int), inode),
        decreases processes.len() - i,
    {
        proof {
            lemma_filter_step(processes@, process_in(inode), i as int);
        }
        let ghost kept = processes@.take(i as int).filter(process_in(inode));
        if processes[i].1 == inode {
            out.push(processes[i].0);
            assert(kept.push(processes@[i as int]).map_values(process_pid())
                =~= kept.map_values(process_pid()).push(processes@[i as int].0));
        }
        i += 1;
    }
    assert(processes@.take(i as int) =~= processes@);
    out
}

impl NetworkNamespace {
    /// Every namespace that a scan of the host found: those that the
    /// processes inhabit and those that the `nsfs` mounts lead to, each with
    /// its processes and its bound paths. The ids are left to be asked for.
    pub fn all(processes: &Vec<ProcessEntry>, mounts: &Vec<MountEntry>) -> (r: Vec<
        NetworkNamespace,
    >)
        ensures
            namespace_views(r@) == scanned(processes@, mount_entry_views(mounts@)),
    {
        let mut found: Vec<NetworkNamespace> = Vec::new();
        // Get all (possibly unnamed) network namespaces from the processes.
        let mut i: usize = 0;
        assert(processes@.take(0) =~= Seq::empty());
        assert(namespace_views(found@) =~= Seq::empty());
        while i < processes.len()
            invariant
                i <= processes.len(),
                namespace_views(found@) == with_processes(processes@.take(i as int)),
            decreases processes.len() - i,
        {
            let (pid, inode) = processes[i];
            let ghost before = namespace_views(found@);
            proof {
                assert(processes@.take(i + 1).drop_last() =~= processes@.take(i as int));
                assert(processes@.take(i + 1).last() == processes@[i as int]);
            }
            match find_namespace(&found, inode) {
                Some(k) => {
                    found[k].pids.push(pid);
                },
                None => {
                    let mut pids: Vec<Pid> = Vec::new();
                    pids.push(pid);
                    found.push(NetworkNamespace { inode, id: None, fs_paths: Vec::new(), pids });
                    assert(views(Seq::<String>::empty()) =~= Seq::<Seq<char>>::empty());
                },
            }
            assert(namespace_views(found@) =~= with_process(before, pid, inode));
            i += 1;
        }
        assert(processes@.take(i as int) =~= processes@);
        // Get all named namespaces from the mounts.
        let ghost inhabited = namespace_views(found@);
        let ghost bound = mount_entry_views(mounts@);
        let mut j: usize = 0;
        assert(bound.take(0) =~= Seq::empty());
        while j < mounts.len()
            invariant
                j <= mounts.len(),
                bound == mount_entry_views(mounts@),
                namespace_views(found@) == with_mounts(inhabited, bound.take(j as int)),
            decreases mounts.len() - j,
        {
            let inode = mounts[j].1;
            let ghost before = namespace_views(found@);
            proof {
                assert(bound.take(j + 1).drop_last() =~= bound.take(j as int));
                assert(bound.take(j + 1).last() == bound[j as int]);
            }
            match find_namespace(&found, inode) {
                Some(k) => {
                    let ghost paths = views(found[k as int].fs_paths@);
                    match position_of(&found[k].fs_paths, &mounts[j].0) {
                        Some(at) => {
                            assert(paths[at as int] == mounts[j as int].0@);
                        },
                        None => {
                            found[k].fs_paths.push(mounts[j].0.clone());
                            assert(views(found[k as int].fs_paths@) =~= paths.push(
                                mounts[j as int].0@,
                            ));
                        },
                    }
                },
                None => {
                    let mut fs_paths: Vec<String> = Vec::new();
                    fs_paths.push(mounts[j].0.clone());
                    assert(views(fs_paths@) =~= seq![mounts[j as int].0@]);
                    found.push(NetworkNamespace { inode, id: None, fs_paths, pids: Vec::new() });
                },
            }
            assert(namespace_views(found@) =~= with_mount(before, bound[j as int].0, inode));
            j += 1;
        }
        assert(bound.take(j as int) =~= bound);
        found
    }

    /// The namespace of `target_inode` as a scan of the host found it, if it
    /// found it: with the processes that inhabit it and the first path bound
    /// to it. The id is left to be asked for.
    pub fn by_inode(
        target_inode: INode,
        processes: &Vec<ProcessEntry>,
        mounts: &Vec<MountEntry>,
    ) -> (r: Option<NetworkNamespace>)
        ensures
            match r {
                Some(ns) => scanned_by_inode(
                    target_inode,
                    processes@,
                    mount_entry_views(mounts@),
                ) == Some(ns@),
                None => scanned_by_inode(target_inode, processes@, mount_entry_views(mounts@))
                    is None,
            },
    {
        let pids = processes_in(processes, target_inode);
        // Check if it is bound to a path.
        let mut fs_paths: Vec<String> = Vec::new();
        match first_mount_of(mounts, target_inode) {
            Some(k) => {
                fs_paths.push(mounts[k].0.clone());
                assert(views(fs_paths@) =~= seq![mounts[k as int].0@]);
            },
            None => {
                assert(views(fs_paths@) =~= Seq::<Seq<char>>::empty());
            },
        }
        // If no processes use it and it does not have a path, it does not exist.
        if pids.len() == 0 && fs_paths.len() == 0 {
            return None;
        }
        Some(NetworkNamespace { inode: target_inode, id: None, fs_paths, pids })
    }

    /// The namespace of `inode`, which was found to have `id` when it was
    /// asked through the file at `path`, with the processes of a scan that
    /// inhabit it.
    pub fn by_id(id: NsId, inode: INode, path: String, processes: &Vec<ProcessEntry>) -> (r:
        NetworkNamespace)
        ensures
            r@ == (NetworkNamespaceView {
                inode,
                id: Some(id),
                fs_paths: seq![path@],
                pids: pids_in(processes@, inode),
            }),
    {
        let pids = processes_in(processes, inode);
        let mut fs_paths: Vec<String> = Vec::new();
        fs_paths.push(path);
        assert(views(fs_paths@) =~= seq![path@]);
        NetworkNamespace { inode, id: Some(id), fs_paths, pids }
    }
}

/// For each namespace that the mounts of a scan lead to, its inode and the
/// first path that leads to it: the files through which the namespaces can be
/// asked for their ids.
pub fn bound_files(mounts: &Vec<MountEntry>) -> (r: Vec<(INode, String)>)
    ensures
        file_views(r@) == first_paths(mount_entry_views(mounts@)),
{
    let ghost bound = mount_entry_views(mounts@);
    let mut out: Vec<(INode, String)> = Vec::new();
    let mut j: usize = 0;
    assert(bound.take(0) =~= Seq::empty());
    assert(file_views(out@) =~= first_paths(bound.take(0)));
    while j < mounts.len()
        invariant
            j <= mounts.len(),
            bound == mount_entry_views(mounts@),
            file_views(out@) == first_paths(bound.take(j as int)),
        decreases mounts.len() - j,
    {
        let inode = mounts[j].1;
        let ghost before = file_views(out@);
        let first = first_mount_of(mounts, inode);
        proof {
            assert(bound.take(j + 1).drop_last() =~= bound.take(j as int));
            assert(bound.take(j + 1).last() == bound[j as int]);
            lemma_first_index(bound, mount_of(inode));
            lemma_first_index(bound.take(j as int), mount_of(inode));
            let k = first->0 as int;
            assert(first is Some) by {
                if first is None {
                    assert(!mount_of(inode)(bound[j as int]));
                }
            }
            if k < j {
                assert(bound.take(j as int)[k] == bound[k]);
                assert(mount_of(inode)(bound.take(j as int)[k]));
            } else {
                if k > j {
                    assert(!mount_of(inode)(bound[j as int]));
                }
                if first_index(bound.take(j as int), mount_of(inode)) is Some {
                    let m = first_index(bound.take(j as int), mount_of(inode))->0;
                    assert(bound.take(j as int)[m] == bound[m]);
                    assert(!mount_of(inode)(bound[m]));
                }
            }
        }
        match first {
            Some(k) => {
                if k == j {
                    out.push((inode, mounts[j].0.clone()));
                    assert(file_views(out@) =~= before.push(
                        (inode, bound[j as int].0),
                    ));
                }
            },
            None => {},
        }
        j += 1;
    }
    assert(bound.take(j as int) =~= bound);
    out
}

/// The process that the namespace handle at `path` belongs to, if the path
/// is one below `/proc` that starts with a pid. A pid that does not fit into
/// 32 bits is cut to its lower 32 bits.
pub fn process_of_handle(path: &str) -> (r: Option<Pid>)
    ensures
        r == match procfs_pid(path@) {
            Ok(pid) => Some((pid % 0x1_0000_0000) as u32),
            Err(_) => None,
        },
{
    match parse_procfs_path_start(path) {
        Ok(pid) => Some((pid % 0x1_0000_0000) as u32),
        Err(_) => None,
    }
}

} // verus!
