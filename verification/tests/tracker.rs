use net_device_mapping::mount_monitor::{
    FsType, MountChange, MountOptions, MountPoint, ReadWrite,
};
use net_device_mapping::netns::NetworkNamespace;
use net_device_mapping::netns_tracker::{
    process_event, process_netns_path, Event, MountState, Probe, State,
};
use net_device_mapping::nsid_monitor::NetnsIdEvent;
use net_device_mapping::syscall_monitor::{EbpfEvent, EventType};

const HOST: u64 = 4026531840;
const BLUE: u64 = 4026532123;
const BLUE_UUID: u128 = 0x1111_2222_3333_4444_8555_6666_7777_8888;

fn namespace(inode: u64, id: Option<i32>, fs_paths: &[&str], pids: &[u32]) -> NetworkNamespace {
    NetworkNamespace {
        inode,
        id,
        fs_paths: fs_paths.iter().map(|p| p.to_string()).collect(),
        pids: pids.to_vec(),
    }
}

fn mount(id: Option<u32>, path: &str, fstype: FsType) -> MountPoint {
    MountPoint {
        id,
        parent_id: Some(1),
        root: Some("/".to_string()),
        what: "nsfs".to_string(),
        path: path.to_string(),
        fstype,
        options: MountOptions { read_write: ReadWrite::ReadWrite, others: vec![] },
    }
}

fn nsfs_mount(path: &str) -> MountPoint {
    mount(Some(77), path, FsType::Other("nsfs".to_string()))
}

fn syscall(kind: EventType, pid: u32, parent_pid: u32) -> Event {
    Event::Syscall(EbpfEvent {
        kind,
        pid,
        tid: pid,
        uid: 0,
        gid: 0,
        parent_pid,
        command: [0; 16],
    })
}

fn snapshot(state: &mut State, mounts: &mut MountState) -> Vec<NetworkNamespace> {
    process_event(state, mounts, Event::StateRequested(()), None)
        .expect("a state request is answered")
}

fn bootstrap() -> (State, MountState) {
    (State::new(vec![namespace(HOST, None, &[], &[1])]), MountState::new())
}

fn with_blue() -> (State, MountState) {
    let (mut state, mut mounts) = bootstrap();
    let added = Event::MountChange(MountChange::Added(BLUE_UUID, nsfs_mount("/run/netns/blue")));
    assert_eq!(process_event(&mut state, &mut mounts, added, Some(BLUE)), None);
    (state, mounts)
}

#[test]
fn fork_adds_a_pid() {
    let (mut state, mut mounts) = bootstrap();
    let fork = syscall(EventType::Fork, 200, 1);
    assert_eq!(fork.probe(), Probe::Inode("/proc/200/ns/net".to_string()));
    assert_eq!(process_event(&mut state, &mut mounts, fork, Some(HOST)), None);
    assert_eq!(snapshot(&mut state, &mut mounts), vec![namespace(HOST, None, &[], &[1, 200])]);
}

#[test]
fn named_namespace_created() {
    let (mut state, mut mounts) = bootstrap();
    let added = Event::MountChange(MountChange::Added(BLUE_UUID, nsfs_mount("/run/netns/blue")));
    assert_eq!(added.probe(), Probe::Inode("/run/netns/blue".to_string()));
    assert_eq!(process_event(&mut state, &mut mounts, added, Some(BLUE)), None);
    assert_eq!(
        snapshot(&mut state, &mut mounts),
        vec![namespace(HOST, None, &[], &[1]), namespace(BLUE, None, &["/run/netns/blue"], &[])]
    );
    assert_eq!(mounts.get_path(BLUE_UUID), Some(&"/run/netns/blue".to_string()));
}

#[test]
fn id_assignment_sets_the_id_of_the_resolved_row() {
    let (mut state, mut mounts) = with_blue();
    let assigned = Event::NetnsIdEvent(NetnsIdEvent::Added(7));
    assert_eq!(assigned.probe(), Probe::Namespace(7));
    assert_eq!(process_event(&mut state, &mut mounts, assigned, Some(BLUE)), None);
    assert_eq!(
        snapshot(&mut state, &mut mounts),
        vec![
            namespace(HOST, None, &[], &[1]),
            namespace(BLUE, Some(7), &["/run/netns/blue"], &[]),
        ]
    );
}

#[test]
fn id_assignment_that_cannot_be_resolved_changes_nothing() {
    let (mut state, mut mounts) = with_blue();
    let before = snapshot(&mut state, &mut mounts);
    let assigned = Event::NetnsIdEvent(NetnsIdEvent::Added(7));
    assert_eq!(process_event(&mut state, &mut mounts, assigned, None), None);
    assert_eq!(snapshot(&mut state, &mut mounts), before);
}

#[test]
fn id_removal_destroys_the_row() {
    let (mut state, mut mounts) = with_blue();
    process_event(&mut state, &mut mounts, Event::NetnsIdEvent(NetnsIdEvent::Added(7)), Some(BLUE));
    // A process keeps the row alive over the unmount, then exits: the row is
    // left with neither paths nor processes.
    process_event(&mut state, &mut mounts, syscall(EventType::Setns, 300, 1), Some(BLUE));
    process_event(
        &mut state,
        &mut mounts,
        Event::MountChange(MountChange::Removed(BLUE_UUID)),
        None,
    );
    process_event(&mut state, &mut mounts, syscall(EventType::Exit, 300, 1), None);
    assert_eq!(
        snapshot(&mut state, &mut mounts),
        vec![namespace(HOST, None, &[], &[1]), namespace(BLUE, Some(7), &[], &[])]
    );
    let removed = Event::NetnsIdEvent(NetnsIdEvent::Removed(7));
    assert_eq!(removed.probe(), Probe::Nothing);
    assert_eq!(process_event(&mut state, &mut mounts, removed, None), None);
    assert_eq!(snapshot(&mut state, &mut mounts), vec![namespace(HOST, None, &[], &[1])]);
}

#[test]
fn id_removal_drops_the_processes_of_the_row() {
    let mut state = State::new(vec![
        namespace(HOST, None, &[], &[1, 2]),
        namespace(BLUE, Some(7), &["/run/netns/blue"], &[40, 41]),
    ]);
    let mut mounts = MountState::new();
    process_event(&mut state, &mut mounts, Event::NetnsIdEvent(NetnsIdEvent::Removed(7)), None);
    assert_eq!(snapshot(&mut state, &mut mounts), vec![namespace(HOST, None, &[], &[1, 2])]);
    assert_eq!(state.inode_of(40), None);
    assert_eq!(state.inode_of(1), Some(HOST));
}

#[test]
fn process_migration_via_setns() {
    let a: u64 = 4026532500;
    let mut state = State::new(vec![
        namespace(a, None, &[], &[200]),
        namespace(BLUE, None, &["/run/netns/blue"], &[]),
    ]);
    let mut mounts = MountState::new();
    let setns = syscall(EventType::Setns, 200, 1);
    assert_eq!(setns.probe(), Probe::Inode(process_netns_path(200)));
    assert_eq!(process_event(&mut state, &mut mounts, setns, Some(BLUE)), None);
    assert_eq!(
        snapshot(&mut state, &mut mounts),
        vec![namespace(BLUE, None, &["/run/netns/blue"], &[200])]
    );
}

#[test]
fn migration_keeps_a_namespace_that_is_still_bound() {
    let a: u64 = 4026532500;
    let mut state = State::new(vec![
        namespace(a, None, &["/run/netns/red"], &[200]),
        namespace(BLUE, None, &["/run/netns/blue"], &[]),
    ]);
    let mut mounts = MountState::new();
    process_event(&mut state, &mut mounts, syscall(EventType::Unshare, 200, 1), Some(BLUE));
    assert_eq!(
        snapshot(&mut state, &mut mounts),
        vec![
            namespace(a, None, &["/run/netns/red"], &[]),
            namespace(BLUE, None, &["/run/netns/blue"], &[200]),
        ]
    );
}

#[test]
fn exit_keeps_the_row() {
    let (mut state, mut mounts) = bootstrap();
    let exit = syscall(EventType::Exit, 1, 0);
    assert_eq!(exit.probe(), Probe::Nothing);
    process_event(&mut state, &mut mounts, exit, None);
    assert_eq!(snapshot(&mut state, &mut mounts), vec![namespace(HOST, None, &[], &[])]);
}

#[test]
fn exec_is_ignored() {
    let (mut state, mut mounts) = bootstrap();
    let exec = syscall(EventType::Exec, 1, 0);
    assert_eq!(exec.probe(), Probe::Nothing);
    process_event(&mut state, &mut mounts, exec, Some(BLUE));
    assert_eq!(snapshot(&mut state, &mut mounts), vec![namespace(HOST, None, &[], &[1])]);
}

#[test]
fn failed_stat_leaves_the_inventory() {
    let (mut state, mut mounts) = bootstrap();
    process_event(&mut state, &mut mounts, syscall(EventType::Clone, 9, 1), None);
    assert_eq!(snapshot(&mut state, &mut mounts), vec![namespace(HOST, None, &[], &[1])]);
}

#[test]
fn fork_then_exit_leaves_the_process_map() {
    let (mut state, mut mounts) = bootstrap();
    process_event(&mut state, &mut mounts, syscall(EventType::Fork, 200, 1), Some(HOST));
    assert_eq!(state.inode_of(200), Some(HOST));
    process_event(&mut state, &mut mounts, syscall(EventType::Exit, 200, 1), None);
    assert_eq!(state.inode_of(200), None);
    assert_eq!(snapshot(&mut state, &mut mounts), vec![namespace(HOST, None, &[], &[1])]);
}

#[test]
fn id_added_then_removed_drops_the_row() {
    let (mut state, mut mounts) = with_blue();
    process_event(&mut state, &mut mounts, Event::NetnsIdEvent(NetnsIdEvent::Added(7)), Some(BLUE));
    process_event(&mut state, &mut mounts, Event::NetnsIdEvent(NetnsIdEvent::Removed(7)), None);
    assert_eq!(snapshot(&mut state, &mut mounts), vec![namespace(HOST, None, &[], &[1])]);
}

#[test]
fn unmount_drops_a_row_without_processes() {
    let (mut state, mut mounts) = with_blue();
    process_event(
        &mut state,
        &mut mounts,
        Event::MountChange(MountChange::Removed(BLUE_UUID)),
        None,
    );
    assert_eq!(snapshot(&mut state, &mut mounts), vec![namespace(HOST, None, &[], &[1])]);
    assert_eq!(mounts.get_path(BLUE_UUID), None);
}

#[test]
fn unmount_keeps_a_row_with_processes() {
    let (mut state, mut mounts) = with_blue();
    process_event(&mut state, &mut mounts, syscall(EventType::Setns, 5, 1), Some(BLUE));
    process_event(
        &mut state,
        &mut mounts,
        Event::MountChange(MountChange::Removed(BLUE_UUID)),
        None,
    );
    assert_eq!(
        snapshot(&mut state, &mut mounts),
        vec![namespace(HOST, None, &[], &[1]), namespace(BLUE, None, &[], &[5])]
    );
}

#[test]
fn unmount_of_an_unknown_uuid_changes_nothing() {
    let (mut state, mut mounts) = with_blue();
    let before = snapshot(&mut state, &mut mounts);
    process_event(&mut state, &mut mounts, Event::MountChange(MountChange::Removed(5)), None);
    assert_eq!(snapshot(&mut state, &mut mounts), before);
}

#[test]
fn remount_replaces_the_path() {
    let (mut state, mut mounts) = with_blue();
    let moved = Event::MountChange(MountChange::Modified(BLUE_UUID, nsfs_mount("/run/netns/sky")));
    assert_eq!(moved.probe(), Probe::Nothing);
    process_event(&mut state, &mut mounts, moved, None);
    assert_eq!(
        snapshot(&mut state, &mut mounts),
        vec![namespace(HOST, None, &[], &[1]), namespace(BLUE, None, &["/run/netns/sky"], &[])]
    );
    assert_eq!(mounts.get_path(BLUE_UUID), Some(&"/run/netns/sky".to_string()));
    assert!(mounts.has_path(&"/run/netns/sky".to_string()));
    assert!(!mounts.has_path(&"/run/netns/blue".to_string()));
}

#[test]
fn mounts_of_other_filesystems_are_ignored() {
    let (mut state, mut mounts) = bootstrap();
    let added = Event::MountChange(MountChange::Added(9, mount(Some(3), "/tmp", FsType::Tmpfs)));
    assert_eq!(added.probe(), Probe::Nothing);
    process_event(&mut state, &mut mounts, added, Some(BLUE));
    assert_eq!(snapshot(&mut state, &mut mounts), vec![namespace(HOST, None, &[], &[1])]);
    assert_eq!(mounts.get_path(9), None);
    let other = MountChange::Added(9, mount(Some(3), "/x", FsType::Other("ext5".to_string())));
    assert!(!other.concerns_namespaces());
    assert!(MountChange::Removed(9).concerns_namespaces());
    assert!(MountChange::Modified(9, nsfs_mount("/x")).concerns_namespaces());
}

#[test]
fn the_same_path_is_bound_once() {
    let (mut state, mut mounts) = with_blue();
    let again = Event::MountChange(MountChange::Added(55, nsfs_mount("/run/netns/blue")));
    process_event(&mut state, &mut mounts, again, Some(BLUE));
    assert_eq!(
        snapshot(&mut state, &mut mounts),
        vec![namespace(HOST, None, &[], &[1]), namespace(BLUE, None, &["/run/netns/blue"], &[])]
    );
}

#[test]
fn snapshot_lists_processes_in_ascending_order() {
    let mut state = State::empty();
    let mut mounts = MountState::new();
    for pid in [30u32, 10, 20, 5] {
        let inode = if pid == 20 { BLUE } else { HOST };
        process_event(&mut state, &mut mounts, syscall(EventType::Fork, pid, 1), Some(inode));
    }
    assert_eq!(
        state.current_state(),
        vec![namespace(HOST, None, &[], &[5, 10, 30]), namespace(BLUE, None, &[], &[20])]
    );
}

#[test]
fn snapshots_stay_consistent_over_a_run_of_events() {
    let (mut state, mut mounts) = with_blue();
    let events = vec![
        (syscall(EventType::Fork, 10, 1), Some(HOST)),
        (syscall(EventType::Setns, 10, 1), Some(BLUE)),
        (Event::NetnsIdEvent(NetnsIdEvent::Added(3)), Some(BLUE)),
        (Event::StateRequested(()), None),
        (syscall(EventType::Clone, 11, 10), Some(BLUE)),
        (Event::MountChange(MountChange::Removed(BLUE_UUID)), None),
        (syscall(EventType::Exit, 10, 1), None),
    ];
    for (event, observed) in events {
        process_event(&mut state, &mut mounts, event, observed);
        let rows = state.current_state();
        for row in &rows {
            // Every process of a row is mapped to the row.
            for pid in &row.pids {
                assert_eq!(state.inode_of(*pid), Some(row.inode));
            }
            // No row is without both processes and paths.
            assert!(!row.pids.is_empty() || !row.fs_paths.is_empty());
            // No id is carried twice.
            if row.id.is_some() {
                assert_eq!(rows.iter().filter(|other| other.id == row.id).count(), 1);
            }
        }
    }
    assert_eq!(
        state.current_state(),
        vec![namespace(HOST, None, &[], &[1]), namespace(BLUE, Some(3), &[], &[11])]
    );
}

#[test]
fn inventory_accessors() {
    let mut state = State::new(vec![
        namespace(HOST, Some(1), &[], &[1, 2]),
        namespace(BLUE, Some(7), &["/run/netns/blue", "/run/netns/sky"], &[]),
    ]);
    assert!(state.does_namespace_has_pids(&HOST));
    assert!(!state.does_namespace_has_pids(&BLUE));
    assert_eq!(state.namespace_any_file(HOST), Some("/proc/1/ns/net".to_string()));
    assert_eq!(state.namespace_any_file(BLUE), Some("/run/netns/blue".to_string()));
    assert_eq!(state.namespace_any_file(5), None);
    assert_eq!(
        state.namespace_files(),
        vec![(HOST, "/proc/1/ns/net".to_string()), (BLUE, "/run/netns/blue".to_string())]
    );
    assert_eq!(state.inode_by_id(7), Some(BLUE));
    assert_eq!(state.inode_by_id(8), None);
    assert_eq!(state.inode_by_path(&"/run/netns/sky".to_string()), Some(BLUE));
    assert_eq!(state.inode_by_path(&"/run/netns/red".to_string()), None);
    {
        let (inode, row) = state.namespace_by_id(7).expect("a row carries the id");
        assert_eq!(inode, BLUE);
        row.id = Some(8);
    }
    assert_eq!(state.inode_by_id(8), Some(BLUE));
    {
        let (inode, row) =
            state.namespace_by_path(&"/run/netns/blue".to_string()).expect("the path is bound");
        assert_eq!(inode, BLUE);
        assert_eq!(row.id, Some(8));
    }
    assert!(state.namespace_by_id(7).is_none());
    assert!(state.namespace_mut(5).is_none());
    state.namespace_mut(HOST).expect("the host has a row").id = None;
    state.ensure_namespace_mut(5).id = Some(50);
    assert_eq!(
        state.current_state(),
        vec![
            namespace(HOST, None, &[], &[1, 2]),
            namespace(BLUE, Some(8), &["/run/netns/blue", "/run/netns/sky"], &[]),
            namespace(5, Some(50), &[], &[]),
        ]
    );
    assert!(state.remove_namespace(HOST));
    assert!(!state.remove_namespace(HOST));
    assert_eq!(state.inode_of(1), None);
}

#[test]
fn add_namespace_refuses_a_known_inode() {
    let (mut state, _mounts) = bootstrap();
    let known = namespace(HOST, Some(4), &["/x"], &[9]);
    assert_eq!(state.add_namespace(known.clone()), Some(known));
    assert_eq!(state.current_state(), vec![namespace(HOST, None, &[], &[1])]);
    assert_eq!(state.add_namespace(namespace(BLUE, Some(4), &["/x", "/x"], &[1, 9])), None);
    assert_eq!(
        state.current_state(),
        vec![namespace(HOST, None, &[], &[]), namespace(BLUE, Some(4), &["/x"], &[1, 9])]
    );
}

#[test]
fn namespace_files_list_paths_before_processes() {
    let ns = namespace(BLUE, None, &["/run/netns/blue"], &[7, 8]);
    assert_eq!(
        ns.files(),
        vec![
            "/run/netns/blue".to_string(),
            "/proc/7/ns/net".to_string(),
            "/proc/8/ns/net".to_string(),
        ]
    );
    assert_eq!(ns.any_file(), Some("/run/netns/blue".to_string()));
    assert_eq!(namespace(BLUE, None, &[], &[7, 8]).any_file(), Some("/proc/7/ns/net".to_string()));
    assert_eq!(namespace(BLUE, None, &[], &[]).any_file(), None);
}

#[test]
fn process_paths_render_the_pid_in_decimal() {
    assert_eq!(process_netns_path(0), "/proc/0/ns/net");
    assert_eq!(process_netns_path(7), "/proc/7/ns/net");
    assert_eq!(process_netns_path(1234567), "/proc/1234567/ns/net");
    assert_eq!(process_netns_path(u32::MAX), "/proc/4294967295/ns/net");
}

#[test]
fn state_request_reflects_the_events_handled_before_it() {
    let (mut state, mut mounts) = bootstrap();
    process_event(&mut state, &mut mounts, syscall(EventType::Fork, 2, 1), Some(HOST));
    let first = process_event(&mut state, &mut mounts, Event::StateRequested(()), None);
    assert_eq!(first, Some(vec![namespace(HOST, None, &[], &[1, 2])]));
    // A request changes nothing: asked again, the answer is the same.
    let again = process_event(&mut state, &mut mounts, Event::StateRequested(()), Some(BLUE));
    assert_eq!(again, first);
    process_event(&mut state, &mut mounts, syscall(EventType::Exit, 1, 0), None);
    process_event(
        &mut state,
        &mut mounts,
        Event::MountChange(MountChange::Added(BLUE_UUID, nsfs_mount("/run/netns/blue"))),
        Some(BLUE),
    );
    let second = process_event(&mut state, &mut mounts, Event::StateRequested(()), None);
    assert_eq!(
        second,
        Some(vec![
            namespace(HOST, None, &[], &[2]),
            namespace(BLUE, None, &["/run/netns/blue"], &[]),
        ])
    );
    // The same events without the requests in between lead to the same answer.
    let (mut other, mut other_mounts) = bootstrap();
    process_event(&mut other, &mut other_mounts, syscall(EventType::Fork, 2, 1), Some(HOST));
    process_event(&mut other, &mut other_mounts, syscall(EventType::Exit, 1, 0), None);
    process_event(
        &mut other,
        &mut other_mounts,
        Event::MountChange(MountChange::Added(BLUE_UUID, nsfs_mount("/run/netns/blue"))),
        Some(BLUE),
    );
    assert_eq!(process_event(&mut other, &mut other_mounts, Event::StateRequested(()), None), second);
}

#[test]
fn id_assigned_to_an_unknown_namespace_makes_a_row() {
    let (mut state, mut mounts) = bootstrap();
    process_event(&mut state, &mut mounts, Event::NetnsIdEvent(NetnsIdEvent::Added(4)), Some(BLUE));
    assert_eq!(
        snapshot(&mut state, &mut mounts),
        vec![namespace(HOST, None, &[], &[1]), namespace(BLUE, Some(4), &[], &[])]
    );
    process_event(&mut state, &mut mounts, Event::NetnsIdEvent(NetnsIdEvent::Removed(4)), None);
    assert_eq!(snapshot(&mut state, &mut mounts), vec![namespace(HOST, None, &[], &[1])]);
    process_event(&mut state, &mut mounts, Event::NetnsIdEvent(NetnsIdEvent::Removed(4)), None);
    assert_eq!(snapshot(&mut state, &mut mounts), vec![namespace(HOST, None, &[], &[1])]);
}

#[test]
fn inventory_operations() {
    let mut state = State::empty();
    state.ensure_namespace(HOST);
    state.ensure_namespace(HOST);
    state.set_id(HOST, Some(2));
    state.set_id(BLUE, Some(3));
    state.insert_path(HOST, "/a".to_string());
    state.insert_path(HOST, "/b".to_string());
    state.insert_path(HOST, "/a".to_string());
    state.insert_path(BLUE, "/c".to_string());
    state.insert_pid(9, HOST);
    state.insert_pid(4, BLUE);
    state.insert_pid(6, HOST);
    state.insert_pid(9, BLUE);
    assert_eq!(
        state.current_state(),
        vec![namespace(HOST, Some(2), &["/a", "/b"], &[6]), namespace(BLUE, None, &[], &[4, 9])]
    );
    state.remove_path(HOST, &"/a".to_string());
    state.remove_path(HOST, &"/zzz".to_string());
    state.remove_path(5, &"/b".to_string());
    state.remove_pid(4);
    state.remove_pid(4);
    state.drop_if_idle(HOST);
    state.drop_if_idle(BLUE);
    assert_eq!(
        state.current_state(),
        vec![namespace(HOST, Some(2), &["/b"], &[6]), namespace(BLUE, None, &[], &[9])]
    );
    state.clear_paths(HOST);
    state.drop_if_idle(HOST);
    state.remove_pid(9);
    state.drop_if_idle(BLUE);
    state.drop_if_idle(BLUE);
    assert_eq!(state.current_state(), vec![namespace(HOST, Some(2), &[], &[6])]);
    assert_eq!(state.inode_of(6), Some(HOST));
    assert_eq!(state.inode_of(9), None);
}
