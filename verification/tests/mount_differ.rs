use net_device_mapping::mount_monitor::{
    is_mount_table, nsfs_mount_paths, FsType, MountChange, MountOptions, MountPoint, MountTable, ReadWrite, State,
};

fn entry(id: Option<u32>, path: &str, what: &str) -> MountPoint {
    MountPoint {
        id,
        parent_id: Some(1),
        root: Some("/".to_string()),
        what: what.to_string(),
        path: path.to_string(),
        fstype: FsType::Ext4,
        options: MountOptions { read_write: ReadWrite::ReadWrite, others: vec!["relatime".to_string()] },
    }
}

/// Each entry with the uuid at hand for it.
fn paired(entries: Vec<MountPoint>, uuids: &[u128]) -> Vec<(u128, MountPoint)> {
    assert_eq!(entries.len(), uuids.len());
    uuids.iter().copied().zip(entries).collect()
}

fn state_of(entries: Vec<MountPoint>, uuids: &[u128]) -> State {
    State::with_uuids(paired(entries, uuids))
}

fn rescan(state: &mut State, entries: Vec<MountPoint>, uuids: &[u128]) -> Vec<MountChange> {
    state.apply_rescan(paired(entries, uuids))
}

fn nsfs(id: Option<u32>, path: &str) -> MountPoint {
    MountPoint { fstype: FsType::Other("nsfs".to_string()), ..entry(id, path, "nsfs") }
}

#[test]
fn first_scan_announces_every_entry() {
    let state = state_of(vec![entry(Some(1), "/", "sda1"), entry(Some(2), "/home", "sda2")], &[10, 20]);
    assert_eq!(
        state.send_mountinfo(),
        vec![
            MountChange::Added(10, entry(Some(1), "/", "sda1")),
            MountChange::Added(20, entry(Some(2), "/home", "sda2")),
        ]
    );
}

#[test]
fn first_scan_with_a_repeated_uuid_keeps_the_later_entry() {
    let state = state_of(vec![entry(Some(1), "/", "sda1"), entry(Some(2), "/home", "sda2")], &[10, 10]);
    assert_eq!(state.send_mountinfo(), vec![MountChange::Added(10, entry(Some(2), "/home", "sda2"))]);
}

#[test]
fn rescan_without_change_publishes_nothing() {
    let scan = || vec![entry(Some(1), "/", "sda1"), entry(None, "/mnt", "tmp"), nsfs(Some(3), "/run/netns/blue")];
    let mut state = state_of(scan(), &[10, 20, 30]);
    assert_eq!(rescan(&mut state, scan(), &[40, 50, 60]), vec![]);
    assert_eq!(rescan(&mut state, scan(), &[70, 80, 90]), vec![]);
    assert_eq!(
        state.send_mountinfo(),
        vec![
            MountChange::Added(10, entry(Some(1), "/", "sda1")),
            MountChange::Added(20, entry(None, "/mnt", "tmp")),
            MountChange::Added(30, nsfs(Some(3), "/run/netns/blue")),
        ]
    );
}

#[test]
fn same_rescan_twice_is_silent_the_second_time() {
    let mut state = state_of(vec![entry(Some(1), "/", "sda1")], &[10]);
    let scan = || vec![entry(Some(1), "/", "sda1"), entry(Some(2), "/home", "sda2"), entry(None, "/mnt", "x")];
    assert_eq!(
        rescan(&mut state, scan(), &[1, 2, 3]),
        vec![
            MountChange::Added(2, entry(Some(2), "/home", "sda2")),
            MountChange::Added(3, entry(None, "/mnt", "x")),
        ]
    );
    assert_eq!(rescan(&mut state, scan(), &[4, 5, 6]), vec![]);
}

#[test]
fn new_entry_is_added_under_the_fresh_uuid() {
    let mut state = state_of(vec![entry(Some(1), "/", "sda1")], &[10]);
    let events = rescan(&mut state, vec![entry(Some(1), "/", "sda1"), nsfs(Some(7), "/run/netns/blue")], &[100, 200]);
    assert_eq!(events, vec![MountChange::Added(200, nsfs(Some(7), "/run/netns/blue"))]);
    assert_eq!(
        state.send_mountinfo(),
        vec![
            MountChange::Added(10, entry(Some(1), "/", "sda1")),
            MountChange::Added(200, nsfs(Some(7), "/run/netns/blue")),
        ]
    );
}

#[test]
fn entry_that_is_gone_is_removed() {
    let mut state = state_of(vec![entry(Some(1), "/", "sda1"), entry(Some(2), "/home", "sda2"), entry(Some(3), "/var", "sda3")], &[10, 20, 30]);
    let events = rescan(&mut state, vec![entry(Some(2), "/home", "sda2")], &[100]);
    assert_eq!(events, vec![MountChange::Removed(10), MountChange::Removed(30)]);
    assert_eq!(state.send_mountinfo(), vec![MountChange::Added(20, entry(Some(2), "/home", "sda2"))]);
}

#[test]
fn moved_mount_is_removed_and_added_anew() {
    let mut state = state_of(vec![entry(Some(5), "/mnt/a", "sdb1")], &[10]);
    let events = rescan(&mut state, vec![entry(Some(5), "/mnt/b", "sdb1")], &[99]);
    assert_eq!(
        events,
        vec![MountChange::Removed(10), MountChange::Added(99, entry(Some(5), "/mnt/b", "sdb1"))]
    );
    assert_eq!(state.send_mountinfo(), vec![MountChange::Added(99, entry(Some(5), "/mnt/b", "sdb1"))]);
}

#[test]
fn changed_metadata_is_a_modification_under_the_same_uuid() {
    let mut state = state_of(vec![entry(Some(5), "/mnt/a", "sdb1")], &[10]);
    let events = rescan(&mut state, vec![entry(Some(5), "/mnt/a", "sdc1")], &[99]);
    assert_eq!(events, vec![MountChange::Modified(10, entry(Some(5), "/mnt/a", "sdc1"))]);
    assert_eq!(state.send_mountinfo(), vec![MountChange::Added(10, entry(Some(5), "/mnt/a", "sdc1"))]);
}

#[test]
fn entries_without_id_are_matched_by_path() {
    let mut state = state_of(vec![entry(None, "/mnt/a", "x"), entry(None, "/mnt/b", "y")], &[10, 20]);
    let events = rescan(&mut state, vec![entry(None, "/mnt/b", "y"), entry(None, "/mnt/a", "z"), entry(None, "/mnt/c", "w")], &[1, 2, 3]);
    assert_eq!(
        events,
        vec![
            MountChange::Modified(10, entry(None, "/mnt/a", "z")),
            MountChange::Added(3, entry(None, "/mnt/c", "w")),
        ]
    );
    assert_eq!(
        state.send_mountinfo(),
        vec![
            MountChange::Added(20, entry(None, "/mnt/b", "y")),
            MountChange::Added(10, entry(None, "/mnt/a", "z")),
            MountChange::Added(3, entry(None, "/mnt/c", "w")),
        ]
    );
}

#[test]
fn entry_with_unknown_id_falls_back_to_the_path() {
    let mut state = state_of(vec![entry(None, "/mnt/a", "x"), entry(Some(4), "/mnt/b", "y")], &[10, 20]);
    // An id that no old entry has: matched by path against the entries without id.
    let events = rescan(&mut state, vec![entry(Some(9), "/mnt/a", "x"), entry(Some(8), "/mnt/b", "y")], &[1, 2]);
    assert_eq!(
        events,
        vec![
            MountChange::Modified(10, entry(Some(9), "/mnt/a", "x")),
            MountChange::Added(2, entry(Some(8), "/mnt/b", "y")),
            MountChange::Removed(20),
        ]
    );
}

#[test]
fn duplicate_entries_are_not_settled_by_one_rescan() {
    let mut state = state_of(vec![], &[]);
    let scan = || vec![entry(Some(1), "/", "sda1"), entry(Some(1), "/", "sda1")];
    assert_eq!(
        rescan(&mut state, scan(), &[1, 2]),
        vec![
            MountChange::Added(1, entry(Some(1), "/", "sda1")),
            MountChange::Added(2, entry(Some(1), "/", "sda1")),
        ]
    );
    assert_eq!(rescan(&mut state, scan(), &[3, 4]), vec![MountChange::Removed(2)]);
}

#[test]
fn drawn_uuids_are_random_uuids() {
    let state = State::new(vec![entry(Some(1), "/", "sda1"), entry(Some(2), "/home", "sda2")]);
    let announced = state.send_mountinfo();
    assert_eq!(announced.len(), 2);
    let mut uuids = vec![];
    for change in &announced {
        match change {
            MountChange::Added(uuid, _) => {
                assert_eq!(uuid::Uuid::from_u128(*uuid).get_version_num(), 4);
                assert_eq!((uuid >> 62) & 0b11, 0b10);
                uuids.push(*uuid);
            }
            other => panic!("unexpected change {:?}", other),
        }
    }
    assert_ne!(uuids[0], uuids[1]);
}

#[test]
fn update_mountinfo_draws_a_uuid_for_a_new_entry() {
    let mut state = state_of(vec![entry(Some(1), "/", "sda1")], &[10]);
    let events = state.update_mountinfo(vec![entry(Some(1), "/", "sda1"), nsfs(Some(2), "/run/netns/a")]);
    assert_eq!(events.len(), 1);
    match &events[0] {
        MountChange::Added(uuid, mount) => {
            assert_eq!(uuid::Uuid::from_u128(*uuid).get_version_num(), 4);
            assert_eq!(mount, &nsfs(Some(2), "/run/netns/a"));
        }
        other => panic!("unexpected change {:?}", other),
    }
    assert_eq!(state.update_mountinfo(vec![entry(Some(1), "/", "sda1"), nsfs(Some(2), "/run/netns/a")]), vec![]);
}

#[test]
fn mount_table_binds_and_unbinds() {
    let mut table = MountTable::new();
    assert_eq!(table.len(), 0);
    table.insert(5, entry(Some(1), "/", "a"));
    table.insert(6, entry(Some(2), "/x", "b"));
    table.insert(5, entry(Some(1), "/", "c"));
    assert_eq!(table.len(), 2);
    assert_eq!(table.get(5), Some(&entry(Some(1), "/", "c")));
    assert_eq!(table.slot(6), Some(1));
    assert_eq!(table.slot_by_mount_id(2), Some(1));
    assert_eq!(table.slot_by_mount_id(3), None);
    assert_eq!(table.slot_by_path(&"/x".to_string()), None);
    table.remove(5);
    assert_eq!(table.get(5), None);
    assert_eq!(table.uuid_at(0), 6);
    assert_eq!(table.mount_at(0), &entry(Some(2), "/x", "b"));
    table.remove(77);
    assert_eq!(table.len(), 1);
}

#[test]
fn mount_points_compare_field_by_field() {
    let a = entry(Some(1), "/", "a");
    assert!(a.same(&a.clone()));
    assert!(!a.same(&entry(Some(1), "/", "b")));
    assert!(!a.same(&entry(None, "/", "a")));
    let mut other = a.clone();
    other.options.others.push("ro".to_string());
    assert!(!a.same(&other));
    let mut other = a.clone();
    other.options.read_write = ReadWrite::ReadOnly;
    assert!(!a.same(&other));
    let mut other = a.clone();
    other.root = None;
    assert!(!a.same(&other));
    assert!(FsType::Other("nsfs".to_string()).is_nsfs());
    assert!(!FsType::Other("nsfs2".to_string()).is_nsfs());
    assert!(!FsType::Proc.is_nsfs());
    assert!(FsType::Proc.same(&FsType::Proc));
    assert!(!FsType::Proc.same(&FsType::Sysfs));
}

#[test]
fn nsfs_paths_are_filtered_in_table_order() {
    let mounts = vec![
        entry(Some(1), "/", "sda1"),
        nsfs(Some(2), "/run/netns/b"),
        nsfs(Some(3), "/run/netns/a"),
        entry(Some(4), "/home", "sda2"),
        nsfs(Some(5), "/run/netns/b"),
    ];
    assert_eq!(nsfs_mount_paths(&mounts), vec!["/run/netns/b", "/run/netns/a", "/run/netns/b"]);
}

#[test]
fn only_the_mount_table_calls_for_a_rescan() {
    assert!(is_mount_table("/proc/self/mountinfo"));
    assert!(!is_mount_table("/run/mount/utab"));
    assert!(!is_mount_table("/proc/self/mountinfo/"));
    assert!(!is_mount_table(""));
}

#[test]
fn published_changes_tell_what_changed() {
    let before = vec![
        entry(Some(1), "/", "sda1"),
        entry(Some(2), "/home", "sda2"),
        entry(Some(3), "/var", "sda3"),
        nsfs(Some(4), "/run/netns/blue"),
    ];
    let after = vec![
        entry(Some(2), "/home", "sdb2"),
        entry(Some(1), "/", "sda1"),
        nsfs(Some(4), "/run/netns/sky"),
        nsfs(Some(9), "/run/netns/red"),
    ];
    let mut state = state_of(before.clone(), &[10, 20, 30, 40]);
    // A follower of the changes, which starts with what the differ knew.
    let mut follower = MountTable::new();
    for (uuid, mount) in paired(before, &[10, 20, 30, 40]) {
        follower.insert(uuid, mount);
    }
    let changes = rescan(&mut state, after, &[50, 60, 70, 80]);
    assert_eq!(
        changes,
        vec![
            MountChange::Modified(20, entry(Some(2), "/home", "sdb2")),
            MountChange::Removed(40),
            MountChange::Added(70, nsfs(Some(4), "/run/netns/sky")),
            MountChange::Added(80, nsfs(Some(9), "/run/netns/red")),
            MountChange::Removed(30),
        ]
    );
    for change in changes {
        match change {
            MountChange::Added(uuid, mount) => follower.insert(uuid, mount),
            MountChange::Modified(uuid, mount) => follower.insert(uuid, mount),
            MountChange::Removed(uuid) => follower.remove(uuid),
        }
    }
    let known = state.send_mountinfo();
    assert_eq!(known.len(), follower.len());
    for change in known {
        match change {
            MountChange::Added(uuid, mount) => assert_eq!(follower.get(uuid), Some(&mount)),
            other => panic!("unexpected change {:?}", other),
        }
    }
}
