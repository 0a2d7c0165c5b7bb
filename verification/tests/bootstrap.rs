use net_device_mapping::netns::{bound_files, processes_in, NetworkNamespace};
use net_device_mapping::netns_tracker::State;

const HOST: u64 = 4026531840;
const BLUE: u64 = 4026532123;
const RED: u64 = 4026532200;

fn namespace(inode: u64, id: Option<i32>, fs_paths: &[&str], pids: &[u32]) -> NetworkNamespace {
    NetworkNamespace {
        inode,
        id,
        fs_paths: fs_paths.iter().map(|p| p.to_string()).collect(),
        pids: pids.to_vec(),
    }
}

fn mounts() -> Vec<(String, u64)> {
    vec![
        ("/run/netns/blue".to_string(), BLUE),
        ("/run/netns/red".to_string(), RED),
        ("/var/run/netns/blue".to_string(), BLUE),
        ("/run/netns/blue".to_string(), BLUE),
    ]
}

#[test]
fn scan_folds_processes_and_mounts() {
    let processes = vec![(1, HOST), (2, HOST), (30, BLUE), (3, HOST)];
    assert_eq!(
        NetworkNamespace::all(&processes, &mounts()),
        vec![
            namespace(HOST, None, &[], &[1, 2, 3]),
            namespace(BLUE, None, &["/run/netns/blue", "/var/run/netns/blue"], &[30]),
            namespace(RED, None, &["/run/netns/red"], &[]),
        ]
    );
    assert_eq!(NetworkNamespace::all(&vec![], &vec![]), vec![]);
}

#[test]
fn scan_seeds_the_inventory() {
    let processes = vec![(2, HOST), (1, HOST), (30, BLUE)];
    let mut scan = NetworkNamespace::all(&processes, &mounts());
    scan[1].id = Some(7);
    let state = State::new(scan);
    assert_eq!(
        state.current_state(),
        vec![
            namespace(HOST, None, &[], &[1, 2]),
            namespace(BLUE, Some(7), &["/run/netns/blue", "/var/run/netns/blue"], &[30]),
            namespace(RED, None, &["/run/netns/red"], &[]),
        ]
    );
    assert_eq!(state.inode_of(30), Some(BLUE));
}

#[test]
fn seeding_takes_the_later_word_on_an_inode() {
    let state = State::new(vec![
        namespace(HOST, Some(1), &["/a"], &[1, 2]),
        namespace(BLUE, None, &[], &[2]),
        namespace(HOST, Some(2), &["/b"], &[3]),
    ]);
    assert_eq!(
        state.current_state(),
        vec![namespace(HOST, Some(2), &["/b"], &[1, 3]), namespace(BLUE, None, &[], &[2])]
    );
}

#[test]
fn namespace_by_inode_takes_the_first_bound_path() {
    let processes = vec![(1, HOST), (30, BLUE), (31, BLUE)];
    assert_eq!(
        NetworkNamespace::by_inode(BLUE, &processes, &mounts()),
        Some(namespace(BLUE, None, &["/run/netns/blue"], &[30, 31]))
    );
    assert_eq!(
        NetworkNamespace::by_inode(HOST, &processes, &mounts()),
        Some(namespace(HOST, None, &[], &[1]))
    );
    assert_eq!(
        NetworkNamespace::by_inode(RED, &processes, &mounts()),
        Some(namespace(RED, None, &["/run/netns/red"], &[]))
    );
    assert_eq!(NetworkNamespace::by_inode(5, &processes, &mounts()), None);
}

#[test]
fn namespace_by_id_is_assembled_from_the_match() {
    let processes = vec![(1, HOST), (30, BLUE), (31, BLUE)];
    assert_eq!(
        NetworkNamespace::by_id(7, BLUE, "/run/netns/blue".to_string(), &processes),
        namespace(BLUE, Some(7), &["/run/netns/blue"], &[30, 31])
    );
    assert_eq!(processes_in(&processes, RED), Vec::<u32>::new());
}

#[test]
fn bound_files_list_the_first_path_of_each_namespace() {
    assert_eq!(
        bound_files(&mounts()),
        vec![(BLUE, "/run/netns/blue".to_string()), (RED, "/run/netns/red".to_string())]
    );
    assert_eq!(bound_files(&vec![]), vec![]);
}
