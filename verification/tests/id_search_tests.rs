use net_device_mapping::id_search::{Candidate, IdSearch, SearchStep};
use net_device_mapping::mount_monitor::{FsType, MountOptions, MountPoint, ReadWrite};
use net_device_mapping::netns::NetworkNamespace;
use net_device_mapping::netns_tracker::{find_netns_id_addition, State};

const HOST: u64 = 4026531840;
const BLUE: u64 = 4026532123;

fn inventory() -> State {
    State::new(vec![
        NetworkNamespace { inode: HOST, id: None, fs_paths: vec![], pids: vec![1] },
        NetworkNamespace {
            inode: BLUE,
            id: None,
            fs_paths: vec!["/run/netns/blue".to_string()],
            pids: vec![],
        },
        NetworkNamespace { inode: 5, id: None, fs_paths: vec![], pids: vec![] },
    ])
}

fn mount_at(path: &str, fstype: FsType) -> MountPoint {
    MountPoint {
        id: Some(1),
        parent_id: None,
        root: None,
        what: String::new(),
        path: path.to_string(),
        fstype,
        options: MountOptions { read_write: ReadWrite::ReadOnly, others: vec![] },
    }
}

fn probe(path: &str, inode: Option<u64>) -> SearchStep {
    SearchStep::Probe(Candidate { path: path.to_string(), inode })
}

#[test]
fn first_tier_hit_returns_the_inode_of_the_row() {
    let state = inventory();
    let mut search = find_netns_id_addition(&state, 7);
    assert_eq!(search.step(), probe("/proc/1/ns/net", Some(HOST)));
    assert_eq!(search.probed(None, Some(0)), None);
    assert_eq!(search.step(), probe("/run/netns/blue", Some(BLUE)));
    assert_eq!(search.probed(None, Some(7)), Some(BLUE));
    // A hit leaves the search where it is.
    assert_eq!(search.step(), probe("/run/netns/blue", Some(BLUE)));
}

#[test]
fn failed_probes_are_passed_over() {
    let state = inventory();
    let mut search = IdSearch::new(&state, 7);
    assert_eq!(search.probed(Some(HOST), None), None);
    assert_eq!(search.probed(None, None), None);
    // The row without files is not a candidate: the first tier is exhausted.
    assert_eq!(search.step(), SearchStep::ScanMounts);
    assert_eq!(search.probed(Some(1), Some(7)), None);
    assert_eq!(search.step(), SearchStep::ScanMounts);
}

#[test]
fn second_tier_tries_each_nsfs_path_once_in_order() {
    let state = State::empty();
    let mut search = IdSearch::new(&state, 7);
    assert_eq!(search.step(), SearchStep::ScanMounts);
    search.load_mounts(&vec![
        mount_at("/run/netns/red", FsType::Other("nsfs".to_string())),
        mount_at("/", FsType::Ext4),
        mount_at("/run/netns/blue", FsType::Other("nsfs".to_string())),
        mount_at("/run/netns/red", FsType::Other("nsfs".to_string())),
        mount_at("/proc", FsType::Proc),
    ]);
    assert_eq!(search.step(), probe("/run/netns/blue", None));
    // The id matches, but the inode could not be found out.
    assert_eq!(search.probed(None, Some(7)), None);
    assert_eq!(search.step(), probe("/run/netns/red", None));
    assert_eq!(search.probed(Some(99), Some(8)), None);
    assert_eq!(search.step(), SearchStep::ScanProcesses);
}

#[test]
fn second_tier_hit_returns_the_reported_inode() {
    let state = inventory();
    let mut search = IdSearch::new(&state, 7);
    search.load_mounts(&vec![mount_at("/run/netns/green", FsType::Other("nsfs".to_string()))]);
    assert_eq!(search.step(), probe("/run/netns/green", None));
    assert_eq!(search.probed(Some(4026532999), Some(7)), Some(4026532999));
}

#[test]
fn third_tier_tries_the_handles_of_processes() {
    let state = State::empty();
    let mut search = IdSearch::new(&state, 3);
    search.load_mounts(&vec![]);
    assert_eq!(search.step(), SearchStep::ScanProcesses);
    search.load_processes(vec![
        "/proc/1/ns/net".to_string(),
        "/proc/self/ns/net".to_string(),
        "/proc/thread-self/ns/net".to_string(),
        "/proc/20/ns/net".to_string(),
    ]);
    assert_eq!(search.step(), probe("/proc/1/ns/net", None));
    assert_eq!(search.probed(Some(HOST), Some(0)), None);
    assert_eq!(search.step(), probe("/proc/20/ns/net", None));
    assert_eq!(search.probed(Some(BLUE), Some(3)), Some(BLUE));
}

#[test]
fn search_gives_up_after_the_third_tier() {
    let state = State::empty();
    let mut search = IdSearch::new(&state, 3);
    search.load_mounts(&vec![]);
    search.load_processes(vec!["/proc/1/ns/net".to_string()]);
    assert_eq!(search.probed(Some(HOST), Some(4)), None);
    assert_eq!(search.step(), SearchStep::GiveUp);
    assert_eq!(search.probed(Some(HOST), Some(3)), None);
    assert_eq!(search.step(), SearchStep::GiveUp);
}
