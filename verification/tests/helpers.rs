use net_device_mapping::netns_tracker::MountState;
use net_device_mapping::mount_monitor::{FsType, MountChange, MountOptions, MountPoint, ReadWrite};
use net_device_mapping::paths::sorted_unique;
use net_device_mapping::text::{join_path, push_decimal};
use net_device_mapping::util::libmount_monitor::{changed_files, outcome, Outcome};
use net_device_mapping::util::line_count_writer::count_newlines;
use net_device_mapping::util::{Event, EventKind, LineCountWriter, Timeout};

fn strings(texts: &[&str]) -> Vec<String> {
    texts.iter().map(|t| t.to_string()).collect()
}

#[test]
fn sorted_unique_sorts_and_drops_repeats() {
    assert_eq!(sorted_unique(strings(&["b", "a", "c", "a", "b", "b"])), strings(&["a", "b", "c"]));
    assert_eq!(sorted_unique(strings(&["/run/b", "/run/a"])), strings(&["/run/a", "/run/b"]));
    assert_eq!(sorted_unique(strings(&["ab", "a", "", "B", "é", "z"])), strings(&["", "B", "a", "ab", "z", "é"]));
    assert_eq!(sorted_unique(vec![]), Vec::<String>::new());
}

#[test]
fn mount_state_lists_its_paths_once_in_order() {
    let mount = |path: &str| MountPoint {
        id: None,
        parent_id: None,
        root: None,
        what: String::new(),
        path: path.to_string(),
        fstype: FsType::Other("nsfs".to_string()),
        options: MountOptions { read_write: ReadWrite::ReadWrite, others: vec![] },
    };
    let mut mounts = MountState::new();
    mounts.on_event(MountChange::Added(1, mount("/run/netns/b")));
    mounts.on_event(MountChange::Added(2, mount("/run/netns/a")));
    mounts.on_event(MountChange::Added(3, mount("/run/netns/b")));
    mounts.on_event(MountChange::Added(4, mount("/run/netns/c")));
    mounts.on_event(MountChange::Removed(4));
    assert_eq!(mounts.all_paths(), strings(&["/run/netns/a", "/run/netns/b"]));
    assert!(mounts.has_path(&"/run/netns/a".to_string()));
    assert!(!mounts.has_path(&"/run/netns/c".to_string()));
    assert_eq!(mounts.get_path(3), Some(&"/run/netns/b".to_string()));
}

#[test]
fn decimal_rendering() {
    let mut out = String::from("pid ");
    push_decimal(&mut out, 0);
    out.push(' ');
    push_decimal(&mut out, 1090);
    out.push(' ');
    push_decimal(&mut out, u32::MAX);
    assert_eq!(out, "pid 0 1090 4294967295");
}

#[test]
fn joining_paths() {
    assert_eq!(join_path("/a", "b"), "/a/b");
    assert_eq!(join_path("/a/", "b"), "/a/b");
    assert_eq!(join_path("", "b"), "b");
    assert_eq!(join_path("/a", "/b"), "/b");
    assert_eq!(join_path("/a", ""), "/a/");
    assert_eq!(join_path("/ä", "ö"), "/ä/ö");
    for (base, name) in [("/a", "b"), ("/a/", "b"), ("", "b"), ("/a", "/b"), ("/a", ""), ("/", "x"), ("", "")] {
        assert_eq!(
            join_path(base, name),
            std::path::Path::new(base).join(name).to_str().expect("text"),
            "{:?} {:?}",
            base,
            name
        );
    }
}

#[test]
fn line_count_writer_counts_what_was_written() {
    let mut writer = LineCountWriter::new(Vec::<u8>::new());
    assert_eq!(writer.lines(), 0);
    let buf = b"one\ntwo\n\nthree";
    writer.inner_mut().extend_from_slice(buf);
    writer.record(buf, buf.len());
    assert_eq!(writer.lines(), 3);
    // Only the bytes that were written count.
    writer.record(b"a\nb\nc\n", 3);
    assert_eq!(writer.lines(), 4);
    writer.record(b"\n\n", 0);
    assert_eq!(writer.lines(), 4);
    let (inner, lines) = writer.into_inner();
    assert_eq!(inner, buf.to_vec());
    assert_eq!(lines, 4);
}

#[test]
fn newlines_are_counted() {
    assert_eq!(count_newlines(b""), 0);
    assert_eq!(count_newlines(b"\n"), 1);
    assert_eq!(count_newlines(b"a\r\nb\n\n"), 3);
    assert_eq!(count_newlines(b"no line end"), 0);
}

#[test]
fn timeouts_in_milliseconds() {
    assert_eq!(Timeout::Forever.millis(), -1);
    assert_eq!(Timeout::Millis(0).millis(), 0);
    assert_eq!(Timeout::Millis(1500).millis(), 1500);
    assert_eq!(Timeout::Millis(i32::MAX as u32).millis(), i32::MAX);
    assert_eq!(Timeout::Millis(i32::MAX as u32 + 1).millis(), i32::MIN);
    assert_eq!(Timeout::Millis(u32::MAX - 1).millis(), -2);
    assert_eq!(Timeout::Millis(u32::MAX).millis(), -2);
}

#[test]
fn return_codes_of_the_library() {
    assert_eq!(outcome(0), Outcome::Done(0));
    assert_eq!(outcome(1), Outcome::Done(1));
    assert_eq!(outcome(-2), Outcome::Failed(2));
    assert_eq!(outcome(-13), Outcome::Failed(13));
    assert_eq!(outcome(i32::MIN), Outcome::Failed(i32::MAX));
}

#[test]
fn event_kinds_have_the_codes_of_the_library() {
    assert_eq!(EventKind::Userspace.code(), 1);
    assert_eq!(EventKind::Kernel.code(), 2);
    assert_eq!(EventKind::from_code(1), Some(EventKind::Userspace));
    assert_eq!(EventKind::from_code(2), Some(EventKind::Kernel));
    assert_eq!(EventKind::from_code(0), None);
    assert_eq!(EventKind::from_code(3), None);
}

#[test]
fn a_changed_file_is_reported_once_per_wake() {
    let event = |path: &str, kind: EventKind| Event { path: path.to_string(), kind };
    let events = vec![
        event("/proc/self/mountinfo", EventKind::Kernel),
        event("/proc/self/mountinfo", EventKind::Kernel),
        event("/run/mount/utab", EventKind::Userspace),
        event("/proc/self/mountinfo", EventKind::Userspace),
        event("/proc/self/mountinfo", EventKind::Kernel),
        event("/run/mount/utab", EventKind::Userspace),
    ];
    assert_eq!(
        changed_files(&events),
        vec![
            event("/proc/self/mountinfo", EventKind::Kernel),
            event("/run/mount/utab", EventKind::Userspace),
            event("/proc/self/mountinfo", EventKind::Userspace),
        ]
    );
    assert_eq!(changed_files(&vec![]), vec![]);
}
