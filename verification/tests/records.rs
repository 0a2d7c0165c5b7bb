use net_device_mapping::syscall_monitor::{EbpfEvent, EventType, ObjectDir, RECORD_LENGTH};

fn record(kind: u32, pid: u32, command: &[u8]) -> Vec<u8> {
    let mut bytes = Vec::new();
    for word in [kind, pid, pid + 1, 1000, 1001, 1] {
        bytes.extend_from_slice(&word.to_le_bytes());
    }
    let mut field = [0u8; 16];
    field[..command.len()].copy_from_slice(command);
    bytes.extend_from_slice(&field);
    bytes
}

#[test]
fn decodes_a_little_endian_record() {
    let bytes = record(5, 0x01020304, b"bash");
    assert_eq!(bytes.len(), RECORD_LENGTH);
    let event = EbpfEvent::decode(&bytes, false).expect("a record");
    assert_eq!(event.kind, EventType::Setns);
    assert_eq!(event.pid, 0x01020304);
    assert_eq!(event.tid, 0x01020305);
    assert_eq!(event.uid, 1000);
    assert_eq!(event.gid, 1001);
    assert_eq!(event.parent_pid, 1);
    assert_eq!(&event.command[..5], b"bash\0");
    assert_eq!(event.command_as_string(), "bash");
}

#[test]
fn decodes_a_big_endian_record() {
    let mut bytes = Vec::new();
    for word in [2u32, 77, 78, 0xffff_ffff, 0, 0x8000_0000] {
        bytes.extend_from_slice(&word.to_be_bytes());
    }
    bytes.extend_from_slice(b"0123456789abcdef");
    let event = EbpfEvent::decode(&bytes, true).expect("a record");
    assert_eq!(event.kind, EventType::Exit);
    assert_eq!(event.pid, 77);
    assert_eq!(event.tid, 78);
    assert_eq!(event.uid, 0xffff_ffff);
    assert_eq!(event.gid, 0);
    assert_eq!(event.parent_pid, 0x8000_0000);
    assert_eq!(event.command_as_string(), "0123456789abcdef");
    // Read in the other byte order, the kind is not one of the six.
    assert_eq!(EbpfEvent::decode(&bytes, false), None);
}

#[test]
fn every_kind_has_its_code() {
    let kinds = [
        EventType::Fork,
        EventType::Exec,
        EventType::Exit,
        EventType::Clone,
        EventType::Unshare,
        EventType::Setns,
    ];
    for (code, kind) in kinds.iter().enumerate() {
        assert_eq!(kind.code(), code as u32);
        assert_eq!(EventType::from_code(code as u32), Some(*kind));
        assert_eq!(EbpfEvent::decode(&record(code as u32, 1, b"x"), false).map(|e| e.kind), Some(*kind));
    }
    assert_eq!(EventType::from_code(6), None);
    assert_eq!(EventType::from_code(u32::MAX), None);
}

#[test]
fn short_or_unknown_records_are_refused() {
    let bytes = record(0, 1, b"init");
    assert_eq!(EbpfEvent::decode(&bytes[..39], false), None);
    assert_eq!(EbpfEvent::decode(&[], false), None);
    assert_eq!(EbpfEvent::decode(&record(6, 1, b"init"), false), None);
    // What follows a record is not read.
    let mut longer = bytes.clone();
    longer.extend_from_slice(&[9, 9, 9]);
    assert_eq!(EbpfEvent::decode(&longer, false), EbpfEvent::decode(&bytes, false));
}

#[test]
fn command_ends_at_the_first_nul() {
    let event = EbpfEvent::decode(&record(0, 1, b"ab\0cd"), false).expect("a record");
    assert_eq!(event.command_as_string(), "ab");
    let event = EbpfEvent::decode(&record(0, 1, b""), false).expect("a record");
    assert_eq!(event.command_as_string(), "");
}

#[test]
fn command_replaces_invalid_utf8() {
    let event = EbpfEvent::decode(&record(0, 1, &[b'a', 0xff, b'b']), false).expect("a record");
    assert_eq!(event.command_as_string(), "a\u{fffd}b");
    let event = EbpfEvent::decode(&record(0, 1, "zäh".as_bytes()), false).expect("a record");
    assert_eq!(event.command_as_string(), "zäh");
}

#[test]
fn object_dir_follows_the_setting() {
    assert_eq!(ObjectDir::from_setting(None), ObjectDir::Executable);
    assert_eq!(ObjectDir::from_setting(Some("EXE_DIR")), ObjectDir::Executable);
    assert_eq!(ObjectDir::from_setting(Some("CUR_DIR")), ObjectDir::Working);
    assert_eq!(ObjectDir::from_setting(Some("/opt/probes")), ObjectDir::Named("/opt/probes".to_string()));
    assert_eq!(ObjectDir::from_setting(Some("")), ObjectDir::Named(String::new()));
    assert_eq!(ObjectDir::from_setting(Some("exe_dir")), ObjectDir::Named("exe_dir".to_string()));
}

#[test]
fn object_path_joins_the_directories() {
    assert_eq!(ObjectDir::Executable.object_path("/usr/bin"), "/usr/bin/ebpf/fork_monitor.bpf.o");
    assert_eq!(ObjectDir::Working.object_path("/home/me/"), "/home/me/ebpf/fork_monitor.bpf.o");
    assert_eq!(ObjectDir::Working.object_path(""), "ebpf/fork_monitor.bpf.o");
    assert_eq!(ObjectDir::Working.object_path("/"), "/ebpf/fork_monitor.bpf.o");
    assert_eq!(ObjectDir::Named("/opt/probes".to_string()).object_path("/ignored"), "/opt/probes/fork_monitor.bpf.o");
    assert_eq!(ObjectDir::Named("rel".to_string()).object_path("/ignored"), "rel/fork_monitor.bpf.o");
    assert_eq!(ObjectDir::Named(String::new()).object_path("/ignored"), "fork_monitor.bpf.o");
}
