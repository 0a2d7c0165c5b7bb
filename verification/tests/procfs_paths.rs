use net_device_mapping::netns::process_of_handle;
use net_device_mapping::netns_tracker::process_netns_path;
use net_device_mapping::procfs::{parse_procfs_path_start, ParseProcfsError};

#[test]
fn parses_the_pid_of_a_namespace_handle() {
    assert_eq!(parse_procfs_path_start("/proc/1/ns/net"), Ok(1));
    assert_eq!(parse_procfs_path_start("/proc/4026531840/ns/net"), Ok(4026531840));
    assert_eq!(parse_procfs_path_start("/proc/42"), Ok(42));
    assert_eq!(parse_procfs_path_start("/proc/42/"), Ok(42));
    assert_eq!(parse_procfs_path_start("/proc/18446744073709551615/x"), Ok(u64::MAX));
}

#[test]
fn parses_what_the_number_parser_accepts() {
    assert_eq!(parse_procfs_path_start("/proc/007/ns/net"), Ok(7));
    assert_eq!(parse_procfs_path_start("/proc/+7/ns/net"), Ok(7));
    assert_eq!(parse_procfs_path_start("/proc/0"), Ok(0));
}

#[test]
fn reads_the_path_by_components() {
    assert_eq!(parse_procfs_path_start("//proc///12//ns"), Ok(12));
    assert_eq!(parse_procfs_path_start("/./proc/./12/./ns"), Ok(12));
    assert_eq!(parse_procfs_path_start("/proc/././/12"), Ok(12));
}

#[test]
fn refuses_relative_paths() {
    assert_eq!(parse_procfs_path_start("proc/1/ns/net"), Err(ParseProcfsError::NotAbsolute));
    assert_eq!(parse_procfs_path_start(""), Err(ParseProcfsError::NotAbsolute));
    assert_eq!(parse_procfs_path_start("./proc/1"), Err(ParseProcfsError::NotAbsolute));
}

#[test]
fn refuses_paths_outside_proc() {
    assert_eq!(parse_procfs_path_start("/sys/1"), Err(ParseProcfsError::NonProc));
    assert_eq!(parse_procfs_path_start("/"), Err(ParseProcfsError::NonProc));
    assert_eq!(parse_procfs_path_start("/procs/1"), Err(ParseProcfsError::NonProc));
    assert_eq!(parse_procfs_path_start("/pro/1"), Err(ParseProcfsError::NonProc));
    assert_eq!(parse_procfs_path_start("/../proc/1"), Err(ParseProcfsError::NonProc));
    assert_eq!(parse_procfs_path_start("/.proc/1"), Err(ParseProcfsError::NonProc));
}

#[test]
fn refuses_paths_without_a_pid() {
    assert_eq!(parse_procfs_path_start("/proc"), Err(ParseProcfsError::NoPid));
    assert_eq!(parse_procfs_path_start("/proc/"), Err(ParseProcfsError::NoPid));
    assert_eq!(parse_procfs_path_start("/proc/."), Err(ParseProcfsError::NoPid));
    assert_eq!(parse_procfs_path_start("/proc/../1"), Err(ParseProcfsError::NoPid));
}

#[test]
fn refuses_what_is_not_a_pid() {
    let not_a_pid = |text: &str| Err(ParseProcfsError::NotAPid(text.to_string()));
    assert_eq!(parse_procfs_path_start("/proc/self/ns/net"), not_a_pid("self"));
    assert_eq!(parse_procfs_path_start("/proc/12a/ns/net"), not_a_pid("12a"));
    assert_eq!(parse_procfs_path_start("/proc/-1/ns/net"), not_a_pid("-1"));
    assert_eq!(parse_procfs_path_start("/proc/+/ns/net"), not_a_pid("+"));
    assert_eq!(parse_procfs_path_start("/proc/++1/ns/net"), not_a_pid("++1"));
    assert_eq!(parse_procfs_path_start("/proc/1.5"), not_a_pid("1.5"));
    assert_eq!(parse_procfs_path_start("/proc/..."), not_a_pid("..."));
    assert_eq!(parse_procfs_path_start("/proc/١٢"), not_a_pid("١٢"));
    assert_eq!(parse_procfs_path_start("/proc/18446744073709551616/x"), not_a_pid("18446744073709551616"));
    assert_eq!(
        parse_procfs_path_start("/proc/99999999999999999999999/x"),
        not_a_pid("99999999999999999999999")
    );
}

#[test]
fn agrees_with_the_number_parser_of_the_standard_library() {
    for text in ["0", "1", "+0", "00", "18446744073709551615", "18446744073709551616", "", "+", "-0", "1_0", " 1", "٣"] {
        if text.is_empty() {
            continue;
        }
        let path = format!("/proc/{}/ns/net", text);
        assert_eq!(parse_procfs_path_start(&path).ok(), text.parse::<u64>().ok(), "{}", text);
    }
}

#[test]
fn handle_paths_lead_back_to_their_process() {
    for pid in [0u32, 1, 9, 10, 4321, u32::MAX] {
        assert_eq!(parse_procfs_path_start(&process_netns_path(pid)), Ok(pid as u64));
        assert_eq!(process_of_handle(&process_netns_path(pid)), Some(pid));
    }
    assert_eq!(process_of_handle("/proc/4294967296/ns/net"), Some(0));
    assert_eq!(process_of_handle("/proc/4294967301/ns/net"), Some(5));
    assert_eq!(process_of_handle("/proc/self/ns/net"), None);
}
