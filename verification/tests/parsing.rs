use systop::procinfos::ProcInfo;

#[test]
fn parse_status_basic() {
    let r = ProcInfo::parse_status("Name:\tbash\nPid:\t42\nPPid:\t1\nThreads:\t3\n", None)
        .unwrap();
    assert_eq!(r.name, "bash");
    assert_eq!(r.pid, 42);
    assert_eq!(r.ppid, 1);
    assert_eq!(r.threads, 3);
    assert!(r.cmdline.is_none());
    assert!(r.children.is_empty());
}

#[test]
fn threads_default_to_one() {
    let r = ProcInfo::parse_status("Name:\tinit\nPid:\t1\nPPid:\t0\n", None).unwrap();
    assert_eq!(r.threads, 1);
}

#[test]
fn malformed_pid_fails() {
    assert!(ProcInfo::parse_status("Name:\tx\nPid:\t4x2\nPPid:\t1\n", None).is_none());
}

#[test]
fn malformed_threads_fails() {
    assert!(ProcInfo::parse_status("Pid:\t1\nPPid:\t0\nThreads:\tmany\n", None).is_none());
}

#[test]
fn missing_pid_fails() {
    assert!(ProcInfo::parse_status("Name:\tx\nPPid:\t1\n", None).is_none());
}

#[test]
fn missing_ppid_fails() {
    assert!(ProcInfo::parse_status("Name:\tx\nPid:\t1\n", None).is_none());
}

#[test]
fn missing_name_is_empty() {
    let r = ProcInfo::parse_status("Pid:\t1\nPPid:\t0\n", None).unwrap();
    assert_eq!(r.name, "");
}

#[test]
fn value_after_last_colon() {
    let r = ProcInfo::parse_status("Name: a:b\nPid: 1\nPPid: 0\n", None).unwrap();
    assert_eq!(r.name, "b");
}

#[test]
fn last_matching_line_wins() {
    let r = ProcInfo::parse_status("Pid: 1\nPPid: 0\nPid: 2\n", None).unwrap();
    assert_eq!(r.pid, 2);
}

#[test]
fn unrecognized_labels_ignored() {
    let r =
        ProcInfo::parse_status("Name:\tx\nUmask:\t0022\nPid:\t5\nPPid:\t4\nState:\tS\n", None)
            .unwrap();
    assert_eq!(r.pid, 5);
    assert_eq!(r.ppid, 4);
}

#[test]
fn cmdline_nulls_become_spaces() {
    let r = ProcInfo::parse_status(
        "Pid:\t1\nPPid:\t0\n",
        Some("/bin/cat\0file\0".to_string()),
    )
    .unwrap();
    assert_eq!(r.cmdline.as_deref(), Some("/bin/cat file "));
}

#[test]
fn get_key_trims_whitespace() {
    assert_eq!(systop::procinfos::get_key("Name:\t  bash  "), "bash");
}

#[test]
fn get_key_without_colon_keeps_line() {
    assert_eq!(systop::procinfos::get_key("plain"), "plain");
}

#[test]
fn carriage_return_line_endings_accepted() {
    let r = ProcInfo::parse_status("Name:\tbash\r\nPid:\t42\r\nPPid:\t1\r\n", None).unwrap();
    assert_eq!(r.name, "bash");
    assert_eq!(r.pid, 42);
    assert_eq!(r.ppid, 1);
}

#[test]
fn pid_too_large_fails() {
    assert!(
        ProcInfo::parse_status("Pid:\t99999999999999999999999999\nPPid:\t0\n", None).is_none()
    );
}
