use systop::forest::build_forest;
use systop::procinfos::ProcInfo;

fn rec(name: &str, pid: usize, ppid: usize) -> ProcInfo {
    ProcInfo {
        name: name.to_string(),
        pid,
        ppid,
        threads: 1,
        cmdline: None,
        children: Vec::new(),
    }
}

fn collect_pids(forest: &Vec<ProcInfo>, out: &mut Vec<usize>) {
    for r in forest {
        out.push(r.pid);
        collect_pids(&r.children, out);
    }
}

#[test]
fn chain_of_three() {
    let flat = vec![rec("a", 1, 0), rec("b", 2, 1), rec("c", 3, 2)];
    let forest = build_forest(flat);
    assert_eq!(forest.len(), 1);
    assert_eq!(forest[0].pid, 1);
    assert_eq!(forest[0].children.len(), 1);
    assert_eq!(forest[0].children[0].pid, 2);
    assert_eq!(forest[0].children[0].children.len(), 1);
    assert_eq!(forest[0].children[0].children[0].pid, 3);
}

#[test]
fn missing_parent_is_root() {
    let flat = vec![rec("lone", 5, 99)];
    let forest = build_forest(flat);
    assert_eq!(forest.len(), 1);
    assert_eq!(forest[0].pid, 5);
    assert!(forest[0].children.is_empty());
}

#[test]
fn self_parent_stays_root() {
    let flat = vec![rec("selfp", 7, 7), rec("child", 8, 7)];
    let forest = build_forest(flat);
    assert_eq!(forest.len(), 1);
    assert_eq!(forest[0].pid, 7);
    assert_eq!(forest[0].children.len(), 1);
    assert_eq!(forest[0].children[0].pid, 8);
}

#[test]
fn round_trip_keeps_every_record() {
    let flat = vec![
        rec("a", 1, 0),
        rec("b", 2, 1),
        rec("c", 3, 1),
        rec("d", 4, 2),
        rec("e", 9, 42),
    ];
    let forest = build_forest(flat);
    let mut pids = Vec::new();
    collect_pids(&forest, &mut pids);
    pids.sort();
    assert_eq!(pids, vec![1, 2, 3, 4, 9]);
}

#[test]
fn order_independent_shape() {
    let a = build_forest(vec![rec("a", 1, 0), rec("b", 2, 1), rec("c", 3, 2)]);
    let b = build_forest(vec![rec("c", 3, 2), rec("a", 1, 0), rec("b", 2, 1)]);
    assert_eq!(a.len(), 1);
    assert_eq!(b.len(), 1);
    assert_eq!(a[0].pid, b[0].pid);
    assert_eq!(a[0].children[0].pid, b[0].children[0].pid);
    assert_eq!(
        a[0].children[0].children[0].pid,
        b[0].children[0].children[0].pid
    );
}

#[test]
fn empty_input_empty_forest() {
    let forest = build_forest(Vec::new());
    assert!(forest.is_empty());
}

#[test]
fn two_trees() {
    let flat = vec![rec("r1", 1, 0), rec("r2", 10, 0), rec("c1", 2, 1), rec("c2", 11, 10)];
    let forest = build_forest(flat);
    assert_eq!(forest.len(), 2);
    let mut roots: Vec<usize> = forest.iter().map(|r| r.pid).collect();
    roots.sort();
    assert_eq!(roots, vec![1, 10]);
    for r in &forest {
        assert_eq!(r.children.len(), 1);
        assert_eq!(r.children[0].ppid, r.pid);
    }
}

#[test]
fn parsed_records_build_a_forest() {
    let main_proc =
        ProcInfo::parse_status("Name:\tserver\nPid:\t100\nPPid:\t1\nThreads:\t2\n", None)
            .unwrap();
    let worker =
        ProcInfo::parse_status("Name:\tserver\nPid:\t101\nPPid:\t1\nThreads:\t2\n", None)
            .unwrap();
    let init = ProcInfo::parse_status("Name:\tinit\nPid:\t1\nPPid:\t0\n", None).unwrap();
    let forest = build_forest(vec![main_proc, worker, init]);
    assert_eq!(forest.len(), 1);
    assert_eq!(forest[0].pid, 1);
    assert_eq!(forest[0].children.len(), 2);
}

#[test]
fn parent_cycle_still_terminates() {
    let flat = vec![rec("x", 1, 2), rec("y", 2, 1)];
    let forest = build_forest(flat);
    let mut pids = Vec::new();
    collect_pids(&forest, &mut pids);
    pids.sort();
    assert_eq!(pids, vec![1, 2]);
}
