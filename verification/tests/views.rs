use systop::procinfos::{ProcInfo, ProcInfoVec, SortMethod};

fn rec(name: &str, pid: usize, ppid: usize) -> ProcInfo {
    ProcInfo {
        name: name.to_string(),
        pid,
        ppid,
        threads: 1,
        cmdline: None,
        children: Vec::new(),
    }
}

fn rec_cmd(name: &str, pid: usize, ppid: usize, cmd: Option<&str>) -> ProcInfo {
    ProcInfo {
        name: name.to_string(),
        pid,
        ppid,
        threads: 1,
        cmdline: cmd.map(|s| s.to_string()),
        children: Vec::new(),
    }
}

#[test]
fn refresh_fills_all_views() {
    let mut v = ProcInfoVec::new();
    assert!(v.is_empty());
    v.refresh(vec![rec("alpha", 1, 0), rec("beta", 2, 1)]).unwrap();
    assert!(!v.is_empty());
    assert_eq!(v.iter().len(), 2);
    assert_eq!(v.iter_search().len(), 2);
    assert_eq!(v.iter_tree().len(), 1);
    assert_eq!(v.iter_tree_search().len(), 1);
    assert_eq!(v.iter_tree()[0].pid, 1);
    assert_eq!(v.iter_tree()[0].children.len(), 1);
    assert_eq!(v.to_vec().len(), 2);
}

#[test]
fn default_sort_is_by_name() {
    let mut v = ProcInfoVec::new();
    v.refresh(vec![rec("zeta", 1, 0), rec("alpha", 2, 0), rec("mu", 3, 0)]).unwrap();
    let names: Vec<String> = v.iter().iter().map(|r| r.name.clone()).collect();
    assert_eq!(names, vec!["alpha", "mu", "zeta"]);
}

#[test]
fn sort_by_pid() {
    let mut v = ProcInfoVec::new();
    v.refresh(vec![rec("c", 30, 0), rec("a", 10, 0), rec("b", 20, 0)]).unwrap();
    v.set_sort_method(SortMethod::Pid);
    let pids: Vec<usize> = v.iter().iter().map(|r| r.pid).collect();
    assert_eq!(pids, vec![10, 20, 30]);
}

#[test]
fn sort_applies_to_children() {
    let mut v = ProcInfoVec::new();
    v.refresh(vec![rec("p", 1, 0), rec("z", 5, 1), rec("a", 3, 1)]).unwrap();
    v.set_sort_method(SortMethod::Pid);
    let tree = v.iter_tree();
    assert_eq!(tree[0].children.len(), 2);
    assert_eq!(tree[0].children[0].pid, 3);
    assert_eq!(tree[0].children[1].pid, 5);
}

#[test]
fn sort_is_idempotent() {
    let mut v = ProcInfoVec::new();
    v.refresh(vec![rec("b", 2, 0), rec("a", 1, 0), rec("c", 3, 0)]).unwrap();
    v.set_sort_method(SortMethod::Pid);
    let once: Vec<usize> = v.iter().iter().map(|r| r.pid).collect();
    v.set_sort_method(SortMethod::Pid);
    let twice: Vec<usize> = v.iter().iter().map(|r| r.pid).collect();
    assert_eq!(once, twice);
}

#[test]
fn sort_is_stable_for_equal_keys() {
    let mut v = ProcInfoVec::new();
    v.refresh(vec![rec("same", 5, 0), rec("same", 2, 0), rec("same", 9, 0)]).unwrap();
    // refresh already sorted by name; equal names keep their arrival order
    let pids: Vec<usize> = v.iter().iter().map(|r| r.pid).collect();
    assert_eq!(pids, vec![5, 2, 9]);
}

#[test]
fn cmdline_absent_sorts_first() {
    let mut v = ProcInfoVec::new();
    v.refresh(vec![
        rec_cmd("a", 1, 0, Some("zzz")),
        rec_cmd("b", 2, 0, None),
        rec_cmd("c", 3, 0, Some("aaa")),
    ])
    .unwrap();
    v.set_sort_method(SortMethod::CmdLine);
    let pids: Vec<usize> = v.iter().iter().map(|r| r.pid).collect();
    assert_eq!(pids, vec![2, 3, 1]);
}

#[test]
fn search_pattern_filters_views() {
    let mut v = ProcInfoVec::new();
    v.refresh(vec![rec("alpha", 1, 0), rec("beta", 2, 1), rec("gamma", 3, 0)]).unwrap();
    v.set_searchpattern("beta".to_string()).unwrap();
    // flat view: only the direct match
    assert_eq!(v.iter_search().len(), 1);
    assert_eq!(v.iter_search()[0].pid, 2);
    // tree view: the matching child keeps its ancestor
    assert_eq!(v.iter_tree_search().len(), 1);
    assert_eq!(v.iter_tree_search()[0].pid, 1);
    assert_eq!(v.iter_tree_search()[0].children.len(), 1);
    assert_eq!(v.iter_tree_search()[0].children[0].pid, 2);
}

#[test]
fn filtered_records_all_appear_unfiltered() {
    let mut v = ProcInfoVec::new();
    v.refresh(vec![rec("aa", 1, 0), rec("ab", 2, 0), rec("bb", 3, 0)]).unwrap();
    v.set_searchpattern("a".to_string()).unwrap();
    let all: Vec<usize> = v.iter().iter().map(|r| r.pid).collect();
    for r in v.iter_search() {
        assert!(all.contains(&r.pid));
    }
    assert_eq!(v.iter_search().len(), 2);
}

#[test]
fn match_is_case_insensitive() {
    let mut v = ProcInfoVec::new();
    v.refresh(vec![rec("Bash", 1, 0), rec("other", 2, 0)]).unwrap();
    v.set_searchpattern("BASH".to_string()).unwrap();
    assert_eq!(v.iter_search().len(), 1);
    assert_eq!(v.iter_search()[0].pid, 1);
}

#[test]
fn match_covers_command_line() {
    let mut v = ProcInfoVec::new();
    v.refresh(vec![
        rec_cmd("short", 1, 0, Some("/usr/bin/special-tool")),
        rec_cmd("other", 2, 0, None),
    ])
    .unwrap();
    v.set_searchpattern("special".to_string()).unwrap();
    assert_eq!(v.iter_search().len(), 1);
    assert_eq!(v.iter_search()[0].pid, 1);
}

#[test]
fn invalid_pattern_is_rejected() {
    let mut v = ProcInfoVec::new();
    v.refresh(vec![rec("alpha", 1, 0)]).unwrap();
    assert!(v.set_searchpattern("(".to_string()).is_err());
    // the views are untouched
    assert_eq!(v.iter_search().len(), 1);
    // a refresh under the bad pattern fails too and changes nothing
    assert!(v.refresh(vec![rec("beta", 2, 0)]).is_err());
    assert_eq!(v.iter()[0].name, "alpha");
    // restoring a good pattern lets refresh work again
    v.set_searchpattern(String::new()).unwrap();
    v.refresh(vec![rec("beta", 2, 0)]).unwrap();
    assert_eq!(v.iter()[0].name, "beta");
}

#[test]
fn deep_match_keeps_whole_ancestor_chain() {
    let mut v = ProcInfoVec::new();
    v.refresh(vec![
        rec("top", 1, 0),
        rec("mid", 2, 1),
        rec("leafmatch", 3, 2),
        rec("othermid", 4, 1),
    ])
    .unwrap();
    v.set_searchpattern("leafmatch".to_string()).unwrap();
    let tree = v.iter_tree_search();
    assert_eq!(tree.len(), 1);
    assert_eq!(tree[0].pid, 1);
    assert_eq!(tree[0].children.len(), 1);
    assert_eq!(tree[0].children[0].pid, 2);
    assert_eq!(tree[0].children[0].children.len(), 1);
    assert_eq!(tree[0].children[0].children[0].pid, 3);
}

#[test]
fn empty_pattern_keeps_everything() {
    let mut v = ProcInfoVec::new();
    v.refresh(vec![rec("a", 1, 0), rec("b", 2, 0)]).unwrap();
    assert_eq!(v.iter_search().len(), 2);
}
