//! Process records: the data model, the status-block parser, and the owner
//! of the four derived process views.

use vstd::prelude::*;

use crate::filter::{filter_forest, lower_of, regex_accepts};
use crate::forest::forest_built_from;
use crate::sorting::sort_forest_nodes;
use crate::text::{
    after_last_colon, after_last_colon_chars, all_digits, chars_of, digits_val, parse_usize,
    split_lines, split_lines_chars, starts_with, starts_with_chars, string_from_chars, trim_chars,
    trimmed,
};

verus! {

/// How the presentation layer renders the process inventory.
#[derive(Debug, Clone, Copy, PartialEq, Eq, Structural)]
pub enum InfoShowKind {
    Normal,
    TreeWithFullInfo,
    TreeWithLessInfo,
}

/// The field by which every process view is ordered.
#[derive(Clone, Copy, Debug, PartialEq, Eq, Structural)]
pub enum SortMethod {
    Name,
    Pid,
    PPid,
    Thread,
    CmdLine,
}

impl Default for SortMethod {
    fn default() -> (r: Self)
        ensures
            r == SortMethod::Name,
    {
        SortMethod::Name
    }
}

/// One process or thread, with the children the forest builder attached.
#[derive(Debug)]
pub struct ProcInfo {
    pub name: String,
    pub pid: usize,
    pub ppid: usize,
    pub threads: usize,
    pub cmdline: Option<String>,
    pub children: Vec<ProcInfo>,
}

/// The mathematical shape of a `ProcInfo`: a rose tree of plain values.
pub ghost struct PNode {
    pub name: Seq<char>,
    pub pid: nat,
    pub ppid: nat,
    pub threads: nat,
    pub cmdline: Option<Seq<char>>,
    pub children: Seq<PNode>,
}

/// A node's own fields, without its children.
pub ghost struct ProcFields {
    pub name: Seq<char>,
    pub pid: nat,
    pub ppid: nat,
    pub threads: nat,
    pub cmdline: Option<Seq<char>>,
}

pub open spec fn fields_of(n: PNode) -> ProcFields {
    ProcFields { name: n.name, pid: n.pid, ppid: n.ppid, threads: n.threads, cmdline: n.cmdline }
}

pub open spec fn opt_str_view(o: Option<String>) -> Option<Seq<char>> {
    match o {
        Some(s) => Some(s@),
        None => None,
    }
}

impl View for ProcInfo {
    type V = PNode;

    open spec fn view(&self) -> PNode {
        self.tree()
    }
}

impl DeepView for ProcInfo {
    type V = PNode;

    open spec fn deep_view(&self) -> PNode {
        self.tree()
    }
}

impl ProcInfo {
    /// The tree of plain values this record holds.
    pub open spec fn tree(&self) -> PNode
        decreases self,
        via Self::tree_decreases
    {
        PNode {
            name: self.name@,
            pid: self.pid as nat,
            ppid: self.ppid as nat,
            threads: self.threads as nat,
            cmdline: opt_str_view(self.cmdline),
            children: Seq::new(
                self.children@.len(),
                |i: int|
                    if 0 <= i < self.children@.len() {
                        self.children[i].tree()
                    } else {
                        vstd::pervasive::arbitrary()
                    },
            ),
        }
    }

    #[via_fn]
    proof fn tree_decreases(&self) {
        broadcast use vstd::std_specs::vec::group_vec_axioms;

        assert forall|i: int| 0 <= i < self.children@.len() implies decreases_to!(
            self => self.children[i]
        ) by {
            assert(decreases_to!(self => self.children));
            assert(decreases_to!(self.children => self.children[i]));
        }
    }

    /// A deep copy: the same tree of values.
    pub fn duplicate(&self) -> (r: ProcInfo)
        ensures
            r.tree() == self.tree(),
        decreases *self,
    {
        let mut kids: Vec<ProcInfo> = Vec::new();
        let n = self.children.len();
        let mut i: usize = 0;
        while i < n
            invariant
                0 <= i <= n == self.children@.len(),
                kids@.len() == i,
                forall|k: int| 0 <= k < i ==> kids@[k].tree() == self.children@[k].tree(),
            decreases n - i,
        {
            proof {
                assert(decreases_to!(self => self.children));
                assert(decreases_to!(self.children => self.children[i as int]));
            }
            let c = self.children[i].duplicate();
            kids.push(c);
            i = i + 1;
        }
        let r = ProcInfo {
            name: self.name.clone(),
            pid: self.pid,
            ppid: self.ppid,
            threads: self.threads,
            cmdline: match &self.cmdline {
                Some(s) => Some(s.clone()),
                None => None,
            },
            children: kids,
        };
        proof {
            assert(r.tree().children =~= self.tree().children);
        }
        r
    }
}

/// A forest's deep copy: the same trees, in the same order.
pub fn duplicate_forest(v: &Vec<ProcInfo>) -> (r: Vec<ProcInfo>)
    ensures
        r.deep_view() =~= v.deep_view(),
{
    let mut r: Vec<ProcInfo> = Vec::new();
    let n = v.len();
    let mut i: usize = 0;
    while i < n
        invariant
            0 <= i <= n == v@.len(),
            r@.len() == i,
            forall|k: int| 0 <= k < i ==> r@[k].tree() == v@[k].tree(),
        decreases n - i,
    {
        let c = v[i].duplicate();
        r.push(c);
        i = i + 1;
    }
    r
}

pub open spec fn name_label() -> Seq<char> {
    seq!['N', 'a', 'm', 'e']
}

pub open spec fn pid_label() -> Seq<char> {
    seq!['P', 'i', 'd']
}

pub open spec fn ppid_label() -> Seq<char> {
    seq!['P', 'P', 'i', 'd']
}

pub open spec fn threads_label() -> Seq<char> {
    seq!['T', 'h', 'r', 'e', 'a', 'd', 's']
}

/// The trimmed text after the last colon of the last line of `ls` that
/// begins with `label`; nothing when no line does.
pub open spec fn label_value(ls: Seq<Seq<char>>, label: Seq<char>) -> Option<Seq<char>>
    decreases ls.len(),
{
    if ls.len() == 0 {
        None
    } else if starts_with(ls.last(), label) {
        Some(trimmed(after_last_colon(ls.last())))
    } else {
        label_value(ls.drop_last(), label)
    }
}

/// Whether `o` holds a value that reads as a number within `usize`.
pub open spec fn num_ok(o: Option<Seq<char>>) -> bool {
    o is Some && all_digits(o->0) && digits_val(o->0) <= usize::MAX
}

/// A command line as displayed: trimmed, with every null byte replaced by a
/// space.
pub open spec fn normalize_cmd(s: Seq<char>) -> Seq<char> {
    trimmed(s).map_values(
        |c: char|
            if c == '\0' {
                ' '
            } else {
                c
            },
    )
}

/// The record parsed from one status block, before any child is attached:
/// its name is the `Name` value (empty when absent), its numbers come from
/// the `Pid`, `PPid` and `Threads` values, and its children are empty.
/// Nothing, when `Pid` or `PPid` is absent or any present numeric value is
/// malformed; an absent `Threads` value defaults to 1.
pub open spec fn status_record(s: Seq<char>, cmd: Option<Seq<char>>) -> Option<PNode> {
    let ls = split_lines(trimmed(s));
    let nm = match label_value(ls, name_label()) {
        Some(v) => v,
        None => Seq::empty(),
    };
    let pid_v = label_value(ls, pid_label());
    let ppid_v = label_value(ls, ppid_label());
    let thr_v = label_value(ls, threads_label());
    if num_ok(pid_v) && num_ok(ppid_v) && (thr_v is None || num_ok(thr_v)) {
        Some(
            PNode {
                name: nm,
                pid: digits_val(pid_v->0),
                ppid: digits_val(ppid_v->0),
                threads: if thr_v is None {
                    1
                } else {
                    digits_val(thr_v->0)
                },
                cmdline: match cmd {
                    Some(c) => Some(normalize_cmd(c)),
                    None => None,
                },
                children: Seq::empty(),
            },
        )
    } else {
        None
    }
}

/// The trimmed text after the last colon of `line`.
pub fn get_key(line: &str) -> (r: String)
    ensures
        r@ == trimmed(after_last_colon(line@)),
{
    let cs = chars_of(line);
    let tail = after_last_colon_chars(&cs);
    let t = trim_chars(&tail);
    string_from_chars(&t)
}

/// The trimmed text after the last colon of `line`, as characters.
fn get_key_chars(line: &Vec<char>) -> (r: Vec<char>)
    ensures
        r@ == trimmed(after_last_colon(line@)),
{
    let tail = after_last_colon_chars(line);
    trim_chars(&tail)
}

spec fn ov(o: Option<Vec<char>>) -> Option<Seq<char>> {
    match o {
        Some(v) => Some(v@),
        None => None,
    }
}

/// Replaces every null byte of the trimmed `raw` with a space.
fn normalize_cmdline(raw: &str) -> (r: String)
    ensures
        r@ == normalize_cmd(raw@),
{
    let cs = chars_of(raw);
    let t = trim_chars(&cs);
    let mut out: Vec<char> = Vec::new();
    let n = t.len();
    let mut i: usize = 0;
    while i < n
        invariant
            0 <= i <= n == t@.len(),
            out@ =~= t@.subrange(0, i as int).map_values(
                |c: char|
                    if c == '\0' {
                        ' '
                    } else {
                        c
                    },
            ),
        decreases n - i,
    {
        let c = t[i];
        if c == '\0' {
            out.push(' ');
        } else {
            out.push(c);
        }
        i = i + 1;
        proof {
            assert(t@.subrange(0, i as int).drop_last() =~= t@.subrange(0, i - 1));
            assert(out@ =~= t@.subrange(0, i as int).map_values(
                |c: char|
                    if c == '\0' {
                        ' '
                    } else {
                        c
                    },
            ));
        }
    }
    proof {
        assert(t@.subrange(0, n as int) =~= t@);
    }
    string_from_chars(&out)
}

impl ProcInfo {
    /// Parses one status block, a list of `Label: value` lines, together
    /// with the raw command line read beside it. The `Name`, `Pid`, `PPid`
    /// and `Threads` labels are recognized; the last matching line wins;
    /// anything else is ignored. A missing or malformed `Pid` or `PPid`,
    /// or a malformed `Threads`, fails the record.
    #[verifier::loop_isolation(false)]
    pub fn parse_status(status: &str, cmdline: Option<String>) -> (r: Option<ProcInfo>)
        ensures
            r is Some <==> status_record(status@, opt_str_view(cmdline)) is Some,
            r is Some ==> r->0.tree() == status_record(status@, opt_str_view(cmdline))->0,
    {
        let cs = chars_of(status);
        let t = trim_chars(&cs);
        let lines = split_lines_chars(&t);
        let ghost ls = split_lines(trimmed(status@));
        proof {
            assert(lines.deep_view() == ls);
        }
        let name_lab = vec!['N', 'a', 'm', 'e'];
        let pid_lab = vec!['P', 'i', 'd'];
        let ppid_lab = vec!['P', 'P', 'i', 'd'];
        let threads_lab = vec!['T', 'h', 'r', 'e', 'a', 'd', 's'];
        proof {
            assert(name_lab@ =~= name_label());
            assert(pid_lab@ =~= pid_label());
            assert(ppid_lab@ =~= ppid_label());
            assert(threads_lab@ =~= threads_label());
        }
        let mut name_v: Option<Vec<char>> = None;
        let mut pid_v: Option<Vec<char>> = None;
        let mut ppid_v: Option<Vec<char>> = None;
        let mut thr_v: Option<Vec<char>> = None;
        let n = lines.len();
        let mut i: usize = 0;
        proof {
            assert(ls.subrange(0, 0) =~= Seq::<Seq<char>>::empty());
        }
        while i < n
            invariant
                0 <= i <= n == lines@.len(),
                lines.deep_view() == ls,
                ov(name_v) == label_value(ls.subrange(0, i as int), name_label()),
                ov(pid_v) == label_value(ls.subrange(0, i as int), pid_label()),
                ov(ppid_v) == label_value(ls.subrange(0, i as int), ppid_label()),
                ov(thr_v) == label_value(ls.subrange(0, i as int), threads_label()),
            decreases n - i,
        {
            proof {
                assert(ls.subrange(0, i + 1).drop_last() =~= ls.subrange(0, i as int));
                assert(ls.subrange(0, i + 1).last() == lines@[i as int]@);
            }
            let line = &lines[i];
            if starts_with_chars(line, &name_lab) {
                name_v = Some(get_key_chars(line));
            }
            if starts_with_chars(line, &pid_lab) {
                pid_v = Some(get_key_chars(line));
            }
            if starts_with_chars(line, &ppid_lab) {
                ppid_v = Some(get_key_chars(line));
            }
            if starts_with_chars(line, &threads_lab) {
                thr_v = Some(get_key_chars(line));
            }
            i = i + 1;
        }
        proof {
            assert(ls.subrange(0, n as int) =~= ls);
        }
        let pid = match &pid_v {
            Some(v) => match parse_usize(v) {
                Some(x) => x,
                None => {
                    return None;
                },
            },
            None => {
                return None;
            },
        };
        let ppid = match &ppid_v {
            Some(v) => match parse_usize(v) {
                Some(x) => x,
                None => {
                    return None;
                },
            },
            None => {
                return None;
            },
        };
        let threads = match &thr_v {
            Some(v) => match parse_usize(v) {
                Some(x) => x,
                None => {
                    return None;
                },
            },
            None => 1,
        };
        let name = match &name_v {
            Some(v) => string_from_chars(v),
            None => String::new(),
        };
        let cmd = match &cmdline {
            Some(raw) => Some(normalize_cmdline(raw.as_str())),
            None => None,
        };
        let r = ProcInfo { name, pid, ppid, threads, cmdline: cmd, children: Vec::new() };
        proof {
            assert(r.tree().children =~= Seq::<PNode>::empty());
        }
        Some(r)
    }
}

/// The search pattern cannot be compiled as a regular expression.
#[derive(Debug, Clone, Copy, PartialEq, Eq, Structural)]
pub struct PatternError;

/// The plain values of a `ProcInfoVec`: the authoritative flat list, the
/// three derived views, and the current sort key and search pattern.
pub ghost struct ProcVecView {
    pub infoshowkind: InfoShowKind,
    pub sort_method: SortMethod,
    pub inner: Seq<PNode>,
    pub inner_search: Seq<PNode>,
    pub inner_tree: Seq<PNode>,
    pub inner_tree_search: Seq<PNode>,
    pub searchpattern: Seq<char>,
    pub showsearchbar: bool,
}

/// The process inventory: the flat snapshot and its three derived views,
/// kept consistent by every mutating call.
pub struct ProcInfoVec {
    pub infoshowkind: InfoShowKind,
    sort_method: SortMethod,
    inner: Vec<ProcInfo>,
    inner_search: Vec<ProcInfo>,
    inner_tree: Vec<ProcInfo>,
    inner_tree_search: Vec<ProcInfo>,
    searchpattern: String,
    pub showsearchbar: bool,
}

impl View for ProcInfoVec {
    type V = ProcVecView;

    closed spec fn view(&self) -> ProcVecView {
        ProcVecView {
            infoshowkind: self.infoshowkind,
            sort_method: self.sort_method,
            inner: self.inner.deep_view(),
            inner_search: self.inner_search.deep_view(),
            inner_tree: self.inner_tree.deep_view(),
            inner_tree_search: self.inner_tree_search.deep_view(),
            searchpattern: self.searchpattern@,
            showsearchbar: self.showsearchbar,
        }
    }
}

impl ProcInfoVec {
    pub fn new() -> (r: Self)
        ensures
            r@.sort_method == SortMethod::Name,
            r@.infoshowkind == InfoShowKind::Normal,
            r@.inner.len() == 0,
            r@.inner_search.len() == 0,
            r@.inner_tree.len() == 0,
            r@.inner_tree_search.len() == 0,
            r@.searchpattern.len() == 0,
            !r@.showsearchbar,
    {
        let r = ProcInfoVec {
            sort_method: SortMethod::default(),
            infoshowkind: InfoShowKind::Normal,
            inner: Vec::new(),
            inner_search: Vec::new(),
            inner_tree: Vec::new(),
            inner_tree_search: Vec::new(),
            searchpattern: String::new(),
            showsearchbar: false,
        };
        proof {
            assert(r.inner.deep_view() =~= Seq::<PNode>::empty());
            assert(r.inner_search.deep_view() =~= Seq::<PNode>::empty());
            assert(r.inner_tree.deep_view() =~= Seq::<PNode>::empty());
            assert(r.inner_tree_search.deep_view() =~= Seq::<PNode>::empty());
        }
        r
    }

    pub fn is_empty(&self) -> (r: bool)
        ensures
            r == (self@.inner.len() == 0),
    {
        self.inner.is_empty()
    }

    /// The flat list, sorted by the current key.
    pub fn iter(&self) -> (r: &Vec<ProcInfo>)
        ensures
            r.deep_view() == self@.inner,
    {
        &self.inner
    }

    /// The filtered flat list.
    pub fn iter_search(&self) -> (r: &Vec<ProcInfo>)
        ensures
            r.deep_view() == self@.inner_search,
    {
        &self.inner_search
    }

    /// The process forest.
    pub fn iter_tree(&self) -> (r: &Vec<ProcInfo>)
        ensures
            r.deep_view() == self@.inner_tree,
    {
        &self.inner_tree
    }

    /// The filtered process forest.
    pub fn iter_tree_search(&self) -> (r: &Vec<ProcInfo>)
        ensures
            r.deep_view() == self@.inner_tree_search,
    {
        &self.inner_tree_search
    }

    /// The flat list, as `iter` hands it out.
    pub fn to_vec(&self) -> (r: &Vec<ProcInfo>)
        ensures
            r.deep_view() == self@.inner,
    {
        &self.inner
    }

    /// Rebuilds the forest view from the current flat list.
    pub fn set_treedata(&mut self)
        ensures
            forest_built_from(final(self)@.inner_tree, old(self)@.inner),
            final(self)@ == (ProcVecView { inner_tree: final(self)@.inner_tree, ..old(self)@ }),
    {
        let dup = duplicate_forest(&self.inner);
        self.inner_tree = crate::forest::build_forest(dup);
    }

    /// Recomputes the two filtered views from the flat list and the
    /// forest under the current pattern, lowered. A pattern that is not a
    /// well-formed regular expression fails the call and leaves every
    /// view unchanged.
    pub fn set_filiter(&mut self) -> (r: Result<(), PatternError>)
        ensures
            r is Ok <==> regex_accepts(lower_of(old(self)@.searchpattern)),
            r is Ok ==> final(self)@ == (ProcVecView {
                inner_search: filter_forest(lower_of(old(self)@.searchpattern), old(self)@.inner),
                inner_tree_search: filter_forest(
                    lower_of(old(self)@.searchpattern),
                    old(self)@.inner_tree,
                ),
                ..old(self)@
            }),
            r is Err ==> final(self)@ == old(self)@,
    {
        let lowered = crate::filter::lowercase(self.searchpattern.as_str());
        if !crate::filter::regex_pattern_ok(lowered.as_str()) {
            return Err(PatternError);
        }
        self.inner_search = crate::filter::filter_forest_exec(lowered.as_str(), &self.inner);
        self.inner_tree_search = crate::filter::filter_forest_exec(
            lowered.as_str(),
            &self.inner_tree,
        );
        Ok(())
    }

    /// Stores a new search pattern, recomputes the two filtered views
    /// from the flat list and the forest, and re-sorts them under the
    /// current key. A pattern that is not a well-formed regular
    /// expression is stored, fails the call, and leaves every view
    /// unchanged.
    pub fn set_searchpattern(&mut self, pattern: String) -> (r: Result<(), PatternError>)
        ensures
            final(self)@.searchpattern == pattern@,
            r is Ok <==> regex_accepts(lower_of(pattern@)),
            r is Ok ==> final(self)@ == (ProcVecView {
                searchpattern: pattern@,
                inner_search: sort_forest_nodes(
                    old(self)@.sort_method,
                    filter_forest(lower_of(pattern@), old(self)@.inner),
                ),
                inner_tree_search: sort_forest_nodes(
                    old(self)@.sort_method,
                    filter_forest(lower_of(pattern@), old(self)@.inner_tree),
                ),
                ..old(self)@
            }),
            r is Err ==> final(self)@ == (ProcVecView { searchpattern: pattern@, ..old(self)@ }),
    {
        self.searchpattern = pattern;
        let lowered = crate::filter::lowercase(self.searchpattern.as_str());
        if !crate::filter::regex_pattern_ok(lowered.as_str()) {
            return Err(PatternError);
        }
        let fs = crate::filter::filter_forest_exec(lowered.as_str(), &self.inner);
        self.inner_search = crate::sorting::sort_forest(self.sort_method, &fs);
        let fts = crate::filter::filter_forest_exec(lowered.as_str(), &self.inner_tree);
        self.inner_tree_search = crate::sorting::sort_forest(self.sort_method, &fts);
        Ok(())
    }

    /// Re-sorts all four views under the current key.
    fn sort_infos(&mut self)
        ensures
            final(self)@ == (ProcVecView {
                inner: sort_forest_nodes(old(self)@.sort_method, old(self)@.inner),
                inner_search: sort_forest_nodes(old(self)@.sort_method, old(self)@.inner_search),
                inner_tree: sort_forest_nodes(old(self)@.sort_method, old(self)@.inner_tree),
                inner_tree_search: sort_forest_nodes(
                    old(self)@.sort_method,
                    old(self)@.inner_tree_search,
                ),
                ..old(self)@
            }),
    {
        self.inner = crate::sorting::sort_forest(self.sort_method, &self.inner);
        self.inner_search = crate::sorting::sort_forest(self.sort_method, &self.inner_search);
        self.inner_tree = crate::sorting::sort_forest(self.sort_method, &self.inner_tree);
        self.inner_tree_search = crate::sorting::sort_forest(
            self.sort_method,
            &self.inner_tree_search,
        );
    }

    /// Changes the sort key and re-sorts all four views under it.
    pub fn set_sort_method(&mut self, method: SortMethod)
        ensures
            final(self)@ == (ProcVecView {
                sort_method: method,
                inner: sort_forest_nodes(method, old(self)@.inner),
                inner_search: sort_forest_nodes(method, old(self)@.inner_search),
                inner_tree: sort_forest_nodes(method, old(self)@.inner_tree),
                inner_tree_search: sort_forest_nodes(method, old(self)@.inner_tree_search),
                ..old(self)@
            }),
    {
        self.sort_method = method;
        self.sort_infos();
    }

    /// Replaces the flat list with a fresh snapshot, rebuilds the forest,
    /// re-applies the current filter to both, and re-sorts all four views
    /// under the current key. A search pattern that is not a well-formed
    /// regular expression fails the call and leaves everything unchanged.
    pub fn refresh(&mut self, procs: Vec<ProcInfo>) -> (r: Result<(), PatternError>)
        ensures
            r is Ok <==> regex_accepts(lower_of(old(self)@.searchpattern)),
            r is Err ==> final(self)@ == old(self)@,
            r is Ok ==> {
                let m = old(self)@.sort_method;
                let p = lower_of(old(self)@.searchpattern);
                exists|t: Seq<PNode>|
                    forest_built_from(t, procs.deep_view()) && final(self)@ == (ProcVecView {
                        inner: sort_forest_nodes(m, procs.deep_view()),
                        inner_search: sort_forest_nodes(m, filter_forest(p, procs.deep_view())),
                        inner_tree: sort_forest_nodes(m, t),
                        inner_tree_search: sort_forest_nodes(m, filter_forest(p, t)),
                        ..old(self)@
                    })
            },
    {
        let lowered = crate::filter::lowercase(self.searchpattern.as_str());
        if !crate::filter::regex_pattern_ok(lowered.as_str()) {
            return Err(PatternError);
        }
        self.inner = procs;
        self.set_treedata();
        let ghost t = self@.inner_tree;
        self.inner_search = crate::filter::filter_forest_exec(lowered.as_str(), &self.inner);
        self.inner_tree_search = crate::filter::filter_forest_exec(
            lowered.as_str(),
            &self.inner_tree,
        );
        self.sort_infos();
        proof {
            assert(forest_built_from(t, procs.deep_view()));
        }
        Ok(())
    }
}

} // verus!
