//! The filter engine: reduces a flat list or a forest to the records that
//! match a search pattern, keeping every ancestor of a match so that the
//! tree shape survives. Matching is case-insensitive: the pattern and the
//! texts are lowered before the regular-expression test.

use vstd::prelude::*;

use crate::forest::{forest_fields, tree_fields};
use crate::procinfos::{fields_of, PNode, ProcFields, ProcInfo};

verus! {

use vstd::multiset::Multiset;

broadcast use vstd::multiset::group_multiset_axioms;

/// What `str::to_lowercase` returns for the given characters; a function
/// of the characters alone.
pub uninterp spec fn lower_of(s: Seq<char>) -> Seq<char>;

/// Whether `regex::Regex::new` accepts the given pattern (it parses and
/// stays within the default size limit); a function of the pattern alone.
pub uninterp spec fn regex_accepts(pattern: Seq<char>) -> bool;

/// Whether the regular expression written by `pattern` matches somewhere
/// in `text`, as `regex::Regex::is_match` decides it; a function of the
/// pattern and the text alone.
pub uninterp spec fn regex_match(pattern: Seq<char>, text: Seq<char>) -> bool;

/// Relies on `str::to_lowercase`: the result depends on the characters
/// alone, and lowering an empty string gives an empty string.
#[verifier::external_body]
pub fn lowercase(s: &str) -> (r: String)
    ensures
        r@ == lower_of(s@),
        s@.len() == 0 ==> r@.len() == 0,
{
    s.to_lowercase()
}

/// Relies on `regex::Regex::new`: it returns `Ok` exactly when the
/// pattern is a well-formed regular expression within the default size
/// limit, a deterministic function of the pattern.
#[verifier::external_body]
pub fn regex_pattern_ok(pattern: &str) -> (r: bool)
    ensures
        r == regex_accepts(pattern@),
{
    regex::Regex::new(pattern).is_ok()
}

/// Relies on `regex::Regex::new` and `regex::Regex::is_match`: whether the
/// expression matches somewhere in `text`, a deterministic function of the
/// pattern and the text.
#[verifier::external_body]
fn regex_is_match(pattern: &str, text: &str) -> (r: bool)
    requires
        regex_accepts(pattern@),
    ensures
        r == regex_match(pattern@, text@),
{
    regex::Regex::new(pattern).unwrap().is_match(text)
}

/// The command line a record is matched by: its own, or empty when absent.
pub open spec fn cmd_or_empty(n: PNode) -> Seq<char> {
    match n.cmdline {
        Some(c) => c,
        None => Seq::empty(),
    }
}

/// Whether `n` or some descendant of `n` matches the (already lowered)
/// pattern: the lowered name or lowered command line has a match.
pub open spec fn node_matches(pattern: Seq<char>, n: PNode) -> bool
    decreases n,
{
    ||| regex_match(pattern, lower_of(n.name))
    ||| regex_match(pattern, lower_of(cmd_or_empty(n)))
    ||| exists|i: int| 0 <= i < n.children.len() && node_matches(pattern, #[trigger] n.children[i])
}

/// `n` with every subtree reduced to the children that match or have a
/// matching descendant, recursively.
pub open spec fn filter_node(pattern: Seq<char>, n: PNode) -> PNode
    decreases n, 0int,
{
    PNode { children: filter_forest(pattern, n.children), ..n }
}

/// The trees of `f` whose root matches or has a matching descendant, each
/// reduced recursively, in the original order.
pub open spec fn filter_forest(pattern: Seq<char>, f: Seq<PNode>) -> Seq<PNode>
    decreases f, 1int,
{
    if f.len() == 0 {
        Seq::empty()
    } else {
        let rest = filter_forest(pattern, f.subrange(1, f.len() as int));
        if node_matches(pattern, f[0]) {
            seq![filter_node(pattern, f[0])] + rest
        } else {
            rest
        }
    }
}

impl ProcInfo {
    /// Whether this record or any of its descendants matches the lowered
    /// pattern.
    pub(crate) fn is_match_pattern(&self, pattern: &str) -> (r: bool)
        requires
            regex_accepts(pattern@),
        ensures
            r == node_matches(pattern@, self.tree()),
        decreases *self,
    {
        let lname = lowercase(self.name.as_str());
        if regex_is_match(pattern, lname.as_str()) {
            return true;
        }
        let lcmd = match &self.cmdline {
            Some(c) => lowercase(c.as_str()),
            None => lowercase(""),
        };
        proof {
            reveal_strlit("");
            assert(""@ =~= Seq::<char>::empty());
        }
        if regex_is_match(pattern, lcmd.as_str()) {
            return true;
        }
        let n = self.children.len();
        let mut i: usize = 0;
        while i < n
            invariant
                0 <= i <= n == self.children@.len(),
                regex_accepts(pattern@),
                !regex_match(pattern@, lower_of(self.tree().name)),
                !regex_match(pattern@, lower_of(cmd_or_empty(self.tree()))),
                forall|k: int|
                    0 <= k < i ==> !node_matches(pattern@, #[trigger] self.tree().children[k]),
            decreases n - i,
        {
            proof {
                assert(decreases_to!(self => self.children));
                assert(decreases_to!(self.children => self.children[i as int]));
            }
            if self.children[i].is_match_pattern(pattern) {
                proof {
                    assert(self.tree().children[i as int] == self.children@[i as int].tree());
                }
                return true;
            }
            proof {
                assert(self.tree().children[i as int] == self.children@[i as int].tree());
            }
            i = i + 1;
        }
        false
    }

    /// This record with only the matching branches of its subtree kept.
    pub(crate) fn filter_children_with_pattern(&self, pattern: &str) -> (r: ProcInfo)
        requires
            regex_accepts(pattern@),
        ensures
            r.tree() == filter_node(pattern@, self.tree()),
        decreases *self,
    {
        let mut kids: Vec<ProcInfo> = Vec::new();
        let n = self.children.len();
        let mut i: usize = 0;
        while i < n
            invariant
                0 <= i <= n == self.children@.len(),
                regex_accepts(pattern@),
                kids.deep_view() == filter_forest(
                    pattern@,
                    self.tree().children.subrange(0, i as int),
                ),
            decreases n - i,
        {
            proof {
                assert(decreases_to!(self => self.children));
                assert(decreases_to!(self.children => self.children[i as int]));
            }
            let c = &self.children[i];
            proof {
                assert(self.tree().children[i as int] == self.children@[i as int].tree());
            }
            if c.is_match_pattern(pattern) {
                let fc = c.filter_children_with_pattern(pattern);
                let ghost kv = kids.deep_view();
                kids.push(fc);
                proof {
                    assert(kids.deep_view() =~= kv.push(fc.tree()));
                }
            }
            proof {
                lemma_filter_forest_snoc(pattern@, self.tree().children, i as int);
            }
            i = i + 1;
        }
        let r = ProcInfo {
            name: self.name.clone(),
            pid: self.pid,
            ppid: self.ppid,
            threads: self.threads,
            cmdline: match &self.cmdline {
                Some(s) => Some(s.clone()),
                None => None,
            },
            children: kids,
        };
        proof {
            assert(self.tree().children.subrange(0, n as int) =~= self.tree().children);
            assert(r.tree().children =~= kids.deep_view());
            assert(r.tree() == filter_node(pattern@, self.tree()));
        }
        r
    }
}

/// Extending the input by one tree extends the filtered result by that
/// tree's reduction exactly when the tree matches.
proof fn lemma_filter_forest_snoc(pattern: Seq<char>, f: Seq<PNode>, i: int)
    requires
        0 <= i < f.len(),
    ensures
        filter_forest(pattern, f.subrange(0, i + 1)) == if node_matches(pattern, f[i]) {
            filter_forest(pattern, f.subrange(0, i)).push(filter_node(pattern, f[i]))
        } else {
            filter_forest(pattern, f.subrange(0, i))
        },
    decreases i,
{
    let a = f.subrange(0, i + 1);
    let b = f.subrange(0, i);
    if i == 0 {
        assert(a.subrange(1, a.len() as int) =~= Seq::<PNode>::empty());
        assert(a[0] == f[0]);
        assert(b =~= Seq::<PNode>::empty());
        assert(filter_forest(pattern, b) =~= Seq::<PNode>::empty());
        if node_matches(pattern, f[0]) {
            assert(filter_forest(pattern, a) =~= filter_forest(pattern, b).push(
                filter_node(pattern, f[0]),
            ));
        } else {
            assert(filter_forest(pattern, a) =~= filter_forest(pattern, b));
        }
    } else {
        let fsub = f.subrange(1, f.len() as int);
        lemma_filter_forest_snoc(pattern, fsub, i - 1);
        assert(a[0] == f[0]);
        assert(b[0] == f[0]);
        assert(a.subrange(1, a.len() as int) =~= fsub.subrange(0, i));
        assert(b.subrange(1, b.len() as int) =~= fsub.subrange(0, i - 1));
        assert(fsub[i - 1] == f[i]);
        if node_matches(pattern, f[i]) {
            if node_matches(pattern, f[0]) {
                assert(filter_forest(pattern, a) =~= filter_forest(pattern, b).push(
                    filter_node(pattern, f[i]),
                ));
            } else {
                assert(filter_forest(pattern, a) =~= filter_forest(pattern, b).push(
                    filter_node(pattern, f[i]),
                ));
            }
        } else {
            assert(filter_forest(pattern, a) =~= filter_forest(pattern, b));
        }
    }
}

/// Every node of the filtered output still appears in the unfiltered
/// input: filtering only ever removes records.
pub proof fn lemma_filter_containment(pattern: Seq<char>, f: Seq<PNode>)
    ensures
        forest_fields(filter_forest(pattern, f)).subset_of(forest_fields(f)),
{
    assert forall|v: ProcFields|
        forest_fields(filter_forest(pattern, f)).count(v) <= forest_fields(f).count(v) by {
        lemma_forest_filter_sub(pattern, f, v);
    }
}

proof fn lemma_tree_filter_sub(pattern: Seq<char>, n: PNode, v: ProcFields)
    ensures
        tree_fields(filter_node(pattern, n)).count(v) <= tree_fields(n).count(v),
    decreases n, 0int,
{
    lemma_forest_filter_sub(pattern, n.children, v);
    assert(tree_fields(filter_node(pattern, n)).count(v) == Multiset::empty().insert(
        fields_of(filter_node(pattern, n)),
    ).count(v) + forest_fields(filter_forest(pattern, n.children)).count(v));
    assert(tree_fields(n).count(v) == Multiset::empty().insert(fields_of(n)).count(v)
        + forest_fields(n.children).count(v));
    assert(fields_of(filter_node(pattern, n)) == fields_of(n));
}

proof fn lemma_forest_filter_sub(pattern: Seq<char>, f: Seq<PNode>, v: ProcFields)
    ensures
        forest_fields(filter_forest(pattern, f)).count(v) <= forest_fields(f).count(v),
    decreases f, 1int,
{
    if f.len() > 0 {
        let fsub = f.subrange(1, f.len() as int);
        lemma_forest_filter_sub(pattern, fsub, v);
        assert(forest_fields(f).count(v) == tree_fields(f[0]).count(v) + forest_fields(
            fsub,
        ).count(v));
        if node_matches(pattern, f[0]) {
            lemma_tree_filter_sub(pattern, f[0], v);
            let out = filter_forest(pattern, f);
            let rest = filter_forest(pattern, fsub);
            assert(out =~= seq![filter_node(pattern, f[0])] + rest);
            lemma_forest_fields_cons(filter_node(pattern, f[0]), rest, v);
        }
    }
}

proof fn lemma_forest_fields_cons(x: PNode, f: Seq<PNode>, v: ProcFields)
    ensures
        forest_fields(seq![x] + f).count(v) == tree_fields(x).count(v) + forest_fields(f).count(
            v,
        ),
{
    let g = seq![x] + f;
    assert(g[0] == x);
    assert(g.subrange(1, g.len() as int) =~= f);
    assert(forest_fields(g).count(v) == tree_fields(g[0]).count(v) + forest_fields(
        g.subrange(1, g.len() as int),
    ).count(v));
}

/// Below `n`, every node matches the pattern or has a matching descendant.
pub open spec fn retained_below(pattern: Seq<char>, n: PNode) -> bool
    decreases n,
{
    forall|i: int|
        0 <= i < n.children.len() ==> node_matches(pattern, #[trigger] n.children[i])
            && retained_below(pattern, n.children[i])
}

proof fn lemma_filter_forest_elem(pattern: Seq<char>, f: Seq<PNode>, j: int)
    requires
        0 <= j < filter_forest(pattern, f).len(),
    ensures
        exists|i: int|
            0 <= i < f.len() && node_matches(pattern, #[trigger] f[i]) && filter_forest(
                pattern,
                f,
            )[j] == filter_node(pattern, f[i]),
    decreases f,
{
    let fsub = f.subrange(1, f.len() as int);
    if node_matches(pattern, f[0]) {
        if j == 0 {
            assert(filter_forest(pattern, f)[0] == filter_node(pattern, f[0]));
        } else {
            lemma_filter_forest_elem(pattern, fsub, j - 1);
            let i0 = choose|i: int|
                0 <= i < fsub.len() && node_matches(pattern, #[trigger] fsub[i]) && filter_forest(
                    pattern,
                    fsub,
                )[j - 1] == filter_node(pattern, fsub[i]);
            assert(fsub[i0] == f[i0 + 1]);
            assert(filter_forest(pattern, f)[j] == filter_forest(pattern, fsub)[j - 1]);
        }
    } else {
        lemma_filter_forest_elem(pattern, fsub, j);
        let i0 = choose|i: int|
            0 <= i < fsub.len() && node_matches(pattern, #[trigger] fsub[i]) && filter_forest(
                pattern,
                fsub,
            )[j] == filter_node(pattern, fsub[i]);
        assert(fsub[i0] == f[i0 + 1]);
    }
}

proof fn lemma_filter_node_retained(pattern: Seq<char>, n: PNode)
    requires
        node_matches(pattern, n),
    ensures
        node_matches(pattern, filter_node(pattern, n)),
        retained_below(pattern, filter_node(pattern, n)),
    decreases n,
{
    let fn0 = filter_node(pattern, n);
    assert forall|j: int|
        0 <= j < fn0.children.len() implies node_matches(pattern, #[trigger] fn0.children[j])
        && retained_below(pattern, fn0.children[j]) by {
        lemma_filter_forest_elem(pattern, n.children, j);
        let i0 = choose|i: int|
            0 <= i < n.children.len() && node_matches(pattern, #[trigger] n.children[i])
                && filter_forest(pattern, n.children)[j] == filter_node(pattern, n.children[i]);
        lemma_filter_node_retained(pattern, n.children[i0]);
    }
    if regex_match(pattern, lower_of(n.name)) || regex_match(pattern, lower_of(cmd_or_empty(n))) {
        assert(fn0.name == n.name && fn0.cmdline == n.cmdline);
        assert(node_matches(pattern, fn0));
    } else {
        let ci = choose|i: int|
            0 <= i < n.children.len() && node_matches(pattern, #[trigger] n.children[i]);
        lemma_filter_forest_contains(pattern, n.children, ci);
        let j0 = choose|j: int|
            0 <= j < filter_forest(pattern, n.children).len() && filter_forest(
                pattern,
                n.children,
            )[j] == filter_node(pattern, n.children[ci]);
        lemma_filter_node_retained(pattern, n.children[ci]);
        assert(node_matches(pattern, fn0.children[j0]));
        assert(node_matches(pattern, fn0));
    }
}

proof fn lemma_filter_forest_contains(pattern: Seq<char>, f: Seq<PNode>, i: int)
    requires
        0 <= i < f.len(),
        node_matches(pattern, f[i]),
    ensures
        exists|j: int|
            0 <= j < filter_forest(pattern, f).len() && filter_forest(pattern, f)[j]
                == filter_node(pattern, f[i]),
    decreases f,
{
    let fsub = f.subrange(1, f.len() as int);
    if i == 0 {
        assert(filter_forest(pattern, f)[0] == filter_node(pattern, f[0]));
    } else {
        assert(fsub[i - 1] == f[i]);
        lemma_filter_forest_contains(pattern, fsub, i - 1);
        let j0 = choose|j: int|
            0 <= j < filter_forest(pattern, fsub).len() && filter_forest(pattern, fsub)[j]
                == filter_node(pattern, fsub[i - 1]);
        if node_matches(pattern, f[0]) {
            assert(filter_forest(pattern, f)[j0 + 1] == filter_forest(pattern, fsub)[j0]);
        } else {
            assert(filter_forest(pattern, f)[j0] == filter_forest(pattern, fsub)[j0]);
        }
    }
}

/// Every tree the filter keeps matches the pattern or holds a matching
/// descendant, and so does every node below it.
pub proof fn lemma_filter_retained(pattern: Seq<char>, f: Seq<PNode>)
    ensures
        forall|j: int|
            0 <= j < filter_forest(pattern, f).len() ==> node_matches(
                pattern,
                #[trigger] filter_forest(pattern, f)[j],
            ) && retained_below(pattern, filter_forest(pattern, f)[j]),
{
    assert forall|j: int|
        0 <= j < filter_forest(pattern, f).len() implies node_matches(
        pattern,
        #[trigger] filter_forest(pattern, f)[j],
    ) && retained_below(pattern, filter_forest(pattern, f)[j]) by {
        lemma_filter_forest_elem(pattern, f, j);
        let i0 = choose|i: int|
            0 <= i < f.len() && node_matches(pattern, #[trigger] f[i]) && filter_forest(
                pattern,
                f,
            )[j] == filter_node(pattern, f[i]);
        lemma_filter_node_retained(pattern, f[i0]);
    }
}

/// The trees of `v` that match or have a matching descendant, each reduced
/// recursively to its matching branches.
pub(crate) fn filter_forest_exec(pattern: &str, v: &Vec<ProcInfo>) -> (out: Vec<ProcInfo>)
    requires
        regex_accepts(pattern@),
    ensures
        out.deep_view() == filter_forest(pattern@, v.deep_view()),
{
    let mut out: Vec<ProcInfo> = Vec::new();
    let n = v.len();
    let mut i: usize = 0;
    while i < n
        invariant
            0 <= i <= n == v@.len(),
            regex_accepts(pattern@),
            out.deep_view() == filter_forest(pattern@, v.deep_view().subrange(0, i as int)),
        decreases n - i,
    {
        let c = &v[i];
        proof {
            assert(v.deep_view()[i as int] == v@[i as int].tree());
        }
        if c.is_match_pattern(pattern) {
            let fc = c.filter_children_with_pattern(pattern);
            let ghost ov = out.deep_view();
            out.push(fc);
            proof {
                assert(out.deep_view() =~= ov.push(fc.tree()));
            }
        }
        proof {
            lemma_filter_forest_snoc(pattern@, v.deep_view(), i as int);
        }
        i = i + 1;
    }
    proof {
        assert(v.deep_view().subrange(0, n as int) =~= v.deep_view());
    }
    out
}

} // verus!
