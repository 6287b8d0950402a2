//! The sort engine: a stable insertion sort over process records, applied
//! to a flat view and recursively to every subtree of a forest view. The
//! order is ascending by the chosen key; an absent command line sorts
//! before any present one.

use vstd::prelude::*;

use crate::procinfos::{PNode, ProcInfo, SortMethod};
use crate::text::{chars_of, lemma_lex_le_total, lemma_lex_le_trans, lex_le, lex_le_chars};

verus! {

/// Whether `a` is at most `b` under the key `m`.
pub open spec fn key_le(m: SortMethod, a: PNode, b: PNode) -> bool {
    match m {
        SortMethod::Name => lex_le(a.name, b.name),
        SortMethod::Pid => a.pid <= b.pid,
        SortMethod::PPid => a.ppid <= b.ppid,
        SortMethod::Thread => a.threads <= b.threads,
        SortMethod::CmdLine => match (a.cmdline, b.cmdline) {
            (Option::None, _) => true,
            (Option::Some(_), Option::None) => false,
            (Option::Some(x), Option::Some(y)) => lex_le(x, y),
        },
    }
}

/// Any two records are ordered one way or the other under every key.
pub proof fn lemma_key_le_total(m: SortMethod, a: PNode, b: PNode)
    ensures
        key_le(m, a, b) || key_le(m, b, a),
{
    match m {
        SortMethod::Name => lemma_lex_le_total(a.name, b.name),
        SortMethod::CmdLine => {
            if a.cmdline is Some && b.cmdline is Some {
                lemma_lex_le_total(a.cmdline->0, b.cmdline->0);
            }
        },
        _ => {},
    }
}

/// The order under every key is transitive.
pub proof fn lemma_key_le_trans(m: SortMethod, a: PNode, b: PNode, c: PNode)
    requires
        key_le(m, a, b),
        key_le(m, b, c),
    ensures
        key_le(m, a, c),
{
    match m {
        SortMethod::Name => lemma_lex_le_trans(a.name, b.name, c.name),
        SortMethod::CmdLine => {
            if a.cmdline is Some && b.cmdline is Some && c.cmdline is Some {
                lemma_lex_le_trans(a.cmdline->0, b.cmdline->0, c.cmdline->0);
            }
        },
        _ => {},
    }
}

/// `x` inserted into `s` after every element that is at most `x`: the
/// placement an insertion sort gives a newly arrived element.
pub open spec fn spec_insert(m: SortMethod, s: Seq<PNode>, x: PNode) -> Seq<PNode>
    decreases s.len(),
{
    if s.len() == 0 {
        seq![x]
    } else if key_le(m, s[0], x) {
        seq![s[0]] + spec_insert(m, s.subrange(1, s.len() as int), x)
    } else {
        seq![x] + s
    }
}

/// The stable ascending insertion sort of `s` under the key `m`.
pub open spec fn spec_sort(m: SortMethod, s: Seq<PNode>) -> Seq<PNode>
    decreases s.len(),
{
    if s.len() == 0 {
        Seq::empty()
    } else {
        spec_insert(m, spec_sort(m, s.drop_last()), s.last())
    }
}

/// A node with every level of its subtree sorted under `m`.
pub open spec fn sort_node(m: SortMethod, n: PNode) -> PNode
    decreases n, 0int,
{
    PNode { children: sort_forest_nodes(m, n.children), ..n }
}

/// Each tree of `f` recursively sorted, in the original order of `f`.
pub open spec fn map_sort_nodes(m: SortMethod, f: Seq<PNode>) -> Seq<PNode>
    decreases f, 1int,
{
    if f.len() == 0 {
        Seq::empty()
    } else {
        seq![sort_node(m, f[0])] + map_sort_nodes(m, f.subrange(1, f.len() as int))
    }
}

/// A forest sorted under `m`: every subtree sorted, then the roots sorted.
pub open spec fn sort_forest_nodes(m: SortMethod, f: Seq<PNode>) -> Seq<PNode>
    decreases f, 2int,
{
    spec_sort(m, map_sort_nodes(m, f))
}

pub proof fn lemma_map_sort_len(m: SortMethod, f: Seq<PNode>)
    ensures
        map_sort_nodes(m, f).len() == f.len(),
        forall|i: int| 0 <= i < f.len() ==> map_sort_nodes(m, f)[i] == sort_node(m, #[trigger] f[i]),
    decreases f,
{
    if f.len() > 0 {
        lemma_map_sort_len(m, f.subrange(1, f.len() as int));
        assert forall|i: int|
            0 <= i < f.len() implies map_sort_nodes(m, f)[i] == sort_node(m, #[trigger] f[i]) by {
            if i > 0 {
                assert(f.subrange(1, f.len() as int)[i - 1] == f[i]);
                assert(map_sort_nodes(m, f)[i] == map_sort_nodes(m, f.subrange(1, f.len() as int))[
                    i - 1]);
            }
        }
    }
}

/// Whether `s` is ascending under the key `m`.
pub open spec fn sorted_by(m: SortMethod, s: Seq<PNode>) -> bool {
    forall|i: int, j: int| 0 <= i < j < s.len() ==> key_le(m, s[i], s[j])
}

proof fn lemma_insert_after_all(m: SortMethod, s: Seq<PNode>, x: PNode)
    requires
        forall|k: int| 0 <= k < s.len() ==> key_le(m, #[trigger] s[k], x),
    ensures
        spec_insert(m, s, x) == s.push(x),
    decreases s.len(),
{
    if s.len() == 0 {
        assert(spec_insert(m, s, x) =~= s.push(x));
    } else {
        let t = s.subrange(1, s.len() as int);
        assert forall|k: int| 0 <= k < t.len() implies key_le(m, #[trigger] t[k], x) by {
            assert(t[k] == s[k + 1]);
        }
        lemma_insert_after_all(m, t, x);
        assert(spec_insert(m, s, x) =~= s.push(x));
    }
}

/// Sorting an already-sorted sequence changes nothing.
pub proof fn lemma_sort_of_sorted(m: SortMethod, s: Seq<PNode>)
    requires
        sorted_by(m, s),
    ensures
        spec_sort(m, s) == s,
    decreases s.len(),
{
    if s.len() > 0 {
        let p = s.drop_last();
        assert forall|i: int, j: int| 0 <= i < j < p.len() implies key_le(
            m,
            #[trigger] p[i],
            #[trigger] p[j],
        ) by {
            assert(p[i] == s[i] && p[j] == s[j]);
        }
        lemma_sort_of_sorted(m, p);
        assert forall|k: int| 0 <= k < p.len() implies key_le(m, #[trigger] p[k], s.last()) by {
            assert(p[k] == s[k]);
            assert(key_le(m, s[k], s[s.len() - 1]));
        }
        lemma_insert_after_all(m, p, s.last());
        assert(p.push(s.last()) =~= s);
    }
}

proof fn lemma_insert_preserves_sorted(m: SortMethod, s: Seq<PNode>, x: PNode)
    requires
        sorted_by(m, s),
    ensures
        sorted_by(m, spec_insert(m, s, x)),
        spec_insert(m, s, x).len() == s.len() + 1,
        spec_insert(m, s, x).to_multiset() == s.push(x).to_multiset(),
    decreases s.len(),
{
    broadcast use vstd::seq_lib::group_to_multiset_ensures;

    if s.len() == 0 {
        assert(spec_insert(m, s, x) =~= s.push(x));
    } else if key_le(m, s[0], x) {
        let t = s.subrange(1, s.len() as int);
        assert forall|i: int, j: int| 0 <= i < j < t.len() implies key_le(
            m,
            #[trigger] t[i],
            #[trigger] t[j],
        ) by {
            assert(t[i] == s[i + 1] && t[j] == s[j + 1]);
        }
        lemma_insert_preserves_sorted(m, t, x);
        let r = spec_insert(m, s, x);
        let rt = spec_insert(m, t, x);
        assert(r =~= seq![s[0]] + rt);
        assert forall|i: int, j: int| 0 <= i < j < r.len() implies key_le(
            m,
            #[trigger] r[i],
            #[trigger] r[j],
        ) by {
            if i == 0 && j > 0 {
                // every element of rt is either x (above s[0]) or an element of t
                assert(rt.to_multiset() == t.push(x).to_multiset());
                assert(rt.to_multiset().contains(rt[j - 1]));
                assert(t.push(x).to_multiset().contains(rt[j - 1]));
                assert(t.push(x).contains(rt[j - 1]));
                let w = choose|w: int| 0 <= w < t.push(x).len() && t.push(x)[w] == rt[j - 1];
                if w < t.len() {
                    assert(t[w] == s[w + 1]);
                    assert(key_le(m, s[0], s[w + 1]));
                } else {
                    assert(rt[j - 1] == x);
                }
            } else if i > 0 {
                assert(key_le(m, rt[i - 1], rt[j - 1]));
            }
        }
        assert(r.to_multiset() =~= s.push(x).to_multiset()) by {
            assert(r == seq![s[0]] + rt);
            vstd::seq_lib::lemma_multiset_commutative(seq![s[0]], rt);
            assert(r.to_multiset() == seq![s[0]].to_multiset().add(rt.to_multiset()));
            assert(rt.to_multiset() == t.push(x).to_multiset());
            assert(t.push(x).to_multiset() == t.to_multiset().insert(x));
            assert(s =~= seq![s[0]] + t);
            vstd::seq_lib::lemma_multiset_commutative(seq![s[0]], t);
            assert(s.to_multiset() == seq![s[0]].to_multiset().add(t.to_multiset()));
            assert(s.push(x).to_multiset() == s.to_multiset().insert(x));
        }
    } else {
        let r = spec_insert(m, s, x);
        assert(r == seq![x] + s);
        lemma_key_le_total(m, s[0], x);
        assert forall|i: int, j: int| 0 <= i < j < r.len() implies key_le(
            m,
            #[trigger] r[i],
            #[trigger] r[j],
        ) by {
            if i == 0 && j > 0 {
                assert(r[j] == s[j - 1]);
                assert(key_le(m, x, s[0]));
                if j >= 2 {
                    assert(key_le(m, s[0], s[j - 1]));
                    lemma_key_le_trans(m, x, s[0], s[j - 1]);
                }
            } else if i > 0 {
                assert(r[i] == s[i - 1] && r[j] == s[j - 1]);
            }
        }
        assert(r.to_multiset() =~= s.push(x).to_multiset()) by {
            vstd::seq_lib::lemma_multiset_commutative(seq![x], s);
            assert(r.to_multiset() == seq![x].to_multiset().add(s.to_multiset()));
            assert(s.push(x).to_multiset() == s.to_multiset().insert(x));
            assert(seq![x].to_multiset() =~= Multiset::empty().insert(x)) by {
                assert(seq![x] =~= Seq::empty().push(x));
                assert(Seq::<PNode>::empty().push(x).to_multiset() == Seq::<
                    PNode,
                >::empty().to_multiset().insert(x));
            }
        }
    }
}

/// The sort is ascending under its key.
pub proof fn lemma_sort_sorted(m: SortMethod, s: Seq<PNode>)
    ensures
        sorted_by(m, spec_sort(m, s)),
    decreases s.len(),
{
    if s.len() > 0 {
        lemma_sort_sorted(m, s.drop_last());
        lemma_insert_preserves_sorted(m, spec_sort(m, s.drop_last()), s.last());
    }
}

/// Sorting twice under one key gives the result of sorting once.
pub proof fn lemma_sort_idempotent(m: SortMethod, s: Seq<PNode>)
    ensures
        spec_sort(m, spec_sort(m, s)) == spec_sort(m, s),
{
    lemma_sort_sorted(m, s);
    lemma_sort_of_sorted(m, spec_sort(m, s));
}

/// Whether `a` and `b` carry the same key under `m`.
pub open spec fn key_eq(m: SortMethod, a: PNode, b: PNode) -> bool {
    key_le(m, a, b) && key_le(m, b, a)
}

/// The records that carry the key of `r` under `m`.
#[verifier::inline]
pub open spec fn key_class(m: SortMethod, r: PNode) -> spec_fn(PNode) -> bool {
    |e: PNode| key_eq(m, e, r)
}

proof fn lemma_filter_class_empty(m: SortMethod, t: Seq<PNode>, r: PNode)
    requires
        forall|k: int| 0 <= k < t.len() ==> !key_eq(m, #[trigger] t[k], r),
    ensures
        t.filter(key_class(m, r)).len() == 0,
    decreases t.len(),
{
    reveal(Seq::filter);
    if t.len() > 0 {
        assert(forall|k: int|
            0 <= k < t.drop_last().len() ==> !key_eq(m, #[trigger] t.drop_last()[k], r));
        lemma_filter_class_empty(m, t.drop_last(), r);
        assert(!key_class(m, r)(t.last()));
    }
}

proof fn lemma_insert_filter_class(m: SortMethod, t: Seq<PNode>, x: PNode, r: PNode)
    requires
        sorted_by(m, t),
    ensures
        spec_insert(m, t, x).filter(key_class(m, r)) == if key_eq(m, x, r) {
            t.filter(key_class(m, r)).push(x)
        } else {
            t.filter(key_class(m, r))
        },
    decreases t.len(),
{
    reveal(Seq::filter);
    let p = key_class(m, r);
    if t.len() == 0 {
        assert(spec_insert(m, t, x) =~= Seq::<PNode>::empty().push(x));
        assert(Seq::<PNode>::empty().push(x).drop_last() =~= Seq::<PNode>::empty());
        lemma_filter_class_empty(m, t, r);
        assert(spec_insert(m, t, x).drop_last() =~= t);
        assert(spec_insert(m, t, x).drop_last().filter(p).len() == 0);
        if key_eq(m, x, r) {
            assert(spec_insert(m, t, x).filter(p) =~= t.filter(p).push(x));
        } else {
            assert(spec_insert(m, t, x).filter(p) =~= t.filter(p));
        }
    } else if key_le(m, t[0], x) {
        let t2 = t.subrange(1, t.len() as int);
        assert forall|i: int, j: int| 0 <= i < j < t2.len() implies key_le(
            m,
            #[trigger] t2[i],
            #[trigger] t2[j],
        ) by {
            assert(t2[i] == t[i + 1] && t2[j] == t[j + 1]);
        }
        lemma_insert_filter_class(m, t2, x, r);
        let ins = spec_insert(m, t2, x);
        assert(spec_insert(m, t, x) == seq![t[0]] + ins);
        Seq::filter_distributes_over_add(seq![t[0]], ins, p);
        Seq::filter_distributes_over_add(seq![t[0]], t2, p);
        assert(t =~= seq![t[0]] + t2);
        assert(seq![t[0]].drop_last() =~= Seq::<PNode>::empty());
        if key_eq(m, x, r) {
            assert(spec_insert(m, t, x).filter(p) =~= t.filter(p).push(x));
        } else {
            assert(ins.filter(p) == t2.filter(p));
            assert(spec_insert(m, t, x).filter(p) == seq![t[0]].filter(p) + ins.filter(p));
            assert(t.filter(p) == seq![t[0]].filter(p) + t2.filter(p));
        }
    } else {
        lemma_key_le_total(m, t[0], x);
        assert(key_le(m, x, t[0]));
        assert(spec_insert(m, t, x) == seq![x] + t);
        Seq::filter_distributes_over_add(seq![x], t, p);
        assert(seq![x].drop_last() =~= Seq::<PNode>::empty());
        if key_eq(m, x, r) {
            // nothing in t shares the key: such a record would sit at or
            // above t[0], yet x sits strictly below t[0]
            assert forall|k: int| 0 <= k < t.len() implies !key_eq(m, #[trigger] t[k], r) by {
                if key_eq(m, t[k], r) {
                    lemma_key_le_trans(m, t[k], r, x);
                    if k == 0 {
                        assert(key_le(m, t[0], x));
                    } else {
                        assert(key_le(m, t[0], t[k]));
                        lemma_key_le_trans(m, t[0], t[k], x);
                    }
                }
            }
            lemma_filter_class_empty(m, t, r);
            assert(spec_insert(m, t, x).filter(p) =~= t.filter(p).push(x));
        } else {
            lemma_filter_class_empty(m, Seq::<PNode>::empty(), r);
            assert(seq![x].drop_last().filter(p).len() == 0);
            assert(seq![x].filter(p).len() == 0);
            assert(spec_insert(m, t, x).filter(p) == seq![x].filter(p) + t.filter(p));
            assert(seq![x].filter(p) + t.filter(p) =~= t.filter(p));
        }
    }
}

/// Stability of the sort: for every key, the records that carry it keep
/// their relative order — the subsequence sharing that key is the same
/// before and after sorting. The recursive sort applies `spec_sort` to
/// each children list, so the same holds at every level of a forest.
pub proof fn lemma_sort_stable(m: SortMethod, s: Seq<PNode>, r: PNode)
    ensures
        spec_sort(m, s).filter(key_class(m, r)) == s.filter(key_class(m, r)),
    decreases s.len(),
{
    reveal(Seq::filter);
    if s.len() > 0 {
        let p = s.drop_last();
        lemma_sort_stable(m, p, r);
        lemma_sort_sorted(m, p);
        lemma_insert_filter_class(m, spec_sort(m, p), s.last(), r);
    }
}

/// The sort rearranges its input and nothing more.
pub proof fn lemma_sort_multiset(m: SortMethod, s: Seq<PNode>)
    ensures
        spec_sort(m, s).to_multiset() == s.to_multiset(),
    decreases s.len(),
{
    broadcast use vstd::seq_lib::group_to_multiset_ensures;

    if s.len() > 0 {
        let p = s.drop_last();
        lemma_sort_multiset(m, p);
        lemma_sort_sorted(m, p);
        lemma_insert_preserves_sorted(m, spec_sort(m, p), s.last());
        assert(p.push(s.last()) =~= s);
        assert(spec_sort(m, p).push(s.last()).to_multiset() == spec_sort(
            m,
            p,
        ).to_multiset().insert(s.last()));
        assert(p.push(s.last()).to_multiset() == p.to_multiset().insert(s.last()));
    }
}

proof fn lemma_sorted_trees_map_fixed(m: SortMethod, f: Seq<PNode>, g: Seq<PNode>)
    requires
        g.to_multiset() == map_sort_nodes(m, f).to_multiset(),
    ensures
        map_sort_nodes(m, g) == g,
    decreases f, 3int,
{
    broadcast use vstd::seq_lib::group_to_multiset_ensures;

    lemma_map_sort_len(m, g);
    lemma_map_sort_len(m, f);
    assert forall|j: int| 0 <= j < g.len() implies map_sort_nodes(m, g)[j] == #[trigger] g[j] by {
        assert(g.to_multiset().contains(g[j]));
        assert(map_sort_nodes(m, f).to_multiset().contains(g[j]));
        assert(map_sort_nodes(m, f).contains(g[j]));
        let i = choose|i: int|
            0 <= i < map_sort_nodes(m, f).len() && map_sort_nodes(m, f)[i] == g[j];
        assert(g[j] == sort_node(m, f[i]));
        lemma_sort_node_idempotent(m, f[i]);
    }
    assert(map_sort_nodes(m, g) =~= g);
}

/// Recursively sorting an already recursively sorted tree changes
/// nothing.
pub proof fn lemma_sort_node_idempotent(m: SortMethod, n: PNode)
    ensures
        sort_node(m, sort_node(m, n)) == sort_node(m, n),
    decreases n, 4int,
{
    lemma_sort_forest_idempotent(m, n.children);
}

/// Sorting an already sorted forest, subtrees and roots alike, changes
/// nothing.
pub proof fn lemma_sort_forest_idempotent(m: SortMethod, f: Seq<PNode>)
    ensures
        sort_forest_nodes(m, sort_forest_nodes(m, f)) == sort_forest_nodes(m, f),
    decreases f, 5int,
{
    let g = sort_forest_nodes(m, f);
    lemma_sort_multiset(m, map_sort_nodes(m, f));
    lemma_sorted_trees_map_fixed(m, f, g);
    assert(sort_forest_nodes(m, g) == spec_sort(m, g));
    lemma_sort_idempotent(m, map_sort_nodes(m, f));
}

use vstd::multiset::Multiset;

/// Whether `a` is at most `b` under the key `m`.
pub fn key_le_exec(m: SortMethod, a: &ProcInfo, b: &ProcInfo) -> (r: bool)
    ensures
        r == key_le(m, a.tree(), b.tree()),
{
    match m {
        SortMethod::Name => {
            let ca = chars_of(a.name.as_str());
            let cb = chars_of(b.name.as_str());
            lex_le_chars(&ca, &cb)
        },
        SortMethod::Pid => a.pid <= b.pid,
        SortMethod::PPid => a.ppid <= b.ppid,
        SortMethod::Thread => a.threads <= b.threads,
        SortMethod::CmdLine => match (&a.cmdline, &b.cmdline) {
            (Option::None, _) => true,
            (Option::Some(_), Option::None) => false,
            (Option::Some(x), Option::Some(y)) => {
                let cx = chars_of(x.as_str());
                let cy = chars_of(y.as_str());
                lex_le_chars(&cx, &cy)
            },
        },
    }
}

proof fn lemma_spec_insert_at(m: SortMethod, s: Seq<PNode>, x: PNode, idx: int)
    requires
        0 <= idx <= s.len(),
        forall|k: int| 0 <= k < idx ==> key_le(m, #[trigger] s[k], x),
        idx < s.len() ==> !key_le(m, s[idx], x),
    ensures
        spec_insert(m, s, x) == s.subrange(0, idx) + seq![x] + s.subrange(idx, s.len() as int),
    decreases s.len(),
{
    if idx == 0 {
        if s.len() == 0 {
            assert(spec_insert(m, s, x) =~= s.subrange(0, 0) + seq![x] + s.subrange(
                0,
                s.len() as int,
            ));
        } else {
            assert(!key_le(m, s[0], x));
            assert(spec_insert(m, s, x) =~= s.subrange(0, 0) + seq![x] + s.subrange(
                0,
                s.len() as int,
            ));
        }
    } else {
        let t = s.subrange(1, s.len() as int);
        assert(key_le(m, s[0], x));
        assert forall|k: int| 0 <= k < idx - 1 implies key_le(m, #[trigger] t[k], x) by {
            assert(t[k] == s[k + 1]);
        }
        assert(idx - 1 < t.len() ==> !key_le(m, t[idx - 1], x));
        lemma_spec_insert_at(m, t, x, idx - 1);
        assert(spec_insert(m, s, x) =~= s.subrange(0, idx) + seq![x] + s.subrange(
            idx,
            s.len() as int,
        ));
    }
}

/// One level of the sort: the records of `v` rearranged into ascending
/// order under `m` by stable insertion; subtrees are not touched.
#[verifier::loop_isolation(false)]
fn sort_one_level(m: SortMethod, v: Vec<ProcInfo>) -> (out: Vec<ProcInfo>)
    ensures
        out.deep_view() == spec_sort(m, v.deep_view()),
{
    let ghost v0 = v.deep_view();
    let mut v = v;
    let mut out: Vec<ProcInfo> = Vec::new();
    let n = v.len();
    let mut i: usize = 0;
    proof {
        assert(v.deep_view() =~= v0.subrange(0, n as int));
        assert(v0.subrange(0, 0) =~= Seq::<PNode>::empty());
    }
    while i < n
        invariant
            0 <= i <= n == v0.len(),
            v.deep_view() =~= v0.subrange(i as int, n as int),
            out.deep_view() == spec_sort(m, v0.subrange(0, i as int)),
        decreases n - i,
    {
        let ghost vv = v.deep_view();
        let x = v.remove(0);
        proof {
            assert(v.deep_view() =~= vv.subrange(1, vv.len() as int));
            assert(v.deep_view() =~= v0.subrange(i + 1, n as int));
            assert(x.tree() == vv[0]);
            assert(x.tree() == v0[i as int]);
        }
        let ghost outv = out.deep_view();
        let mut idx: usize = 0;
        while idx < out.len() && key_le_exec(m, &out[idx], &x)
            invariant
                0 <= idx <= out.len(),
                out.deep_view() == outv,
                forall|k: int| 0 <= k < idx ==> key_le(m, #[trigger] outv[k], x.tree()),
            decreases out.len() - idx,
        {
            proof {
                assert(outv[idx as int] == out.deep_view()[idx as int]);
            }
            idx = idx + 1;
        }
        proof {
            lemma_spec_insert_at(m, outv, x.tree(), idx as int);
        }
        out.insert(idx, x);
        proof {
            assert(out.deep_view() =~= outv.subrange(0, idx as int) + seq![x.tree()]
                + outv.subrange(idx as int, outv.len() as int));
            assert(v0.subrange(0, i + 1).drop_last() =~= v0.subrange(0, i as int));
            assert(v0.subrange(0, i + 1).last() == v0[i as int]);
        }
        i = i + 1;
    }
    proof {
        assert(v0.subrange(0, n as int) =~= v0);
    }
    out
}

/// The subtree of `p`, recursively sorted at every level under `m`.
pub fn sort_tree(m: SortMethod, p: &ProcInfo) -> (r: ProcInfo)
    ensures
        r.tree() == sort_node(m, p.tree()),
    decreases *p,
{
    let mut kids: Vec<ProcInfo> = Vec::new();
    let n = p.children.len();
    let mut i: usize = 0;
    while i < n
        invariant
            0 <= i <= n == p.children@.len(),
            kids@.len() == i,
            forall|k: int|
                0 <= k < i ==> kids@[k].tree() == sort_node(m, #[trigger] p.children@[k].tree()),
        decreases n - i,
    {
        proof {
            assert(decreases_to!(p => p.children));
            assert(decreases_to!(p.children => p.children[i as int]));
        }
        let c = sort_tree(m, &p.children[i]);
        kids.push(c);
        i = i + 1;
    }
    proof {
        lemma_map_sort_len(m, p.tree().children);
        assert forall|k: int| 0 <= k < i implies kids.deep_view()[k] == map_sort_nodes(
            m,
            p.tree().children,
        )[k] by {
            assert(p.tree().children[k] == p.children@[k].tree());
            assert(kids.deep_view()[k] == kids@[k].tree());
            assert(map_sort_nodes(m, p.tree().children)[k] == sort_node(
                m,
                p.tree().children[k],
            ));
        }
        assert(kids.deep_view() =~= map_sort_nodes(m, p.tree().children));
    }
    let sorted = sort_one_level(m, kids);
    let r = ProcInfo {
        name: p.name.clone(),
        pid: p.pid,
        ppid: p.ppid,
        threads: p.threads,
        cmdline: match &p.cmdline {
            Some(s) => Some(s.clone()),
            None => None,
        },
        children: sorted,
    };
    proof {
        assert(r.tree().children =~= sorted.deep_view());
        assert(r.tree() == sort_node(m, p.tree()));
    }
    r
}

/// The forest `v`, each subtree recursively sorted and the roots sorted,
/// all under `m`.
pub fn sort_forest(m: SortMethod, v: &Vec<ProcInfo>) -> (out: Vec<ProcInfo>)
    ensures
        out.deep_view() == sort_forest_nodes(m, v.deep_view()),
{
    let mut mapped: Vec<ProcInfo> = Vec::new();
    let n = v.len();
    let mut i: usize = 0;
    while i < n
        invariant
            0 <= i <= n == v@.len(),
            mapped@.len() == i,
            forall|k: int|
                0 <= k < i ==> mapped@[k].tree() == sort_node(m, #[trigger] v@[k].tree()),
        decreases n - i,
    {
        let c = sort_tree(m, &v[i]);
        mapped.push(c);
        i = i + 1;
    }
    proof {
        lemma_map_sort_len(m, v.deep_view());
        assert forall|k: int| 0 <= k < i implies mapped.deep_view()[k] == map_sort_nodes(
            m,
            v.deep_view(),
        )[k] by {
            assert(v.deep_view()[k] == v@[k].tree());
            assert(mapped.deep_view()[k] == mapped@[k].tree());
            assert(map_sort_nodes(m, v.deep_view())[k] == sort_node(m, v.deep_view()[k]));
        }
        assert(mapped.deep_view() =~= map_sort_nodes(m, v.deep_view()));
    }
    sort_one_level(m, mapped)
}

} // verus!
