//! The process forest builder: turns the flat snapshot into a forest of
//! rooted trees by iterative leaf peeling. Every round removes the records
//! that no other remaining record claims as a parent, attaching to each one
//! the already-peeled records that name it as their parent. A record whose
//! parent id equals its own id is treated as parentless, and a parent id
//! that no record carries leaves its child a root.

use vstd::prelude::*;

use crate::procinfos::{fields_of, PNode, ProcFields, ProcInfo};

verus! {

use vstd::multiset::Multiset;

broadcast use vstd::multiset::group_multiset_axioms;

/// The fields of a node and of all its descendants, as a multiset.
pub open spec fn tree_fields(n: PNode) -> Multiset<ProcFields>
    decreases n,
{
    Multiset::empty().insert(fields_of(n)).add(forest_fields(n.children))
}

/// The fields of every node of every tree of `f`, as a multiset.
pub open spec fn forest_fields(f: Seq<PNode>) -> Multiset<ProcFields>
    decreases f,
{
    if f.len() == 0 {
        Multiset::empty()
    } else {
        tree_fields(f[0]).add(forest_fields(f.subrange(1, f.len() as int)))
    }
}

/// Every parent-child edge below `n` connects a child to the parent its
/// `ppid` names, and no child of anyone is its own parent.
pub open spec fn edges_ok(n: PNode) -> bool
    decreases n,
{
    forall|i: int|
        0 <= i < n.children.len() ==> #[trigger] n.children[i].ppid == n.pid
            && n.children[i].pid != n.children[i].ppid && edges_ok(n.children[i])
}

pub open spec fn forest_edges_ok(f: Seq<PNode>) -> bool {
    forall|i: int| 0 <= i < f.len() ==> edges_ok(#[trigger] f[i])
}

/// A flat snapshot: no record has children yet.
pub open spec fn flat_forest(f: Seq<PNode>) -> bool {
    forall|i: int| 0 <= i < f.len() ==> (#[trigger] f[i]).children.len() == 0
}

/// Some record of `f` other than a self-parent names `pid` as its parent.
pub open spec fn claimed(f: Seq<PNode>, pid: nat) -> bool {
    exists|k: int| 0 <= k < f.len() && (#[trigger] f[k]).ppid == pid && f[k].ppid != f[k].pid
}

pub proof fn lemma_forest_fields_push(f: Seq<PNode>, x: PNode)
    ensures
        forest_fields(f.push(x)) == forest_fields(f).add(tree_fields(x)),
    decreases f.len(),
{
    if f.len() == 0 {
        let g = f.push(x);
        assert(g.subrange(1, g.len() as int) =~= Seq::<PNode>::empty());
        assert(g[0] == x);
        assert(forest_fields(g) == tree_fields(x).add(
            forest_fields(g.subrange(1, g.len() as int)),
        ));
        assert(forest_fields(g.subrange(1, g.len() as int)) == Multiset::<ProcFields>::empty());
        assert(forest_fields(f) == Multiset::<ProcFields>::empty());
        assert(forest_fields(f.push(x)) =~= forest_fields(f).add(tree_fields(x)));
    } else {
        lemma_forest_fields_push(f.subrange(1, f.len() as int), x);
        assert(f.push(x).subrange(1, f.push(x).len() as int) =~= f.subrange(
            1,
            f.len() as int,
        ).push(x));
        assert(forest_fields(f.push(x)) =~= forest_fields(f).add(tree_fields(x)));
    }
}

/// The fields of every node that sits below some root of `f`: every node
/// of `f` except the roots themselves.
pub open spec fn nested_fields(f: Seq<PNode>) -> Multiset<ProcFields>
    decreases f,
{
    if f.len() == 0 {
        Multiset::empty()
    } else {
        forest_fields(f[0].children).add(nested_fields(f.subrange(1, f.len() as int)))
    }
}

proof fn lemma_no_self_parent_fields(f: Seq<PNode>, v: ProcFields)
    requires
        v.pid == v.ppid,
        forall|i: int|
            0 <= i < f.len() ==> (#[trigger] f[i]).pid != f[i].ppid && edges_ok(f[i]),
    ensures
        forest_fields(f).count(v) == 0,
    decreases f,
{
    if f.len() > 0 {
        let n = f[0];
        assert(n.pid != n.ppid && edges_ok(n));
        assert(fields_of(n) != v);
        assert forall|i: int|
            0 <= i < n.children.len() implies (#[trigger] n.children[i]).pid
            != n.children[i].ppid && edges_ok(n.children[i]) by {
            assert(n.children[i].ppid == n.pid);
        }
        lemma_no_self_parent_fields(n.children, v);
        assert forall|i: int|
            0 <= i < f.subrange(1, f.len() as int).len() implies (#[trigger] f.subrange(
            1,
            f.len() as int,
        )[i]).pid != f.subrange(1, f.len() as int)[i].ppid && edges_ok(
            f.subrange(1, f.len() as int)[i],
        ) by {
            assert(f.subrange(1, f.len() as int)[i] == f[i + 1]);
            assert(f[i + 1].pid != f[i + 1].ppid && edges_ok(f[i + 1]));
        }
        lemma_no_self_parent_fields(f.subrange(1, f.len() as int), v);
        assert(Multiset::empty().insert(fields_of(n)).count(v) == 0);
        assert(tree_fields(n).count(v) == Multiset::empty().insert(fields_of(n)).count(v)
            + forest_fields(n.children).count(v));
        assert(forest_fields(f).count(v) == tree_fields(n).count(v) + forest_fields(
            f.subrange(1, f.len() as int),
        ).count(v));
    }
}

/// In a forest whose edges are consistent, a record whose parent id equals
/// its own id never hangs below another node: it can only be a root.
pub proof fn lemma_self_parent_stays_root(f: Seq<PNode>, v: ProcFields)
    requires
        forest_edges_ok(f),
        v.pid == v.ppid,
    ensures
        nested_fields(f).count(v) == 0,
    decreases f,
{
    if f.len() > 0 {
        let n = f[0];
        assert(edges_ok(n));
        assert forall|i: int|
            0 <= i < n.children.len() implies (#[trigger] n.children[i]).pid
            != n.children[i].ppid && edges_ok(n.children[i]) by {
            assert(n.children[i].ppid == n.pid);
        }
        lemma_no_self_parent_fields(n.children, v);
        assert forall|i: int|
            0 <= i < f.subrange(1, f.len() as int).len() implies edges_ok(
            #[trigger] f.subrange(1, f.len() as int)[i],
        ) by {
            assert(f.subrange(1, f.len() as int)[i] == f[i + 1]);
            assert(edges_ok(f[i + 1]));
        }
        lemma_self_parent_stays_root(f.subrange(1, f.len() as int), v);
        assert(nested_fields(f).count(v) == forest_fields(n.children).count(v) + nested_fields(
            f.subrange(1, f.len() as int),
        ).count(v));
    }
}

/// Some record of `f` carries `pid` as its own id.
pub open spec fn top_has_pid(f: Seq<PNode>, pid: nat) -> bool {
    exists|i: int| 0 <= i < f.len() && (#[trigger] f[i]).pid == pid
}

/// Every record of `u` has the fields of some record of `f`.
pub open spec fn among(u: Seq<PNode>, f: Seq<PNode>) -> bool {
    forall|i: int|
        0 <= i < u.len() ==> exists|k: int|
            0 <= k < f.len() && fields_of(#[trigger] u[i]) == fields_of(f[k])
}

/// `rank` witnesses that the parent references of `f` form no cycle: every
/// claim of a parent strictly descends.
pub open spec fn ranked(rank: Map<nat, nat>, f: Seq<PNode>) -> bool {
    forall|j: int, k: int|
        0 <= j < f.len() && 0 <= k < f.len() && (#[trigger] f[k]).ppid == (#[trigger] f[j]).pid
            && f[k].ppid != f[k].pid ==> rank[f[k].pid] < rank[f[j].pid]
}

/// The fields of the roots of `f`, as a multiset.
pub open spec fn tops_fields(f: Seq<PNode>) -> Multiset<ProcFields>
    decreases f,
{
    if f.len() == 0 {
        Multiset::empty()
    } else {
        Multiset::empty().insert(fields_of(f[0])).add(tops_fields(f.subrange(1, f.len() as int)))
    }
}

/// Some record of the multiset carries `p` as its own id.
pub open spec fn fields_has_pid(m: Multiset<ProcFields>, p: nat) -> bool {
    exists|w: ProcFields| m.count(w) > 0 && (#[trigger] w.pid) == p
}

/// Every node of a forest is a root or sits below one: the fields split.
pub proof fn lemma_fields_split(f: Seq<PNode>)
    ensures
        forest_fields(f) == tops_fields(f).add(nested_fields(f)),
    decreases f,
{
    if f.len() == 0 {
        assert(forest_fields(f) =~= tops_fields(f).add(nested_fields(f)));
    } else {
        let fsub = f.subrange(1, f.len() as int);
        lemma_fields_split(fsub);
        assert forall|v: ProcFields|
            forest_fields(f).count(v) == tops_fields(f).add(nested_fields(f)).count(v) by {
            assert(forest_fields(f).count(v) == tree_fields(f[0]).count(v) + forest_fields(
                fsub,
            ).count(v));
            assert(tree_fields(f[0]).count(v) == Multiset::empty().insert(
                fields_of(f[0]),
            ).count(v) + forest_fields(f[0].children).count(v));
            assert(forest_fields(fsub).count(v) == tops_fields(fsub).add(
                nested_fields(fsub),
            ).count(v));
            assert(tops_fields(fsub).add(nested_fields(fsub)).count(v) == tops_fields(
                fsub,
            ).count(v) + nested_fields(fsub).count(v));
            assert(tops_fields(f).count(v) == Multiset::empty().insert(fields_of(f[0])).count(v)
                + tops_fields(fsub).count(v));
            assert(nested_fields(f).count(v) == forest_fields(f[0].children).count(v)
                + nested_fields(fsub).count(v));
            assert(tops_fields(f).add(nested_fields(f)).count(v) == tops_fields(f).count(v)
                + nested_fields(f).count(v));
        }
        assert(forest_fields(f) =~= tops_fields(f).add(nested_fields(f)));
    }
}

proof fn lemma_tops_member(f: Seq<PNode>, v: ProcFields)
    requires
        tops_fields(f).count(v) > 0,
    ensures
        exists|j: int| 0 <= j < f.len() && fields_of(#[trigger] f[j]) == v,
    decreases f,
{
    let fsub = f.subrange(1, f.len() as int);
    assert(tops_fields(f).count(v) == Multiset::empty().insert(fields_of(f[0])).count(v)
        + tops_fields(fsub).count(v));
    if Multiset::empty().insert(fields_of(f[0])).count(v) > 0 {
        assert(fields_of(f[0]) == v);
    } else {
        lemma_tops_member(fsub, v);
        let j = choose|j: int| 0 <= j < fsub.len() && fields_of(#[trigger] fsub[j]) == v;
        assert(fsub[j] == f[j + 1]);
    }
}

proof fn lemma_flat_member(f: Seq<PNode>, v: ProcFields)
    requires
        flat_forest(f),
        forest_fields(f).count(v) > 0,
    ensures
        exists|j: int| 0 <= j < f.len() && fields_of(#[trigger] f[j]) == v,
    decreases f,
{
    let fsub = f.subrange(1, f.len() as int);
    assert(forest_fields(f).count(v) == tree_fields(f[0]).count(v) + forest_fields(fsub).count(
        v,
    ));
    if tree_fields(f[0]).count(v) > 0 {
        assert(f[0].children.len() == 0);
        assert(forest_fields(f[0].children) =~= Multiset::<ProcFields>::empty());
        assert(tree_fields(f[0]).count(v) == Multiset::empty().insert(fields_of(f[0])).count(v)
            + forest_fields(f[0].children).count(v));
        assert(fields_of(f[0]) == v);
    } else {
        assert(forall|i: int| 0 <= i < fsub.len() ==> (#[trigger] fsub[i]).children.len() == 0);
        lemma_flat_member(fsub, v);
        let j = choose|j: int| 0 <= j < fsub.len() && fields_of(#[trigger] fsub[j]) == v;
        assert(fsub[j] == f[j + 1]);
    }
}

proof fn lemma_tree_nested_parent(n: PNode, v: ProcFields)
    requires
        edges_ok(n),
        forest_fields(n.children).count(v) > 0,
    ensures
        v.pid != v.ppid,
        fields_has_pid(tree_fields(n), v.ppid),
    decreases n, 0int,
{
    let ch = n.children;
    lemma_fields_split(ch);
    assert(forest_fields(ch).count(v) == tops_fields(ch).add(nested_fields(ch)).count(v));
    assert(tops_fields(ch).add(nested_fields(ch)).count(v) == tops_fields(ch).count(v)
        + nested_fields(ch).count(v));
    if tops_fields(ch).count(v) > 0 {
        lemma_tops_member(ch, v);
        let j = choose|j: int| 0 <= j < ch.len() && fields_of(#[trigger] ch[j]) == v;
        assert(ch[j].ppid == n.pid && ch[j].pid != ch[j].ppid);
        assert(fields_of(n).pid == v.ppid);
        assert(tree_fields(n).count(fields_of(n)) > 0) by {
            assert(tree_fields(n).count(fields_of(n)) == Multiset::empty().insert(
                fields_of(n),
            ).count(fields_of(n)) + forest_fields(n.children).count(fields_of(n)));
        }
    } else {
        assert forall|i: int| 0 <= i < ch.len() implies edges_ok(#[trigger] ch[i]) by {
            assert(ch[i].ppid == n.pid);
        }
        lemma_forest_nested_parent(ch, v);
        let w = choose|w: ProcFields|
            forest_fields(ch).count(w) > 0 && (#[trigger] w.pid) == v.ppid;
        assert(tree_fields(n).count(w) == Multiset::empty().insert(fields_of(n)).count(w)
            + forest_fields(ch).count(w));
        assert(tree_fields(n).count(w) > 0);
    }
}

proof fn lemma_forest_nested_parent(f: Seq<PNode>, v: ProcFields)
    requires
        forest_edges_ok(f),
        nested_fields(f).count(v) > 0,
    ensures
        v.pid != v.ppid,
        fields_has_pid(forest_fields(f), v.ppid),
    decreases f, 1int,
{
    let fsub = f.subrange(1, f.len() as int);
    assert(nested_fields(f).count(v) == forest_fields(f[0].children).count(v) + nested_fields(
        fsub,
    ).count(v));
    if forest_fields(f[0].children).count(v) > 0 {
        assert(edges_ok(f[0]));
        lemma_tree_nested_parent(f[0], v);
        let w = choose|w: ProcFields|
            tree_fields(f[0]).count(w) > 0 && (#[trigger] w.pid) == v.ppid;
        assert(forest_fields(f).count(w) == tree_fields(f[0]).count(w) + forest_fields(
            fsub,
        ).count(w));
        assert(forest_fields(f).count(w) > 0);
    } else {
        assert forall|i: int| 0 <= i < fsub.len() implies edges_ok(#[trigger] fsub[i]) by {
            assert(fsub[i] == f[i + 1]);
        }
        lemma_forest_nested_parent(fsub, v);
        let w = choose|w: ProcFields|
            forest_fields(fsub).count(w) > 0 && (#[trigger] w.pid) == v.ppid;
        assert(forest_fields(f).count(w) == tree_fields(f[0]).count(w) + forest_fields(
            fsub,
        ).count(w));
        assert(forest_fields(f).count(w) > 0);
    }
}

/// In a forest built from a flat, acyclic snapshot, where each record
/// lands is a function of the record multiset alone: a record whose
/// parent id is its own or absent stands at the top, and every other
/// record hangs below a node -- by the edge guarantee, one carrying its
/// parent id. Two builds from reorderings of one snapshot therefore
/// agree on their roots and, when pids are pairwise distinct, on every
/// parent-child edge, which determines the forest up to the order of
/// sibling lists.
pub proof fn lemma_forest_shape_determined(o: Seq<PNode>, i: Seq<PNode>)
    requires
        flat_forest(i),
        exists|rk: Map<nat, nat>| ranked(rk, i),
        forest_built_from(o, i),
    ensures
        forall|v: ProcFields|
            #[trigger] nested_fields(o).count(v) == if v.pid != v.ppid && fields_has_pid(
                forest_fields(i),
                v.ppid,
            ) {
                forest_fields(i).count(v)
            } else {
                0
            },
        forall|v: ProcFields|
            #[trigger] tops_fields(o).count(v) == if v.pid != v.ppid && fields_has_pid(
                forest_fields(i),
                v.ppid,
            ) {
                0
            } else {
                forest_fields(i).count(v)
            },
{
    lemma_fields_split(o);
    assert forall|v: ProcFields|
        tops_fields(o).count(v) + nested_fields(o).count(v) == forest_fields(i).count(v) by {
        assert(forest_fields(o).count(v) == tops_fields(o).add(nested_fields(o)).count(v));
        assert(tops_fields(o).add(nested_fields(o)).count(v) == tops_fields(o).count(v)
            + nested_fields(o).count(v));
    }
    assert forall|v: ProcFields|
        (v.pid != v.ppid && fields_has_pid(forest_fields(i), v.ppid) ==> tops_fields(o).count(v)
            == 0) && (!(v.pid != v.ppid && fields_has_pid(forest_fields(i), v.ppid))
            ==> #[trigger] nested_fields(o).count(v) == 0) by {
        if v.pid == v.ppid {
            lemma_self_parent_stays_root(o, v);
        } else if !fields_has_pid(forest_fields(i), v.ppid) {
            if nested_fields(o).count(v) > 0 {
                lemma_forest_nested_parent(o, v);
                let w = choose|w: ProcFields|
                    forest_fields(o).count(w) > 0 && (#[trigger] w.pid) == v.ppid;
                assert(forest_fields(i).count(w) > 0);
            }
        } else {
            if tops_fields(o).count(v) > 0 {
                lemma_tops_member(o, v);
                let j = choose|j: int| 0 <= j < o.len() && fields_of(#[trigger] o[j]) == v;
                assert(o[j].ppid == o[j].pid || !top_has_pid(i, o[j].ppid));
                assert(o[j].ppid != o[j].pid);
                let w = choose|w: ProcFields|
                    forest_fields(i).count(w) > 0 && (#[trigger] w.pid) == v.ppid;
                lemma_flat_member(i, w);
                let k = choose|k: int| 0 <= k < i.len() && fields_of(#[trigger] i[k]) == w;
                assert(i[k].pid == v.ppid);
                assert(top_has_pid(i, o[j].ppid));
            }
        }
    }
    assert forall|v: ProcFields|
        #[trigger] nested_fields(o).count(v) == if v.pid != v.ppid && fields_has_pid(
            forest_fields(i),
            v.ppid,
        ) {
            forest_fields(i).count(v)
        } else {
            0
        } by {
        assert(tops_fields(o).count(v) + nested_fields(o).count(v) == forest_fields(i).count(v));
    }
    assert forall|v: ProcFields|
        #[trigger] tops_fields(o).count(v) == if v.pid != v.ppid && fields_has_pid(
            forest_fields(i),
            v.ppid,
        ) {
            0
        } else {
            forest_fields(i).count(v)
        } by {
        assert(tops_fields(o).count(v) + nested_fields(o).count(v) == forest_fields(i).count(v));
    }
}

/// Every root of `out` either is its own parent or names a parent id
/// that no record of `input` carries.
pub open spec fn roots_justified(out: Seq<PNode>, input: Seq<PNode>) -> bool {
    forall|j: int|
        0 <= j < out.len() ==> (#[trigger] out[j]).ppid == out[j].pid || !top_has_pid(
            input,
            out[j].ppid,
        )
}

/// `pid` is carried by some record still waiting in either half of the
/// unpeeled snapshot.
spec fn up_has(a: Seq<PNode>, b: Seq<PNode>, p: nat) -> bool {
    top_has_pid(a, p) || top_has_pid(b, p)
}

/// Every unpeeled record of `u` that claims a parent carried by the input
/// still finds that parent among the unpeeled records.
spec fn claims_tracked(u: Seq<PNode>, a: Seq<PNode>, b: Seq<PNode>, input: Seq<PNode>) -> bool {
    forall|j: int|
        0 <= j < u.len() ==> ((#[trigger] u[j]).ppid != u[j].pid && top_has_pid(input, u[j].ppid)
            ==> up_has(a, b, u[j].ppid))
}

/// Every accumulated root is its own parent, or waits for a parent still
/// unpeeled, or names a parent id absent from the input.
spec fn tops_justified(acc: Seq<PNode>, a: Seq<PNode>, b: Seq<PNode>, input: Seq<PNode>) -> bool {
    forall|i: int|
        0 <= i < acc.len() ==> (#[trigger] acc[i]).ppid == acc[i].pid || up_has(
            a,
            b,
            acc[i].ppid,
        ) || !top_has_pid(input, acc[i].ppid)
}

/// Every record of `u` occurs, as a value, in `h`.
spec fn embeds(u: Seq<PNode>, h: Seq<PNode>) -> bool {
    forall|i: int| 0 <= i < u.len() ==> exists|k: int| 0 <= k < h.len() && #[trigger] u[i] == h[k]
}

spec fn min_rank_at(u: Seq<PNode>, rank: Map<nat, nat>, j: int) -> bool {
    forall|k: int| 0 <= k < u.len() ==> rank[(#[trigger] u[k]).pid] >= rank[u[j].pid]
}

proof fn lemma_min_rank_index(u: Seq<PNode>, rank: Map<nat, nat>)
    requires
        u.len() > 0,
    ensures
        exists|j: int| 0 <= j < u.len() && #[trigger] min_rank_at(u, rank, j),
    decreases u.len(),
{
    if u.len() == 1 {
        assert(min_rank_at(u, rank, 0));
    } else {
        let t = u.drop_last();
        lemma_min_rank_index(t, rank);
        let j0 = choose|j: int| 0 <= j < t.len() && #[trigger] min_rank_at(t, rank, j);
        if rank[u.last().pid] < rank[u[j0].pid] {
            let jl = u.len() - 1;
            assert(min_rank_at(u, rank, jl)) by {
                assert(forall|k: int| 0 <= k < t.len() ==> t[k] == u[k]);
                assert(forall|k: int|
                    0 <= k < t.len() ==> rank[(#[trigger] u[k]).pid] >= rank[t[j0].pid]);
            }
        } else {
            assert(min_rank_at(u, rank, j0)) by {
                assert(forall|k: int| 0 <= k < t.len() ==> t[k] == u[k]);
                assert(forall|k: int|
                    0 <= k < t.len() ==> rank[(#[trigger] u[k]).pid] >= rank[t[j0].pid]);
                assert(u[j0] == t[j0]);
            }
        }
    }
}

/// Among records that all come from a ranked snapshot, one is always
/// unclaimed: leaf peeling can never get stuck.
proof fn lemma_leaf_exists(u: Seq<PNode>, f: Seq<PNode>, rank: Map<nat, nat>)
    requires
        u.len() > 0,
        among(u, f),
        ranked(rank, f),
    ensures
        exists|j: int| 0 <= j < u.len() && !claimed(u, (#[trigger] u[j]).pid),
{
    lemma_min_rank_index(u, rank);
    let j = choose|j: int| 0 <= j < u.len() && #[trigger] min_rank_at(u, rank, j);
    if claimed(u, u[j].pid) {
        let k = choose|k: int|
            0 <= k < u.len() && (#[trigger] u[k]).ppid == u[j].pid && u[k].ppid != u[k].pid;
        let fj = choose|m: int| 0 <= m < f.len() && fields_of(u[j]) == fields_of(#[trigger] f[m]);
        let fk = choose|m: int| 0 <= m < f.len() && fields_of(u[k]) == fields_of(#[trigger] f[m]);
        assert(f[fk].ppid == f[fj].pid && f[fk].ppid != f[fk].pid);
        assert(rank[f[fk].pid] < rank[f[fj].pid]);
        assert(rank[u[k].pid] < rank[u[j].pid]);
        assert(rank[u[k].pid] >= rank[u[j].pid]);
    }
}

/// Whether some record other than a self-parent claims `pid` as parent.
#[verifier::loop_isolation(false)]
fn any_claims(w: &Vec<ProcInfo>, pid: usize) -> (r: bool)
    ensures
        r == claimed(w.deep_view(), pid as nat),
{
    let n = w.len();
    let mut k: usize = 0;
    while k < n
        invariant
            0 <= k <= n == w@.len(),
            forall|j: int|
                0 <= j < k ==> !((#[trigger] w.deep_view()[j]).ppid == pid && w.deep_view()[j].ppid
                    != w.deep_view()[j].pid),
        decreases n - k,
    {
        if w[k].ppid == pid && w[k].ppid != w[k].pid {
            proof {
                assert(w.deep_view()[k as int].ppid == pid && w.deep_view()[k as int].ppid
                    != w.deep_view()[k as int].pid);
            }
            return true;
        }
        k = k + 1;
    }
    false
}

/// One flag per record: whether it is a leaf this round, that is, whether
/// no other remaining record claims it as a parent. Also reports whether
/// any flag is set.
#[verifier::loop_isolation(false)]
fn leaf_flags(w: &Vec<ProcInfo>) -> (r: (Vec<bool>, bool))
    ensures
        r.0@.len() == w@.len(),
        forall|j: int|
            0 <= j < w@.len() ==> r.0@[j] == !claimed(
                w.deep_view(),
                (#[trigger] w.deep_view()[j]).pid,
            ),
        r.1 == exists|j: int| 0 <= j < w@.len() && r.0@[j],
{
    let n = w.len();
    let mut flags: Vec<bool> = Vec::new();
    let mut any = false;
    let mut j: usize = 0;
    while j < n
        invariant
            0 <= j <= n == w@.len(),
            flags@.len() == j,
            forall|i: int|
                0 <= i < j ==> flags@[i] == !claimed(
                    w.deep_view(),
                    (#[trigger] w.deep_view()[i]).pid,
                ),
            any == exists|i: int| 0 <= i < j && flags@[i],
        decreases n - j,
    {
        let is_leaf = !any_claims(w, w[j].pid);
        proof {
            assert(w.deep_view()[j as int].pid == w@[j as int].pid);
        }
        let ghost any_before = any;
        let ghost flags_before = flags@;
        flags.push(is_leaf);
        any = any || is_leaf;
        proof {
            assert(flags@[j as int] == is_leaf);
            assert(forall|i: int| 0 <= i < j ==> flags@[i] == flags_before[i]);
            if any_before {
                let i0 = choose|i: int| 0 <= i < j && flags_before[i];
                assert(flags@[i0]);
            }
        }
        j = j + 1;
    }
    let res = (flags, any);
    proof {
        assert(res.1 == (exists|i: int| 0 <= i < w@.len() && res.0@[i])) by {
            if any {
                let i0 = choose|i: int| 0 <= i < n && flags@[i];
                assert(res.0@[i0]);
            }
            if exists|i: int| 0 <= i < w@.len() && res.0@[i] {
                let i1 = choose|i: int| 0 <= i < w@.len() && res.0@[i];
                assert(flags@[i1]);
            }
        }
    }
    res
}

/// Hands `rec` every accumulated root that names it as parent (and is not
/// its own parent), appending each to `rec`'s children; yields the record
/// and the remaining roots.
#[verifier::loop_isolation(false)]
fn adopt_children(rec: ProcInfo, acc: Vec<ProcInfo>) -> (r: (ProcInfo, Vec<ProcInfo>))
    ensures
        tree_fields(r.0.tree()).add(forest_fields(r.1.deep_view())) == tree_fields(
            rec.tree(),
        ).add(forest_fields(acc.deep_view())),
        fields_of(r.0.tree()) == fields_of(rec.tree()),
        edges_ok(rec.tree()) && forest_edges_ok(acc.deep_view()) ==> edges_ok(r.0.tree())
            && forest_edges_ok(r.1.deep_view()),
        forall|i: int|
            0 <= i < r.1.deep_view().len() ==> exists|k: int|
                0 <= k < acc.deep_view().len() && #[trigger] r.1.deep_view()[i]
                    == acc.deep_view()[k],
        forall|i: int|
            0 <= i < r.1.deep_view().len() ==> !((#[trigger] r.1.deep_view()[i]).ppid
                == rec.tree().pid && r.1.deep_view()[i].ppid != r.1.deep_view()[i].pid),
{
    let mut rec = rec;
    let mut rest = acc;
    let mut kept: Vec<ProcInfo> = Vec::new();
    let ghost a0 = acc.deep_view();
    let ghost t0 = rec.tree();
    proof {
        assert(forest_fields(kept.deep_view()) =~= Multiset::<ProcFields>::empty());
        assert(tree_fields(rec.tree()).add(
            forest_fields(rest.deep_view()).add(forest_fields(kept.deep_view())),
        ) =~= tree_fields(t0).add(forest_fields(a0)));
    }
    while rest.len() > 0
        invariant
            tree_fields(rec.tree()).add(
                forest_fields(rest.deep_view()).add(forest_fields(kept.deep_view())),
            ) == tree_fields(t0).add(forest_fields(a0)),
            fields_of(rec.tree()) == fields_of(t0),
            rec.pid == t0.pid,
            edges_ok(t0) && forest_edges_ok(a0) ==> edges_ok(rec.tree()) && forest_edges_ok(
                kept.deep_view(),
            ) && forest_edges_ok(rest.deep_view()),
            forall|i: int|
                0 <= i < rest.deep_view().len() ==> exists|k: int|
                    0 <= k < a0.len() && #[trigger] rest.deep_view()[i] == a0[k],
            forall|i: int|
                0 <= i < kept.deep_view().len() ==> exists|k: int|
                    0 <= k < a0.len() && #[trigger] kept.deep_view()[i] == a0[k],
            forall|i: int|
                0 <= i < kept.deep_view().len() ==> !((#[trigger] kept.deep_view()[i]).ppid
                    == t0.pid && kept.deep_view()[i].ppid != kept.deep_view()[i].pid),
        decreases rest.len(),
    {
        let ghost rest0 = rest.deep_view();
        let a = rest.remove(0);
        proof {
            assert(rest.deep_view() =~= rest0.subrange(1, rest0.len() as int));
            assert(a.tree() == rest0[0]);
            assert(forest_fields(rest0) == tree_fields(rest0[0]).add(
                forest_fields(rest0.subrange(1, rest0.len() as int)),
            ));
            assert forall|i: int|
                0 <= i < rest.deep_view().len() implies exists|k: int|
                0 <= k < a0.len() && #[trigger] rest.deep_view()[i] == a0[k] by {
                assert(rest.deep_view()[i] == rest0[i + 1]);
            }
        }
        if a.ppid == rec.pid && a.ppid != a.pid {
            let ghost tr_before = rec.tree();
            let ghost at = a.tree();
            rec.children.push(a);
            proof {
                assert(rec.tree().children =~= tr_before.children.push(at));
                assert(rec.tree() == PNode {
                    children: tr_before.children.push(at),
                    ..tr_before
                });
                lemma_forest_fields_push(tr_before.children, at);
                assert(tree_fields(rec.tree()) =~= tree_fields(tr_before).add(tree_fields(at)));
                if edges_ok(t0) && forest_edges_ok(a0) {
                    assert(edges_ok(rec.tree())) by {
                        assert(forall|i: int|
                            0 <= i < tr_before.children.len() ==> rec.tree().children[i]
                                == tr_before.children[i]);
                        assert(rec.tree().children.last() == at);
                        assert(at.ppid == rec.tree().pid && at.pid != at.ppid);
                        assert(edges_ok(at));
                    };
                }
            }
        } else {
            let ghost kept0 = kept.deep_view();
            let ghost at = a.tree();
            kept.push(a);
            proof {
                assert(kept.deep_view() =~= kept0.push(at));
                lemma_forest_fields_push(kept0, at);
                assert(forall|i: int| 0 <= i < kept0.len() ==> kept.deep_view()[i] == kept0[i]);
                assert(kept.deep_view().last() == at);
                assert(at == rest0[0]);
                assert(!(at.ppid == t0.pid && at.ppid != at.pid));
                if edges_ok(t0) && forest_edges_ok(a0) {
                    assert(forest_edges_ok(kept.deep_view()));
                }
            }
        }
    }
    proof {
        assert(forest_fields(rest.deep_view()) =~= Multiset::<ProcFields>::empty());
    }
    (rec, kept)
}

/// What the forest builder guarantees of its output against its input:
/// the node fields survive exactly, a flat input yields consistent
/// edges, and an acyclic flat input leaves a record a root only when its
/// parent id is its own or absent.
pub open spec fn forest_built_from(out: Seq<PNode>, input: Seq<PNode>) -> bool {
    &&& forest_fields(out) == forest_fields(input)
    &&& flat_forest(input) ==> forest_edges_ok(out)
    &&& flat_forest(input) && (exists|rk: Map<nat, nat>| ranked(rk, input))
        ==> roots_justified(out, input)
}

proof fn lemma_peel_multiset(
    wv: Seq<PNode>,
    wn: Seq<PNode>,
    restv: Seq<PNode>,
    acc0: Seq<PNode>,
    accb: Seq<PNode>,
    an: Seq<PNode>,
    rt: PNode,
    rt2: PNode,
    in0: Seq<PNode>,
)
    requires
        wv.len() > 0,
        wn == wv.subrange(1, wv.len() as int),
        rt == wv[0],
        forest_fields(wv).add(forest_fields(restv).add(forest_fields(acc0))) == forest_fields(
            in0,
        ),
        tree_fields(rt2).add(forest_fields(accb)) == tree_fields(rt).add(forest_fields(acc0)),
        forest_fields(an) == forest_fields(accb).add(tree_fields(rt2)),
    ensures
        forest_fields(wn).add(forest_fields(restv).add(forest_fields(an))) == forest_fields(in0),
{
    assert(forest_fields(wv) == tree_fields(wv[0]).add(forest_fields(wv.subrange(1, wv.len() as int))));
    assert forall|v: ProcFields|
        forest_fields(wn).add(forest_fields(restv).add(forest_fields(an))).count(v)
            == forest_fields(in0).count(v) by {
        assert(forest_fields(an).count(v) == forest_fields(accb).add(tree_fields(rt2)).count(v));
        assert(forest_fields(accb).add(tree_fields(rt2)).count(v) == forest_fields(accb).count(v)
            + tree_fields(rt2).count(v));
        assert(tree_fields(rt2).add(forest_fields(accb)).count(v) == tree_fields(rt).add(
            forest_fields(acc0),
        ).count(v));
        assert(tree_fields(rt2).add(forest_fields(accb)).count(v) == tree_fields(rt2).count(v)
            + forest_fields(accb).count(v));
        assert(tree_fields(rt).add(forest_fields(acc0)).count(v) == tree_fields(rt).count(v)
            + forest_fields(acc0).count(v));
        assert(forest_fields(wv).count(v) == tree_fields(wv[0]).add(
            forest_fields(wv.subrange(1, wv.len() as int)),
        ).count(v));
        assert(tree_fields(wv[0]).add(forest_fields(wv.subrange(1, wv.len() as int))).count(v)
            == tree_fields(wv[0]).count(v) + forest_fields(
            wv.subrange(1, wv.len() as int),
        ).count(v));
        assert(forest_fields(wv).add(forest_fields(restv).add(forest_fields(acc0))).count(v)
            == forest_fields(in0).count(v));
        assert(forest_fields(wv).add(forest_fields(restv).add(forest_fields(acc0))).count(v)
            == forest_fields(wv).count(v) + forest_fields(restv).add(
            forest_fields(acc0),
        ).count(v));
        assert(forest_fields(restv).add(forest_fields(acc0)).count(v) == forest_fields(
            restv,
        ).count(v) + forest_fields(acc0).count(v));
        assert(forest_fields(wn).add(forest_fields(restv).add(forest_fields(an))).count(v)
            == forest_fields(wn).count(v) + forest_fields(restv).add(
            forest_fields(an),
        ).count(v));
        assert(forest_fields(restv).add(forest_fields(an)).count(v) == forest_fields(
            restv,
        ).count(v) + forest_fields(an).count(v));
    }
    assert(forest_fields(wn).add(forest_fields(restv).add(forest_fields(an))) =~= forest_fields(
        in0,
    ));
}

proof fn lemma_peel_good(
    w0: Seq<PNode>,
    wv: Seq<PNode>,
    wn: Seq<PNode>,
    restv: Seq<PNode>,
    acc0: Seq<PNode>,
    accb: Seq<PNode>,
    an: Seq<PNode>,
    rt2: PNode,
    in0: Seq<PNode>,
    j: int,
)
    requires
        0 <= j < w0.len(),
        wv == w0.subrange(j, w0.len() as int),
        wv.len() > 0,
        wn == wv.subrange(1, wv.len() as int),
        !claimed(w0, w0[j].pid),
        embeds(restv, w0),
        among(wv, in0),
        among(restv, in0),
        tops_justified(acc0, wv, restv, in0),
        claims_tracked(wv, wv, restv, in0),
        claims_tracked(restv, wv, restv, in0),
        forall|i: int|
            0 <= i < accb.len() ==> exists|k: int| 0 <= k < acc0.len() && #[trigger] accb[i]
                == acc0[k],
        forall|i: int|
            0 <= i < accb.len() ==> !((#[trigger] accb[i]).ppid == w0[j].pid && accb[i].ppid
                != accb[i].pid),
        an == accb.push(rt2),
        rt2.pid == w0[j].pid,
        rt2.ppid == w0[j].ppid,
    ensures
        tops_justified(an, wn, restv, in0),
        claims_tracked(wn, wn, restv, in0),
        claims_tracked(restv, wn, restv, in0),
        among(wn, in0),
{
    let rt = wv[0];
    assert(rt == w0[j]);
    assert forall|i: int|
        0 <= i < wn.len() implies exists|k: int|
        0 <= k < in0.len() && fields_of(#[trigger] wn[i]) == fields_of(in0[k]) by {
        assert(wn[i] == wv[i + 1]);
        assert(exists|k: int|
            0 <= k < in0.len() && fields_of(#[trigger] wv[i + 1]) == fields_of(in0[k]));
    }
    // the kept roots stay justified
    assert forall|i: int|
        0 <= i < an.len() - 1 implies (#[trigger] an[i]).ppid == an[i].pid || up_has(
        wn,
        restv,
        an[i].ppid,
    ) || !top_has_pid(in0, an[i].ppid) by {
        assert(an[i] == accb[i]);
        let k = choose|k: int| 0 <= k < acc0.len() && #[trigger] accb[i] == acc0[k];
        assert(acc0[k].ppid == acc0[k].pid || up_has(wv, restv, acc0[k].ppid) || !top_has_pid(
            in0,
            acc0[k].ppid,
        ));
        assert(!(accb[i].ppid == rt.pid && accb[i].ppid != accb[i].pid));
        if acc0[k].ppid != acc0[k].pid && top_has_pid(in0, acc0[k].ppid) {
            assert(acc0[k].ppid != rt.pid);
            if top_has_pid(wv, acc0[k].ppid) {
                let iw = choose|m: int| 0 <= m < wv.len() && (#[trigger] wv[m]).pid == acc0[k].ppid;
                assert(iw != 0);
                assert(wn[iw - 1] == wv[iw]);
                assert(top_has_pid(wn, acc0[k].ppid));
            }
        }
    }
    // the freshly peeled root is justified
    assert(an.last() == rt2);
    if rt2.ppid != rt2.pid && top_has_pid(in0, rt2.ppid) {
        assert(rt.ppid != rt.pid && top_has_pid(in0, rt.ppid));
        assert(up_has(wv, restv, rt.ppid));
        if top_has_pid(wv, rt.ppid) {
            let iw = choose|m: int| 0 <= m < wv.len() && (#[trigger] wv[m]).pid == rt.ppid;
            assert(iw != 0);
            assert(wn[iw - 1] == wv[iw]);
            assert(top_has_pid(wn, rt.ppid));
        }
    }
    assert(tops_justified(an, wn, restv, in0));
    // claims of the remaining records are still tracked
    assert forall|x: int|
        0 <= x < wn.len() && (#[trigger] wn[x]).ppid != wn[x].pid && top_has_pid(
            in0,
            wn[x].ppid,
        ) implies up_has(wn, restv, wn[x].ppid) by {
        assert(wn[x] == wv[x + 1]);
        assert(up_has(wv, restv, wv[x + 1].ppid));
        assert(wn[x] == w0[j + 1 + x]);
        assert(exists|q: int|
            0 <= q < wn.len() && (#[trigger] wn[q]).ppid == wn[x].ppid && wn[q].ppid
                != wn[q].pid) by {
            assert((#[trigger] wn[x]).ppid == wn[x].ppid && wn[x].ppid != wn[x].pid);
        }
        lemma_witness_survives(wv, wn, restv, w0, wv[x + 1].ppid, j);
    }
    assert forall|x: int|
        0 <= x < restv.len() && (#[trigger] restv[x]).ppid != restv[x].pid && top_has_pid(
            in0,
            restv[x].ppid,
        ) implies up_has(wn, restv, restv[x].ppid) by {
        assert(up_has(wv, restv, restv[x].ppid));
        assert(exists|q: int|
            0 <= q < restv.len() && (#[trigger] restv[q]).ppid == restv[x].ppid && restv[q].ppid
                != restv[q].pid) by {
            assert((#[trigger] restv[x]).ppid == restv[x].ppid && restv[x].ppid != restv[x].pid);
        }
        lemma_witness_survives(wv, wn, restv, w0, restv[x].ppid, j);
    }
}

proof fn lemma_defer_good(
    w0: Seq<PNode>,
    wv: Seq<PNode>,
    wn: Seq<PNode>,
    rest0: Seq<PNode>,
    rn: Seq<PNode>,
    acc_dv: Seq<PNode>,
    in0: Seq<PNode>,
    j: int,
)
    requires
        0 <= j < w0.len(),
        wv == w0.subrange(j, w0.len() as int),
        wv.len() > 0,
        wn == wv.subrange(1, wv.len() as int),
        rn == rest0.push(wv[0]),
        embeds(rest0, w0),
        among(wv, in0),
        among(rest0, in0),
        tops_justified(acc_dv, wv, rest0, in0),
        claims_tracked(wv, wv, rest0, in0),
        claims_tracked(rest0, wv, rest0, in0),
    ensures
        tops_justified(acc_dv, wn, rn, in0),
        claims_tracked(wn, wn, rn, in0),
        claims_tracked(rn, wn, rn, in0),
        among(wn, in0),
        among(rn, in0),
        embeds(rn, w0),
{
    let rt = wv[0];
    assert(rt == w0[j]);
    assert(forall|i: int| 0 <= i < rest0.len() ==> rn[i] == rest0[i]);
    assert(rn.last() == rt);
    // the unpeeled records are unchanged as a set
    assert forall|p: nat| up_has(wv, rest0, p) implies #[trigger] up_has(wn, rn, p) by {
        if top_has_pid(wv, p) {
            let iw = choose|m: int| 0 <= m < wv.len() && (#[trigger] wv[m]).pid == p;
            if iw == 0 {
                assert(rn.last().pid == p);
                assert(top_has_pid(rn, p));
            } else {
                assert(wn[iw - 1] == wv[iw]);
                assert(top_has_pid(wn, p));
            }
        } else {
            let iw = choose|m: int| 0 <= m < rest0.len() && (#[trigger] rest0[m]).pid == p;
            assert(rn[iw] == rest0[iw]);
            assert(top_has_pid(rn, p));
        }
    }
    assert forall|x: int|
        0 <= x < wn.len() && (#[trigger] wn[x]).ppid != wn[x].pid && top_has_pid(
            in0,
            wn[x].ppid,
        ) implies up_has(wn, rn, wn[x].ppid) by {
        assert(wn[x] == wv[x + 1]);
        assert(up_has(wv, rest0, wv[x + 1].ppid));
    }
    assert forall|x: int|
        0 <= x < rn.len() && (#[trigger] rn[x]).ppid != rn[x].pid && top_has_pid(
            in0,
            rn[x].ppid,
        ) implies up_has(wn, rn, rn[x].ppid) by {
        if x < rest0.len() {
            assert(rn[x] == rest0[x]);
            assert(up_has(wv, rest0, rest0[x].ppid));
        } else {
            assert(rn[x] == rt);
            assert(up_has(wv, rest0, wv[0].ppid));
        }
    }
    assert forall|i: int|
        0 <= i < wn.len() implies exists|k: int|
        0 <= k < in0.len() && fields_of(#[trigger] wn[i]) == fields_of(in0[k]) by {
        assert(wn[i] == wv[i + 1]);
        assert(exists|k: int|
            0 <= k < in0.len() && fields_of(#[trigger] wv[i + 1]) == fields_of(in0[k]));
    }
    assert forall|i: int|
        0 <= i < rn.len() implies exists|k: int|
        0 <= k < in0.len() && fields_of(#[trigger] rn[i]) == fields_of(in0[k]) by {
        if i < rest0.len() {
            assert(rn[i] == rest0[i]);
            assert(exists|k: int|
                0 <= k < in0.len() && fields_of(#[trigger] rest0[i]) == fields_of(in0[k]));
        } else {
            assert(rn[i] == wv[0]);
            assert(exists|k: int|
                0 <= k < in0.len() && fields_of(#[trigger] wv[0]) == fields_of(in0[k]));
        }
    }
    assert forall|i: int|
        0 <= i < rn.len() implies exists|k: int| 0 <= k < w0.len() && #[trigger] rn[i]
        == w0[k] by {
        if i < rest0.len() {
            assert(rn[i] == rest0[i]);
            assert(exists|k: int| 0 <= k < w0.len() && #[trigger] rest0[i] == w0[k]);
        } else {
            assert(rn[i] == w0[j]);
        }
    }
}

proof fn lemma_round_end_good(
    acc_dv: Seq<PNode>,
    wdv: Seq<PNode>,
    rn: Seq<PNode>,
    in0: Seq<PNode>,
)
    requires
        wdv.len() == 0,
        tops_justified(acc_dv, wdv, rn, in0),
        claims_tracked(rn, wdv, rn, in0),
    ensures
        tops_justified(acc_dv, rn, Seq::empty(), in0),
        claims_tracked(rn, rn, Seq::empty(), in0),
{
    assert forall|i: int|
        0 <= i < acc_dv.len() implies (#[trigger] acc_dv[i]).ppid == acc_dv[i].pid || up_has(
        rn,
        Seq::empty(),
        acc_dv[i].ppid,
    ) || !top_has_pid(in0, acc_dv[i].ppid) by {
        if acc_dv[i].ppid != acc_dv[i].pid && top_has_pid(in0, acc_dv[i].ppid) {
            assert(up_has(wdv, rn, acc_dv[i].ppid));
            assert(!top_has_pid(wdv, acc_dv[i].ppid));
        }
    }
    assert forall|x: int|
        0 <= x < rn.len() && (#[trigger] rn[x]).ppid != rn[x].pid && top_has_pid(
            in0,
            rn[x].ppid,
        ) implies up_has(rn, Seq::empty(), rn[x].ppid) by {
        assert(up_has(wdv, rn, rn[x].ppid));
        assert(!top_has_pid(wdv, rn[x].ppid));
    }
}

/// One peeling round: removes every current leaf of `working` (or, when
/// a parent cycle leaves no leaf, the first record) and accumulates each
/// as a root, handing it the already-accumulated roots that name it as
/// parent.
#[verifier::loop_isolation(false)]
#[verifier::rlimit(100)]
#[verifier::spinoff_prover]
fn peel_round(
    working: Vec<ProcInfo>,
    acc: Vec<ProcInfo>,
    Ghost(in0): Ghost<Seq<PNode>>,
    Ghost(rnk): Ghost<Map<nat, nat>>,
) -> (r: (Vec<ProcInfo>, Vec<ProcInfo>))
    requires
        working@.len() > 0,
        forest_fields(working.deep_view()).add(forest_fields(acc.deep_view())) == forest_fields(
            in0,
        ),
        flat_forest(in0) ==> flat_forest(working.deep_view()),
        flat_forest(in0) ==> forest_edges_ok(acc.deep_view()),
        flat_forest(in0) && ranked(rnk, in0) ==> among(working.deep_view(), in0),
        flat_forest(in0) && ranked(rnk, in0) ==> tops_justified(
            acc.deep_view(),
            working.deep_view(),
            Seq::empty(),
            in0,
        ),
        flat_forest(in0) && ranked(rnk, in0) ==> claims_tracked(
            working.deep_view(),
            working.deep_view(),
            Seq::empty(),
            in0,
        ),
    ensures
        r.0@.len() < working@.len(),
        forest_fields(r.0.deep_view()).add(forest_fields(r.1.deep_view())) == forest_fields(in0),
        flat_forest(in0) ==> flat_forest(r.0.deep_view()),
        flat_forest(in0) ==> forest_edges_ok(r.1.deep_view()),
        flat_forest(in0) && ranked(rnk, in0) ==> among(r.0.deep_view(), in0),
        flat_forest(in0) && ranked(rnk, in0) ==> tops_justified(
            r.1.deep_view(),
            r.0.deep_view(),
            Seq::empty(),
            in0,
        ),
        flat_forest(in0) && ranked(rnk, in0) ==> claims_tracked(
            r.0.deep_view(),
            r.0.deep_view(),
            Seq::empty(),
            in0,
        ),
{
    let ghost flat = flat_forest(in0);
    let ghost good = flat && ranked(rnk, in0);
    let mut acc = acc;
    let n_w = working.len();
    let fr = leaf_flags(&working);
    let flags = fr.0;
    let force = !fr.1;
    let ghost w0 = working.deep_view();
    proof {
        if good {
            lemma_leaf_exists(w0, in0, rnk);
            let jl = choose|j: int| 0 <= j < w0.len() && !claimed(w0, (#[trigger] w0[j]).pid);
            assert(flags@[jl]);
            assert(!force);
        }
    }
    let ghost j0: int = if force {
        0
    } else {
        choose|j: int| 0 <= j < w0.len() && flags@[j]
    };
    let mut w = working;
    let mut rest: Vec<ProcInfo> = Vec::new();
    let mut j: usize = 0;
    proof {
        assert(w.deep_view() =~= w0.subrange(0, w0.len() as int));
    }
    while j < n_w
        invariant
            0 <= j <= n_w == w0.len(),
            flags@.len() == n_w,
            0 <= j0 < n_w,
            force || flags@[j0],
            w.deep_view() =~= w0.subrange(j as int, n_w as int),
            forest_fields(w.deep_view()).add(
                forest_fields(rest.deep_view()).add(forest_fields(acc.deep_view())),
            ) == forest_fields(in0),
            j > j0 ==> rest@.len() < j,
            rest@.len() <= j,
            flat ==> flat_forest(w.deep_view()),
            flat ==> flat_forest(rest.deep_view()),
            flat ==> forest_edges_ok(acc.deep_view()),
            good ==> !force,
            good ==> among(w.deep_view(), in0) && among(rest.deep_view(), in0),
            good ==> embeds(rest.deep_view(), w0),
            good ==> tops_justified(acc.deep_view(), w.deep_view(), rest.deep_view(), in0),
            good ==> claims_tracked(w.deep_view(), w.deep_view(), rest.deep_view(), in0)
                && claims_tracked(rest.deep_view(), w.deep_view(), rest.deep_view(), in0),
        decreases n_w - j,
    {
        let ghost wv = w.deep_view();
        let ghost restv = rest.deep_view();
        let rec = w.remove(0);
        proof {
            assert(w.deep_view() =~= wv.subrange(1, wv.len() as int));
            assert(w.deep_view() =~= w0.subrange(j + 1, n_w as int));
            assert(rec.tree() == wv[0]);
            assert(rec.tree() == w0[j as int]);
            assert(forest_fields(wv) == tree_fields(wv[0]).add(
                forest_fields(wv.subrange(1, wv.len() as int)),
            ));
        }
        if flags[j] || (force && j == 0) {
            let ghost acc0 = acc.deep_view();
            proof {
                if flat {
                    assert(rec.tree().children.len() == 0);
                    assert(edges_ok(rec.tree()));
                }
                if good {
                    assert(flags@[j as int]);
                    assert(!claimed(w0, w0[j as int].pid));
                }
            }
            let ar = adopt_children(rec, acc);
            let rec2 = ar.0;
            acc = ar.1;
            let ghost accb = acc.deep_view();
            acc.push(rec2);
            proof {
                assert(acc.deep_view() =~= accb.push(rec2.tree()));
                lemma_forest_fields_push(accb, rec2.tree());
                lemma_peel_multiset(
                    wv,
                    w.deep_view(),
                    rest.deep_view(),
                    acc0,
                    accb,
                    acc.deep_view(),
                    rec.tree(),
                    rec2.tree(),
                    in0,
                );
                if flat {
                    assert(forall|i: int| 0 <= i < accb.len() ==> acc.deep_view()[i] == accb[i]);
                    assert(acc.deep_view().last() == rec2.tree());
                }
                if good {
                    assert(fields_of(rec2.tree()) == fields_of(rec.tree()));
                    lemma_peel_good(
                        w0,
                        wv,
                        w.deep_view(),
                        restv,
                        acc0,
                        accb,
                        acc.deep_view(),
                        rec2.tree(),
                        in0,
                        j as int,
                    );
                }
            }
        } else {
            let ghost rest0 = rest.deep_view();
            rest.push(rec);
            proof {
                assert(rest.deep_view() =~= rest0.push(rec.tree()));
                lemma_forest_fields_push(rest0, rec.tree());
                assert(forest_fields(w.deep_view()).add(
                    forest_fields(rest.deep_view()).add(forest_fields(acc.deep_view())),
                ) =~= forest_fields(in0));
                if flat {
                    assert(forall|i: int| 0 <= i < rest0.len() ==> rest.deep_view()[i] == rest0[i]);
                    assert(rest.deep_view().last() == rec.tree());
                }
                if good {
                    lemma_defer_good(
                        w0,
                        wv,
                        w.deep_view(),
                        rest0,
                        rest.deep_view(),
                        acc.deep_view(),
                        in0,
                        j as int,
                    );
                }
            }
        }
        j = j + 1;
    }
    proof {
        assert(w.deep_view() =~= Seq::<PNode>::empty());
        assert(forest_fields(w.deep_view()) =~= Multiset::<ProcFields>::empty());
        if good {
            lemma_round_end_good(acc.deep_view(), w.deep_view(), rest.deep_view(), in0);
        }
    }
    (rest, acc)
}

/// Builds the forest from a flat snapshot by leaf peeling.
///
/// The fields of the result's nodes are exactly the fields of the input's
/// nodes, as a multiset: no record is created, duplicated or dropped. When
/// the input records carry no children of their own, every edge of the
/// result connects a child to the parent its `ppid` names, and no node
/// hangs below a parent as its own parent; in particular a self-parent
/// record always stays a root. When, moreover, the parent references are
/// acyclic -- some ranking witnesses that every claim of a parent strictly
/// descends -- every root either is its own parent or names a parent id
/// that no input record carries.
#[verifier::loop_isolation(false)]
#[verifier::rlimit(100)]
#[verifier::spinoff_prover]
pub fn build_forest(input: Vec<ProcInfo>) -> (out: Vec<ProcInfo>)
    ensures
        forest_fields(out.deep_view()) == forest_fields(input.deep_view()),
        flat_forest(input.deep_view()) ==> forest_edges_ok(out.deep_view()),
        flat_forest(input.deep_view()) && (exists|rk: Map<nat, nat>|
            ranked(rk, input.deep_view())) ==> roots_justified(out.deep_view(), input.deep_view()),
{
    let ghost in0 = input.deep_view();
    let ghost flat = flat_forest(in0);
    let ghost rnk: Map<nat, nat> = if exists|rk: Map<nat, nat>| ranked(rk, in0) {
        choose|rk: Map<nat, nat>| ranked(rk, in0)
    } else {
        Map::empty()
    };
    let ghost good = flat && ranked(rnk, in0);
    let mut working = input;
    let mut acc: Vec<ProcInfo> = Vec::new();
    proof {
        assert(forest_fields(acc.deep_view()) =~= Multiset::<ProcFields>::empty());
        assert(among(working.deep_view(), in0));
    }
    while working.len() > 0
        invariant
            flat == flat_forest(in0),
            good == (flat && ranked(rnk, in0)),
            forest_fields(working.deep_view()).add(forest_fields(acc.deep_view()))
                == forest_fields(in0),
            flat ==> flat_forest(working.deep_view()),
            flat ==> forest_edges_ok(acc.deep_view()),
            good ==> among(working.deep_view(), in0),
            good ==> tops_justified(acc.deep_view(), working.deep_view(), Seq::empty(), in0),
            good ==> claims_tracked(
                working.deep_view(),
                working.deep_view(),
                Seq::empty(),
                in0,
            ),
        decreases working.len(),
    {
        let r = peel_round(working, acc, Ghost(in0), Ghost(rnk));
        working = r.0;
        acc = r.1;
    }
    proof {
        assert(forest_fields(working.deep_view()) =~= Multiset::<ProcFields>::empty());
        if good {
            assert forall|j: int|
                0 <= j < acc.deep_view().len() implies (#[trigger] acc.deep_view()[j]).ppid
                == acc.deep_view()[j].pid || !top_has_pid(in0, acc.deep_view()[j].ppid) by {
                let a = acc.deep_view()[j];
                if a.ppid != a.pid && top_has_pid(in0, a.ppid) {
                    assert(up_has(working.deep_view(), Seq::empty(), a.ppid));
                }
            }
        }
    }
    acc
}

/// A parent still unpeeled is still unpeeled after one true leaf leaves:
/// a record claiming the leaf as its parent would have kept it claimed.
proof fn lemma_witness_survives(
    wv: Seq<PNode>,
    wn: Seq<PNode>,
    restv: Seq<PNode>,
    w0: Seq<PNode>,
    p: nat,
    j: int,
)
    requires
        wv.len() > 0,
        wn == wv.subrange(1, wv.len() as int),
        0 <= j < w0.len(),
        wv == w0.subrange(j, w0.len() as int),
        !claimed(w0, w0[j].pid),
        up_has(wv, restv, p),
        embeds(restv, w0),
        (exists|q: int|
            0 <= q < wn.len() && (#[trigger] wn[q]).ppid == p && wn[q].ppid != wn[q].pid)
            || (exists|q: int|
            0 <= q < restv.len() && (#[trigger] restv[q]).ppid == p && restv[q].ppid
                != restv[q].pid),
    ensures
        up_has(wn, restv, p),
{
    assert(wv[0] == w0[j]);
    if top_has_pid(wv, p) {
        let iw = choose|m: int| 0 <= m < wv.len() && (#[trigger] wv[m]).pid == p;
        if iw == 0 {
            // the leaf itself carried p; but some remaining record claims p,
            // so the leaf was claimed, contradicting that it was a leaf
            assert(wv[0].pid == p);
            if exists|q: int|
                0 <= q < wn.len() && (#[trigger] wn[q]).ppid == p && wn[q].ppid != wn[q].pid {
                let q = choose|q: int|
                    0 <= q < wn.len() && (#[trigger] wn[q]).ppid == p && wn[q].ppid != wn[q].pid;
                assert(wn[q] == w0[j + 1 + q]);
                assert(claimed(w0, w0[j].pid));
            } else {
                let q = choose|q: int|
                    0 <= q < restv.len() && (#[trigger] restv[q]).ppid == p && restv[q].ppid
                        != restv[q].pid;
                let kk = choose|k: int| 0 <= k < w0.len() && #[trigger] restv[q] == w0[k];
                assert(w0[kk].ppid == p && w0[kk].ppid != w0[kk].pid);
                assert(claimed(w0, w0[j].pid));
            }
            assert(false);
        } else {
            assert(wn[iw - 1] == wv[iw]);
            assert(top_has_pid(wn, p));
        }
    } else {
        assert(top_has_pid(restv, p));
    }
}

} // verus!
