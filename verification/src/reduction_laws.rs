//! What the transitive reduction keeps: on an acyclic graph it has exactly the
//! same reachability as the graph it reduces, and no edge of it is implied by others.
use vstd::prelude::*;

use crate::graph::{kept_from, lemma_reduction_within, redundant, reduction_rows};
use crate::paths::{
    acyclic, has_edge, is_walk, lemma_reaches_trans, lemma_walk_concat, lemma_walk_push,
    lemma_walk_single, lemma_walk_take, lemma_walk_unskip, link, reachable, reaches, usable,
    walk_between, wf_adj,
};

verus! {

/// The vertices that reach `y`.
pub open spec fn ancestors(a: Seq<Seq<usize>>, y: usize) -> Set<int> {
    Set::new(|z: int| 0 <= z < a.len() && reachable(a, z as usize, y))
}

/// The vertices that `x` reaches.
pub open spec fn descendants(a: Seq<Seq<usize>>, x: usize) -> Set<int> {
    Set::new(|z: int| 0 <= z < a.len() && reachable(a, x, z as usize))
}

/// Every edge of `a` is an edge of `b`.
pub open spec fn edges_within(a: Seq<Seq<usize>>, b: Seq<Seq<usize>>) -> bool {
    forall|x: usize, y: usize| #[trigger] has_edge(a, x, y) ==> has_edge(b, x, y)
}

/// A walk over a subgraph is a walk over the larger graph.
pub proof fn lemma_walk_within(
    a: Seq<Seq<usize>>,
    b: Seq<Seq<usize>>,
    skip: Option<(usize, usize)>,
    p: Seq<usize>,
)
    requires
        edges_within(a, b),
        is_walk(a, skip, p),
    ensures
        is_walk(b, skip, p),
{
    assert forall|i: int| 0 <= i < p.len() - 1 implies #[trigger] link(b, skip, p, i) by {
        assert(link(a, skip, p, i));
        assert(has_edge(a, p[i], p[i + 1]));
    }
}

/// Every edge of the transitive reduction is an edge of the graph it was taken from.
pub proof fn lemma_reduction_edges_within(a: Seq<Seq<usize>>)
    ensures
        edges_within(reduction_rows(a), a),
{
    lemma_reduction_within(a);
    assert forall|x: usize, y: usize| #[trigger] has_edge(reduction_rows(a), x, y) implies has_edge(a, x, y) by {
        assert(reduction_rows(a)[x as int].contains(y));
    }
}

/// In an acyclic graph two distinct vertices do not reach each other.
pub proof fn lemma_no_round_trip(a: Seq<Seq<usize>>, x: usize, y: usize)
    requires
        acyclic(a),
        x != y,
    ensures
        !(reachable(a, x, y) && reachable(a, y, x)),
{
    if reachable(a, x, y) && reachable(a, y, x) {
        let p = choose|p: Seq<usize>| walk_between(a, None, p, x, y);
        let q = choose|q: Seq<usize>| walk_between(a, None, q, y, x);
        lemma_walk_concat(a, None, p, q);
        let r = p + q.drop_first();
        assert(p.len() >= 2);
        assert(is_walk(a, None, r) && r.len() >= 2);
    }
}

/// In an acyclic graph no vertex has an edge to itself.
pub proof fn lemma_no_self_edge(a: Seq<Seq<usize>>, x: usize)
    requires
        acyclic(a),
    ensures
        !has_edge(a, x, x),
{
    if has_edge(a, x, x) {
        let p = seq![x, x];
        assert(link(a, None, p, 0));
        assert(is_walk(a, None, p));
    }
}

/// A set of vertex numbers below `n` missing an element of a larger such set is smaller.
proof fn lemma_strict_subset_len(s1: Set<int>, s2: Set<int>, e: int, n: int)
    requires
        0 <= n,
        forall|z: int| #[trigger] s2.contains(z) ==> 0 <= z < n,
        s1.subset_of(s2),
        s2.contains(e),
        !s1.contains(e),
    ensures
        s1.len() < s2.len(),
{
    <int as vstd::set_lib::FiniteRange>::range_properties(0, n);
    let r = Set::<int>::range(0, n);
    assert(s2.subset_of(r));
    vstd::set_lib::lemma_len_subset(s2, r);
    s1.lemma_subset_not_in_lt(s2, e);
}

/// Moving down an edge (or a walk) of an acyclic graph loses ancestors.
proof fn lemma_ancestors_shrink(a: Seq<Seq<usize>>, w: usize, y: usize)
    requires
        acyclic(a),
        reachable(a, w, y),
        w != y,
        (y as int) < a.len(),
    ensures
        ancestors(a, w).len() < ancestors(a, y).len(),
{
    let aw = ancestors(a, w);
    let ay = ancestors(a, y);
    assert forall|z: int| aw.contains(z) implies ay.contains(z) by {
        lemma_reaches_trans(a, None, z as usize, w, y);
    }
    lemma_walk_single(a, None, y);
    assert(ay.contains(y as int));
    if aw.contains(y as int) {
        lemma_no_round_trip(a, w, y);
    }
    lemma_strict_subset_len(aw, ay, y as int, a.len() as int);
}

/// Moving down a walk of an acyclic graph loses descendants.
proof fn lemma_descendants_shrink(a: Seq<Seq<usize>>, q: usize, q2: usize)
    requires
        acyclic(a),
        reachable(a, q, q2),
        q != q2,
        (q as int) < a.len(),
    ensures
        descendants(a, q2).len() < descendants(a, q).len(),
{
    let d2 = descendants(a, q2);
    let d1 = descendants(a, q);
    assert forall|z: int| d2.contains(z) implies d1.contains(z) by {
        lemma_reaches_trans(a, None, q, q2, z as usize);
    }
    lemma_walk_single(a, None, q);
    assert(d1.contains(q as int));
    if d2.contains(q as int) {
        lemma_no_round_trip(a, q, q2);
    }
    lemma_strict_subset_len(d2, d1, q as int, a.len() as int);
}

/// Along any walk of an acyclic graph, the reduction still connects the ends.
proof fn lemma_walk_kept(a: Seq<Seq<usize>>, x: usize, y: usize, p: Seq<usize>)
    requires
        wf_adj(a),
        acyclic(a),
        walk_between(a, None, p, x, y),
    ensures
        reachable(reduction_rows(a), x, y),
    decreases ancestors(a, y).len(), 1nat, p.len(),
{
    let r = reduction_rows(a);
    if p.len() == 1 {
        lemma_walk_single(r, None, x);
    } else {
        let q = p.drop_last();
        assert(q =~= p.take(p.len() - 1));
        lemma_walk_take(a, None, p, p.len() - 1);
        let w = q.last();
        assert(link(a, None, p, p.len() - 2));
        assert(has_edge(a, w, y));
        if w == y {
            lemma_no_self_edge(a, w);
        }
        assert((y as int) < a.len());
        let e = seq![w, y];
        assert(link(a, None, e, 0));
        assert(walk_between(a, None, e, w, y));
        lemma_ancestors_shrink(a, w, y);
        lemma_walk_kept(a, x, w, q);
        lemma_edge_kept(a, w, y);
        lemma_reaches_trans(r, None, x, w, y);
    }
}

/// In an acyclic graph, the reduction connects the ends of every edge.
proof fn lemma_edge_kept(a: Seq<Seq<usize>>, q: usize, y: usize)
    requires
        wf_adj(a),
        acyclic(a),
        has_edge(a, q, y),
    ensures
        reachable(reduction_rows(a), q, y),
    decreases ancestors(a, y).len(), 0nat, descendants(a, q).len(),
{
    let r = reduction_rows(a);
    lemma_reduction_within(a);
    if !redundant(a, q, y) {
        let k = choose|k: int| 0 <= k < a[q as int].len() && a[q as int][k] == y;
        a[q as int].lemma_filter_contains(kept_from(a, q), k);
        assert(r[q as int] == a[q as int].filter(kept_from(a, q)));
        assert(has_edge(r, q, y));
        let e = seq![q, y];
        assert(link(r, None, e, 0));
        assert(walk_between(r, None, e, q, y));
    } else {
        if q == y {
            lemma_no_self_edge(a, q);
        }
        let p = choose|p: Seq<usize>| walk_between(a, Some((q, y)), p, q, y);
        let pre = p.drop_last();
        assert(pre =~= p.take(p.len() - 1));
        lemma_walk_take(a, Some((q, y)), p, p.len() - 1);
        let q2 = pre.last();
        assert(link(a, Some((q, y)), p, p.len() - 2));
        assert(usable(a, Some((q, y)), q2, y));
        assert(q2 != q);
        lemma_walk_unskip(a, Some((q, y)), pre);
        assert(walk_between(a, None, pre, q, q2));
        let e = seq![q2, y];
        assert(link(a, None, e, 0));
        assert(walk_between(a, None, e, q2, y));
        lemma_reaches_trans(a, None, q, q2, y);
        lemma_descendants_shrink(a, q, q2);
        lemma_ancestors_shrink(a, q2, y);
        lemma_edge_kept(a, q2, y);
        lemma_walk_kept(a, q, q2, pre);
        lemma_reaches_trans(r, None, q, q2, y);
    }
}

/// On an acyclic graph, the transitive reduction has the same reachability
/// as the graph itself.
pub proof fn law_reduction_preserves_reachability(a: Seq<Seq<usize>>, s: usize, t: usize)
    requires
        wf_adj(a),
        acyclic(a),
    ensures
        reachable(reduction_rows(a), s, t) == reachable(a, s, t),
{
    if reachable(a, s, t) {
        let p = choose|p: Seq<usize>| walk_between(a, None, p, s, t);
        lemma_walk_kept(a, s, t, p);
    }
    if reachable(reduction_rows(a), s, t) {
        let p = choose|p: Seq<usize>| walk_between(reduction_rows(a), None, p, s, t);
        lemma_reduction_edges_within(a);
        lemma_walk_within(reduction_rows(a), a, None, p);
        assert(walk_between(a, None, p, s, t));
    }
}

/// No edge of the transitive reduction is implied by the other edges of the
/// reduction: removing any one of them disconnects its ends.
pub proof fn law_reduction_is_minimal(a: Seq<Seq<usize>>, u: usize, v: usize)
    requires
        has_edge(reduction_rows(a), u, v),
    ensures
        !reaches(reduction_rows(a), Some((u, v)), u, v),
{
    let r = reduction_rows(a);
    lemma_reduction_within(a);
    let k = choose|k: int| 0 <= k < r[u as int].len() && r[u as int][k] == v;
    assert(r[u as int] == a[u as int].filter(kept_from(a, u)));
    a[u as int].lemma_filter_pred(kept_from(a, u), k);
    assert(!redundant(a, u, v));
    if reaches(r, Some((u, v)), u, v) {
        let p = choose|p: Seq<usize>| walk_between(r, Some((u, v)), p, u, v);
        lemma_reduction_edges_within(a);
        lemma_walk_within(r, a, Some((u, v)), p);
        assert(walk_between(a, Some((u, v)), p, u, v));
    }
}

/// Filtering by a predicate that every element meets changes nothing.
proof fn lemma_filter_all(s: Seq<usize>, p: spec_fn(usize) -> bool)
    requires
        forall|i: int| 0 <= i < s.len() ==> p(#[trigger] s[i]),
    ensures
        s.filter(p) == s,
    decreases s.len(),
{
    reveal(Seq::filter);
    if s.len() > 0 {
        lemma_filter_all(s.drop_last(), p);
        assert(s.drop_last().push(s.last()) =~= s);
    } else {
        assert(s.filter(p) =~= s);
    }
}

/// Reducing a transitive reduction again changes nothing.
pub proof fn law_reduction_idempotent(a: Seq<Seq<usize>>)
    requires
        a.len() <= usize::MAX,
    ensures
        reduction_rows(reduction_rows(a)) == reduction_rows(a),
{
    let r = reduction_rows(a);
    lemma_reduction_within(a);
    assert forall|u: int| 0 <= u < r.len() implies #[trigger] r[u].filter(kept_from(r, u as usize)) == r[u] by {
        assert forall|i: int| 0 <= i < r[u].len() implies kept_from(r, u as usize)(#[trigger] r[u][i]) by {
            let v = r[u][i];
            assert(r[u].contains(v));
            assert(has_edge(r, u as usize, v));
            law_reduction_is_minimal(a, u as usize, v);
        }
        lemma_filter_all(r[u], kept_from(r, u as usize));
    }
    assert(reduction_rows(r) =~= r);
}

/// The transitive reduction of an acyclic graph is acyclic.
pub proof fn law_reduction_acyclic(a: Seq<Seq<usize>>)
    requires
        acyclic(a),
    ensures
        acyclic(reduction_rows(a)),
{
    let r = reduction_rows(a);
    lemma_reduction_edges_within(a);
    assert forall|p: Seq<usize>| #[trigger] is_walk(r, None, p) && p.len() >= 2 implies p[0] != p.last() by {
        lemma_walk_within(r, a, None, p);
    }
}

/// When `x -> y` and `y -> z` are edges (with `x != y` and `y != z`), the
/// transitive reduction has no edge `x -> z`.
pub proof fn law_transitive_edge_dropped(a: Seq<Seq<usize>>, x: usize, y: usize, z: usize)
    requires
        has_edge(a, x, y),
        has_edge(a, y, z),
        x != y,
        y != z,
    ensures
        !has_edge(reduction_rows(a), x, z),
{
    let p = seq![x, y, z];
    assert(link(a, Some((x, z)), p, 0));
    assert(link(a, Some((x, z)), p, 1));
    assert(walk_between(a, Some((x, z)), p, x, z));
    assert(redundant(a, x, z));
    if has_edge(reduction_rows(a), x, z) {
        law_reduction_is_minimal(a, x, z);
        lemma_reduction_within(a);
        let r = reduction_rows(a);
        let k = choose|k: int| 0 <= k < r[x as int].len() && r[x as int][k] == z;
        a[x as int].lemma_filter_pred(kept_from(a, x), k);
    }
}

} // verus!
