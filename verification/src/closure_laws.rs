//! What the transitive closure holds: an edge from `i` to `j` exactly when `j`
//! is reachable from `i`, with the given rows kept in front and each missing
//! target appended once.  Also which edges the transitive reduction keeps, and
//! that reducing the closure of an acyclic graph gives its reduction.
use vstd::prelude::*;

use crate::graph::{
    added_in_round, closure_row, closure_rows, kept_from, lemma_edge_walk, lemma_transfer_walk,
    redundant, reduction_rows, vertex_range,
};
use crate::paths::{
    acyclic, has_edge, is_walk, lemma_first_exit, lemma_reaches_trans, lemma_walk_avoiding,
    lemma_walk_concat, lemma_walk_single, lemma_walk_skip, lemma_walk_take, lemma_walk_unskip, link,
    reachable, reaches, usable, walk_between, wf_adj,
};
use crate::graph_laws::{increasing, lemma_filter_increasing};
use crate::reduction_laws::{lemma_no_round_trip, lemma_no_self_edge};

verus! {

/// Membership in a concatenation.
proof fn lemma_concat_contains(s: Seq<usize>, t: Seq<usize>, x: usize)
    ensures
        (s + t).contains(x) == (s.contains(x) || t.contains(x)),
{
    if (s + t).contains(x) {
        let k = choose|k: int| 0 <= k < (s + t).len() && (s + t)[k] == x;
        if k >= s.len() {
            assert(t[k - s.len()] == x);
        }
    }
    if s.contains(x) {
        let k = choose|k: int| 0 <= k < s.len() && s[k] == x;
        assert((s + t)[k] == x);
    }
    if t.contains(x) {
        let k = choose|k: int| 0 <= k < t.len() && t[k] == x;
        assert((s + t)[k + s.len()] == x);
    }
}

/// Which targets the row of `i` lists after `k` rounds.
proof fn lemma_closure_row_contains(a: Seq<Seq<usize>>, i: usize, k: nat, j: usize)
    requires
        (i as int) < a.len(),
    ensures
        closure_row(a, i, k).contains(j) == (a[i as int].contains(j) || ((j as int) < a.len()
            && exists|m: int| 0 <= m < k && #[trigger] reachable(a, i, m as usize) && reachable(a, m as usize, j))),
    decreases k,
{
    if k > 0 {
        let listed = closure_row(a, i, (k - 1) as nat);
        let pick = added_in_round(a, i, (k - 1) as usize, listed);
        let range = vertex_range(a.len());
        let added = range.filter(pick);
        lemma_closure_row_contains(a, i, (k - 1) as nat, j);
        lemma_concat_contains(listed, added, j);
        if added.contains(j) {
            range.lemma_filter_contains_rev(pick, j);
            let t = choose|t: int| 0 <= t < added.len() && added[t] == j;
            range.lemma_filter_pred(pick, t);
            assert(reachable(a, i, (k - 1) as usize));
        }
        if (j as int) < a.len() && reachable(a, i, (k - 1) as usize) && reachable(a, (k - 1) as usize, j)
            && !listed.contains(j) {
            assert(range[j as int] == j);
            range.lemma_filter_contains(pick, j as int);
        }
        if (j as int) < a.len() && exists|m: int|
            0 <= m < k && #[trigger] reachable(a, i, m as usize) && reachable(a, m as usize, j) {
            let m = choose|m: int| 0 <= m < k && #[trigger] reachable(a, i, m as usize) && reachable(a, m as usize, j);
            if m < k - 1 {
                assert(exists|m: int|
                    0 <= m < k - 1 && #[trigger] reachable(a, i, m as usize) && reachable(a, m as usize, j));
            } else {
                assert(m as usize == (k - 1) as usize);
            }
        }
    }
}

/// In the transitive closure of a graph, `i -> j` is an edge exactly when `j`
/// is reachable from `i` in the given graph (in particular every vertex has
/// an edge to itself).
pub proof fn law_closure_edges(a: Seq<Seq<usize>>, i: usize, j: usize)
    requires
        wf_adj(a),
        (i as int) < a.len(),
    ensures
        has_edge(closure_rows(a), i, j) == reachable(a, i, j),
{
    let n = a.len();
    lemma_closure_row_contains(a, i, n, j);
    assert(closure_rows(a)[i as int] == closure_row(a, i, n));
    if reachable(a, i, j) {
        lemma_walk_single(a, None, i);
        if i != j {
            let p = choose|p: Seq<usize>| walk_between(a, None, p, i, j);
            assert(p.len() >= 2);
            assert(crate::paths::link(a, None, p, p.len() - 2));
            let x = p[p.len() - 2];
            assert(a[x as int].contains(j));
            let t = choose|t: int| 0 <= t < a[x as int].len() && a[x as int][t] == j;
            assert((j as int) < n);
        }
        assert(reachable(a, i, i as int as usize));
    }
    if closure_row(a, i, n).contains(j) {
        if a[i as int].contains(j) {
            lemma_edge_walk(a, i, j);
        } else {
            let m = choose|m: int| 0 <= m < n && #[trigger] reachable(a, i, m as usize) && reachable(a, m as usize, j);
            lemma_reaches_trans(a, None, i, m as usize, j);
        }
    }
}

/// The transitive closure keeps every given row, in order, at the front of
/// the corresponding closure row.
pub proof fn law_closure_extends(a: Seq<Seq<usize>>, i: usize)
    requires
        (i as int) < a.len(),
    ensures
        closure_rows(a)[i as int].len() >= a[i as int].len(),
        closure_rows(a)[i as int].take(a[i as int].len() as int) == a[i as int],
{
    lemma_closure_prefix(a, i, a.len());
}

/// Each round only appends to a row.
proof fn lemma_closure_prefix(a: Seq<Seq<usize>>, i: usize, k: nat)
    requires
        (i as int) < a.len(),
    ensures
        closure_row(a, i, k).len() >= a[i as int].len(),
        closure_row(a, i, k).take(a[i as int].len() as int) == a[i as int],
    decreases k,
{
    if k > 0 {
        lemma_closure_prefix(a, i, (k - 1) as nat);
        let listed = closure_row(a, i, (k - 1) as nat);
        let added = vertex_range(a.len()).filter(added_in_round(a, i, (k - 1) as usize, listed));
        assert((listed + added).take(a[i as int].len() as int) =~= listed.take(a[i as int].len() as int));
    } else {
        assert(a[i as int].take(a[i as int].len() as int) =~= a[i as int]);
    }
}

/// What the rounds append to a row lists no target twice and none that the
/// given row lists.
proof fn lemma_closure_tail(a: Seq<Seq<usize>>, i: usize, k: nat)
    requires
        (i as int) < a.len(),
        a.len() <= usize::MAX,
    ensures
        closure_row(a, i, k).skip(a[i as int].len() as int).no_duplicates(),
        forall|x: usize|
            #[trigger] closure_row(a, i, k).skip(a[i as int].len() as int).contains(x) ==> !a[i as int].contains(x),
    decreases k,
{
    let r = a[i as int];
    lemma_closure_prefix(a, i, k);
    if k == 0 {
        assert(closure_row(a, i, k).skip(r.len() as int) =~= Seq::<usize>::empty());
    } else {
        lemma_closure_tail(a, i, (k - 1) as nat);
        lemma_closure_prefix(a, i, (k - 1) as nat);
        let listed = closure_row(a, i, (k - 1) as nat);
        let pick = added_in_round(a, i, (k - 1) as usize, listed);
        let range = vertex_range(a.len());
        let added = range.filter(pick);
        let t0 = listed.skip(r.len() as int);
        let t = closure_row(a, i, k).skip(r.len() as int);
        assert(t =~= t0 + added);
        assert(increasing(range));
        lemma_filter_increasing(range, pick);
        assert forall|m: int| 0 <= m < added.len() implies !listed.contains(#[trigger] added[m]) by {
            range.lemma_filter_pred(pick, m);
        }
        assert forall|x: usize| r.contains(x) implies listed.contains(x) by {
            let q = choose|q: int| 0 <= q < r.len() && r[q] == x;
            assert(listed.take(r.len() as int)[q] == x);
        }
        assert forall|m: int| 0 <= m < t0.len() implies listed.contains(#[trigger] t0[m]) by {
            assert(listed[m + r.len()] == t0[m]);
        }
        assert forall|p: int, q: int| 0 <= p < t.len() && 0 <= q < t.len() && p != q implies t[p] != t[q] by {
            if p < t0.len() && q < t0.len() {
                assert(t[p] == t0[p] && t[q] == t0[q]);
            } else if p >= t0.len() && q >= t0.len() {
                assert(t[p] == added[p - t0.len()] && t[q] == added[q - t0.len()]);
            } else if p < t0.len() {
                assert(listed.contains(t0[p]));
                assert(!listed.contains(added[q - t0.len()]));
            } else {
                assert(listed.contains(t0[q]));
                assert(!listed.contains(added[p - t0.len()]));
            }
        }
        assert forall|x: usize| #[trigger] t.contains(x) implies !r.contains(x) by {
            let q = choose|q: int| 0 <= q < t.len() && t[q] == x;
            if q < t0.len() {
                assert(t0[q] == x);
                assert(t0.contains(x));
            } else {
                assert(added[q - t0.len()] == x);
            }
        }
    }
}

/// Each row of the transitive closure is the given row, followed by every
/// vertex reachable from `i` that the given row does not list, each exactly
/// once: no target is appended twice, and none that the row already lists.
pub proof fn law_closure_row_shape(a: Seq<Seq<usize>>, i: usize)
    requires
        wf_adj(a),
        (i as int) < a.len(),
        a.len() <= usize::MAX,
    ensures
        closure_rows(a)[i as int].take(a[i as int].len() as int) == a[i as int],
        closure_rows(a)[i as int].skip(a[i as int].len() as int).no_duplicates(),
        forall|j: usize|
            #[trigger] closure_rows(a)[i as int].skip(a[i as int].len() as int).contains(j) <==> (reachable(a, i, j)
                && !a[i as int].contains(j)),
{
    let r = a[i as int];
    let c = closure_rows(a)[i as int];
    assert(c == closure_row(a, i, a.len()));
    lemma_closure_prefix(a, i, a.len());
    lemma_closure_tail(a, i, a.len());
    let t = c.skip(r.len() as int);
    assert(c =~= c.take(r.len() as int) + t);
    assert forall|j: usize| #[trigger] t.contains(j) <==> (reachable(a, i, j) && !r.contains(j)) by {
        law_closure_edges(a, i, j);
        lemma_concat_contains(r, t, j);
    }
}

/// In a well-formed graph, whatever a vertex reaches is a vertex.
pub proof fn lemma_reach_within(g: Seq<Seq<usize>>, x: usize, y: usize)
    requires
        wf_adj(g),
        (x as int) < g.len(),
        reachable(g, x, y),
    ensures
        (y as int) < g.len(),
{
    let p = choose|p: Seq<usize>| walk_between(g, None, p, x, y);
    if p.len() > 1 {
        assert(link(g, None, p, p.len() - 2));
        let z = p[p.len() - 2];
        let t = choose|t: int| 0 <= t < g[z as int].len() && g[z as int][t] == y;
    }
}

/// `u` reaches `v` through some third vertex.
pub open spec fn via_other(g: Seq<Seq<usize>>, u: usize, v: usize) -> bool {
    exists|w: usize| w != u && w != v && #[trigger] reachable(g, u, w) && reachable(g, w, v)
}

/// A reduced row lists exactly the row's entries whose edge is not redundant.
pub proof fn lemma_reduced_contains(a: Seq<Seq<usize>>, u: usize, v: usize)
    requires
        (u as int) < a.len(),
    ensures
        reduction_rows(a)[u as int].contains(v) == (a[u as int].contains(v) && !redundant(a, u, v)),
{
    let row = a[u as int];
    let pred = kept_from(a, u);
    assert(reduction_rows(a)[u as int] == row.filter(pred));
    if row.filter(pred).contains(v) {
        row.lemma_filter_contains_rev(pred, v);
        let k = choose|k: int| 0 <= k < row.filter(pred).len() && row.filter(pred)[k] == v;
        row.lemma_filter_pred(pred, k);
    }
    if row.contains(v) && !redundant(a, u, v) {
        let k = choose|k: int| 0 <= k < row.len() && row[k] == v;
        row.lemma_filter_contains(pred, k);
    }
}

/// In an acyclic graph, an edge is redundant exactly when its ends are also
/// The transitive reduction keeps exactly the edges `u -> v` of the graph
/// that no other walk from `u` to `v` implies (one that does not use that
/// edge), each row keeping its entries in their given order.
pub proof fn law_reduction_edges(a: Seq<Seq<usize>>, u: usize, v: usize)
    ensures
        has_edge(reduction_rows(a), u, v) == (has_edge(a, u, v) && !reaches(a, Some((u, v)), u, v)),
        (u as int) < a.len() ==> reduction_rows(a)[u as int] == a[u as int].filter(
            |w: usize| !reaches(a, Some((u, w)), u, w),
        ),
{
    if (u as int) < a.len() {
        lemma_reduced_contains(a, u, v);
        assert(kept_from(a, u) =~= |w: usize| !reaches(a, Some((u, w)), u, w));
    }
}

/// connected through a third vertex.
proof fn lemma_redundant_via_other(g: Seq<Seq<usize>>, u: usize, v: usize)
    requires
        wf_adj(g),
        acyclic(g),
        has_edge(g, u, v),
    ensures
        redundant(g, u, v) == via_other(g, u, v),
{
    lemma_no_self_edge(g, u);
    let e = (u, v);
    if redundant(g, u, v) {
        let p = choose|p: Seq<usize>| walk_between(g, Some(e), p, u, v);
        assert(link(g, Some(e), p, 0));
        let w = p[1];
        assert(p.len() >= 2);
        if p.len() == 2 {
            assert(usable(g, Some(e), p[0], p[1]));
        }
        lemma_no_self_edge(g, w);
        lemma_walk_skip(g, Some(e), p, 1);
        lemma_walk_unskip(g, Some(e), p.skip(1));
        assert(walk_between(g, None, p.skip(1), w, v));
        if w == v {
            assert(is_walk(g, None, p.skip(1)) && p.skip(1).len() >= 2);
        }
        lemma_edge_walk(g, u, w);
        assert(reachable(g, u, w) && reachable(g, w, v));
    }
    if via_other(g, u, v) {
        let w = choose|w: usize| w != u && w != v && #[trigger] reachable(g, u, w) && reachable(g, w, v);
        let q1 = choose|q: Seq<usize>| walk_between(g, None, q, u, w);
        let q2 = choose|q: Seq<usize>| walk_between(g, None, q, w, v);
        assert forall|i: int| 0 <= i < q1.len() - 1 implies !(q1[i] == e.0 && #[trigger] q1[i + 1] == e.1) by {
            if q1[i] == u && q1[i + 1] == v {
                lemma_walk_skip(g, None, q1, i + 1);
                assert(walk_between(g, None, q1.skip(i + 1), v, w));
                lemma_no_round_trip(g, v, w);
            }
        }
        assert forall|i: int| 0 <= i < q2.len() - 1 implies !(q2[i] == e.0 && #[trigger] q2[i + 1] == e.1) by {
            if q2[i] == u && q2[i + 1] == v {
                lemma_walk_take(g, None, q2, i + 1);
                assert(walk_between(g, None, q2.take(i + 1), w, u));
                lemma_no_round_trip(g, u, w);
            }
        }
        lemma_walk_avoiding(g, e, q1);
        lemma_walk_avoiding(g, e, q2);
        lemma_walk_concat(g, Some(e), q1, q2);
        assert(walk_between(g, Some(e), q1 + q2.drop_first(), u, v));
    }
}

/// In an acyclic graph, a vertex reaching another, distinct one without a
/// third vertex in between has a direct edge to it.
proof fn lemma_direct_edge(g: Seq<Seq<usize>>, u: usize, v: usize)
    requires
        wf_adj(g),
        acyclic(g),
        reachable(g, u, v),
        u != v,
        !via_other(g, u, v),
    ensures
        has_edge(g, u, v),
{
    let p = choose|p: Seq<usize>| walk_between(g, None, p, u, v);
    assert(link(g, None, p, 0));
    let w = p[1];
    if p.len() > 2 {
        lemma_no_self_edge(g, u);
        lemma_walk_skip(g, None, p, 1);
        if w == v {
            assert(is_walk(g, None, p.skip(1)) && p.skip(1).len() >= 2);
        }
        lemma_edge_walk(g, u, w);
        assert(walk_between(g, None, p.skip(1), w, v));
        assert(reachable(g, u, w) && reachable(g, w, v));
    }
}

/// In the closure of an acyclic graph, an edge between reachable vertices is
/// redundant exactly when they are equal or connected through a third vertex.
proof fn lemma_closure_redundant(g: Seq<Seq<usize>>, u: usize, v: usize)
    requires
        wf_adj(g),
        acyclic(g),
        (u as int) < g.len(),
        reachable(g, u, v),
    ensures
        redundant(closure_rows(g), u, v) == (u == v || via_other(g, u, v)),
{
    let c = closure_rows(g);
    let e = (u, v);
    assert forall|x: usize, y: usize| #[trigger] has_edge(c, x, y) implies reachable(g, x, y) by {
        law_closure_edges(g, x, y);
    }
    if u == v {
        lemma_walk_single(c, Some(e), u);
    } else {
        if redundant(c, u, v) {
            let p = choose|p: Seq<usize>| walk_between(c, Some(e), p, u, v);
            let i = lemma_first_exit(c, Some(e), p, u);
            let w = p[i + 1];
            assert(has_edge(c, u, w));
            lemma_walk_skip(c, Some(e), p, i + 1);
            lemma_walk_unskip(c, Some(e), p.skip(i + 1));
            lemma_transfer_walk(c, g, p.skip(i + 1));
            assert(w != u && w != v && reachable(g, u, w) && reachable(g, w, v));
        }
        if via_other(g, u, v) {
            let w = choose|w: usize| w != u && w != v && #[trigger] reachable(g, u, w) && reachable(g, w, v);
            lemma_reach_within(g, u, w);
            law_closure_edges(g, u, w);
            law_closure_edges(g, w, v);
            let p = seq![u, w, v];
            assert(link(c, Some(e), p, 0));
            assert(link(c, Some(e), p, 1));
            assert(walk_between(c, Some(e), p, u, v));
        }
    }
}

/// For an acyclic graph, the transitive reduction of the transitive closure
/// has the same edges as the transitive reduction: the Hasse diagram is
/// recovered from the closure.
pub proof fn law_reduction_of_closure(g: Seq<Seq<usize>>, u: usize, v: usize)
    requires
        wf_adj(g),
        acyclic(g),
        (u as int) < g.len(),
    ensures
        reduction_rows(closure_rows(g))[u as int].contains(v) == reduction_rows(g)[u as int].contains(v),
{
    let c = closure_rows(g);
    lemma_reduced_contains(c, u, v);
    lemma_reduced_contains(g, u, v);
    law_closure_edges(g, u, v);
    assert(c[u as int].contains(v) == has_edge(c, u, v));
    if has_edge(g, u, v) {
        lemma_edge_walk(g, u, v);
        lemma_no_self_edge(g, u);
        lemma_redundant_via_other(g, u, v);
        lemma_closure_redundant(g, u, v);
    }
    if reachable(g, u, v) && !redundant(c, u, v) {
        lemma_closure_redundant(g, u, v);
        lemma_direct_edge(g, u, v);
        lemma_redundant_via_other(g, u, v);
    }
}

} // verus!
