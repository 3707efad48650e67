//! How inserting edges changes a graph: the edge count grows by one per
//! insertion, the vertex count stays, rows stay within the graph, and graphs
//! built undirected are symmetric, so their reachability is symmetric too.
//! Also what sources, sinks, reachability and the labels of a new graph are,
//! stated over the rows themselves.
use vstd::prelude::*;

use crate::graph::{
    edge_count, empty_rows, no_incoming, no_outgoing, rows_with_edges, total_entries, vertex_range, with_edge,
};
use crate::edge_input::{law_numeral_reads_decimal, numeral};
use crate::graph::index_labels;
use crate::ordering::{lemma_occurrences_contains, occurrences};
use crate::paths::{
    has_edge, is_walk, lemma_reaches_trans, lemma_walk_single, lemma_walk_skip, link, reachable, walk_between,
    wf_adj,
};

verus! {

/// Every edge end of `es` is a vertex below `n`.
pub open spec fn edges_below(es: Seq<(usize, usize)>, n: nat) -> bool {
    forall|i: int| 0 <= i < es.len() ==> (#[trigger] es[i]).0 < n && es[i].1 < n
}

/// Each vertex `y` occurs in the row of `x` as often as `x` occurs in the row of `y`.
pub open spec fn symmetric_counts(a: Seq<Seq<usize>>) -> bool {
    forall|x: usize, y: usize|
        (x as int) < a.len() && (y as int) < a.len() ==> #[trigger] occurrences(a[x as int], y)
            == occurrences(a[y as int], x)
}

/// Appending to one row adds one entry in all.
proof fn lemma_total_push(a: Seq<Seq<usize>>, i: int, v: usize)
    requires
        0 <= i < a.len(),
    ensures
        total_entries(a.update(i, a[i].push(v))) == total_entries(a) + 1,
    decreases a.len(),
{
    let b = a.update(i, a[i].push(v));
    if i == a.len() - 1 {
        assert(b.drop_last() =~= a.drop_last());
    } else {
        assert(b.drop_last() =~= a.drop_last().update(i, a.drop_last()[i].push(v)));
        lemma_total_push(a.drop_last(), i, v);
    }
}

/// Rows without entries hold no entries.
proof fn lemma_total_empty(n: nat)
    ensures
        total_entries(empty_rows(n)) == 0,
    decreases n,
{
    if n > 0 {
        assert(empty_rows(n).drop_last() =~= empty_rows((n - 1) as nat));
        lemma_total_empty((n - 1) as nat);
    }
}

/// One insertion adds exactly one edge (a self-loop included) and keeps the
/// number of vertices.
pub proof fn law_add_edge_counts_one(a: Seq<Seq<usize>>, directed: bool, u: usize, v: usize)
    requires
        (u as int) < a.len(),
        (v as int) < a.len(),
    ensures
        with_edge(a, directed, u, v).len() == a.len(),
        edge_count(with_edge(a, directed, u, v), directed) == edge_count(a, directed) + 1,
{
    let a1 = a.update(u as int, a[u as int].push(v));
    lemma_total_push(a, u as int, v);
    if !directed {
        lemma_total_push(a1, v as int, u);
    }
}

/// Starting from `n` vertices without edges, inserting the edges `es` (all
/// between vertices below `n`) gives `n` rows, well formed, with `es.len()` edges.
pub proof fn law_insertions(n: nat, directed: bool, es: Seq<(usize, usize)>)
    requires
        edges_below(es, n),
    ensures
        rows_with_edges(empty_rows(n), directed, es).len() == n,
        wf_adj(rows_with_edges(empty_rows(n), directed, es)),
        edge_count(rows_with_edges(empty_rows(n), directed, es), directed) == es.len(),
    decreases es.len(),
{
    if es.len() == 0 {
        lemma_total_empty(n);
    } else {
        let prev = es.drop_last();
        assert(edges_below(prev, n)) by {
            assert forall|i: int| 0 <= i < prev.len() implies (#[trigger] prev[i]).0 < n && prev[i].1 < n by {
                assert(prev[i] == es[i]);
            }
        }
        law_insertions(n, directed, prev);
        let a = rows_with_edges(empty_rows(n), directed, prev);
        let (u, v) = es.last();
        assert(es[es.len() - 1] == es.last());
        law_add_edge_counts_one(a, directed, u, v);
        let b = rows_with_edges(empty_rows(n), directed, es);
        assert(b == with_edge(a, directed, u, v));
        assert forall|x: int, k: int| 0 <= x < b.len() && 0 <= k < b[x].len() implies (#[trigger] b[x][k]) < b.len() by {
            let a1 = a.update(u as int, a[u as int].push(v));
            if directed {
                if x != u as int {
                    assert(b[x] == a[x]);
                } else if k < a[x].len() {
                    assert(b[x][k] == a[x][k]);
                }
            } else {
                if x != u as int && x != v as int {
                    assert(b[x] == a[x]);
                } else if x == u as int && x != v as int {
                    assert(b[x] == a[x].push(v));
                    if k < a[x].len() {
                        assert(b[x][k] == a[x][k]);
                    }
                } else if x == v as int && x != u as int {
                    assert(b[x] == a[x].push(u));
                    if k < a[x].len() {
                        assert(b[x][k] == a[x][k]);
                    }
                } else {
                    assert(b[x] == a[x].push(v).push(u));
                    if k < a[x].len() {
                        assert(b[x][k] == a[x][k]);
                    }
                }
            }
        }
    }
}

/// Counting in a row with one more entry.
proof fn lemma_occurrences_push(s: Seq<usize>, z: usize, y: usize)
    ensures
        occurrences(s.push(z), y) == occurrences(s, y) + if z == y {
            1nat
        } else {
            0nat
        },
{
    assert(s.push(z).drop_last() =~= s);
}

/// An undirected insertion keeps the counts symmetric.
pub proof fn law_undirected_insertion_symmetric(a: Seq<Seq<usize>>, u: usize, v: usize)
    requires
        (u as int) < a.len(),
        (v as int) < a.len(),
        symmetric_counts(a),
    ensures
        symmetric_counts(with_edge(a, false, u, v)),
{
    let a1 = a.update(u as int, a[u as int].push(v));
    let b = with_edge(a, false, u, v);
    assert forall|x: usize, y: usize| (x as int) < b.len() && (y as int) < b.len() implies #[trigger] occurrences(
        b[x as int],
        y,
    ) == occurrences(b[y as int], x) by {
        assert forall|p: usize, q: usize| (p as int) < b.len() && (q as int) < b.len() implies occurrences(b[p as int], q)
            == occurrences(a[p as int], q) + (if p == u && q == v { 1nat } else { 0nat }) + (if p == v && q == u {
            1nat
        } else {
            0nat
        }) by {
            lemma_occurrences_push(a[u as int], v, q);
            lemma_occurrences_push(a1[v as int], u, q);
            if p == u && p == v {
                assert(b[p as int] == a[p as int].push(v).push(u));
                lemma_occurrences_push(a[p as int].push(v), u, q);
                lemma_occurrences_push(a[p as int], v, q);
            } else if p == u {
                assert(b[p as int] == a[p as int].push(v));
            } else if p == v {
                assert(b[p as int] == a[p as int].push(u));
                lemma_occurrences_push(a[p as int], u, q);
            } else {
                assert(b[p as int] == a[p as int]);
            }
        }
        assert(occurrences(a[x as int], y) == occurrences(a[y as int], x));
    }
}

/// A graph built undirected by inserting edges into `n` empty rows has
/// symmetric counts.
pub proof fn law_undirected_build_symmetric(n: nat, es: Seq<(usize, usize)>)
    requires
        edges_below(es, n),
    ensures
        symmetric_counts(rows_with_edges(empty_rows(n), false, es)),
    decreases es.len(),
{
    if es.len() == 0 {
        assert forall|x: usize, y: usize| (x as int) < n && (y as int) < n implies #[trigger] occurrences(
            empty_rows(n)[x as int],
            y,
        ) == occurrences(empty_rows(n)[y as int], x) by {}
    } else {
        let prev = es.drop_last();
        assert(edges_below(prev, n)) by {
            assert forall|i: int| 0 <= i < prev.len() implies (#[trigger] prev[i]).0 < n && prev[i].1 < n by {
                assert(prev[i] == es[i]);
            }
        }
        law_undirected_build_symmetric(n, prev);
        law_insertions(n, false, prev);
        assert(es[es.len() - 1] == es.last());
        law_undirected_insertion_symmetric(rows_with_edges(empty_rows(n), false, prev), es.last().0, es.last().1);
    }
}

/// In a well-formed graph with symmetric counts, `v` is reachable from `u`
/// exactly when `u` is reachable from `v`.
pub proof fn law_symmetric_reachability(a: Seq<Seq<usize>>, u: usize, v: usize)
    requires
        wf_adj(a),
        symmetric_counts(a),
    ensures
        reachable(a, u, v) == reachable(a, v, u),
{
    if reachable(a, u, v) {
        let p = choose|p: Seq<usize>| walk_between(a, None, p, u, v);
        lemma_reverse_walk(a, p);
    }
    if reachable(a, v, u) {
        let p = choose|p: Seq<usize>| walk_between(a, None, p, v, u);
        lemma_reverse_walk(a, p);
    }
}

/// Read backwards, a walk of a symmetric graph is a walk.
proof fn lemma_reverse_walk(a: Seq<Seq<usize>>, p: Seq<usize>)
    requires
        wf_adj(a),
        symmetric_counts(a),
        is_walk(a, None, p),
    ensures
        walk_between(a, None, p.reverse(), p.last(), p[0]),
{
    let r = p.reverse();
    assert forall|i: int| 0 <= i < r.len() - 1 implies #[trigger] link(a, None, r, i) by {
        let k = p.len() - 2 - i;
        assert(link(a, None, p, k));
        let x = p[k];
        let y = p[k + 1];
        assert(r[i] == y && r[i + 1] == x);
        assert(has_edge(a, x, y));
        let t = choose|t: int| 0 <= t < a[x as int].len() && a[x as int][t] == y;
        assert((y as int) < a.len());
        lemma_occurrences_contains(a[x as int], y);
        lemma_occurrences_contains(a[y as int], x);
        assert(occurrences(a[x as int], y) == occurrences(a[y as int], x));
        assert(has_edge(a, y, x));
    }
}


/// Each entry of `s` is smaller than every later one.
pub open spec fn increasing(s: Seq<usize>) -> bool {
    forall|i: int, j: int| 0 <= i < j < s.len() ==> s[i] < s[j]
}

/// Keeping some entries of an increasing sequence leaves it increasing.
pub proof fn lemma_filter_increasing(s: Seq<usize>, pred: spec_fn(usize) -> bool)
    requires
        increasing(s),
    ensures
        increasing(s.filter(pred)),
    decreases s.len(),
{
    reveal(Seq::filter);
    if s.len() > 0 {
        let d = s.drop_last();
        assert(increasing(d));
        lemma_filter_increasing(d, pred);
        let f = d.filter(pred);
        if pred(s.last()) {
            assert forall|i: int| 0 <= i < f.len() implies f[i] < s.last() by {
                assert(f.contains(f[i]));
                d.lemma_filter_contains_rev(pred, f[i]);
                let k = choose|k: int| 0 <= k < d.len() && d[k] == f[i];
                assert(s[k] == d[k]);
            }
            assert(increasing(f.push(s.last())));
        }
    }
}

/// The sources of a graph, in the order `get_sources` lists them, are
/// increasing, and a vertex is among them exactly when no row lists it,
/// whichever vertex that row belongs to.
pub proof fn law_sources(a: Seq<Seq<usize>>)
    requires
        a.len() <= usize::MAX,
    ensures
        increasing(vertex_range(a.len()).filter(no_incoming(a))),
        forall|x: usize|
            #[trigger] vertex_range(a.len()).filter(no_incoming(a)).contains(x) <==> ((x as int) < a.len()
                && forall|w: usize| (w as int) < a.len() ==> !a[w as int].contains(x)),
{
    let r = vertex_range(a.len());
    let pred = no_incoming(a);
    assert(increasing(r));
    lemma_filter_increasing(r, pred);
    assert forall|x: usize|
        #[trigger] r.filter(pred).contains(x) <==> ((x as int) < a.len() && forall|w: usize|
            (w as int) < a.len() ==> !a[w as int].contains(x)) by {
        if r.filter(pred).contains(x) {
            let k = choose|k: int| 0 <= k < r.filter(pred).len() && r.filter(pred)[k] == x;
            r.lemma_filter_pred(pred, k);
            r.lemma_filter_contains_rev(pred, x);
            assert forall|w: usize| (w as int) < a.len() implies !a[w as int].contains(x) by {
                assert(!has_edge(a, w, x));
            }
        }
        if (x as int) < a.len() && forall|w: usize| (w as int) < a.len() ==> !a[w as int].contains(x) {
            assert(r[x as int] == x);
            r.lemma_filter_contains(pred, x as int);
        }
    }
}

/// The sinks of a graph, in the order `get_sinks` lists them, are
/// increasing, and a vertex is among them exactly when its row lists no vertex.
pub proof fn law_sinks(a: Seq<Seq<usize>>)
    requires
        a.len() <= usize::MAX,
    ensures
        increasing(vertex_range(a.len()).filter(no_outgoing(a))),
        forall|x: usize|
            #[trigger] vertex_range(a.len()).filter(no_outgoing(a)).contains(x) <==> ((x as int) < a.len()
                && forall|y: usize| !a[x as int].contains(y)),
{
    let r = vertex_range(a.len());
    let pred = no_outgoing(a);
    assert(increasing(r));
    lemma_filter_increasing(r, pred);
    assert forall|x: usize|
        #[trigger] r.filter(pred).contains(x) <==> ((x as int) < a.len() && forall|y: usize|
            !a[x as int].contains(y)) by {
        if r.filter(pred).contains(x) {
            let k = choose|k: int| 0 <= k < r.filter(pred).len() && r.filter(pred)[k] == x;
            r.lemma_filter_pred(pred, k);
            r.lemma_filter_contains_rev(pred, x);
        }
        if (x as int) < a.len() && forall|y: usize| !a[x as int].contains(y) {
            if a[x as int].len() > 0 {
                assert(a[x as int].contains(a[x as int][0]));
            }
            assert(r[x as int] == x);
            r.lemma_filter_contains(pred, x as int);
        }
    }
}


/// Inserting the edge `u -> v` lists `v` once more in the row of `u` and,
/// when undirected, `u` once more in the row of `v`; every other count is
/// unchanged.  So the new edge is there, every old edge stays, and no other
/// edge appears.
pub proof fn law_add_edge_edges(a: Seq<Seq<usize>>, directed: bool, u: usize, v: usize)
    requires
        (u as int) < a.len(),
        (v as int) < a.len(),
    ensures
        with_edge(a, directed, u, v).len() == a.len(),
        forall|x: usize, y: usize|
            (x as int) < a.len() ==> #[trigger] occurrences(with_edge(a, directed, u, v)[x as int], y) == occurrences(
                a[x as int],
                y,
            ) + (if x == u && y == v {
                1nat
            } else {
                0nat
            }) + (if !directed && x == v && y == u {
                1nat
            } else {
                0nat
            }),
        has_edge(with_edge(a, directed, u, v), u, v),
        !directed ==> has_edge(with_edge(a, directed, u, v), v, u),
        forall|x: usize, y: usize| has_edge(a, x, y) ==> #[trigger] has_edge(with_edge(a, directed, u, v), x, y),
        forall|x: usize, y: usize|
            #[trigger] has_edge(with_edge(a, directed, u, v), x, y) ==> has_edge(a, x, y) || (x == u && y == v) || (
            !directed && x == v && y == u),
{
    let a1 = a.update(u as int, a[u as int].push(v));
    let b = with_edge(a, directed, u, v);
    assert forall|x: usize, y: usize| (x as int) < a.len() implies #[trigger] occurrences(b[x as int], y) == occurrences(
        a[x as int],
        y,
    ) + (if x == u && y == v {
        1nat
    } else {
        0nat
    }) + (if !directed && x == v && y == u {
        1nat
    } else {
        0nat
    }) by {
        lemma_occurrences_push(a[u as int], v, y);
        lemma_occurrences_push(a1[v as int], u, y);
        if directed {
            assert(b == a1);
        }
        if x != u && x != v {
            assert(b[x as int] == a[x as int]);
        } else if x == u && x != v {
            assert(a1[x as int] == a[u as int].push(v));
            if !directed {
                assert(b[x as int] == a1[x as int]);
            }
        } else if x == v && x != u {
            assert(a1[x as int] == a[x as int]);
        } else {
            assert(a1[x as int] == a[u as int].push(v));
        }
    }
    assert forall|x: usize, y: usize| (x as int) < a.len() implies (#[trigger] b[x as int].contains(y)) == (
    a[x as int].contains(y) || (x == u && y == v) || (!directed && x == v && y == u)) by {
        lemma_occurrences_contains(b[x as int], y);
        lemma_occurrences_contains(a[x as int], y);
    }
    assert(b[u as int].contains(v));
    if !directed {
        assert(b[v as int].contains(u));
    }
    assert forall|x: usize, y: usize| has_edge(a, x, y) implies #[trigger] has_edge(b, x, y) by {
        assert(b[x as int].contains(y));
    }
    assert forall|x: usize, y: usize| #[trigger] has_edge(b, x, y) implies has_edge(a, x, y) || (x == u && y == v) || (
    !directed && x == v && y == u) by {
        assert(b[x as int].contains(y));
    }
}

/// A new graph labels each vertex with text that reads back as its number.
pub proof fn law_new_labels(n: nat)
    ensures
        forall|i: usize| (i as int) < n ==> numeral(#[trigger] index_labels(n)[i as int]) == Some(i),
{
    assert forall|i: usize| (i as int) < n implies numeral(#[trigger] index_labels(n)[i as int]) == Some(i) by {
        law_numeral_reads_decimal(i);
    }
}


/// Reachability is taking steps along edges: `t` is reachable from `s`
/// exactly when it is `s` itself or reachable from a vertex that an edge
/// from `s` leads to.
pub proof fn law_reachable_steps(a: Seq<Seq<usize>>, s: usize, t: usize)
    ensures
        reachable(a, s, t) == (s == t || exists|w: usize| #[trigger] has_edge(a, s, w) && reachable(a, w, t)),
{
    if reachable(a, s, t) && s != t {
        let p = choose|p: Seq<usize>| walk_between(a, None, p, s, t);
        assert(p.len() >= 2);
        assert(link(a, None, p, 0));
        lemma_walk_skip(a, None, p, 1);
        let w = p[1];
        assert(walk_between(a, None, p.skip(1), w, t));
        assert(has_edge(a, s, w) && reachable(a, w, t));
    }
    if s == t {
        lemma_walk_single(a, None, s);
    } else if exists|w: usize| #[trigger] has_edge(a, s, w) && reachable(a, w, t) {
        let w = choose|w: usize| #[trigger] has_edge(a, s, w) && reachable(a, w, t);
        let e = seq![s, w];
        assert(link(a, None, e, 0));
        assert(walk_between(a, None, e, s, w));
        lemma_reaches_trans(a, None, s, w, t);
    }
}

} // verus!
