//! What chains of builder calls produce.
//!
//! A builder state is *orderly* when its vertices are numbered `0..count`
//! consecutively: the next free number is the count, every recorded number is
//! below it, and so is every edge end.  Every chain starting from `graph()` or
//! `graph_with()`, with `vertices(n)` (if used) before any vertex is named,
//! stays orderly; an orderly builder can always be built, and the graph it
//! builds is well formed, symmetric when undirected, and has one edge per
//! recorded edge.
use vstd::prelude::*;

use crate::builder::{
    fits, index_of, insert_key, insert_range, key_pos, label_table, lemma_key_pos,
    lemma_key_pos_push, lemma_with_keys_grow, lemma_with_links_grow, with_key, with_keys, with_link,
    with_links, GraphBuilder, VertexKey,
};
use crate::graph::{edge_count, empty_rows, rows_with_edges, with_edge};
use crate::graph_laws::{
    edges_below, law_insertions, law_undirected_build_symmetric, symmetric_counts,
};
use crate::paths::{has_edge, wf_adj};

verus! {

/// Vertices numbered `0..count` consecutively, every number and edge end below the count.
pub open spec fn orderly<K>(st: (nat, Seq<(K, usize)>, nat), edges: Seq<(usize, usize)>) -> bool {
    &&& st.0 == st.2
    &&& forall|i: int| 0 <= i < st.1.len() ==> (#[trigger] st.1[i]).1 < st.0
    &&& edges_below(edges, st.0)
}

/// Recording `0..n` as their own numbers in an empty table uses only numbers below `n`.
proof fn lemma_insert_range_below(n: nat)
    requires
        n <= usize::MAX,
    ensures
        forall|i: int|
            0 <= i < insert_range(Seq::empty(), n).len() ==> (#[trigger] insert_range(Seq::empty(), n)[i]).1 < n,
    decreases n,
{
    if n > 0 {
        lemma_insert_range_below((n - 1) as nat);
        let es = insert_range(Seq::<(usize, usize)>::empty(), (n - 1) as nat);
        let k = (n - 1) as usize;
        lemma_key_pos(es, k);
        let es2 = insert_key(es, k, k);
        assert forall|i: int| 0 <= i < es2.len() implies (#[trigger] es2[i]).1 < n by {
            if key_pos(es, k) >= 0 {
                if i != key_pos(es, k) {
                    assert(es2[i] == es[i]);
                }
            } else if i < es.len() {
                assert(es2[i] == es[i]);
            }
        }
    }
}

/// A fresh builder is orderly, and so is one given `n` numbered vertices first.
pub proof fn law_start_orderly<K>(n: nat)
    requires
        n <= usize::MAX,
    ensures
        orderly((0nat, Seq::<(K, usize)>::empty(), 0nat), Seq::empty()),
        orderly((n, insert_range(Seq::empty(), n), n), Seq::empty()),
{
    lemma_insert_range_below(n);
}

/// After naming a vertex by `k`, `k` is known.
proof fn lemma_with_key_knows<K>(st: (nat, Seq<(K, usize)>, nat), k: K)
    ensures
        key_pos(with_key(st, k).1, k) >= 0,
        forall|k2: K| key_pos(st.1, k2) >= 0 ==> key_pos(with_key(st, k).1, k2) == key_pos(st.1, k2),
{
    lemma_key_pos(st.1, k);
    if key_pos(st.1, k) < 0 {
        lemma_key_pos_push(st.1, k, st.2 as usize, k);
        assert forall|k2: K| key_pos(st.1, k2) >= 0 implies key_pos(with_key(st, k).1, k2) == key_pos(st.1, k2) by {
            lemma_key_pos(st.1, k2);
            lemma_key_pos_push(st.1, k, st.2 as usize, k2);
        }
    }
}

/// Naming a vertex keeps a builder orderly.
pub proof fn law_with_key_orderly<K>(st: (nat, Seq<(K, usize)>, nat), edges: Seq<(usize, usize)>, k: K)
    requires
        orderly(st, edges),
        fits(with_key(st, k)),
    ensures
        orderly(with_key(st, k), edges),
{
    let st2 = with_key(st, k);
    assert forall|i: int| 0 <= i < st2.1.len() implies (#[trigger] st2.1[i]).1 < st2.0 by {
        if i < st.1.len() {
            assert(st2.1[i] == st.1[i]);
        }
    }
    assert forall|i: int| 0 <= i < edges.len() implies (#[trigger] edges[i]).0 < st2.0 && edges[i].1 < st2.0 by {
        assert(edges[i].0 < st.0 && edges[i].1 < st.0);
    }
}

/// Adding an edge keeps a builder orderly.
pub proof fn law_with_link_orderly<K>(st: (nat, Seq<(K, usize)>, nat), edges: Seq<(usize, usize)>, f: K, t: K)
    requires
        orderly(st, edges),
        fits(with_link(st, edges, f, t).0),
    ensures
        orderly(with_link(st, edges, f, t).0, with_link(st, edges, f, t).1),
{
    let st1 = with_key(st, f);
    let st2 = with_key(st1, t);
    assert(st1.0 <= st2.0 && st1.2 <= st2.2);
    law_with_key_orderly(st, edges, f);
    law_with_key_orderly(st1, edges, t);
    lemma_with_key_knows(st, f);
    lemma_with_key_knows(st1, t);
    lemma_key_pos(st2.1, f);
    lemma_key_pos(st2.1, t);
    let es2 = with_link(st, edges, f, t).1;
    assert forall|i: int| 0 <= i < es2.len() implies (#[trigger] es2[i]).0 < st2.0 && es2[i].1 < st2.0 by {
        if i < edges.len() {
            assert(es2[i] == edges[i]);
        }
    }
}

/// Naming the vertices `ks` in turn keeps a builder orderly.
pub proof fn law_with_keys_orderly<K>(st: (nat, Seq<(K, usize)>, nat), edges: Seq<(usize, usize)>, ks: Seq<K>)
    requires
        orderly(st, edges),
        fits(with_keys(st, ks)),
    ensures
        orderly(with_keys(st, ks), edges),
    decreases ks.len(),
{
    if ks.len() > 0 {
        lemma_with_keys_grow(st, ks, ks.len() - 1);
        assert(ks.take(ks.len() - 1) =~= ks.drop_last());
        law_with_keys_orderly(st, edges, ks.drop_last());
        law_with_key_orderly(with_keys(st, ks.drop_last()), edges, ks.last());
    }
}

/// Adding the edges `ls` in turn keeps a builder orderly.
pub proof fn law_with_links_orderly<K>(st: (nat, Seq<(K, usize)>, nat), edges: Seq<(usize, usize)>, ls: Seq<(K, K)>)
    requires
        orderly(st, edges),
        fits(with_links(st, edges, ls).0),
    ensures
        orderly(with_links(st, edges, ls).0, with_links(st, edges, ls).1),
    decreases ls.len(),
{
    if ls.len() > 0 {
        lemma_with_links_grow(st, edges, ls, ls.len() - 1);
        assert(ls.take(ls.len() - 1) =~= ls.drop_last());
        law_with_links_orderly(st, edges, ls.drop_last());
        let prev = with_links(st, edges, ls.drop_last());
        law_with_link_orderly(prev.0, prev.1, ls.last().0, ls.last().1);
    }
}

/// An orderly builder can be built, and the graph it builds is well formed,
/// has as many vertices as the builder counts and one edge per recorded edge
/// (directed or not), and is symmetric when undirected.
pub proof fn law_orderly_build<V: VertexKey>(b: GraphBuilder<V>)
    requires
        orderly(b.naming(), b.edge_list()),
    ensures
        forall|i: int| 0 <= i < b.entries().len() ==> (#[trigger] b.entries()[i]).1 < b.vertex_count(),
        forall|i: int|
            0 <= i < b.edge_list().len() ==> (#[trigger] b.edge_list()[i]).0 < b.vertex_count() && (
            !b.directed_flag() ==> b.edge_list()[i].1 < b.vertex_count()),
        rows_with_edges(empty_rows(b.vertex_count()), b.directed_flag(), b.edge_list()).len() == b.vertex_count(),
        wf_adj(rows_with_edges(empty_rows(b.vertex_count()), b.directed_flag(), b.edge_list())),
        edge_count(rows_with_edges(empty_rows(b.vertex_count()), b.directed_flag(), b.edge_list()), b.directed_flag())
            == b.edge_list().len(),
        !b.directed_flag() ==> symmetric_counts(
            rows_with_edges(empty_rows(b.vertex_count()), false, b.edge_list()),
        ),
{
    assert(b.naming().1 == b.entries());
    assert forall|i: int| 0 <= i < b.entries().len() implies (#[trigger] b.entries()[i]).1 < b.vertex_count() by {
        assert(b.naming().1[i] == b.entries()[i]);
    }
    law_insertions(b.vertex_count(), b.directed_flag(), b.edge_list());
    if !b.directed_flag() {
        law_undirected_build_symmetric(b.vertex_count(), b.edge_list());
    }
}

/// Changing only the direction flag keeps the vertex count, the labels and
/// the number of edges of the built graph.
pub proof fn law_direction_keeps_counts(n: nat, edges: Seq<(usize, usize)>, d1: bool, d2: bool)
    requires
        edges_below(edges, n),
    ensures
        rows_with_edges(empty_rows(n), d1, edges).len() == rows_with_edges(empty_rows(n), d2, edges).len(),
        edge_count(rows_with_edges(empty_rows(n), d1, edges), d1) == edge_count(
            rows_with_edges(empty_rows(n), d2, edges),
            d2,
        ),
{
    law_insertions(n, d1, edges);
    law_insertions(n, d2, edges);
}

/// One more empty row at the end changes nothing else of the inserted edges.
proof fn lemma_rows_extend(m: nat, d: bool, es: Seq<(usize, usize)>)
    requires
        edges_below(es, m),
    ensures
        rows_with_edges(empty_rows(m + 1), d, es) == rows_with_edges(empty_rows(m), d, es).push(Seq::<usize>::empty()),
    decreases es.len(),
{
    if es.len() == 0 {
        assert(empty_rows(m + 1) =~= empty_rows(m).push(Seq::<usize>::empty()));
    } else {
        let prev = es.drop_last();
        assert(edges_below(prev, m)) by {
            assert forall|i: int| 0 <= i < prev.len() implies (#[trigger] prev[i]).0 < m && prev[i].1 < m by {
                assert(prev[i] == es[i]);
            }
        }
        lemma_rows_extend(m, d, prev);
        law_insertions(m, d, prev);
        let a = rows_with_edges(empty_rows(m), d, prev);
        let (u, v) = es.last();
        assert(es[es.len() - 1] == es.last());
        assert(with_edge(a.push(Seq::<usize>::empty()), d, u, v) =~= with_edge(a, d, u, v).push(Seq::<usize>::empty()));
    }
}

/// One more label slot at the end of the table, empty.
proof fn lemma_labels_extend<V: VertexKey>(es: Seq<(V::V, usize)>, m: nat)
    requires
        forall|i: int| 0 <= i < es.len() ==> (#[trigger] es[i]).1 < m,
    ensures
        label_table::<V>(es, m + 1) == label_table::<V>(es, m).push(Seq::<char>::empty()),
        label_table::<V>(es, m).len() == m,
    decreases es.len(),
{
    if es.len() == 0 {
        assert(label_table::<V>(es, m + 1) =~= label_table::<V>(es, m).push(Seq::<char>::empty()));
    } else {
        let prev = es.drop_last();
        assert forall|i: int| 0 <= i < prev.len() implies (#[trigger] prev[i]).1 < m by {
            assert(prev[i] == es[i]);
        }
        lemma_labels_extend::<V>(prev, m);
        assert(es[es.len() - 1] == es.last());
        assert(label_table::<V>(es, m + 1) =~= label_table::<V>(es, m).push(Seq::<char>::empty()));
    }
}

/// Naming a vertex: a known key changes nothing (so naming twice is naming
/// once); a new key adds vertex `count`, labelled by the key, with an empty
/// row, and leaves the other rows and labels of the built graph as they were.
pub proof fn law_vertex_effect<V: VertexKey>(
    st: (nat, Seq<(V::V, usize)>, nat),
    edges: Seq<(usize, usize)>,
    k: V::V,
    d: bool,
)
    requires
        orderly(st, edges),
        fits(with_key(st, k)),
    ensures
        with_key(with_key(st, k), k) == with_key(st, k),
        key_pos(st.1, k) >= 0 ==> with_key(st, k) == st,
        key_pos(st.1, k) < 0 ==> {
            let st2 = with_key(st, k);
            &&& st2.0 == st.0 + 1
            &&& index_of(st2.1, k) == st.0
            &&& rows_with_edges(empty_rows(st2.0), d, edges) == rows_with_edges(empty_rows(st.0), d, edges).push(
                Seq::<usize>::empty(),
            )
            &&& label_table::<V>(st2.1, st2.0) == label_table::<V>(st.1, st.0).push(V::label_of(k))
        },
{
    lemma_with_key_knows(st, k);
    if key_pos(st.1, k) < 0 {
        let st2 = with_key(st, k);
        lemma_key_pos_push(st.1, k, st.2 as usize, k);
        lemma_rows_extend(st.0, d, edges);
        lemma_labels_extend::<V>(st.1, st.0);
        assert(st2.1.drop_last() =~= st.1);
        assert(label_table::<V>(st2.1, st2.0) =~= label_table::<V>(st.1, st.0).push(V::label_of(k)));
    }
}

/// Adding an edge from the vertex named `f` to the one named `t`: new names
/// get the next numbers (`f` first), one edge is recorded between their
/// numbers, and the built graph gains exactly that edge.
pub proof fn law_edge_effect<K>(
    st: (nat, Seq<(K, usize)>, nat),
    edges: Seq<(usize, usize)>,
    f: K,
    t: K,
    d: bool,
)
    requires
        orderly(st, edges),
        fits(with_link(st, edges, f, t).0),
    ensures
        ({
            let (st2, edges2) = with_link(st, edges, f, t);
            let i = if key_pos(st.1, f) >= 0 {
                index_of(st.1, f)
            } else {
                st.0 as usize
            };
            let j = if key_pos(st.1, t) >= 0 {
                index_of(st.1, t)
            } else if t == f {
                i
            } else if key_pos(st.1, f) >= 0 {
                st.0 as usize
            } else {
                (st.0 + 1) as usize
            };
            &&& st2.0 == st.0 + (if key_pos(st.1, f) >= 0 {
                0nat
            } else {
                1nat
            }) + (if key_pos(st.1, t) >= 0 || t == f {
                0nat
            } else {
                1nat
            })
            &&& edges2 == edges.push((i, j))
            &&& has_edge(rows_with_edges(empty_rows(st2.0), d, edges2), i, j)
            &&& edge_count(rows_with_edges(empty_rows(st2.0), d, edges2), d) == edges.len() + 1
        }),
{
    let st1 = with_key(st, f);
    let st2 = with_key(st1, t);
    lemma_key_pos(st.1, f);
    lemma_key_pos(st.1, t);
    lemma_with_key_knows(st, f);
    lemma_with_key_knows(st1, t);
    if key_pos(st.1, f) < 0 {
        lemma_key_pos_push(st.1, f, st.2 as usize, f);
        lemma_key_pos_push(st.1, f, st.2 as usize, t);
    }
    lemma_key_pos(st1.1, t);
    if key_pos(st1.1, t) < 0 {
        lemma_key_pos_push(st1.1, t, st1.2 as usize, t);
        lemma_key_pos_push(st1.1, t, st1.2 as usize, f);
    }
    law_with_link_orderly(st, edges, f, t);
    let edges2 = with_link(st, edges, f, t).1;
    law_insertions(st2.0, d, edges2);
    let i = index_of(st2.1, f);
    let j = index_of(st2.1, t);
    assert(edges2[edges2.len() - 1] == (i, j));
    let prev = edges2.drop_last();
    assert(prev =~= edges);
    assert(edges_below(edges, st2.0)) by {
        assert forall|x: int| 0 <= x < edges.len() implies (#[trigger] edges[x]).0 < st2.0 && edges[x].1 < st2.0 by {
            assert(edges2[x] == edges[x]);
        }
    }
    law_insertions(st2.0, d, edges);
    let a = rows_with_edges(empty_rows(st2.0), d, edges);
    let b = rows_with_edges(empty_rows(st2.0), d, edges2);
    assert(b == with_edge(a, d, i, j));
    assert(b[i as int].contains(j)) by {
        let a1 = a.update(i as int, a[i as int].push(j));
        assert(a1[i as int][a[i as int].len() as int] == j);
        if d || j != i {
            assert(b[i as int] == a1[i as int]);
        } else {
            assert(b[i as int] == a1[i as int].push(i));
            assert(b[i as int][a[i as int].len() as int] == j);
        }
    }
}

/// Naming a sequence of vertices in two parts is naming the parts in turn,
/// and naming a one-element sequence is naming that vertex: `vertices_from`
/// does what the chain of `vertex` calls does.
pub proof fn law_with_keys_chain<K>(st: (nat, Seq<(K, usize)>, nat), ks1: Seq<K>, ks2: Seq<K>, k: K)
    ensures
        with_keys(st, ks1 + ks2) == with_keys(with_keys(st, ks1), ks2),
        with_keys(st, seq![k]) == with_key(st, k),
    decreases ks2.len(),
{
    assert(seq![k].drop_last() =~= Seq::<K>::empty());
    assert(with_keys(st, Seq::<K>::empty()) == st);
    assert(seq![k].last() == k);
    assert(with_keys(st, seq![k]) == with_key(with_keys(st, seq![k].drop_last()), seq![k].last()));
    if ks2.len() > 0 {
        law_with_keys_chain(st, ks1, ks2.drop_last(), k);
        assert((ks1 + ks2).drop_last() =~= ks1 + ks2.drop_last());
        assert((ks1 + ks2).last() == ks2.last());
    } else {
        assert(ks1 + ks2 =~= ks1);
    }
}

/// Adding a sequence of edges in two parts is adding the parts in turn, and
/// adding a one-element sequence is adding that edge: `edges` does what the
/// chain of `edge` calls does.
pub proof fn law_with_links_chain<K>(
    st: (nat, Seq<(K, usize)>, nat),
    edges: Seq<(usize, usize)>,
    ls1: Seq<(K, K)>,
    ls2: Seq<(K, K)>,
    f: K,
    t: K,
)
    ensures
        with_links(st, edges, ls1 + ls2) == with_links(with_links(st, edges, ls1).0, with_links(st, edges, ls1).1, ls2),
        with_links(st, edges, seq![(f, t)]) == with_link(st, edges, f, t),
    decreases ls2.len(),
{
    assert(seq![(f, t)].drop_last() =~= Seq::<(K, K)>::empty());
    assert(with_links(st, edges, Seq::<(K, K)>::empty()) == (st, edges));
    assert(seq![(f, t)].last() == (f, t));
    let one = seq![(f, t)];
    assert(with_links(st, edges, one) == with_link(
        with_links(st, edges, one.drop_last()).0,
        with_links(st, edges, one.drop_last()).1,
        one.last().0,
        one.last().1,
    ));
    if ls2.len() > 0 {
        law_with_links_chain(st, edges, ls1, ls2.drop_last(), f, t);
        assert((ls1 + ls2).drop_last() =~= ls1 + ls2.drop_last());
        assert((ls1 + ls2).last() == ls2.last());
    } else {
        assert(ls1 + ls2 =~= ls1);
    }
}

} // verus!
