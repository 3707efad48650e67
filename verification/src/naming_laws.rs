//! How vertices are named.
//!
//! `vertices(n)` makes every `i < n` a key of vertex `i`, labelled by its
//! decimal notation.  A builder whose vertices were all named by keys gives
//! each new key the next number, and labels that vertex with the key itself:
//! for text keys, the label is the key's full text.
use vstd::prelude::*;

use crate::builder::{
    fits, index_of, insert_key, insert_range, key_pos, label_table, lemma_key_pos, lemma_key_pos_push,
    lemma_with_keys_grow, lemma_with_links_grow, with_key, with_keys, with_link, with_links, VertexKey,
};
use crate::text::decimal;

verus! {

/// Rewriting the number of an entry moves no key.
proof fn lemma_key_pos_update<K>(es: Seq<(K, usize)>, p: int, idx: usize, k: K)
    requires
        0 <= p < es.len(),
    ensures
        key_pos(es.update(p, (es[p].0, idx)), k) == key_pos(es, k),
    decreases es.len(),
{
    let es2 = es.update(p, (es[p].0, idx));
    if p == es.len() - 1 {
        assert(es2.drop_last() =~= es.drop_last());
    } else {
        assert(es2.drop_last() =~= es.drop_last().update(p, (es[p].0, idx)));
        lemma_key_pos_update(es.drop_last(), p, idx, k);
    }
}

/// Recording `k` with a number moves no other key and keeps its number.
proof fn lemma_insert_other<K>(es: Seq<(K, usize)>, k: K, idx: usize, j: K)
    requires
        j != k,
    ensures
        key_pos(insert_key(es, k, idx), j) == key_pos(es, j),
        key_pos(es, j) >= 0 ==> index_of(insert_key(es, k, idx), j) == index_of(es, j),
{
    lemma_key_pos(es, k);
    lemma_key_pos(es, j);
    if key_pos(es, k) >= 0 {
        lemma_key_pos_update(es, key_pos(es, k), idx, j);
    } else {
        lemma_key_pos_push(es, k, idx, j);
    }
}

/// After `vertices(n)` every `i < n` is a key naming vertex `i`, and every
/// other key keeps the entry and the number it had.
pub proof fn law_vertices_name_themselves(es: Seq<(usize, usize)>, n: nat)
    requires
        n <= usize::MAX,
    ensures
        forall|i: usize| (i as int) < n ==> #[trigger] key_pos(insert_range(es, n), i) >= 0,
        forall|i: usize| (i as int) < n ==> #[trigger] index_of(insert_range(es, n), i) == i,
        forall|k: usize|
            (k as int) >= n ==> #[trigger] key_pos(insert_range(es, n), k) == key_pos(es, k) && (key_pos(es, k) >= 0
                ==> index_of(insert_range(es, n), k) == index_of(es, k)),
    decreases n,
{
    if n > 0 {
        let m = (n - 1) as nat;
        let i = m as usize;
        let prev = insert_range(es, m);
        law_vertices_name_themselves(es, m);
        assert(insert_range(es, n) == insert_key(prev, i, i));
        lemma_key_pos(prev, i);
        if key_pos(prev, i) >= 0 {
            lemma_key_pos_update(prev, key_pos(prev, i), i, i);
            assert(prev.update(key_pos(prev, i), (i, i)) == prev.update(key_pos(prev, i), (prev[key_pos(prev, i)].0, i)));
        } else {
            lemma_key_pos_push(prev, i, i, i);
        }
        assert forall|j: usize| (j as int) < n implies #[trigger] key_pos(insert_range(es, n), j) >= 0 && index_of(
            insert_range(es, n),
            j,
        ) == j by {
            if j != i {
                assert((j as int) < m);
                assert(index_of(prev, j) == j);
                assert(key_pos(prev, j) >= 0);
                lemma_insert_other(prev, i, i, j);
                lemma_insert_other(prev, i, i, j);
            } else if key_pos(prev, i) >= 0 {
                assert(insert_range(es, n)[key_pos(prev, i)] == (i, i));
            } else {
                assert(insert_range(es, n)[prev.len() as int] == (i, i));
            }
        }
        assert forall|k: usize| (k as int) >= n implies #[trigger] key_pos(insert_range(es, n), k) == key_pos(es, k) && (
        key_pos(es, k) >= 0 ==> index_of(insert_range(es, n), k) == index_of(es, k)) by {
            lemma_insert_other(prev, i, i, k);
        }
    }
}

/// Entry `i` names vertex `i`, for every entry.
pub open spec fn numbered_by_position<K>(es: Seq<(K, usize)>) -> bool {
    forall|i: int| 0 <= i < es.len() ==> (#[trigger] es[i]).1 == i
}

/// When entry `i` names vertex `i`, vertex `i` has the label of the key of
/// entry `i`, and the vertices past the entries have empty labels.
proof fn lemma_labels_by_position<V: VertexKey>(es: Seq<(V::V, usize)>, n: nat)
    requires
        numbered_by_position(es),
        es.len() <= n,
    ensures
        label_table::<V>(es, n) == Seq::new(
            n,
            |i: int|
                if i < es.len() {
                    V::label_of(es[i].0)
                } else {
                    Seq::<char>::empty()
                },
        ),
    decreases es.len(),
{
    if es.len() > 0 {
        let d = es.drop_last();
        assert(numbered_by_position(d)) by {
            assert forall|i: int| 0 <= i < d.len() implies (#[trigger] d[i]).1 == i by {
                assert(d[i] == es[i]);
            }
        }
        lemma_labels_by_position::<V>(d, n);
        assert(es.last().1 == es.len() - 1);
        assert(label_table::<V>(es, n) =~= Seq::new(
            n,
            |i: int|
                if i < es.len() {
                    V::label_of(es[i].0)
                } else {
                    Seq::<char>::empty()
                },
        ));
    } else {
        assert(label_table::<V>(es, n) =~= Seq::new(
            n,
            |i: int|
                if i < es.len() {
                    V::label_of(es[i].0)
                } else {
                    Seq::<char>::empty()
                },
        ));
    }
}

/// On a fresh builder, `vertices(n)` records `(0, 0), (1, 1), ..., (n - 1, n - 1)`.
proof fn lemma_range_from_empty(n: nat)
    requires
        n <= usize::MAX,
    ensures
        insert_range(Seq::empty(), n) == Seq::new(n, |i: int| (i as usize, i as usize)),
    decreases n,
{
    if n > 0 {
        let m = (n - 1) as nat;
        let prev = insert_range(Seq::<(usize, usize)>::empty(), m);
        lemma_range_from_empty(m);
        lemma_key_pos(prev, m as usize);
        if key_pos(prev, m as usize) >= 0 {
            assert(prev[key_pos(prev, m as usize)].0 == m as usize);
        }
        assert(insert_range(Seq::empty(), n) =~= Seq::new(n, |i: int| (i as usize, i as usize)));
    }
}

/// `vertices(n)` on a fresh builder labels each vertex `i < n` with the
/// decimal notation of `i`.
pub proof fn law_vertices_labels(n: nat)
    requires
        n <= usize::MAX,
    ensures
        forall|i: int| 0 <= i < n ==> #[trigger] label_table::<usize>(insert_range(Seq::empty(), n), n)[i] == decimal(i as nat),
{
    lemma_range_from_empty(n);
    let es = insert_range(Seq::<(usize, usize)>::empty(), n);
    assert(numbered_by_position(es));
    lemma_labels_by_position::<usize>(es, n);
}


/// Every vertex was named by a key: entry `i` names vertex `i`, and the
/// vertex count and the next free number both equal the number of entries.
pub open spec fn named_by_keys<K>(st: (nat, Seq<(K, usize)>, nat)) -> bool {
    &&& st.0 == st.1.len()
    &&& st.2 == st.1.len()
    &&& numbered_by_position(st.1)
}

/// A fresh builder has all its (no) vertices named by keys.
pub proof fn law_named_start<K>()
    ensures
        named_by_keys((0nat, Seq::<(K, usize)>::empty(), 0nat)),
{
}

/// Naming a vertex by a key keeps every vertex named by a key.
pub proof fn law_named_with_key<K>(st: (nat, Seq<(K, usize)>, nat), k: K)
    requires
        named_by_keys(st),
        fits(with_key(st, k)),
    ensures
        named_by_keys(with_key(st, k)),
{
    let st2 = with_key(st, k);
    assert forall|i: int| 0 <= i < st2.1.len() implies (#[trigger] st2.1[i]).1 == i by {
        if i < st.1.len() {
            assert(st2.1[i] == st.1[i]);
            assert(st.1[i].1 == i);
        }
    }
}

/// Adding an edge keeps every vertex named by a key.
pub proof fn law_named_with_link<K>(st: (nat, Seq<(K, usize)>, nat), edges: Seq<(usize, usize)>, f: K, t: K)
    requires
        named_by_keys(st),
        fits(with_link(st, edges, f, t).0),
    ensures
        named_by_keys(with_link(st, edges, f, t).0),
{
    law_named_with_key(st, f);
    law_named_with_key(with_key(st, f), t);
}

/// Naming the vertices `ks` in turn keeps every vertex named by a key.
pub proof fn law_named_with_keys<K>(st: (nat, Seq<(K, usize)>, nat), ks: Seq<K>)
    requires
        named_by_keys(st),
        fits(with_keys(st, ks)),
    ensures
        named_by_keys(with_keys(st, ks)),
    decreases ks.len(),
{
    if ks.len() > 0 {
        lemma_with_keys_grow(st, ks, ks.len() - 1);
        assert(ks.take(ks.len() - 1) =~= ks.drop_last());
        law_named_with_keys(st, ks.drop_last());
        law_named_with_key(with_keys(st, ks.drop_last()), ks.last());
    }
}

/// Adding the edges `ls` in turn keeps every vertex named by a key.
pub proof fn law_named_with_links<K>(st: (nat, Seq<(K, usize)>, nat), edges: Seq<(usize, usize)>, ls: Seq<(K, K)>)
    requires
        named_by_keys(st),
        fits(with_links(st, edges, ls).0),
    ensures
        named_by_keys(with_links(st, edges, ls).0),
    decreases ls.len(),
{
    if ls.len() > 0 {
        lemma_with_links_grow(st, edges, ls, ls.len() - 1);
        assert(ls.take(ls.len() - 1) =~= ls.drop_last());
        law_named_with_links(st, edges, ls.drop_last());
        let prev = with_links(st, edges, ls.drop_last());
        law_named_with_link(prev.0, prev.1, ls.last().0, ls.last().1);
    }
}

/// When every vertex was named by a key, each known key names a vertex of
/// the graph, and that vertex is labelled with the key's label.
pub proof fn law_key_labels<V: VertexKey>(st: (nat, Seq<(V::V, usize)>, nat), k: V::V)
    requires
        named_by_keys(st),
        key_pos(st.1, k) >= 0,
    ensures
        (index_of(st.1, k) as int) < st.0,
        label_table::<V>(st.1, st.0)[index_of(st.1, k) as int] == V::label_of(k),
{
    lemma_key_pos(st.1, k);
    lemma_labels_by_position::<V>(st.1, st.0);
}

/// With text keys, the label of the vertex a key names is the key's full text.
pub proof fn law_text_labels<'a>(st: (nat, Seq<(Seq<char>, usize)>, nat), k: Seq<char>)
    requires
        named_by_keys(st),
        key_pos(st.1, k) >= 0,
    ensures
        (index_of(st.1, k) as int) < st.0,
        label_table::<&'a str>(st.1, st.0)[index_of(st.1, k) as int] == k,
        label_table::<String>(st.1, st.0)[index_of(st.1, k) as int] == k,
{
    law_key_labels::<&'a str>(st, k);
    law_key_labels::<String>(st, k);
}

} // verus!
