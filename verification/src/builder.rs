//! A fluent builder that names vertices by keys and numbers them in order of
//! first appearance.
use vstd::prelude::*;
use vstd::string::*;

use crate::graph::{empty_rows, rows_with_edges, Graph};
use crate::text::{decimal, decimal_string, same_text};
use crate::naming_laws::law_vertices_name_themselves;

verus! {

/// A type whose values can name the vertices of a graph.  Two keys name the
/// same vertex when their views are equal; `label_of` gives the text shown for
/// the vertex.
pub trait VertexKey: View + Sized {
    /// The label of a vertex named by a key with view `key`.
    spec fn label_of(key: Self::V) -> Seq<char>;

    /// Whether two keys name the same vertex.
    fn same_key(&self, other: &Self) -> (r: bool)
        ensures
            r == (self@ == other@),
    ;

    /// A key naming the same vertex.
    fn copy_key(&self) -> (r: Self)
        ensures
            r@ == self@,
    ;

    /// The label of the vertex named by this key.
    fn label(&self) -> (s: String)
        ensures
            s@ == Self::label_of(self@),
    ;
}

impl VertexKey for usize {
    open spec fn label_of(key: usize) -> Seq<char> {
        decimal(key as nat)
    }

    fn same_key(&self, other: &usize) -> (r: bool) {
        *self == *other
    }

    fn copy_key(&self) -> (r: usize) {
        *self
    }

    fn label(&self) -> (s: String) {
        decimal_string(*self)
    }
}

impl<'a> VertexKey for &'a str {
    open spec fn label_of(key: Seq<char>) -> Seq<char> {
        key
    }

    fn same_key(&self, other: &&'a str) -> (r: bool) {
        same_text(*self, *other)
    }

    fn copy_key(&self) -> (r: &'a str) {
        *self
    }

    fn label(&self) -> (s: String) {
        String::from_str(*self)
    }
}

impl VertexKey for String {
    open spec fn label_of(key: Seq<char>) -> Seq<char> {
        key
    }

    fn same_key(&self, other: &String) -> (r: bool) {
        same_text(self.as_str(), other.as_str())
    }

    fn copy_key(&self) -> (r: String) {
        self.clone()
    }

    fn label(&self) -> (s: String) {
        self.clone()
    }
}

/// The position of the last entry with key `k`, or -1 when there is none.
pub open spec fn key_pos<K>(es: Seq<(K, usize)>, k: K) -> int
    decreases es.len(),
{
    if es.len() == 0 {
        -1
    } else if es.last().0 == k {
        es.len() - 1
    } else {
        key_pos(es.drop_last(), k)
    }
}

/// The vertex number recorded for key `k`.
pub open spec fn index_of<K>(es: Seq<(K, usize)>, k: K) -> usize {
    es[key_pos(es, k)].1
}

/// Records `k` with vertex number `idx`: replaces the number of an existing
/// entry for `k`, or appends a new entry.
pub open spec fn insert_key<K>(es: Seq<(K, usize)>, k: K, idx: usize) -> Seq<(K, usize)> {
    if key_pos(es, k) >= 0 {
        es.update(key_pos(es, k), (k, idx))
    } else {
        es.push((k, idx))
    }
}

/// Records each `i < n` as the key of vertex `i`, in increasing order.
pub open spec fn insert_range(es: Seq<(usize, usize)>, n: nat) -> Seq<(usize, usize)>
    decreases n,
{
    if n == 0 {
        es
    } else {
        let i = (n - 1) as usize;
        insert_key(insert_range(es, (n - 1) as nat), i, i)
    }
}

/// The vertex count, the key entries and the next free vertex number after
/// naming a vertex by `k`: a new key gets the next number and adds a vertex.
pub open spec fn with_key<K>(st: (nat, Seq<(K, usize)>, nat), k: K) -> (nat, Seq<(K, usize)>, nat) {
    if key_pos(st.1, k) >= 0 {
        st
    } else {
        (st.0 + 1, st.1.push((k, st.2 as usize)), st.2 + 1)
    }
}

/// Naming the vertices `ks` in order.
pub open spec fn with_keys<K>(st: (nat, Seq<(K, usize)>, nat), ks: Seq<K>) -> (nat, Seq<(K, usize)>, nat)
    decreases ks.len(),
{
    if ks.len() == 0 {
        st
    } else {
        with_key(with_keys(st, ks.drop_last()), ks.last())
    }
}

/// The counters fit in a `usize`.
pub open spec fn fits<K>(st: (nat, Seq<(K, usize)>, nat)) -> bool {
    st.0 <= usize::MAX && st.2 <= usize::MAX
}

/// The state after an edge from the vertex named `from` to the one named `to`
/// (both named first if new).
pub open spec fn with_link<K>(
    st: (nat, Seq<(K, usize)>, nat),
    edges: Seq<(usize, usize)>,
    from: K,
    to: K,
) -> ((nat, Seq<(K, usize)>, nat), Seq<(usize, usize)>) {
    let st2 = with_key(with_key(st, from), to);
    (st2, edges.push((index_of(st2.1, from), index_of(st2.1, to))))
}

/// The state after the edges `ls`, in order.
pub open spec fn with_links<K>(
    st: (nat, Seq<(K, usize)>, nat),
    edges: Seq<(usize, usize)>,
    ls: Seq<(K, K)>,
) -> ((nat, Seq<(K, usize)>, nat), Seq<(usize, usize)>)
    decreases ls.len(),
{
    if ls.len() == 0 {
        (st, edges)
    } else {
        let prev = with_links(st, edges, ls.drop_last());
        with_link(prev.0, prev.1, ls.last().0, ls.last().1)
    }
}

/// The labels of `n` vertices: each vertex takes the label of the last entry
/// naming it, and a vertex without an entry has the empty label.
pub open spec fn label_table<V: VertexKey>(es: Seq<(V::V, usize)>, n: nat) -> Seq<Seq<char>>
    decreases es.len(),
{
    if es.len() == 0 {
        Seq::new(n, |i: int| Seq::<char>::empty())
    } else {
        label_table::<V>(es.drop_last(), n).update(es.last().1 as int, V::label_of(es.last().0))
    }
}

/// Where the last entry for a key is.
pub proof fn lemma_key_pos<K>(es: Seq<(K, usize)>, k: K)
    ensures
        -1 <= key_pos(es, k) < es.len(),
        key_pos(es, k) >= 0 ==> es[key_pos(es, k)].0 == k,
        key_pos(es, k) < 0 ==> forall|i: int| 0 <= i < es.len() ==> es[i].0 != k,
        forall|i: int| key_pos(es, k) < i < es.len() ==> es[i].0 != k,
    decreases es.len(),
{
    if es.len() > 0 {
        lemma_key_pos(es.drop_last(), k);
        if es.last().0 != k {
            assert forall|i: int| key_pos(es, k) < i < es.len() implies es[i].0 != k by {
                if i < es.len() - 1 {
                    assert(es.drop_last()[i] == es[i]);
                }
            }
        }
    }
}

/// Appending an entry for `k2` moves only the position of `k2`.
pub proof fn lemma_key_pos_push<K>(es: Seq<(K, usize)>, k2: K, idx: usize, k: K)
    ensures
        key_pos(es.push((k2, idx)), k) == if k == k2 {
            es.len() as int
        } else {
            key_pos(es, k)
        },
{
    assert(es.push((k2, idx)).drop_last() =~= es);
}

/// Naming vertices never lowers the counters.
pub proof fn lemma_with_keys_grow<K>(st: (nat, Seq<(K, usize)>, nat), ks: Seq<K>, i: int)
    requires
        0 <= i <= ks.len(),
    ensures
        with_keys(st, ks.take(i)).0 <= with_keys(st, ks).0,
        with_keys(st, ks.take(i)).2 <= with_keys(st, ks).2,
    decreases ks.len(),
{
    if i < ks.len() {
        assert(ks.drop_last().take(i) =~= ks.take(i));
        lemma_with_keys_grow(st, ks.drop_last(), i);
    } else {
        assert(ks.take(i) =~= ks);
    }
}

/// Adding edges never lowers the counters.
pub proof fn lemma_with_links_grow<K>(
    st: (nat, Seq<(K, usize)>, nat),
    edges: Seq<(usize, usize)>,
    ls: Seq<(K, K)>,
    i: int,
)
    requires
        0 <= i <= ls.len(),
    ensures
        with_links(st, edges, ls.take(i)).0.0 <= with_links(st, edges, ls).0.0,
        with_links(st, edges, ls.take(i)).0.2 <= with_links(st, edges, ls).0.2,
    decreases ls.len(),
{
    if i < ls.len() {
        assert(ls.drop_last().take(i) =~= ls.take(i));
        lemma_with_links_grow(st, edges, ls.drop_last(), i);
    } else {
        assert(ls.take(i) =~= ls);
    }
}

/// Builder for graphs whose vertices are named by keys of type `V`.
///
/// Each key that is not yet known gets the next vertex number; edges are kept
/// as pairs of vertex numbers until `build`.
pub struct GraphBuilder<V: VertexKey = usize> {
    num_vertices: usize,
    directed: bool,
    vertex_map: Vec<(V, usize)>,
    edges: Vec<(usize, usize)>,
    next_index: usize,
}

impl<V: VertexKey> GraphBuilder<V> {
    /// The number of vertices the graph will have.
    pub closed spec fn vertex_count(&self) -> nat {
        self.num_vertices as nat
    }

    /// Whether the graph will be directed.
    pub closed spec fn directed_flag(&self) -> bool {
        self.directed
    }

    /// The known keys (by view) with their vertex numbers, in order of first appearance.
    pub closed spec fn entries(&self) -> Seq<(V::V, usize)> {
        self.vertex_map@.map_values(|e: (V, usize)| (e.0@, e.1))
    }

    /// The edges recorded so far, as pairs of vertex numbers.
    pub closed spec fn edge_list(&self) -> Seq<(usize, usize)> {
        self.edges@
    }

    /// The number the next new key will get.
    pub closed spec fn next_index(&self) -> nat {
        self.next_index as nat
    }

    /// The vertex count, the key entries and the next free number together.
    pub open spec fn naming(&self) -> (nat, Seq<(V::V, usize)>, nat) {
        (self.vertex_count(), self.entries(), self.next_index())
    }

    /// Where the entry for `key` is, if any.
    fn position(&self, key: &V) -> (r: Option<usize>)
        ensures
            match r {
                Some(p) => p == key_pos(self.entries(), key@),
                None => key_pos(self.entries(), key@) < 0,
            },
    {
        let ghost es = self.entries();
        let mut i = self.vertex_map.len();
        proof {
            assert(es.take(i as int) =~= es);
        }
        while i > 0
            invariant
                es == self.entries(),
                i <= es.len(),
                key_pos(es.take(i as int), key@) == key_pos(es, key@),
            decreases i,
        {
            i -= 1;
            assert(es.take(i as int + 1).drop_last() =~= es.take(i as int));
            assert(self.vertex_map@[i as int].0@ == es[i as int].0);
            if self.vertex_map[i].0.same_key(key) {
                return Some(i);
            }
        }
        None
    }

    /// Names a vertex by `v` and returns its number.
    fn intern(&mut self, v: V) -> (idx: usize)
        requires
            fits(with_key(old(self).naming(), v@)),
        ensures
            final(self).naming() == with_key(old(self).naming(), v@),
            idx == index_of(final(self).entries(), v@),
            final(self).edge_list() == old(self).edge_list(),
            final(self).directed_flag() == old(self).directed_flag(),
    {
        let ghost es = self.entries();
        proof {
            lemma_key_pos(es, v@);
        }
        match self.position(&v) {
            Some(p) => self.vertex_map[p].1,
            None => {
                let i = self.next_index;
                let ghost k = v@;
                self.vertex_map.push((v, i));
                self.next_index = i + 1;
                self.num_vertices = self.num_vertices + 1;
                proof {
                    assert(self.entries() =~= es.push((k, i)));
                    lemma_key_pos_push(es, k, i, k);
                }
                i
            },
        }
    }

    /// Sets whether the graph is directed.
    pub fn directed(self, directed: bool) -> (b: Self)
        ensures
            b.directed_flag() == directed,
            b.naming() == self.naming(),
            b.edge_list() == self.edge_list(),
    {
        let mut b = self;
        b.directed = directed;
        b
    }

    /// Adds a vertex named `v`, unless one is already named so.
    pub fn vertex(self, v: V) -> (b: Self)
        requires
            fits(with_key(self.naming(), v@)),
        ensures
            b.naming() == with_key(self.naming(), v@),
            b.edge_list() == self.edge_list(),
            b.directed_flag() == self.directed_flag(),
    {
        let mut b = self;
        b.intern(v);
        b
    }

    /// Adds the vertices named in `vertices`, in order.
    pub fn vertices_from(self, vertices: Vec<V>) -> (b: Self)
        requires
            fits(with_keys(self.naming(), vertices@.map_values(|v: V| v@))),
        ensures
            b.naming() == with_keys(self.naming(), vertices@.map_values(|v: V| v@)),
            b.edge_list() == self.edge_list(),
            b.directed_flag() == self.directed_flag(),
    {
        let mut b = self;
        let ghost st0 = b.naming();
        let ghost ks = vertices@.map_values(|v: V| v@);
        let ghost edges0 = b.edge_list();
        let ghost dir0 = b.directed_flag();
        assert(ks.take(0) =~= Seq::<V::V>::empty());
        let mut i: usize = 0;
        while i < vertices.len()
            invariant
                ks == vertices@.map_values(|v: V| v@),
                i <= ks.len(),
                fits(with_keys(st0, ks)),
                b.naming() == with_keys(st0, ks.take(i as int)),
                b.edge_list() == edges0,
                b.directed_flag() == dir0,
            decreases ks.len() - i,
        {
            let v = vertices[i].copy_key();
            proof {
                assert(ks.take(i as int + 1).drop_last() =~= ks.take(i as int));
                assert(ks.take(i as int + 1).last() == v@);
                lemma_with_keys_grow(st0, ks, i as int + 1);
            }
            b.intern(v);
            i += 1;
        }
        assert(ks.take(ks.len() as int) =~= ks);
        b
    }

    /// Adds an edge between the vertices named `from` and `to`, naming them
    /// first if they are new.
    pub fn edge(self, from: V, to: V) -> (b: Self)
        requires
            fits(with_link(self.naming(), self.edge_list(), from@, to@).0),
        ensures
            (b.naming(), b.edge_list()) == with_link(self.naming(), self.edge_list(), from@, to@),
            b.directed_flag() == self.directed_flag(),
    {
        let mut b = self;
        let ghost st0 = b.naming();
        let ghost f = from@;
        let ghost t = to@;
        let from_copy = from.copy_key();
        b.intern(from_copy);
        let ghost es1 = b.entries();
        let to_idx = b.intern(to);
        proof {
            lemma_key_pos(es1, f);
            if key_pos(es1, t) < 0 {
                lemma_key_pos_push(es1, t, with_key(st0, f).2 as usize, f);
            }
        }
        let from_idx = match b.position(&from) {
            Some(p) => b.vertex_map[p].1,
            None => 0,
        };
        b.edges.push((from_idx, to_idx));
        b
    }

    /// Adds the edges in `edges`, in order.
    pub fn edges(self, edges: Vec<(V, V)>) -> (b: Self)
        requires
            fits(with_links(self.naming(), self.edge_list(), edges@.map_values(|e: (V, V)| (e.0@, e.1@))).0),
        ensures
            (b.naming(), b.edge_list()) == with_links(
                self.naming(),
                self.edge_list(),
                edges@.map_values(|e: (V, V)| (e.0@, e.1@)),
            ),
            b.directed_flag() == self.directed_flag(),
    {
        let mut b = self;
        let ghost st0 = b.naming();
        let ghost e0 = b.edge_list();
        let ghost dir0 = b.directed_flag();
        let ghost ls = edges@.map_values(|e: (V, V)| (e.0@, e.1@));
        assert(ls.take(0) =~= Seq::<(V::V, V::V)>::empty());
        let mut i: usize = 0;
        while i < edges.len()
            invariant
                ls == edges@.map_values(|e: (V, V)| (e.0@, e.1@)),
                i <= ls.len(),
                fits(with_links(st0, e0, ls).0),
                (b.naming(), b.edge_list()) == with_links(st0, e0, ls.take(i as int)),
                b.directed_flag() == dir0,
            decreases ls.len() - i,
        {
            let from = edges[i].0.copy_key();
            let to = edges[i].1.copy_key();
            proof {
                assert(ls.take(i as int + 1).drop_last() =~= ls.take(i as int));
                assert(ls.take(i as int + 1).last() == (from@, to@));
                lemma_with_links_grow(st0, e0, ls, i as int + 1);
            }
            b = b.edge(from, to);
            i += 1;
        }
        assert(ls.take(ls.len() as int) =~= ls);
        b
    }

    /// Whether `build` can be called: every recorded vertex number is below
    /// the vertex count, and so is every edge end that will be stored.
    pub fn buildable(&self) -> (r: bool)
        ensures
            r == ((forall|i: int| 0 <= i < self.entries().len() ==> (#[trigger] self.entries()[i]).1 < self.vertex_count())
                && (forall|i: int|
                0 <= i < self.edge_list().len() ==> (#[trigger] self.edge_list()[i]).0 < self.vertex_count() && (
                !self.directed_flag() ==> self.edge_list()[i].1 < self.vertex_count()))),
    {
        let ghost es = self.entries();
        let mut k: usize = 0;
        while k < self.vertex_map.len()
            invariant
                es == self.entries(),
                k <= es.len(),
                forall|i: int| 0 <= i < k ==> (#[trigger] es[i]).1 < self.vertex_count(),
            decreases es.len() - k,
        {
            assert(es[k as int].1 == self.vertex_map@[k as int].1);
            if self.vertex_map[k].1 >= self.num_vertices {
                return false;
            }
            k += 1;
        }
        let ghost el = self.edge_list();
        let mut j: usize = 0;
        while j < self.edges.len()
            invariant
                el == self.edge_list(),
                j <= el.len(),
                forall|i: int| 0 <= i < es.len() ==> (#[trigger] es[i]).1 < self.vertex_count(),
                forall|i: int|
                    0 <= i < j ==> (#[trigger] el[i]).0 < self.vertex_count() && (!self.directed_flag() ==> el[i].1
                        < self.vertex_count()),
            decreases el.len() - j,
        {
            let (from, to) = self.edges[j];
            if from >= self.num_vertices || (!self.directed && to >= self.num_vertices) {
                assert(el[j as int] == (from, to));
                return false;
            }
            j += 1;
        }
        true
    }

    /// The graph: one vertex per number below the vertex count, labelled by
    /// the keys that name it, with the recorded edges in order.
    pub fn build(self) -> (g: Graph)
        requires
            forall|i: int| 0 <= i < self.entries().len() ==> (#[trigger] self.entries()[i]).1 < self.vertex_count(),
            forall|i: int|
                0 <= i < self.edge_list().len() ==> (#[trigger] self.edge_list()[i]).0 < self.vertex_count() && (
                !self.directed_flag() ==> self.edge_list()[i].1 < self.vertex_count()),
        ensures
            g.rows() == rows_with_edges(empty_rows(self.vertex_count()), self.directed_flag(), self.edge_list()),
            g.directed_flag() == self.directed_flag(),
            g.labels() == label_table::<V>(self.entries(), self.vertex_count()),
    {
        let ghost es = self.entries();
        let ghost el = self.edge_list();
        let n = self.num_vertices;
        let mut graph = Graph::new(n, self.directed);
        let mut labels: Vec<String> = Vec::new();
        let mut i: usize = 0;
        while i < n
            invariant
                i <= n,
                labels@.len() == i,
                forall|t: int| 0 <= t < i ==> (#[trigger] labels@[t])@ == Seq::<char>::empty(),
            decreases n - i,
        {
            labels.push(String::new());
            i += 1;
        }
        assert(labels@.map_values(|s: String| s@) =~= label_table::<V>(es.take(0), n as nat));
        let mut k: usize = 0;
        while k < self.vertex_map.len()
            invariant
                es == self.entries(),
                n == self.vertex_count(),
                k <= es.len(),
                forall|i: int| 0 <= i < es.len() ==> (#[trigger] es[i]).1 < n,
                labels@.len() == n,
                labels@.map_values(|s: String| s@) == label_table::<V>(es.take(k as int), n as nat),
            decreases es.len() - k,
        {
            let idx = self.vertex_map[k].1;
            let text = self.vertex_map[k].0.label();
            proof {
                assert(es[k as int] == (self.vertex_map@[k as int].0@, idx));
                assert(es.take(k as int + 1).drop_last() =~= es.take(k as int));
            }
            labels.set(idx, text);
            k += 1;
            assert(labels@.map_values(|s: String| s@) =~= label_table::<V>(es.take(k as int), n as nat));
        }
        assert(es.take(es.len() as int) =~= es);
        graph.set_labels(labels);
        let ghost dir = self.directed;
        assert(el.take(0) =~= Seq::<(usize, usize)>::empty());
        let mut j: usize = 0;
        while j < self.edges.len()
            invariant
                el == self.edge_list(),
                n == self.vertex_count(),
                dir == self.directed_flag(),
                j <= el.len(),
                forall|i: int|
                    0 <= i < el.len() ==> (#[trigger] el[i]).0 < n && (!dir ==> el[i].1 < n),
                graph.directed_flag() == dir,
                graph.rows() == rows_with_edges(empty_rows(n as nat), dir, el.take(j as int)),
                graph.rows().len() == n,
                graph.labels() == label_table::<V>(es, n as nat),
            decreases el.len() - j,
        {
            let (from, to) = self.edges[j];
            proof {
                assert(el[j as int] == (from, to));
                assert(el.take(j as int + 1).drop_last() =~= el.take(j as int));
            }
            graph.add_edge(from, to);
            j += 1;
        }
        assert(el.take(el.len() as int) =~= el);
        graph
    }
}

impl GraphBuilder<usize> {
    /// An empty, undirected builder with vertices numbered by themselves.
    pub fn new() -> (b: Self)
        ensures
            b.naming() == (0nat, Seq::<(usize, usize)>::empty(), 0nat),
            b.edge_list() == Seq::<(usize, usize)>::empty(),
            !b.directed_flag(),
    {
        let b = GraphBuilder {
            num_vertices: 0,
            directed: false,
            vertex_map: Vec::new(),
            edges: Vec::new(),
            next_index: 0,
        };
        assert(b.entries() =~= Seq::<(usize, usize)>::empty());
        b
    }

    /// Sets the vertex count to `n` and names each vertex `i < n` by `i`.
    pub fn vertices(self, n: usize) -> (b: Self)
        ensures
            b.vertex_count() == n,
            b.entries() == insert_range(self.entries(), n as nat),
            forall|i: usize| (i as int) < n ==> #[trigger] key_pos(b.entries(), i) >= 0,
            forall|i: usize| (i as int) < n ==> #[trigger] index_of(b.entries(), i) == i,
            b.next_index() == n,
            b.edge_list() == self.edge_list(),
            b.directed_flag() == self.directed_flag(),
    {
        let mut b = self;
        let ghost es0 = b.entries();
        let ghost el0 = b.edge_list();
        let ghost d0 = b.directed_flag();
        b.num_vertices = n;
        assert(insert_range(es0, 0) == es0);
        let mut i: usize = 0;
        while i < n
            invariant
                i <= n,
                b.num_vertices == n,
                b.entries() == insert_range(es0, i as nat),
                b.edge_list() == el0,
                b.directed_flag() == d0,
            decreases n - i,
        {
            let ghost es = b.entries();
            proof {
                lemma_key_pos(es, i);
            }
            match b.position(&i) {
                Some(p) => {
                    b.vertex_map.set(p, (i, i));
                    assert(b.entries() =~= es.update(p as int, (i, i)));
                },
                None => {
                    b.vertex_map.push((i, i));
                    assert(b.entries() =~= es.push((i, i)));
                },
            }
            i += 1;
        }
        b.next_index = n;
        proof {
            law_vertices_name_themselves(es0, n as nat);
        }
        b
    }
}

impl Default for GraphBuilder<usize> {
    fn default() -> (b: Self)
        ensures
            b.naming() == (0nat, Seq::<(usize, usize)>::empty(), 0nat),
            b.edge_list() == Seq::<(usize, usize)>::empty(),
            !b.directed_flag(),
    {
        Self::new()
    }
}

/// A builder for graphs whose vertices are numbered by the caller.
pub fn graph() -> (b: GraphBuilder<usize>)
    ensures
        b.naming() == (0nat, Seq::<(usize, usize)>::empty(), 0nat),
        b.edge_list() == Seq::<(usize, usize)>::empty(),
        !b.directed_flag(),
{
    GraphBuilder::new()
}

/// A builder for graphs whose vertices are named by keys of type `V`.
pub fn graph_with<V: VertexKey>() -> (b: GraphBuilder<V>)
    ensures
        b.naming() == (0nat, Seq::<(V::V, usize)>::empty(), 0nat),
        b.edge_list() == Seq::<(usize, usize)>::empty(),
        !b.directed_flag(),
{
    let b = GraphBuilder { num_vertices: 0, directed: false, vertex_map: Vec::new(), edges: Vec::new(), next_index: 0 };
    assert(b.entries() =~= Seq::<(V::V, usize)>::empty());
    b
}

} // verus!
