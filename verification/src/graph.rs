//! The adjacency-list graph and its elementary operations.
use vstd::prelude::*;

use crate::text::{decimal, decimal_string};
use crate::closure_laws::law_closure_row_shape;
use crate::graph_laws::{increasing, law_sinks, law_sources};
use crate::ordering::{
    fifo_order, is_source, lemma_fifo_push, lemma_no_later_occurrence, lemma_position_in,
    lemma_position_push, lemma_released_by_finish, lemma_released_by_start, lemma_released_by_step,
    position_in, preds_in, release_point, released_by, lemma_cycle_outside, lemma_occurrences_prefix, lemma_occurrences_step, lemma_partial_total,
    lemma_pending_at_least, lemma_pending_bound, lemma_pending_done, lemma_pending_zero,
    lemma_short_misses, lemma_topological_acyclic, occurrences, pending_in, topological_order,
};
use crate::paths::{
    acyclic, has_edge, is_distance, is_walk, lemma_distinct_bound, lemma_frontier, lemma_reaches_trans,
    lemma_walk_push, lemma_walk_single, lemma_walk_take, link, reachable, reaches, row_explored,
    search_frontier, usable, walk_between, walk_of_len, wf_adj,
};

verus! {

/// A graph on the vertices `0..adj.len()`.
///
/// `adj[u]` lists the out-neighbours of `u` in insertion order, repetitions
/// included.  An undirected graph stores each edge in both rows.
#[derive(Debug)]
pub struct Graph {
    pub adj: Vec<Vec<usize>>,
    pub directed: bool,
    vertex_labels: Vec<String>,
}

/// Rows with no entries, one for each of `n` vertices.
pub open spec fn empty_rows(n: nat) -> Seq<Seq<usize>> {
    Seq::new(n, |i: int| Seq::<usize>::empty())
}

/// The labels `"0"`, `"1"`, ... given to `n` fresh vertices.
pub open spec fn index_labels(n: nat) -> Seq<Seq<char>> {
    Seq::new(n, |i: int| decimal(i as nat))
}

/// The rows after inserting the edge `u -> v` (and `v -> u` when undirected).
pub open spec fn with_edge(a: Seq<Seq<usize>>, directed: bool, u: usize, v: usize) -> Seq<Seq<usize>> {
    let a1 = a.update(u as int, a[u as int].push(v));
    if directed {
        a1
    } else {
        a1.update(v as int, a1[v as int].push(u))
    }
}

/// The edge `u -> v` is implied by another walk from `u` to `v` that does not use it.
pub open spec fn redundant(a: Seq<Seq<usize>>, u: usize, v: usize) -> bool {
    reaches(a, Some((u, v)), u, v)
}

/// The entries of the row of `u` that a transitive reduction keeps.
pub open spec fn kept_from(a: Seq<Seq<usize>>, u: usize) -> spec_fn(usize) -> bool {
    |v: usize| !redundant(a, u, v)
}

/// Each row with its redundant entries removed, the rest in their given order.
pub open spec fn reduction_rows(a: Seq<Seq<usize>>) -> Seq<Seq<usize>> {
    Seq::new(a.len(), |u: int| a[u].filter(kept_from(a, u as usize)))
}

/// The vertices `0, 1, ..., n - 1` in increasing order.
pub open spec fn vertex_range(n: nat) -> Seq<usize> {
    Seq::new(n, |j: int| j as usize)
}

/// The targets that round `k` of the closure appends to the row of `i`:
/// reachable through `k` and not yet listed.
pub open spec fn added_in_round(a: Seq<Seq<usize>>, i: usize, k: usize, listed: Seq<usize>) -> spec_fn(
    usize,
) -> bool {
    |j: usize| reachable(a, i, k) && reachable(a, k, j) && !listed.contains(j)
}

/// The row of `i` after the first `k` rounds of the closure: the given
/// row, followed for each round `m < k` by the targets reachable through `m`
/// that were not yet listed, in increasing order.
pub open spec fn closure_row(a: Seq<Seq<usize>>, i: usize, k: nat) -> Seq<usize>
    decreases k,
{
    if k == 0 {
        a[i as int]
    } else {
        let listed = closure_row(a, i, (k - 1) as nat);
        listed + vertex_range(a.len()).filter(added_in_round(a, i, (k - 1) as usize, listed))
    }
}

/// The rows of the transitive closure.
pub open spec fn closure_rows(a: Seq<Seq<usize>>) -> Seq<Seq<usize>> {
    Seq::new(a.len(), |i: int| closure_row(a, i as usize, a.len()))
}

/// Two graphs connect exactly the same pairs of vertices.
pub open spec fn same_reachability(a: Seq<Seq<usize>>, b: Seq<Seq<usize>>) -> bool {
    forall|s: usize, t: usize|
        #![trigger reachable(a, s, t)]
        #![trigger reachable(b, s, t)]
        reachable(a, s, t) == reachable(b, s, t)
}

/// No edge ends at `x`.
pub open spec fn no_incoming(a: Seq<Seq<usize>>) -> spec_fn(usize) -> bool {
    |x: usize| forall|w: usize| !#[trigger] has_edge(a, w, x)
}

/// No edge starts at `x`.
pub open spec fn no_outgoing(a: Seq<Seq<usize>>) -> spec_fn(usize) -> bool {
    |x: usize| a[x as int].len() == 0
}

/// `l` gives each vertex a layer: 0 for a vertex without predecessors, and
/// otherwise one more than the largest layer among its predecessors.
pub open spec fn longest_path_layers(a: Seq<Seq<usize>>, l: Seq<usize>) -> bool {
    &&& l.len() == a.len()
    &&& forall|u: usize, v: usize| #[trigger] has_edge(a, u, v) ==> l[u as int] < l[v as int]
    &&& forall|v: int|
        0 <= v < a.len() ==> #[trigger] l[v] == 0 || exists|u: usize|
            #[trigger] has_edge(a, u, v as usize) && l[u as int] + 1 == l[v]
}

/// The rows after inserting the edges `es` in order.
pub open spec fn rows_with_edges(a: Seq<Seq<usize>>, directed: bool, es: Seq<(usize, usize)>) -> Seq<Seq<usize>>
    decreases es.len(),
{
    if es.len() == 0 {
        a
    } else {
        let prev = rows_with_edges(a, directed, es.drop_last());
        with_edge(prev, directed, es.last().0, es.last().1)
    }
}

/// The number of edges: every row entry of a directed graph, half of them
/// for an undirected graph (which stores each edge in both rows).
pub open spec fn edge_count(a: Seq<Seq<usize>>, directed: bool) -> nat {
    if directed {
        total_entries(a)
    } else {
        total_entries(a) / 2
    }
}

/// The number of entries in all rows together.
pub open spec fn total_entries(a: Seq<Seq<usize>>) -> nat
    decreases a.len(),
{
    if a.len() == 0 {
        0
    } else {
        total_entries(a.drop_last()) + a.last().len()
    }
}

impl Graph {
    /// The rows of the graph: `rows()[u]` is `adj[u]` viewed as a sequence,
    /// and `rows().len()` is `adj.len()`.  (Public specifications cannot read
    /// the fields of `Graph` because one of them is private, so this view is
    /// closed; its body is `self.adj@.map_values(|r: Vec<usize>| r@)`.)
    pub closed spec fn rows(&self) -> Seq<Seq<usize>> {
        self.adj@.map_values(|r: Vec<usize>| r@)
    }

    /// The field `directed`: whether the edges are directed.
    pub closed spec fn directed_flag(&self) -> bool {
        self.directed
    }

    /// The vertex labels (the private field `vertex_labels`), each as a
    /// sequence of characters.
    pub closed spec fn labels(&self) -> Seq<Seq<char>> {
        self.vertex_labels@.map_values(|s: String| s@)
    }

    /// Every edge ends at a vertex of the graph.
    pub open spec fn wf(&self) -> bool {
        wf_adj(self.rows())
    }

    /// A graph on `n` vertices without edges, labelled by their indices.
    pub fn new(n: usize, directed: bool) -> (g: Self)
        ensures
            g.rows() == empty_rows(n as nat),
            g.directed_flag() == directed,
            g.labels() == index_labels(n as nat),
            g.wf(),
    {
        let mut adj: Vec<Vec<usize>> = Vec::new();
        let mut vertex_labels: Vec<String> = Vec::new();
        let mut i: usize = 0;
        while i < n
            invariant
                i <= n,
                adj@.len() == i,
                vertex_labels@.len() == i,
                forall|k: int| 0 <= k < i ==> (#[trigger] adj@[k])@ == Seq::<usize>::empty(),
                forall|k: int| 0 <= k < i ==> (#[trigger] vertex_labels@[k])@ == decimal(k as nat),
            decreases n - i,
        {
            adj.push(Vec::new());
            vertex_labels.push(decimal_string(i));
            i += 1;
        }
        let g = Graph { adj, directed, vertex_labels };
        assert(g.rows() =~= empty_rows(n as nat));
        assert(g.labels() =~= index_labels(n as nat));
        g
    }

    /// The field `directed`: whether the edges are directed.
    pub fn is_directed(&self) -> (r: bool)
        ensures
            r == self.directed_flag(),
    {
        self.directed
    }

    /// Replaces the vertex labels.
    pub fn set_labels(&mut self, labels: Vec<String>)
        ensures
            final(self).labels() == labels@.map_values(|s: String| s@),
            final(self).rows() == old(self).rows(),
            final(self).directed_flag() == old(self).directed_flag(),
    {
        self.vertex_labels = labels;
    }

    /// The label of vertex `index`, or the empty text when it has none.
    pub fn get_label(&self, index: usize) -> (s: &str)
        ensures
            s@ == (if (index as int) < self.labels().len() {
                self.labels()[index as int]
            } else {
                Seq::<char>::empty()
            }),
    {
        if index < self.vertex_labels.len() {
            self.vertex_labels[index].as_str()
        } else {
            proof {
                reveal_strlit("");
            }
            ""
        }
    }

    /// Inserts the edge `u -> v`, and also `v -> u` when undirected.
    pub fn add_edge(&mut self, u: usize, v: usize)
        requires
            (u as int) < old(self).rows().len(),
            !old(self).directed_flag() ==> (v as int) < old(self).rows().len(),
        ensures
            final(self).rows() == with_edge(old(self).rows(), old(self).directed_flag(), u, v),
            final(self).directed_flag() == old(self).directed_flag(),
            final(self).labels() == old(self).labels(),
                {
        let ghost a = self.rows();
        self.adj[u].push(v);
        if !self.directed {
            self.adj[v].push(u);
        }
        assert(self.rows() =~= with_edge(a, self.directed, u, v));
    }

    /// Breadth-first search from `src` for `target`, never using the edge `skip`.
    /// Returns the number of edges of a shortest such walk.
    fn search(&self, src: usize, target: usize, skip: Option<(usize, usize)>) -> (r: Option<usize>)
        requires
            self.wf(),
            (src as int) < self.rows().len(),
            src != target,
        ensures
            match r {
                Some(d) => is_distance(self.rows(), skip, src, target, d as nat),
                None => !reaches(self.rows(), skip, src, target),
            },
    {
        let ghost a = self.rows();
        let n = self.adj.len();
        let mut visited: Vec<bool> = Vec::new();
        let mut i: usize = 0;
        while i < n
            invariant
                i <= n,
                visited@.len() == i,
                forall|k: int| 0 <= k < i ==> !(#[trigger] visited@[k]),
            decreases n - i,
        {
            visited.push(false);
            i += 1;
        }
        let mut order: Vec<usize> = Vec::new();
        let mut dist: Vec<usize> = Vec::new();
        order.push(src);
        dist.push(0);
        visited.set(src, true);
        proof {
            lemma_walk_single(a, skip, src);
            assert forall|i: int, q: Seq<usize>|
                0 <= i < order@.len() && #[trigger] walk_between(a, skip, q, order@[0], order@[i])
                implies q.len() >= dist@[i] + 1 by {}
            assert(order@.contains(src));
            assert(walk_between(a, skip, seq![src], src, src));
            assert(walk_of_len(a, skip, src, order@[0], dist@[0] + 1));
        }
        let mut head: usize = 0;
        while head < order.len()
            invariant
                a == self.rows(),
                n == a.len(),
                wf_adj(a),
                src < n,
                src != target,
                visited@.len() == n,
                order@[0] == src,
                dist@[0] == 0,
                order@.len() <= n,
                search_frontier(a, skip, order@, dist@, head as int),
                order@.no_duplicates(),
                forall|i: int| 0 <= i < order@.len() ==> (#[trigger] order@[i]) < n && order@[i] != target,
                forall|x: int| 0 <= x < n ==> (#[trigger] visited@[x] <==> order@.contains(x as usize)),
                head < order@.len() ==> forall|j: int|
                    0 <= j < order@.len() ==> #[trigger] dist@[j] <= dist@[head as int] + 1,
                forall|i: int| 0 <= i < order@.len() ==> #[trigger] dist@[i] <= i,
                forall|i: int| 0 <= i < order@.len() ==> walk_of_len(a, skip, src, #[trigger] order@[i], dist@[i] + 1),
            decreases n - head,
        {
            let curr = order[head];
            let d = dist[head];
            let row = &self.adj[curr];
            assert(walk_of_len(a, skip, src, order@[head as int], dist@[head as int] + 1));
            let ghost wc = choose|q: Seq<usize>|
                #[trigger] walk_between(a, skip, q, src, curr) && q.len() == d + 1;
            assert(row@ == a[curr as int]);
            let mut j: usize = 0;
            while j < row.len()
                invariant
                    a == self.rows(),
                    n == a.len(),
                    wf_adj(a),
                    src < n,
                    src != target,
                    visited@.len() == n,
                    order@[0] == src,
                    dist@[0] == 0,
                    order@.len() <= n,
                    head < order@.len(),
                    curr == order@[head as int],
                    d == dist@[head as int],
                    row@ == a[curr as int],
                    j <= row@.len(),
                    walk_between(a, skip, wc, src, curr),
                    wc.len() == d + 1,
                    search_frontier(a, skip, order@, dist@, head as int),
                    row_explored(a, skip, order@, curr, j as int),
                    order@.no_duplicates(),
                    forall|i: int| 0 <= i < order@.len() ==> (#[trigger] order@[i]) < n && order@[i] != target,
                    forall|x: int| 0 <= x < n ==> (#[trigger] visited@[x] <==> order@.contains(x as usize)),
                    forall|j: int| 0 <= j < order@.len() ==> #[trigger] dist@[j] <= d + 1,
                    forall|i: int| 0 <= i < order@.len() ==> #[trigger] dist@[i] <= i,
                    forall|i: int| 0 <= i < order@.len() ==> walk_of_len(a, skip, src, #[trigger] order@[i], dist@[i] + 1),
                decreases row@.len() - j,
            {
                let next = row[j];
                let skipped = match skip {
                    Some(e) => e.0 == curr && e.1 == next,
                    None => false,
                };
                assert(a[curr as int].contains(next));
                if !skipped {
                    assert(usable(a, skip, curr, next));
                    if next == target {
                        proof {
                            lemma_walk_push(a, skip, wc, next);
                            assert(walk_between(a, skip, wc.push(next), src, target));
                            assert forall|p: Seq<usize>| #[trigger] walk_between(a, skip, p, src, target)
                                implies p.len() >= (d + 1) as nat + 1 by {
                                lemma_frontier(a, skip, order@, dist@, head as int, p, target);
                            }
                        }
                        return Some(d + 1);
                    }
                    if !visited[next] {
                        let ghost o0 = order@;
                        let ghost d0 = dist@;
                        assert(!o0.contains(next));
                        proof {
                            assert forall|p: Seq<usize>| #[trigger] walk_between(a, skip, p, src, next)
                                implies p.len() >= d + 2 by {
                                lemma_frontier(a, skip, o0, d0, head as int, p, next);
                            }
                            lemma_distinct_bound(o0.push(next), n);
                            lemma_walk_push(a, skip, wc, next);
                        }
                        visited.set(next, true);
                        order.push(next);
                        dist.push(d + 1);
                        proof {
                            let o = order@;
                            let ds = dist@;
                            assert(o =~= o0.push(next));
                            assert forall|i: int| 0 <= i < head implies
                                row_explored(a, skip, o, #[trigger] o[i], a[o[i] as int].len() as int) by {
                                assert(o[i] == o0[i]);
                                assert(row_explored(a, skip, o0, o0[i], a[o0[i] as int].len() as int));
                                assert forall|k: int| 0 <= k < a[o[i] as int].len()
                                    && usable(a, skip, o[i], #[trigger] a[o[i] as int][k])
                                    implies o.contains(a[o[i] as int][k]) by {
                                    let y = a[o[i] as int][k];
                                    assert(o0.contains(y));
                                    let t = choose|t: int| 0 <= t < o0.len() && o0[t] == y;
                                    assert(o[t] == y);
                                }
                            }
                            assert forall|k: int| 0 <= k < j + 1
                                && usable(a, skip, curr, #[trigger] a[curr as int][k])
                                implies o.contains(a[curr as int][k]) by {
                                let y = a[curr as int][k];
                                if k == j {
                                    assert(o[o0.len() as int] == y);
                                } else {
                                    assert(o0.contains(y));
                                    let t = choose|t: int| 0 <= t < o0.len() && o0[t] == y;
                                    assert(o[t] == y);
                                }
                            }
                            assert forall|i: int, q: Seq<usize>|
                                0 <= i < o.len() && #[trigger] walk_between(a, skip, q, o[0], o[i])
                                implies q.len() >= ds[i] + 1 by {
                                if i < o0.len() {
                                    assert(o0[i] == o[i]);
                                }
                            }
                            assert forall|i: int| 0 <= i < o.len() implies
                                walk_of_len(a, skip, src, #[trigger] o[i], ds[i] + 1) by {
                                if i == o0.len() {
                                    assert(walk_between(a, skip, wc.push(next), src, o[i]));
                                } else {
                                    assert(o0[i] == o[i]);
                                }
                            }
                            assert forall|x: int| 0 <= x < n implies
                                (#[trigger] visited@[x] <==> o.contains(x as usize)) by {
                                if o0.contains(x as usize) {
                                    let t = choose|t: int| 0 <= t < o0.len() && o0[t] == x as usize;
                                    assert(o[t] == x as usize);
                                }
                                if o.contains(x as usize) && x as usize != next {
                                    let t = choose|t: int| 0 <= t < o.len() && o[t] == x as usize;
                                    assert(o0[t] == x as usize);
                                }
                            }
                        }
                    } else {
                        proof {
                            assert forall|k: int| 0 <= k < j + 1
                                && usable(a, skip, curr, #[trigger] a[curr as int][k])
                                implies order@.contains(a[curr as int][k]) by {
                                if k == j {
                                    assert(visited@[next as int]);
                                }
                            }
                        }
                    }
                } else {
                    assert(!usable(a, skip, curr, a[curr as int][j as int]));
                }
                j += 1;
            }
            head += 1;
            proof {
                assert(row_explored(a, skip, order@, order@[head - 1], a[order@[head - 1] as int].len() as int));
            }
        }
        proof {
            assert forall|p: Seq<usize>| #[trigger] walk_between(a, skip, p, src, target) implies false by {
                lemma_frontier(a, skip, order@, dist@, head as int, p, target);
            }
        }
        None
    }

    /// Whether some walk leads from `u` to `v` (every vertex reaches itself).
    pub fn has_path(&self, u: usize, v: usize) -> (r: bool)
        requires
            u == v || (self.wf() && (u as int) < self.rows().len()),
        ensures
            r == reachable(self.rows(), u, v),
    {
        if u == v {
            proof {
                lemma_walk_single(self.rows(), None, u);
            }
            return true;
        }
        self.search(u, v, None).is_some()
    }

    /// The number of edges of a shortest walk from `src` to `target` that does not
    /// use the edge `avoid`, or `None` when there is no such walk.
    pub fn shortest_path_avoiding(&self, src: usize, target: usize, avoid: (usize, usize)) -> (r: Option<usize>)
        requires
            src == target || (self.wf() && (src as int) < self.rows().len()),
        ensures
            match r {
                Some(d) => is_distance(self.rows(), Some(avoid), src, target, d as nat),
                None => !reaches(self.rows(), Some(avoid), src, target),
            },
    {
        if src == target {
            proof {
                lemma_walk_single(self.rows(), Some(avoid), src);
            }
            return Some(0);
        }
        self.search(src, target, Some(avoid))
    }

    /// The transitive reduction: every edge `u -> v` for which some other walk
    /// from `u` to `v` exists is dropped; the rest are kept in order.
    pub fn transitive_reduction(&self) -> (r: Graph)
        requires
            self.directed_flag(),
            self.wf(),
        ensures
            r.rows() == reduction_rows(self.rows()),
            r.directed_flag(),
            r.labels() == index_labels(self.rows().len()),
            r.wf(),
    {
        let ghost a = self.rows();
        let n = self.num_vertices();
        let mut reduced = Graph::new(n, true);
        let mut u: usize = 0;
        while u < n
            invariant
                a == self.rows(),
                n == a.len(),
                wf_adj(a),
                self.wf(),
                u <= n,
                reduced.directed_flag(),
                reduced.labels() == index_labels(n as nat),
                reduced.rows() == Seq::new(n as nat, |x: int|
                    if x < u { a[x].filter(kept_from(a, x as usize)) } else { Seq::<usize>::empty() }),
            decreases n - u,
        {
            let row = &self.adj[u];
            assert(row@ == a[u as int]);
            proof {
                reveal(Seq::filter);
                assert(a[u as int].take(0) =~= Seq::<usize>::empty());
                assert(a[u as int].take(0).filter(kept_from(a, u)) =~= Seq::<usize>::empty());
                assert(reduced.rows() =~= Seq::new(n as nat, |x: int|
                    if x < u {
                        a[x].filter(kept_from(a, x as usize))
                    } else if x == u {
                        a[x].take(0).filter(kept_from(a, x as usize))
                    } else {
                        Seq::<usize>::empty()
                    }));
            }
            let mut j: usize = 0;
            while j < row.len()
                invariant
                    a == self.rows(),
                    n == a.len(),
                    wf_adj(a),
                    self.wf(),
                    u < n,
                    row@ == a[u as int],
                    j <= row@.len(),
                    reduced.directed_flag(),
                    reduced.labels() == index_labels(n as nat),
                    reduced.rows() == Seq::new(n as nat, |x: int|
                        if x < u {
                            a[x].filter(kept_from(a, x as usize))
                        } else if x == u {
                            a[x].take(j as int).filter(kept_from(a, x as usize))
                        } else {
                            Seq::<usize>::empty()
                        }),
                decreases row@.len() - j,
            {
                let v = row[j];
                let ghost before = reduced.rows();
                proof {
                    assert(a[u as int].take(j as int + 1) =~= a[u as int].take(j as int).push(v));
                    a[u as int].take(j as int).lemma_filter_push(v, kept_from(a, u));
                }
                if self.shortest_path_avoiding(u, v, (u, v)).is_none() {
                    reduced.add_edge(u, v);
                }
                j += 1;
                assert(reduced.rows() =~= Seq::new(n as nat, |x: int|
                    if x < u {
                        a[x].filter(kept_from(a, x as usize))
                    } else if x == u {
                        a[x].take(j as int).filter(kept_from(a, x as usize))
                    } else {
                        Seq::<usize>::empty()
                    }));
            }
            assert(a[u as int].take(row@.len() as int) =~= a[u as int]);
            u += 1;
            assert(reduced.rows() =~= Seq::new(n as nat, |x: int|
                if x < u { a[x].filter(kept_from(a, x as usize)) } else { Seq::<usize>::empty() }));
        }
        assert(reduced.rows() =~= reduction_rows(a));
        proof {
            lemma_reduction_within(a);
        }
        reduced
    }

    /// The transitive closure: the row of each vertex `i` is extended, round by
    /// round over `k = 0, 1, ...`, with every `j` reachable from `i` through `k`
    /// that it does not yet list (so every vertex also gets an edge to itself).
    pub fn transitive_closure(&self) -> (r: Graph)
        requires
            self.wf(),
        ensures
            r.rows() == closure_rows(self.rows()),
            r.directed_flag() == self.directed_flag(),
            r.labels() == self.labels(),
            r.wf(),
            forall|i: int|
                0 <= i < self.rows().len() ==> (#[trigger] r.rows()[i]).take(self.rows()[i].len() as int)
                    == self.rows()[i] && r.rows()[i].skip(self.rows()[i].len() as int).no_duplicates(),
            forall|i: usize, j: usize|
                (i as int) < self.rows().len() ==> (#[trigger] r.rows()[i as int].skip(
                    self.rows()[i as int].len() as int,
                ).contains(j) <==> reachable(self.rows(), i, j) && !self.rows()[i as int].contains(j)),
    {
        let ghost a = self.rows();
        let n = self.num_vertices();
        let mut closure = self.clone();
        proof {
            assert(closure.rows() =~= Seq::new(n as nat, |x: int| closure_row(a, x as usize, 0)));
        }
        let mut k: usize = 0;
        while k < n
            invariant
                a == self.rows(),
                n == a.len(),
                wf_adj(a),
                k <= n,
                closure.wf(),
                closure.directed_flag() == self.directed_flag(),
                closure.labels() == self.labels(),
                same_reachability(closure.rows(), a),
                closure.rows() == Seq::new(n as nat, |x: int| closure_row(a, x as usize, k as nat)),
            decreases n - k,
        {
            let mut i: usize = 0;
            while i < n
                invariant
                    a == self.rows(),
                    n == a.len(),
                    wf_adj(a),
                    k < n,
                    i <= n,
                    closure.wf(),
                    closure.directed_flag() == self.directed_flag(),
                    closure.labels() == self.labels(),
                    same_reachability(closure.rows(), a),
                    closure.rows() == Seq::new(n as nat, |x: int|
                        if x < i { closure_row(a, x as usize, (k + 1) as nat) } else { closure_row(a, x as usize, k as nat) }),
                decreases n - i,
            {
                let ghost listed = closure_row(a, i, k as nat);
                let ghost pick = added_in_round(a, i, k, listed);
                proof {
                    reveal(Seq::filter);
                    assert(vertex_range(n as nat).take(0) =~= Seq::<usize>::empty());
                    assert(listed + vertex_range(n as nat).take(0).filter(pick) =~= listed);
                }
                let mut j: usize = 0;
                while j < n
                    invariant
                        a == self.rows(),
                        n == a.len(),
                        wf_adj(a),
                        k < n,
                        i < n,
                        j <= n,
                        listed == closure_row(a, i, k as nat),
                        pick == added_in_round(a, i, k, listed),
                        closure.wf(),
                        closure.directed_flag() == self.directed_flag(),
                        closure.labels() == self.labels(),
                        same_reachability(closure.rows(), a),
                        closure.rows() == Seq::new(n as nat, |x: int|
                            if x < i {
                                closure_row(a, x as usize, (k + 1) as nat)
                            } else if x == i {
                                listed + vertex_range(n as nat).take(j as int).filter(pick)
                            } else {
                                closure_row(a, x as usize, k as nat)
                            }),
                    decreases n - j,
                {
                    let ghost before = closure.rows();
                    let ghost part = vertex_range(n as nat).take(j as int).filter(pick);
                    proof {
                        assert(vertex_range(n as nat).take(j as int + 1) =~= vertex_range(n as nat).take(j as int).push(j));
                        vertex_range(n as nat).take(j as int).lemma_filter_push(j, pick);
                        assert forall|y: usize| part.contains(y) implies y < j by {
                            vertex_range(n as nat).take(j as int).lemma_filter_contains_rev(pick, y);
                        }
                        assert(before[i as int] == listed + part);
                        assert(before[i as int].contains(j) <==> listed.contains(j)) by {
                            if before[i as int].contains(j) && !listed.contains(j) {
                                let t = choose|t: int| 0 <= t < before[i as int].len() && before[i as int][t] == j;
                                if t < listed.len() {
                                    assert(listed.contains(j));
                                } else {
                                    assert(part[t - listed.len()] == j);
                                    assert(part.contains(j));
                                }
                            }
                            if listed.contains(j) {
                                let t = choose|t: int| 0 <= t < listed.len() && listed[t] == j;
                                assert(before[i as int][t] == j);
                            }
                        }
                    }
                    if closure.has_path(i, k) && closure.has_path(k, j) {
                        if !row_contains(&closure.adj[i], j) {
                            proof {
                                lemma_reaches_trans(a, None, i, k, j);
                                lemma_extend_reachable(before, i, j);
                            }
                            closure.add_edge_unchecked_directed(i, j);
                        }
                    }
                    j += 1;
                    assert(closure.rows() =~= Seq::new(n as nat, |x: int|
                        if x < i {
                            closure_row(a, x as usize, (k + 1) as nat)
                        } else if x == i {
                            listed + vertex_range(n as nat).take(j as int).filter(pick)
                        } else {
                            closure_row(a, x as usize, k as nat)
                        }));
                }
                assert(vertex_range(n as nat).take(n as int) =~= vertex_range(n as nat));
                i += 1;
                assert(closure.rows() =~= Seq::new(n as nat, |x: int|
                    if x < i { closure_row(a, x as usize, (k + 1) as nat) } else { closure_row(a, x as usize, k as nat) }));
            }
            k += 1;
            assert(closure.rows() =~= Seq::new(n as nat, |x: int| closure_row(a, x as usize, k as nat)));
        }
        assert(closure.rows() =~= closure_rows(a));
        proof {
            assert forall|i: int| 0 <= i < a.len() implies (#[trigger] closure_rows(a)[i]).take(a[i].len() as int)
                == a[i] && closure_rows(a)[i].skip(a[i].len() as int).no_duplicates() by {
                law_closure_row_shape(a, i as usize);
            }
            assert forall|i: usize, j: usize| (i as int) < a.len() implies (#[trigger] closure_rows(a)[i as int].skip(
                a[i as int].len() as int,
            ).contains(j) <==> reachable(a, i, j) && !a[i as int].contains(j)) by {
                law_closure_row_shape(a, i);
            }
        }
        closure
    }

    /// Appends `j` to the row of `i`, whatever the kind of graph.
    fn add_edge_unchecked_directed(&mut self, i: usize, j: usize)
        requires
            (i as int) < old(self).rows().len(),
            (j as int) < old(self).rows().len(),
            old(self).wf(),
        ensures
            final(self).rows() == old(self).rows().update(i as int, old(self).rows()[i as int].push(j)),
            final(self).directed_flag() == old(self).directed_flag(),
            final(self).labels() == old(self).labels(),
            final(self).wf(),
    {
        let ghost a = self.rows();
        self.adj[i].push(j);
        assert(self.rows() =~= a.update(i as int, a[i as int].push(j)));
    }

    /// A topological order found by Kahn's algorithm (vertices without pending
    /// incoming edges are taken first-in, first-out), or `None` when the graph
    /// is undirected or has a cycle.
    pub fn topological_sort(&self) -> (r: Option<Vec<usize>>)
        requires
            self.directed_flag() ==> self.wf() && total_entries(self.rows()) <= usize::MAX,
        ensures
            !self.directed_flag() ==> r is None,
            self.directed_flag() ==> (r is Some <==> acyclic(self.rows())),
            r matches Some(o) ==> topological_order(self.rows(), o@) && fifo_order(self.rows(), o@),
    {
        if !self.directed {
            return None;
        }
        let ghost a = self.rows();
        let n = self.adj.len();
        let ghost none: Seq<usize> = Seq::empty();
        let mut in_degree: Vec<usize> = Vec::new();
        let mut i: usize = 0;
        while i < n
            invariant
                i <= n,
                in_degree@.len() == i,
                forall|x: int| 0 <= x < i ==> #[trigger] in_degree@[x] == 0,
            decreases n - i,
        {
            in_degree.push(0);
            i += 1;
        }
        let mut w: usize = 0;
        while w < n
            invariant
                a == self.rows(),
                n == a.len(),
                wf_adj(a),
                total_entries(a) <= usize::MAX,
                none == Seq::<usize>::empty(),
                w <= n,
                in_degree@.len() == n,
                forall|x: int| 0 <= x < n ==> #[trigger] in_degree@[x] == pending_in(a, none, x as usize, w as nat),
            decreases n - w,
        {
            let row = &self.adj[w];
            assert(row@ == a[w as int]);
            assert(a[w as int].take(0) =~= Seq::<usize>::empty());
            let mut j: usize = 0;
            while j < row.len()
                invariant
                    a == self.rows(),
                    n == a.len(),
                    wf_adj(a),
                    total_entries(a) <= usize::MAX,
                    none == Seq::<usize>::empty(),
                    w < n,
                    row@ == a[w as int],
                    j <= row@.len(),
                    in_degree@.len() == n,
                    forall|x: int| 0 <= x < n ==> #[trigger] in_degree@[x]
                        == pending_in(a, none, x as usize, w as nat) + occurrences(a[w as int].take(j as int), x as usize),
                decreases row@.len() - j,
            {
                let v = row[j];
                proof {
                    assert(a[w as int][j as int] == v);
                    lemma_pending_bound(a, v, w as nat);
                    lemma_occurrences_prefix(a[w as int].take(j as int), j as int, v);
                    assert(a[w as int].take(j as int).take(j as int) =~= a[w as int].take(j as int));
                    lemma_partial_total(a, w as int, j as int + 1);
                    assert forall|x: int| 0 <= x < n implies #[trigger] occurrences(a[w as int].take(j as int + 1), x as usize)
                        == occurrences(a[w as int].take(j as int), x as usize) + if a[w as int][j as int] == x as usize {
                            1nat
                        } else {
                            0nat
                        } by {
                        lemma_occurrences_step(a[w as int], j as int, x as usize);
                    }
                }
                let c = in_degree[v];
                in_degree.set(v, c + 1);
                j += 1;
            }
            proof {
                assert(a[w as int].take(row@.len() as int) =~= a[w as int]);
                assert(!none.contains(w));
            }
            w += 1;
        }
        let mut order: Vec<usize> = Vec::new();
        let mut x: usize = 0;
        while x < n
            invariant
                a == self.rows(),
                n == a.len(),
                wf_adj(a),
                x <= n,
                none == Seq::<usize>::empty(),
                in_degree@.len() == n,
                forall|y: int| 0 <= y < n ==> #[trigger] in_degree@[y] == pending_in(a, none, y as usize, n as nat),
                order@.no_duplicates(),
                forall|i: int| 0 <= i < order@.len() ==> (#[trigger] order@[i]) < x,
                forall|i: int, k: int| 0 <= i < k < order@.len() ==> #[trigger] order@[i] < #[trigger] order@[k],
                forall|y: int| 0 <= y < n ==> (order@.contains(y as usize) <==> (y < x && #[trigger] in_degree@[y] == 0)),
            decreases n - x,
        {
            if in_degree[x] == 0 {
                let ghost o0 = order@;
                order.push(x);
                proof {
                    assert(order@ =~= o0.push(x));
                    assert forall|y: int| 0 <= y < n implies (order@.contains(y as usize) <==> (y < x + 1 && #[trigger] in_degree@[y] == 0)) by {
                        if y < x && in_degree@[y] == 0 {
                            assert(o0.contains(y as usize));
                            let t = choose|t: int| 0 <= t < o0.len() && o0[t] == y as usize;
                            assert(order@[t] == y as usize);
                        }
                        if y == x {
                            assert(order@[o0.len() as int] == x);
                        }
                        if order@.contains(y as usize) && y != x {
                            let t = choose|t: int| 0 <= t < order@.len() && order@[t] == y as usize;
                            assert(o0[t] == y as usize);
                        }
                    }
                }
            }
            x += 1;
        }
        proof {
            assert(order@.take(0) =~= none);
            assert forall|q: int, z: usize| 0 <= q < order@.len() && #[trigger] has_edge(a, z, order@[q])
                implies exists|p: int| 0 <= p < q && order@[p] == z by {
                let y = order@[q];
                assert(order@.contains(y));
                assert((y as int) < n);
                assert(in_degree@[y as int] == 0);
                assert(pending_in(a, none, y, n as nat) == 0);
                lemma_pending_zero(a, none, y, n as nat);
                assert(!none.contains(z));
                assert(a[z as int].contains(y));
            }
            assert forall|i: int| 0 <= i < order@.len() implies is_source(a, #[trigger] order@[i]) by {
                let y = order@[i];
                assert(order@.contains(y));
                assert(in_degree@[y as int] == 0);
                lemma_pending_zero(a, none, y, n as nat);
                assert forall|z: usize| !#[trigger] has_edge(a, z, y) by {
                    if has_edge(a, z, y) {
                        assert(!none.contains(z));
                        assert(a[z as int].contains(y));
                    }
                }
            }
            assert(fifo_order(a, order@));
            assert(released_by(a, order@, 0, 0, 0));
            lemma_distinct_bound(order@, n);
        }
        let mut head: usize = 0;
        while head < order.len()
            invariant
                a == self.rows(),
                n == a.len(),
                wf_adj(a),
                in_degree@.len() == n,
                head <= order@.len(),
                order@.len() <= n,
                order@.no_duplicates(),
                forall|i: int| 0 <= i < order@.len() ==> (#[trigger] order@[i]) < n,
                forall|y: int| 0 <= y < n ==> #[trigger] in_degree@[y]
                    == pending_in(a, order@.take(head as int), y as usize, n as nat),
                forall|y: int| 0 <= y < n ==> (order@.contains(y as usize) <==> #[trigger] in_degree@[y] == 0),
                forall|q: int, z: usize| 0 <= q < order@.len() && #[trigger] has_edge(a, z, order@[q])
                    ==> exists|p: int| 0 <= p < q && order@[p] == z,
                fifo_order(a, order@),
                released_by(a, order@, head as int, 0, 0),
            decreases n - head,
        {
            let u = order[head];
            let ghost done = order@.take(head as int);
            let row = &self.adj[u];
            proof {
                assert(row@ == a[u as int]);
                assert(a[u as int].take(0) =~= Seq::<usize>::empty());
                assert(!done.contains(u)) by {
                    if done.contains(u) {
                        let t = choose|t: int| 0 <= t < done.len() && done[t] == u;
                        assert(order@[t] == order@[head as int]);
                    }
                }
                lemma_released_by_start(a, order@, head as int, 0, u);
                lemma_position_in(order@, head as int);
            }
            let mut j: usize = 0;
            while j < row.len()
                invariant
                    a == self.rows(),
                    n == a.len(),
                    wf_adj(a),
                    in_degree@.len() == n,
                    head < order@.len(),
                    u == order@[head as int],
                    row@ == a[u as int],
                    j <= row@.len(),
                    done == order@.take(head as int),
                    !done.contains(u),
                    order@.len() <= n,
                    order@.no_duplicates(),
                    forall|i: int| 0 <= i < order@.len() ==> (#[trigger] order@[i]) < n,
                    forall|y: int| 0 <= y < n ==> #[trigger] in_degree@[y]
                        + occurrences(a[u as int].take(j as int), y as usize) == pending_in(a, done, y as usize, n as nat),
                    forall|y: int| 0 <= y < n ==> (order@.contains(y as usize) <==> #[trigger] in_degree@[y] == 0),
                    forall|q: int, z: usize| 0 <= q < order@.len() && #[trigger] has_edge(a, z, order@[q])
                        ==> exists|p: int| 0 <= p < q && order@[p] == z,
                    fifo_order(a, order@),
                    released_by(a, order@, head as int, u, j as int),
                    position_in(order@, u) == head,
                decreases row@.len() - j,
            {
                let v = row[j];
                let ghost o0 = order@;
                proof {
                    assert(a[u as int][j as int] == v);
                    assert forall|y: int| 0 <= y < n implies #[trigger] occurrences(a[u as int].take(j as int + 1), y as usize)
                        == occurrences(a[u as int].take(j as int), y as usize) + if a[u as int][j as int] == y as usize {
                            1nat
                        } else {
                            0nat
                        } by {
                        lemma_occurrences_step(a[u as int], j as int, y as usize);
                    }
                    lemma_pending_at_least(a, done, u, v, n as nat);
                    lemma_occurrences_prefix(a[u as int], j as int + 1, v);
                    assert(in_degree@[v as int] >= 1);
                }
                let c = in_degree[v];
                in_degree.set(v, c - 1);
                if c - 1 == 0 {
                    proof {
                        assert(!o0.contains(v));
                        lemma_pending_done(a, done, u, v, n as nat);
                        lemma_pending_zero(a, done.push(u), v, n as nat);
                        lemma_distinct_bound(o0.push(v), n);
                        lemma_no_later_occurrence(a[u as int], j as int, v);
                        assert forall|q: usize| #[trigger] has_edge(a, q, v) implies o0.contains(q)
                            && position_in(o0, q) <= position_in(o0, u) by {
                            assert(a[q as int].contains(v));
                            assert(done.push(u).contains(q));
                            let t = choose|t: int| 0 <= t < done.push(u).len() && done.push(u)[t] == q;
                            assert(o0[t] == q);
                            lemma_position_in(o0, t);
                        }
                        assert(has_edge(a, u, v));
                        assert(release_point(a, o0, v, u, j as int));
                        assert(preds_in(a, o0, v));
                        lemma_fifo_push(a, o0, v, u, head as int, j as int);
                        lemma_position_push(o0, v, u);
                    }
                    order.push(v);
                    proof {
                        assert(order@ =~= o0.push(v));
                        assert(order@.take(head as int) =~= done);
                        assert forall|y: int| 0 <= y < n implies (order@.contains(y as usize) <==> #[trigger] in_degree@[y] == 0) by {
                            if o0.contains(y as usize) {
                                let t = choose|t: int| 0 <= t < o0.len() && o0[t] == y as usize;
                                assert(order@[t] == y as usize);
                            }
                            if y == v {
                                assert(order@[o0.len() as int] == v);
                            }
                            if order@.contains(y as usize) && y != v {
                                let t = choose|t: int| 0 <= t < order@.len() && order@[t] == y as usize;
                                assert(o0[t] == y as usize);
                            }
                        }
                        assert forall|q: int, z: usize| 0 <= q < order@.len() && #[trigger] has_edge(a, z, order@[q])
                            implies exists|p: int| 0 <= p < q && order@[p] == z by {
                            if q < o0.len() {
                                assert(order@[q] == o0[q]);
                                assert(has_edge(a, z, o0[q]));
                                let p = choose|p: int| 0 <= p < q && o0[p] == z;
                                assert(order@[p] == z);
                            } else {
                                assert(order@[q] == v);
                                assert(a[z as int].contains(v));
                                assert(done.push(u).contains(z));
                                let t = choose|t: int| 0 <= t < done.push(u).len() && done.push(u)[t] == z;
                                assert(order@[t] == z);
                            }
                        }
                    }
                } else {
                    proof {
                        lemma_released_by_step(a, order@, head as int, u, j as int);
                    }
                }
                j += 1;
            }
            proof {
                lemma_released_by_finish(a, order@, head as int, u, j as int);
                assert(a[u as int].take(row@.len() as int) =~= a[u as int]);
                assert forall|y: int| 0 <= y < n implies #[trigger] in_degree@[y]
                    == pending_in(a, order@.take(head as int + 1), y as usize, n as nat) by {
                    lemma_pending_done(a, done, u, y as usize, n as nat);
                    assert(order@.take(head as int + 1) =~= done.push(u));
                }
            }
            head += 1;
        }
        proof {
            assert(order@.take(head as int) =~= order@);
        }
        if order.len() == n {
            proof {
                assert forall|i: int, k: int| 0 <= k <= i < order@.len() implies !has_edge(a, #[trigger] order@[i], #[trigger] order@[k]) by {
                    if has_edge(a, order@[i], order@[k]) {
                        let p = choose|p: int| 0 <= p < k && order@[p] == order@[i];
                    }
                }
                lemma_topological_acyclic(a, order@);
            }
            Some(order)
        } else {
            proof {
                let x0 = lemma_short_misses(order@, n);
                assert forall|v: usize| (v as int) < n && !order@.contains(v) implies exists|z: usize|
                    (z as int) < n && !order@.contains(z) && #[trigger] has_edge(a, z, v) by {
                    lemma_pending_zero(a, order@, v, n as nat);
                    assert(in_degree@[v as int] != 0);
                    let z = choose|z: usize| (z as int) < n && !order@.contains(z) && #[trigger] a[z as int].contains(v);
                    assert(has_edge(a, z, v));
                }
                lemma_cycle_outside(a, order@, x0);
            }
            None
        }
    }

    /// The vertices without incoming edges, in increasing order.
    pub fn get_sources(&self) -> (r: Vec<usize>)
        requires
            self.wf(),
        ensures
            r@ == vertex_range(self.rows().len()).filter(no_incoming(self.rows())),
            increasing(r@),
            forall|x: usize|
                #[trigger] r@.contains(x) <==> ((x as int) < self.rows().len() && forall|w: usize|
                    (w as int) < self.rows().len() ==> !self.rows()[w as int].contains(x)),
    {
        let ghost a = self.rows();
        let n = self.num_vertices();
        let mut has_incoming: Vec<bool> = Vec::new();
        let mut i: usize = 0;
        while i < n
            invariant
                i <= n,
                has_incoming@.len() == i,
                forall|x: int| 0 <= x < i ==> !#[trigger] has_incoming@[x],
            decreases n - i,
        {
            has_incoming.push(false);
            i += 1;
        }
        let mut u: usize = 0;
        while u < n
            invariant
                a == self.rows(),
                n == a.len(),
                wf_adj(a),
                u <= n,
                has_incoming@.len() == n,
                forall|x: int| 0 <= x < n ==> (#[trigger] has_incoming@[x] <==> exists|w: int, k: int|
                    0 <= w < u && 0 <= k < a[w].len() && a[w][k] == x),
            decreases n - u,
        {
            let row = &self.adj[u];
            assert(row@ == a[u as int]);
            let mut j: usize = 0;
            while j < row.len()
                invariant
                    a == self.rows(),
                    n == a.len(),
                    wf_adj(a),
                    u < n,
                    row@ == a[u as int],
                    j <= row@.len(),
                    has_incoming@.len() == n,
                    forall|x: int| 0 <= x < n ==> (#[trigger] has_incoming@[x] <==> exists|w: int, k: int|
                        (0 <= w < u && 0 <= k < a[w].len() || w == u && 0 <= k < j) && a[w][k] == x),
                decreases row@.len() - j,
            {
                let v = row[j];
                assert(a[u as int][j as int] == v);
                has_incoming.set(v, true);
                proof {
                    assert forall|x: int| 0 <= x < n implies (#[trigger] has_incoming@[x] <==> exists|w: int, k: int|
                        (0 <= w < u && 0 <= k < a[w].len() || w == u && 0 <= k < j + 1) && a[w][k] == x) by {
                        if x == v {
                            assert((0 <= u < u && 0 <= j < a[u as int].len() || u == u && 0 <= j < j + 1) && a[u as int][j as int] == x);
                        } else if has_incoming@[x] {
                            let (w, k) = choose|w: int, k: int|
                                (0 <= w < u && 0 <= k < a[w].len() || w == u && 0 <= k < j) && a[w][k] == x;
                            assert((0 <= w < u && 0 <= k < a[w].len() || w == u && 0 <= k < j + 1) && a[w][k] == x);
                        } else {
                            if exists|w: int, k: int|
                                (0 <= w < u && 0 <= k < a[w].len() || w == u && 0 <= k < j + 1) && a[w][k] == x {
                                let (w, k) = choose|w: int, k: int|
                                    (0 <= w < u && 0 <= k < a[w].len() || w == u && 0 <= k < j + 1) && a[w][k] == x;
                                assert((0 <= w < u && 0 <= k < a[w].len() || w == u && 0 <= k < j) && a[w][k] == x);
                            }
                        }
                    }
                }
                j += 1;
            }
            u += 1;
        }
        let ghost pred = no_incoming(a);
        let ghost range = vertex_range(n as nat);
        proof {
            assert forall|x: int| 0 <= x < n implies (#[trigger] has_incoming@[x] == !pred(x as usize)) by {
                if has_incoming@[x] {
                    let (w, k) = choose|w: int, k: int| 0 <= w < n && 0 <= k < a[w].len() && a[w][k] == x;
                    assert(has_edge(a, w as usize, x as usize));
                }
                if !pred(x as usize) {
                    let w = choose|w: usize| #[trigger] has_edge(a, w, x as usize);
                    let k = choose|k: int| 0 <= k < a[w as int].len() && a[w as int][k] == x as usize;
                    assert(0 <= w < n && 0 <= k < a[w as int].len() && a[w as int][k] == x);
                }
            }
            reveal(Seq::filter);
            assert(range.take(0) =~= Seq::<usize>::empty());
        }
        let mut sources: Vec<usize> = Vec::new();
        let mut i: usize = 0;
        while i < n
            invariant
                n == a.len(),
                i <= n,
                range == vertex_range(n as nat),
                has_incoming@.len() == n,
                forall|x: int| 0 <= x < n ==> (#[trigger] has_incoming@[x] == !pred(x as usize)),
                sources@ == range.take(i as int).filter(pred),
            decreases n - i,
        {
            proof {
                assert(range.take(i as int + 1) =~= range.take(i as int).push(i));
                range.take(i as int).lemma_filter_push(i, pred);
            }
            if !has_incoming[i] {
                sources.push(i);
            }
            i += 1;
        }
        assert(range.take(n as int) =~= range);
        proof {
            law_sources(a);
        }
        sources
    }

    /// The vertices without outgoing edges, in increasing order.
    pub fn get_sinks(&self) -> (r: Vec<usize>)
        ensures
            r@ == vertex_range(self.rows().len()).filter(no_outgoing(self.rows())),
            increasing(r@),
            forall|x: usize|
                #[trigger] r@.contains(x) <==> ((x as int) < self.rows().len() && forall|y: usize|
                    !self.rows()[x as int].contains(y)),
    {
        let ghost a = self.rows();
        let ghost pred = no_outgoing(a);
        let ghost range = vertex_range(a.len());
        let n = self.num_vertices();
        proof {
            reveal(Seq::filter);
            assert(range.take(0) =~= Seq::<usize>::empty());
        }
        let mut sinks: Vec<usize> = Vec::new();
        let mut i: usize = 0;
        while i < n
            invariant
                a == self.rows(),
                n == a.len(),
                i <= n,
                pred == no_outgoing(a),
                range == vertex_range(n as nat),
                sinks@ == range.take(i as int).filter(pred),
            decreases n - i,
        {
            proof {
                assert(range.take(i as int + 1) =~= range.take(i as int).push(i));
                range.take(i as int).lemma_filter_push(i, pred);
            }
            assert(self.adj@[i as int]@ == a[i as int]);
            if self.adj[i].is_empty() {
                sinks.push(i);
            }
            i += 1;
        }
        assert(range.take(n as int) =~= range);
        proof {
            law_sinks(a);
        }
        sinks
    }

    /// The layer of each vertex for a layered drawing: the number of edges on
    /// a longest walk ending at it.  `None` when there is no topological order
    /// (an undirected or cyclic graph).
    pub fn layer_assignment(&self) -> (r: Option<Vec<usize>>)
        requires
            self.wf(),
            total_entries(self.rows()) <= usize::MAX,
        ensures
            r is Some <==> (self.directed_flag() && acyclic(self.rows())),
            r matches Some(l) ==> longest_path_layers(self.rows(), l@),
            r matches Some(l) ==> forall|v: int| 0 <= v < l@.len() ==> #[trigger] l@[v] < self.rows().len(),
    {
        let ghost a = self.rows();
        let n = self.num_vertices();
        let order = match self.topological_sort() {
            Some(o) => o,
            None => return None,
        };
        proof {
            assert forall|x: usize| (x as int) < n implies order@.contains(x) by {
                if !order@.contains(x) {
                    crate::ordering::lemma_missing_vertex(order@, n, x);
                }
            }
        }
        let mut layer: Vec<usize> = Vec::new();
        let mut i: usize = 0;
        while i < n
            invariant
                i <= n,
                layer@.len() == i,
            decreases n - i,
        {
            layer.push(0);
            i += 1;
        }
        let mut t: usize = 0;
        while t < n
            invariant
                a == self.rows(),
                n == a.len(),
                wf_adj(a),
                t <= n,
                topological_order(a, order@),
                forall|x: usize| (x as int) < n ==> order@.contains(x),
                layer@.len() == n,
                forall|s: int| 0 <= s < t ==> layer@[#[trigger] order@[s] as int] <= s,
                forall|s: int, u: usize| 0 <= s < t && #[trigger] has_edge(a, u, order@[s])
                    ==> layer@[u as int] < layer@[order@[s] as int],
                forall|s: int| 0 <= s < t ==> #[trigger] layer@[order@[s] as int] == 0 || exists|u: usize|
                    #[trigger] has_edge(a, u, order@[s]) && layer@[u as int] + 1 == layer@[order@[s] as int],
            decreases n - t,
        {
            let v = order[t];
            let mut best: usize = 0;
            let mut u: usize = 0;
            while u < n
                invariant
                    a == self.rows(),
                    n == a.len(),
                    wf_adj(a),
                    t < n,
                    v == order@[t as int],
                    u <= n,
                    best <= t,
                    topological_order(a, order@),
                    forall|x: usize| (x as int) < n ==> order@.contains(x),
                    layer@.len() == n,
                    forall|s: int| 0 <= s < t ==> layer@[#[trigger] order@[s] as int] <= s,
                    forall|w: usize| (w as int) < u && #[trigger] has_edge(a, w, v) ==> layer@[w as int] + 1 <= best,
                    best == 0 || exists|w: usize| #[trigger] has_edge(a, w, v) && layer@[w as int] + 1 == best,
                decreases n - u,
            {
                assert(self.adj@[u as int]@ == a[u as int]);
                if row_contains(&self.adj[u], v) {
                    proof {
                        assert(has_edge(a, u, v));
                        assert(order@.contains(u));
                        let p = choose|p: int| 0 <= p < order@.len() && order@[p] == u;
                        if p >= t {
                            assert(!has_edge(a, order@[p], order@[t as int]));
                        }
                        assert(layer@[order@[p] as int] <= p);
                    }
                    let c = layer[u] + 1;
                    if c > best {
                        best = c;
                    }
                }
                u += 1;
            }
            let ghost before = layer@;
            layer.set(v, best);
            proof {
                assert forall|s: int| 0 <= s < t + 1 implies layer@[#[trigger] order@[s] as int] <= s by {
                    if s < t {
                        assert(order@[s] != v);
                    }
                }
                assert forall|s: int, w: usize| 0 <= s < t + 1 && #[trigger] has_edge(a, w, order@[s])
                    implies layer@[w as int] < layer@[order@[s] as int] by {
                    assert((w as int) < n);
                    assert(order@.contains(w));
                    let p = choose|p: int| 0 <= p < order@.len() && order@[p] == w;
                    if p >= s {
                        assert(!has_edge(a, order@[p], order@[s]));
                    }
                    assert(w != v);
                    if s < t {
                        assert(order@[s] != v);
                        assert(before[w as int] < before[order@[s] as int]);
                    }
                }
                assert forall|s: int| 0 <= s < t + 1 implies #[trigger] layer@[order@[s] as int] == 0 || exists|w: usize|
                    #[trigger] has_edge(a, w, order@[s]) && layer@[w as int] + 1 == layer@[order@[s] as int] by {
                    if s < t {
                        assert(order@[s] != v);
                        if before[order@[s] as int] != 0 {
                            let w = choose|w: usize| #[trigger] has_edge(a, w, order@[s]) && before[w as int] + 1 == before[order@[s] as int];
                            assert(order@.contains(w));
                            let p = choose|p: int| 0 <= p < order@.len() && order@[p] == w;
                            if p >= s {
                                assert(!has_edge(a, order@[p], order@[s]));
                            }
                            assert(w != v);
                            assert(has_edge(a, w, order@[s]) && layer@[w as int] + 1 == layer@[order@[s] as int]);
                        }
                    } else if best != 0 {
                        let w = choose|w: usize| #[trigger] has_edge(a, w, v) && before[w as int] + 1 == best;
                        assert(w != v) by {
                            if w == v {
                                assert(!has_edge(a, order@[t as int], order@[t as int]));
                            }
                        }
                        assert(has_edge(a, w, order@[s]) && layer@[w as int] + 1 == layer@[order@[s] as int]);
                    }
                }
            }
            t += 1;
        }
        proof {
            assert forall|u: usize, v: usize| #[trigger] has_edge(a, u, v) implies layer@[u as int] < layer@[v as int] by {
                assert(wf_adj(a));
                let k = choose|k: int| 0 <= k < a[u as int].len() && a[u as int][k] == v;
                assert((v as int) < n);
                assert(order@.contains(v));
                let s = choose|s: int| 0 <= s < order@.len() && order@[s] == v;
                assert(has_edge(a, u, order@[s]));
            }
            assert forall|v: int| 0 <= v < n implies #[trigger] layer@[v] < n by {
                assert(order@.contains(v as usize));
                let s = choose|s: int| 0 <= s < order@.len() && order@[s] == v as usize;
                assert(layer@[order@[s] as int] <= s);
            }
            assert forall|v: int| 0 <= v < n implies #[trigger] layer@[v] == 0 || exists|u: usize|
                #[trigger] has_edge(a, u, v as usize) && layer@[u as int] + 1 == layer@[v] by {
                assert(order@.contains(v as usize));
                let s = choose|s: int| 0 <= s < order@.len() && order@[s] == v as usize;
                assert(layer@[order@[s] as int] == layer@[v]);
            }
        }
        Some(layer)
    }

    /// The number of vertices.
    pub fn num_vertices(&self) -> (n: usize)
        ensures
            n == self.rows().len(),
    {
        self.adj.len()
    }

    /// The number of edges: all row entries when directed, half of them when not.
    pub fn num_edges(&self) -> (m: usize)
        requires
            total_entries(self.rows()) <= usize::MAX,
        ensures
            m == edge_count(self.rows(), self.directed_flag()),
    {
        let ghost a = self.rows();
        let mut sum: usize = 0;
        let mut i: usize = 0;
        while i < self.adj.len()
            invariant
                a == self.rows(),
                i <= a.len(),
                total_entries(a) <= usize::MAX,
                sum == total_entries(a.take(i as int)),
            decreases a.len() - i,
        {
            proof {
                assert(a.take(i as int + 1).drop_last() =~= a.take(i as int));
                lemma_total_entries_prefix(a, i as int + 1);
            }
            sum = sum + self.adj[i].len();
            i += 1;
        }
        assert(a.take(a.len() as int) =~= a);
        if self.directed {
            sum
        } else {
            sum / 2
        }
    }
}

/// Whether `x` occurs in `row`.
fn row_contains(row: &Vec<usize>, x: usize) -> (r: bool)
    ensures
        r == row@.contains(x),
{
    let mut k: usize = 0;
    while k < row.len()
        invariant
            k <= row@.len(),
            forall|t: int| 0 <= t < k ==> row@[t] != x,
        decreases row@.len() - k,
    {
        if row[k] == x {
            return true;
        }
        k += 1;
    }
    false
}

/// An entry-by-entry copy of a row.
fn copy_row(row: &Vec<usize>) -> (r: Vec<usize>)
    ensures
        r@ == row@,
{
    let mut out: Vec<usize> = Vec::new();
    let mut k: usize = 0;
    while k < row.len()
        invariant
            k <= row@.len(),
            out@ == row@.take(k as int),
        decreases row@.len() - k,
    {
        out.push(row[k]);
        k += 1;
        assert(out@ =~= row@.take(k as int));
    }
    assert(row@.take(row@.len() as int) =~= row@);
    out
}

impl Clone for Graph {
    fn clone(&self) -> (c: Self)
        ensures
            c.rows() == self.rows(),
            c.directed_flag() == self.directed_flag(),
            c.labels() == self.labels(),
    {
        let mut adj: Vec<Vec<usize>> = Vec::new();
        let mut i: usize = 0;
        while i < self.adj.len()
            invariant
                i <= self.adj@.len(),
                adj@.len() == i,
                forall|t: int| 0 <= t < i ==> (#[trigger] adj@[t])@ == self.adj@[t]@,
            decreases self.adj@.len() - i,
        {
            adj.push(copy_row(&self.adj[i]));
            i += 1;
        }
        let mut vertex_labels: Vec<String> = Vec::new();
        let mut i: usize = 0;
        while i < self.vertex_labels.len()
            invariant
                i <= self.vertex_labels@.len(),
                vertex_labels@.len() == i,
                forall|t: int| 0 <= t < i ==> (#[trigger] vertex_labels@[t])@ == self.vertex_labels@[t]@,
            decreases self.vertex_labels@.len() - i,
        {
            vertex_labels.push(self.vertex_labels[i].clone());
            i += 1;
        }
        let c = Graph { adj, directed: self.directed, vertex_labels };
        assert(c.rows() =~= self.rows());
        assert(c.labels() =~= self.labels());
        c
    }
}

/// Adding an edge between vertices that are already connected changes no reachability.
pub proof fn lemma_extend_reachable(b: Seq<Seq<usize>>, i: usize, j: usize)
    requires
        (i as int) < b.len(),
        reachable(b, i, j),
    ensures
        same_reachability(b.update(i as int, b[i as int].push(j)), b),
{
    let c = b.update(i as int, b[i as int].push(j));
    assert forall|x: usize, y: usize| #[trigger] has_edge(b, x, y) implies reachable(c, x, y) by {
        assert(c[x as int].contains(y)) by {
            let t = choose|t: int| 0 <= t < b[x as int].len() && b[x as int][t] == y;
            if x == i {
                assert(c[x as int][t] == y);
            }
        }
        lemma_edge_walk(c, x, y);
    }
    assert forall|x: usize, y: usize| #[trigger] has_edge(c, x, y) implies reachable(b, x, y) by {
        if x == i && y == j {
        } else {
            let t = choose|t: int| 0 <= t < c[x as int].len() && c[x as int][t] == y;
            assert(b[x as int][t] == y);
            lemma_edge_walk(b, x, y);
        }
    }
    assert forall|s: usize, t: usize| #![trigger reachable(b, s, t)] #![trigger reachable(c, s, t)]
        reachable(b, s, t) == reachable(c, s, t) by {
        if reachable(b, s, t) {
            let p = choose|p: Seq<usize>| walk_between(b, None, p, s, t);
            lemma_transfer_walk(b, c, p);
        }
        if reachable(c, s, t) {
            let p = choose|p: Seq<usize>| walk_between(c, None, p, s, t);
            lemma_transfer_walk(c, b, p);
        }
    }
}

/// A single edge is a walk.
pub proof fn lemma_edge_walk(a: Seq<Seq<usize>>, x: usize, y: usize)
    requires
        has_edge(a, x, y),
    ensures
        reachable(a, x, y),
{
    let e = seq![x, y];
    assert(link(a, None, e, 0));
    assert(walk_between(a, None, e, x, y));
}

/// When every edge of `a` is a connection in `b`, so is every walk of `a`.
pub proof fn lemma_transfer_walk(a: Seq<Seq<usize>>, b: Seq<Seq<usize>>, p: Seq<usize>)
    requires
        forall|x: usize, y: usize| #[trigger] has_edge(a, x, y) ==> reachable(b, x, y),
        is_walk(a, None, p),
    ensures
        reachable(b, p[0], p.last()),
    decreases p.len(),
{
    if p.len() == 1 {
        lemma_walk_single(b, None, p[0]);
    } else {
        let q = p.drop_last();
        assert(q =~= p.take(p.len() - 1));
        lemma_walk_take(a, None, p, p.len() - 1);
        lemma_transfer_walk(a, b, q);
        assert(link(a, None, p, p.len() - 2));
        assert(has_edge(a, q.last(), p.last()));
        lemma_reaches_trans(b, None, p[0], q.last(), p.last());
    }
}

/// Every entry of a reduced row is an entry of the unreduced row.
pub proof fn lemma_reduction_within(a: Seq<Seq<usize>>)
    ensures
        reduction_rows(a).len() == a.len(),
        forall|u: int, v: usize|
            0 <= u < a.len() && #[trigger] reduction_rows(a)[u].contains(v) ==> a[u].contains(v),
        wf_adj(a) ==> wf_adj(reduction_rows(a)),
{
    let r = reduction_rows(a);
    assert forall|u: int, v: usize| 0 <= u < a.len() && #[trigger] r[u].contains(v) implies a[u].contains(v) by {
        a[u].lemma_filter_contains_rev(kept_from(a, u as usize), v);
    }
    if wf_adj(a) {
        assert forall|u: int, k: int| 0 <= u < r.len() && 0 <= k < r[u].len() implies (#[trigger] r[u][k]) < r.len() by {
            assert(r[u].contains(r[u][k]));
            assert(a[u].contains(r[u][k]));
        }
    }
}

/// A prefix holds no more entries than the whole.
pub proof fn lemma_total_entries_prefix(a: Seq<Seq<usize>>, k: int)
    requires
        0 <= k <= a.len(),
    ensures
        total_entries(a.take(k)) <= total_entries(a),
    decreases a.len(),
{
    if k < a.len() {
        assert(a.drop_last().take(k) =~= a.take(k));
        lemma_total_entries_prefix(a.drop_last(), k);
    } else {
        assert(a.take(k) =~= a);
    }
}

} // verus!
