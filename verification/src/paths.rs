//! Walks, reachability and distances over an adjacency-list model.
//!
//! A graph is modelled as `Seq<Seq<usize>>`: row `x` lists the out-neighbours of
//! vertex `x`, in insertion order and with repetitions.  A walk is a non-empty
//! sequence of vertices in which every consecutive pair is an edge; its length is
//! the number of edges, one less than the number of vertices.  A `skip` edge, when
//! present, may not be used by a walk (all its parallel copies are excluded).
use vstd::prelude::*;

verus! {

/// Every vertex named in a row is a vertex of the graph.
pub open spec fn wf_adj(a: Seq<Seq<usize>>) -> bool {
    forall|u: int, k: int|
        0 <= u < a.len() && 0 <= k < a[u].len() ==> (#[trigger] a[u][k]) < a.len()
}

/// `y` occurs in the row of `x`.
pub open spec fn has_edge(a: Seq<Seq<usize>>, x: usize, y: usize) -> bool {
    (x as int) < a.len() && a[x as int].contains(y)
}

/// The edge `x -> y` exists and is not the excluded edge.
pub open spec fn usable(a: Seq<Seq<usize>>, skip: Option<(usize, usize)>, x: usize, y: usize) -> bool {
    has_edge(a, x, y) && skip != Some((x, y))
}

/// Step `i` of `p` (from `p[i]` to `p[i + 1]`) is a usable edge.
pub open spec fn link(a: Seq<Seq<usize>>, skip: Option<(usize, usize)>, p: Seq<usize>, i: int) -> bool {
    usable(a, skip, p[i], p[i + 1])
}

/// `p` is a walk: non-empty, and each step is a usable edge.
pub open spec fn is_walk(a: Seq<Seq<usize>>, skip: Option<(usize, usize)>, p: Seq<usize>) -> bool {
    &&& p.len() >= 1
    &&& forall|i: int| 0 <= i < p.len() - 1 ==> #[trigger] link(a, skip, p, i)
}

/// `p` is a walk from `s` to `t`.
pub open spec fn walk_between(
    a: Seq<Seq<usize>>,
    skip: Option<(usize, usize)>,
    p: Seq<usize>,
    s: usize,
    t: usize,
) -> bool {
    is_walk(a, skip, p) && p[0] == s && p.last() == t
}

/// Some walk leads from `s` to `t` (every vertex reaches itself).
pub open spec fn reaches(a: Seq<Seq<usize>>, skip: Option<(usize, usize)>, s: usize, t: usize) -> bool {
    exists|p: Seq<usize>| #[trigger] walk_between(a, skip, p, s, t)
}

/// Reachability over all edges.
pub open spec fn reachable(a: Seq<Seq<usize>>, s: usize, t: usize) -> bool {
    reaches(a, None, s, t)
}

/// Some walk from `s` to `t` visits exactly `len` vertices (counting repeats).
pub open spec fn walk_of_len(
    a: Seq<Seq<usize>>,
    skip: Option<(usize, usize)>,
    s: usize,
    t: usize,
    len: int,
) -> bool {
    exists|p: Seq<usize>| #[trigger] walk_between(a, skip, p, s, t) && p.len() == len
}

/// `d` is the number of edges of a shortest walk from `s` to `t`.
pub open spec fn is_distance(
    a: Seq<Seq<usize>>,
    skip: Option<(usize, usize)>,
    s: usize,
    t: usize,
    d: nat,
) -> bool {
    &&& exists|p: Seq<usize>| #[trigger] walk_between(a, skip, p, s, t) && p.len() == d + 1
    &&& forall|p: Seq<usize>| #[trigger] walk_between(a, skip, p, s, t) ==> p.len() >= d + 1
}

/// No walk with at least one edge returns to its start.
pub open spec fn acyclic(a: Seq<Seq<usize>>) -> bool {
    forall|p: Seq<usize>| #[trigger] is_walk(a, None, p) && p.len() >= 2 ==> p[0] != p.last()
}

/// The single-vertex walk.
pub proof fn lemma_walk_single(a: Seq<Seq<usize>>, skip: Option<(usize, usize)>, s: usize)
    ensures
        walk_between(a, skip, seq![s], s, s),
        reaches(a, skip, s, s),
{
    assert(walk_between(a, skip, seq![s], s, s));
}

/// A walk extended by one usable edge.
pub proof fn lemma_walk_push(a: Seq<Seq<usize>>, skip: Option<(usize, usize)>, p: Seq<usize>, y: usize)
    requires
        is_walk(a, skip, p),
        usable(a, skip, p.last(), y),
    ensures
        is_walk(a, skip, p.push(y)),
        p.push(y)[0] == p[0],
        p.push(y).last() == y,
        p.push(y).len() == p.len() + 1,
{
    let q = p.push(y);
    assert forall|i: int| 0 <= i < q.len() - 1 implies #[trigger] link(a, skip, q, i) by {
        if i < p.len() - 1 {
            assert(link(a, skip, p, i));
        }
    }
}

/// A non-empty prefix of a walk is a walk.
pub proof fn lemma_walk_take(a: Seq<Seq<usize>>, skip: Option<(usize, usize)>, p: Seq<usize>, k: int)
    requires
        is_walk(a, skip, p),
        1 <= k <= p.len(),
    ensures
        is_walk(a, skip, p.take(k)),
        p.take(k)[0] == p[0],
        p.take(k).last() == p[k - 1],
{
    let q = p.take(k);
    assert forall|i: int| 0 <= i < q.len() - 1 implies #[trigger] link(a, skip, q, i) by {
        assert(link(a, skip, p, i));
    }
}

/// Two walks joined at a common vertex.
pub proof fn lemma_walk_concat(
    a: Seq<Seq<usize>>,
    skip: Option<(usize, usize)>,
    p: Seq<usize>,
    q: Seq<usize>,
)
    requires
        is_walk(a, skip, p),
        is_walk(a, skip, q),
        p.last() == q[0],
    ensures
        is_walk(a, skip, p + q.drop_first()),
        (p + q.drop_first())[0] == p[0],
        (p + q.drop_first()).last() == q.last(),
        (p + q.drop_first()).len() == p.len() + q.len() - 1,
{
    let r = p + q.drop_first();
    assert forall|i: int| 0 <= i < r.len() - 1 implies #[trigger] link(a, skip, r, i) by {
        if i < p.len() - 1 {
            assert(link(a, skip, p, i));
        } else {
            assert(link(a, skip, q, i - (p.len() - 1)));
        }
    }
}

/// Reachability is transitive.
pub proof fn lemma_reaches_trans(
    a: Seq<Seq<usize>>,
    skip: Option<(usize, usize)>,
    x: usize,
    y: usize,
    z: usize,
)
    requires
        reaches(a, skip, x, y),
        reaches(a, skip, y, z),
    ensures
        reaches(a, skip, x, z),
{
    let p = choose|p: Seq<usize>| walk_between(a, skip, p, x, y);
    let q = choose|q: Seq<usize>| walk_between(a, skip, q, y, z);
    lemma_walk_concat(a, skip, p, q);
    assert(walk_between(a, skip, p + q.drop_first(), x, z));
}

/// A walk that avoids an edge is also a walk over all edges.
pub proof fn lemma_walk_unskip(a: Seq<Seq<usize>>, skip: Option<(usize, usize)>, p: Seq<usize>)
    requires
        is_walk(a, skip, p),
    ensures
        is_walk(a, None, p),
{
    assert forall|i: int| 0 <= i < p.len() - 1 implies #[trigger] link(a, None, p, i) by {
        assert(link(a, skip, p, i));
    }
}

/// Every usable edge among the first `upto` entries of the row of `x` leads into `o`.
pub open spec fn row_explored(
    a: Seq<Seq<usize>>,
    skip: Option<(usize, usize)>,
    o: Seq<usize>,
    x: usize,
    upto: int,
) -> bool {
    forall|k: int|
        0 <= k < upto && usable(a, skip, x, #[trigger] a[x as int][k]) ==> o.contains(a[x as int][k])
}

/// The state of a breadth-first search from `o[0]`: `o` lists the discovered
/// vertices in discovery order, `dist` their recorded distances, and the
/// vertices before `head` have had all their usable edges explored.
pub open spec fn search_frontier(
    a: Seq<Seq<usize>>,
    skip: Option<(usize, usize)>,
    o: Seq<usize>,
    dist: Seq<usize>,
    head: int,
) -> bool {
    &&& o.len() == dist.len()
    &&& o.len() >= 1
    &&& 0 <= head <= o.len()
    &&& forall|i: int| 0 <= i < head ==> row_explored(a, skip, o, #[trigger] o[i], a[o[i] as int].len() as int)
    &&& forall|i: int, q: Seq<usize>|
        0 <= i < o.len() && #[trigger] walk_between(a, skip, q, o[0], o[i]) ==> q.len() >= dist[i] + 1
    &&& forall|i: int, j: int| 0 <= i <= j < o.len() ==> #[trigger] dist[i] <= #[trigger] dist[j]
}

/// In a breadth-first search state, a walk from the start to an undiscovered
/// vertex has at least `dist[head] + 1` edges (and some vertex is still queued).
pub proof fn lemma_frontier(
    a: Seq<Seq<usize>>,
    skip: Option<(usize, usize)>,
    o: Seq<usize>,
    dist: Seq<usize>,
    head: int,
    p: Seq<usize>,
    w: usize,
)
    requires
        search_frontier(a, skip, o, dist, head),
        walk_between(a, skip, p, o[0], w),
        !o.contains(w),
    ensures
        head < o.len(),
        p.len() >= dist[head] + 2,
    decreases p.len(),
{
    if p.len() == 1 {
        assert(o.contains(o[0]));
    } else {
        let q = p.drop_last();
        assert(q =~= p.take(p.len() - 1));
        lemma_walk_take(a, skip, p, p.len() - 1);
        let x = q.last();
        assert(link(a, skip, p, p.len() - 2));
        assert(usable(a, skip, x, w));
        if o.contains(x) {
            let i = choose|i: int| 0 <= i < o.len() && o[i] == x;
            assert(walk_between(a, skip, q, o[0], o[i]));
            if i < head {
                assert(row_explored(a, skip, o, o[i], a[o[i] as int].len() as int));
                let k = choose|k: int| 0 <= k < a[x as int].len() && a[x as int][k] == w;
                assert(usable(a, skip, x, a[x as int][k]));
            }
        } else {
            lemma_frontier(a, skip, o, dist, head, q, x);
        }
    }
}

/// A non-empty suffix of a walk is a walk.
pub proof fn lemma_walk_skip(a: Seq<Seq<usize>>, skip: Option<(usize, usize)>, p: Seq<usize>, k: int)
    requires
        is_walk(a, skip, p),
        0 <= k < p.len(),
    ensures
        is_walk(a, skip, p.skip(k)),
        p.skip(k)[0] == p[k],
        p.skip(k).last() == p.last(),
        p.skip(k).len() == p.len() - k,
{
    let q = p.skip(k);
    assert forall|i: int| 0 <= i < q.len() - 1 implies #[trigger] link(a, skip, q, i) by {
        assert(link(a, skip, p, i + k));
    }
}

/// A walk over all edges that never steps along `e` is a walk avoiding `e`.
pub proof fn lemma_walk_avoiding(a: Seq<Seq<usize>>, e: (usize, usize), p: Seq<usize>)
    requires
        is_walk(a, None, p),
        forall|i: int| 0 <= i < p.len() - 1 ==> !(p[i] == e.0 && #[trigger] p[i + 1] == e.1),
    ensures
        is_walk(a, Some(e), p),
{
    assert forall|i: int| 0 <= i < p.len() - 1 implies #[trigger] link(a, Some(e), p, i) by {
        assert(link(a, None, p, i));
        assert(!(p[i] == e.0 && p[i + 1] == e.1));
    }
}

/// Some step of a walk that starts at `u` and ends elsewhere leaves `u`.
pub proof fn lemma_first_exit(a: Seq<Seq<usize>>, skip: Option<(usize, usize)>, p: Seq<usize>, u: usize) -> (i: int)
    requires
        is_walk(a, skip, p),
        p[0] == u,
        p.last() != u,
    ensures
        0 <= i < p.len() - 1,
        p[i] == u,
        p[i + 1] != u,
        usable(a, skip, p[i], p[i + 1]),
    decreases p.len(),
{
    assert(p.len() >= 2);
    assert(link(a, skip, p, 0));
    if p[1] != u {
        0
    } else {
        lemma_walk_skip(a, skip, p, 1);
        let j = lemma_first_exit(a, skip, p.skip(1), u);
        assert(link(a, skip, p.skip(1), j));
        j + 1
    }
}

/// A sequence of distinct vertices below `n` has at most `n` elements.
pub proof fn lemma_distinct_bound(s: Seq<usize>, n: usize)
    requires
        s.no_duplicates(),
        forall|i: int| 0 <= i < s.len() ==> s[i] < n,
    ensures
        s.len() <= n,
{
    s.unique_seq_to_set();
    <usize as vstd::set_lib::FiniteRange>::range_properties(0, n);
    let r = Set::<usize>::range(0, n);
    assert(s.to_set().subset_of(r)) by {
        assert forall|x: usize| s.to_set().contains(x) implies r.contains(x) by {
            let i = choose|i: int| 0 <= i < s.len() && s[i] == x;
        }
    }
    vstd::set_lib::lemma_len_subset(s.to_set(), r);
}

} // verus!
