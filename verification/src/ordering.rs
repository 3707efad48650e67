//! Topological orders, in-degree bookkeeping and cycles.
use vstd::prelude::*;

use crate::graph::{lemma_total_entries_prefix, no_incoming, no_outgoing, total_entries, vertex_range};
use crate::paths::{acyclic, has_edge, is_walk, link, wf_adj};

verus! {

/// `o` lists every vertex exactly once, and no edge leads from a vertex to
/// itself or to a vertex listed earlier.
pub open spec fn topological_order(a: Seq<Seq<usize>>, o: Seq<usize>) -> bool {
    &&& o.len() == a.len()
    &&& o.no_duplicates()
    &&& forall|i: int| 0 <= i < o.len() ==> (#[trigger] o[i] as int) < a.len()
    &&& forall|i: int, k: int| 0 <= k <= i < o.len() ==> !has_edge(a, #[trigger] o[i], #[trigger] o[k])
}

/// The number of times `v` occurs in `s`.
pub open spec fn occurrences(s: Seq<usize>, v: usize) -> nat
    decreases s.len(),
{
    if s.len() == 0 {
        0
    } else {
        occurrences(s.drop_last(), v) + if s.last() == v {
            1nat
        } else {
            0nat
        }
    }
}

/// The entries equal to `v` in the rows below `m` of the vertices not in `done`:
/// the in-degree of `v` once the edges out of `done` are discounted.
pub open spec fn pending_in(a: Seq<Seq<usize>>, done: Seq<usize>, v: usize, m: nat) -> nat
    decreases m,
{
    if m == 0 {
        0
    } else {
        pending_in(a, done, v, (m - 1) as nat) + if done.contains((m - 1) as usize) {
            0nat
        } else {
            occurrences(a[m - 1], v)
        }
    }
}

/// Counting one more entry of a row.
pub proof fn lemma_occurrences_step(s: Seq<usize>, j: int, v: usize)
    requires
        0 <= j < s.len(),
    ensures
        occurrences(s.take(j + 1), v) == occurrences(s.take(j), v) + if s[j] == v {
            1nat
        } else {
            0nat
        },
{
    assert(s.take(j + 1).drop_last() =~= s.take(j));
}

/// A prefix has no more occurrences than the whole, and a row no more than its length.
pub proof fn lemma_occurrences_prefix(s: Seq<usize>, j: int, v: usize)
    requires
        0 <= j <= s.len(),
    ensures
        occurrences(s.take(j), v) <= occurrences(s, v),
        occurrences(s, v) <= s.len(),
    decreases s.len(),
{
    if s.len() > 0 {
        if j < s.len() {
            assert(s.drop_last().take(j) =~= s.take(j));
            lemma_occurrences_prefix(s.drop_last(), j, v);
        } else {
            assert(s.take(j) =~= s);
            lemma_occurrences_prefix(s.drop_last(), 0, v);
        }
    }
}

/// `v` occurs in `s` exactly when it is counted at least once.
pub proof fn lemma_occurrences_contains(s: Seq<usize>, v: usize)
    ensures
        (occurrences(s, v) > 0) == s.contains(v),
    decreases s.len(),
{
    if s.len() > 0 {
        lemma_occurrences_contains(s.drop_last(), v);
        if s.drop_last().contains(v) {
            let k = choose|k: int| 0 <= k < s.drop_last().len() && s.drop_last()[k] == v;
            assert(s[k] == v);
        }
        if s.contains(v) && s.last() != v {
            let k = choose|k: int| 0 <= k < s.len() && s[k] == v;
            assert(s.drop_last()[k] == v);
        }
    }
}

/// Marking `u` done discounts exactly its own entries.
pub proof fn lemma_pending_done(a: Seq<Seq<usize>>, done: Seq<usize>, u: usize, v: usize, m: nat)
    requires
        m <= a.len() <= usize::MAX,
        !done.contains(u),
        (u as int) < m,
    ensures
        pending_in(a, done, v, m) == pending_in(a, done.push(u), v, m) + occurrences(a[u as int], v),
    decreases m,
{
    if m - 1 > u {
        lemma_pending_done(a, done, u, v, (m - 1) as nat);
        let w = (m - 1) as usize;
        assert(done.push(u).contains(w) == done.contains(w)) by {
            if done.push(u).contains(w) {
                let k = choose|k: int| 0 <= k < done.push(u).len() && done.push(u)[k] == w;
                assert(done[k] == w);
            }
            if done.contains(w) {
                let k = choose|k: int| 0 <= k < done.len() && done[k] == w;
                assert(done.push(u)[k] == w);
            }
        }
    } else {
        lemma_pending_unchanged(a, done, u, v, (m - 1) as nat);
        assert(done.push(u)[done.len() as int] == u);
    }
}

/// Rows at or above `u` do not matter below `m <= u`.
proof fn lemma_pending_unchanged(a: Seq<Seq<usize>>, done: Seq<usize>, u: usize, v: usize, m: nat)
    requires
        m <= u,
    ensures
        pending_in(a, done, v, m) == pending_in(a, done.push(u), v, m),
    decreases m,
{
    if m > 0 {
        lemma_pending_unchanged(a, done, u, v, (m - 1) as nat);
        let w = (m - 1) as usize;
        assert(done.push(u).contains(w) == done.contains(w)) by {
            if done.push(u).contains(w) {
                let k = choose|k: int| 0 <= k < done.push(u).len() && done.push(u)[k] == w;
                assert(done[k] == w);
            }
            if done.contains(w) {
                let k = choose|k: int| 0 <= k < done.len() && done[k] == w;
                assert(done.push(u)[k] == w);
            }
        }
    }
}

/// The pending count is zero exactly when no vertex outside `done` (below `m`)
/// has an edge to `v`.
pub proof fn lemma_pending_zero(a: Seq<Seq<usize>>, done: Seq<usize>, v: usize, m: nat)
    requires
        m <= a.len() <= usize::MAX,
    ensures
        (pending_in(a, done, v, m) == 0) == (forall|x: usize|
            (x as int) < m && !done.contains(x) ==> !(#[trigger] a[x as int].contains(v))),
    decreases m,
{
    if m > 0 {
        lemma_pending_zero(a, done, v, (m - 1) as nat);
        let w = (m - 1) as usize;
        lemma_occurrences_contains(a[w as int], v);
        if pending_in(a, done, v, m) != 0 && !done.contains(w) && a[w as int].contains(v) {
            assert(!(forall|x: usize|
                (x as int) < m && !done.contains(x) ==> !(#[trigger] a[x as int].contains(v))));
        }
        if pending_in(a, done, v, (m - 1) as nat) != 0 {
            let x = choose|x: usize| (x as int) < m - 1 && !done.contains(x) && #[trigger] a[x as int].contains(v);
            assert((x as int) < m);
        }
    }
}

/// Each pending count is at least the count from any single vertex outside `done`.
pub proof fn lemma_pending_at_least(a: Seq<Seq<usize>>, done: Seq<usize>, u: usize, v: usize, m: nat)
    requires
        m <= a.len() <= usize::MAX,
        !done.contains(u),
        (u as int) < m,
    ensures
        pending_in(a, done, v, m) >= occurrences(a[u as int], v),
{
    lemma_pending_done(a, done, u, v, m);
}

/// Before anything is done, the pending count is bounded by the number of entries.
pub proof fn lemma_pending_bound(a: Seq<Seq<usize>>, v: usize, m: nat)
    requires
        m <= a.len(),
    ensures
        pending_in(a, Seq::empty(), v, m) <= total_entries(a.take(m as int)),
    decreases m,
{
    if m > 0 {
        lemma_pending_bound(a, v, (m - 1) as nat);
        assert(a.take(m as int).drop_last() =~= a.take(m - 1));
        lemma_occurrences_prefix(a[m - 1], 0, v);
    }
}

/// A prefix of the rows plus part of the next row stays within all entries.
pub proof fn lemma_partial_total(a: Seq<Seq<usize>>, w: int, j: int)
    requires
        0 <= w < a.len(),
        0 <= j <= a[w].len(),
    ensures
        total_entries(a.take(w)) + j <= total_entries(a),
{
    assert(a.take(w + 1).drop_last() =~= a.take(w));
    lemma_total_entries_prefix(a, w + 1);
}

/// A sequence of distinct vertices below `n` that misses one of them is shorter than `n`.
pub proof fn lemma_missing_vertex(o: Seq<usize>, n: usize, x: usize)
    requires
        o.no_duplicates(),
        forall|i: int| 0 <= i < o.len() ==> o[i] < n,
        x < n,
        !o.contains(x),
    ensures
        o.len() < n,
{
    o.unique_seq_to_set();
    <usize as vstd::set_lib::FiniteRange>::range_properties(0, n);
    let r = Set::<usize>::range(0, n);
    assert(o.to_set().subset_of(r.remove(x))) by {
        assert forall|y: usize| o.to_set().contains(y) implies r.remove(x).contains(y) by {
            let i = choose|i: int| 0 <= i < o.len() && o[i] == y;
        }
    }
    vstd::set_lib::lemma_len_subset(o.to_set(), r.remove(x));
}

/// A sequence shorter than `n` misses some vertex below `n`.
pub proof fn lemma_short_misses(o: Seq<usize>, n: usize) -> (x: usize)
    requires
        o.len() < n,
    ensures
        x < n,
        !o.contains(x),
{
    <usize as vstd::set_lib::FiniteRange>::range_properties(0, n);
    let r = Set::<usize>::range(0, n);
    o.lemma_cardinality_of_set();
    if r.subset_of(o.to_set()) {
        vstd::seq_lib::seq_to_set_is_finite(o);
        vstd::set_lib::lemma_len_subset(r, o.to_set());
    }
    let x = choose|x: usize| r.contains(x) && !o.to_set().contains(x);
    x
}

/// A topological order exists only for an acyclic graph.
pub proof fn lemma_topological_acyclic(a: Seq<Seq<usize>>, o: Seq<usize>)
    requires
        a.len() <= usize::MAX,
        wf_adj(a),
        topological_order(a, o),
    ensures
        acyclic(a),
{
    let n = o.len();
    assert forall|x: usize| (x as int) < n implies o.contains(x) by {
        if !o.contains(x) {
            lemma_missing_vertex(o, n as usize, x);
        }
    }
    assert forall|p: Seq<usize>| #[trigger] is_walk(a, None, p) && p.len() >= 2 implies p[0] != p.last() by {
        lemma_walk_rises(a, o, p, p.len() - 1);
        let i = choose|i: int| 0 <= i < o.len() && o[i] == p[0];
        let k = choose|k: int| 0 <= k < o.len() && o[k] == p.last() && i < k;
    }
}

/// Along a walk, positions in a topological order strictly increase.
proof fn lemma_walk_rises(a: Seq<Seq<usize>>, o: Seq<usize>, p: Seq<usize>, e: int)
    requires
        wf_adj(a),
        topological_order(a, o),
        forall|x: usize| (x as int) < a.len() ==> o.contains(x),
        is_walk(a, None, p),
        1 <= e < p.len(),
    ensures
        exists|i: int, k: int| 0 <= i < k < o.len() && o[i] == p[0] && o[k] == p[e],
    decreases e,
{
    assert(link(a, None, p, e - 1));
    let x = p[e - 1];
    let y = p[e];
    assert(has_edge(a, x, y));
    let t = choose|t: int| 0 <= t < a[x as int].len() && a[x as int][t] == y;
    assert(o.contains(x));
    assert(o.contains(y));
    let ix = choose|i: int| 0 <= i < o.len() && o[i] == x;
    let iy = choose|i: int| 0 <= i < o.len() && o[i] == y;
    if iy <= ix {
        assert(!has_edge(a, o[ix], o[iy]));
    }
    if e == 1 {
        assert(o[ix] == p[0] && o[iy] == p[e] && ix < iy);
    } else {
        lemma_walk_rises(a, o, p, e - 1);
        let (i, k) = choose|i: int, k: int| 0 <= i < k < o.len() && o[i] == p[0] && o[k] == p[e - 1];
        assert(k == ix);
        assert(o[i] == p[0] && o[iy] == p[e] && i < iy);
    }
}

/// Repeatedly stepping back to an earlier vertex outside `done`, `len` times, from `v0`.
pub open spec fn back_chain(a: Seq<Seq<usize>>, done: Seq<usize>, v0: usize, len: nat) -> Seq<usize>
    decreases len,
{
    if len == 0 {
        seq![v0]
    } else {
        let c = back_chain(a, done, v0, (len - 1) as nat);
        c.push(choose|x: usize| (x as int) < a.len() && !done.contains(x) && has_edge(a, x, c.last()))
    }
}

/// The chain stays outside `done` and each element has an edge to the one before it.
proof fn lemma_back_chain(a: Seq<Seq<usize>>, done: Seq<usize>, v0: usize, len: nat)
    requires
        (v0 as int) < a.len(),
        !done.contains(v0),
        forall|v: usize|
            (v as int) < a.len() && !done.contains(v) ==> exists|x: usize|
                (x as int) < a.len() && !done.contains(x) && #[trigger] has_edge(a, x, v),
    ensures
        back_chain(a, done, v0, len).len() == len + 1,
        back_chain(a, done, v0, len)[0] == v0,
        forall|i: int|
            0 <= i <= len ==> (#[trigger] back_chain(a, done, v0, len)[i] as int) < a.len()
                && !done.contains(back_chain(a, done, v0, len)[i]),
        forall|i: int|
            0 <= i < len ==> #[trigger] has_edge(
                a,
                back_chain(a, done, v0, len)[i + 1],
                back_chain(a, done, v0, len)[i],
            ),
    decreases len,
{
    if len > 0 {
        lemma_back_chain(a, done, v0, (len - 1) as nat);
        let c = back_chain(a, done, v0, (len - 1) as nat);
        let last = c.last();
        assert((last as int) < a.len() && !done.contains(last));
        let x = choose|x: usize| (x as int) < a.len() && !done.contains(x) && has_edge(a, x, last);
        let c2 = back_chain(a, done, v0, len);
        assert(c2 == c.push(x));
        assert forall|i: int| 0 <= i < len implies #[trigger] has_edge(a, c2[i + 1], c2[i]) by {
            if i < len - 1 {
                assert(has_edge(a, c[i + 1], c[i]));
            }
        }
    }
}

/// When every vertex outside `done` has an edge into it from another vertex
/// outside `done`, and some vertex is outside `done`, the graph has a cycle.
pub proof fn lemma_cycle_outside(a: Seq<Seq<usize>>, done: Seq<usize>, v0: usize)
    requires
        a.len() <= usize::MAX,
        (v0 as int) < a.len(),
        !done.contains(v0),
        forall|v: usize|
            (v as int) < a.len() && !done.contains(v) ==> exists|x: usize|
                (x as int) < a.len() && !done.contains(x) && #[trigger] has_edge(a, x, v),
    ensures
        !acyclic(a),
{
    let n = a.len();
    lemma_back_chain(a, done, v0, n);
    let c = back_chain(a, done, v0, n);
    if c.no_duplicates() {
        crate::paths::lemma_distinct_bound(c, n as usize);
    }
    let (i, j) = choose|i: int, j: int| 0 <= i < c.len() && 0 <= j < c.len() && i != j && c[i] == c[j];
    if i < j {
        lemma_reversed_cycle(a, c, i, j);
    } else {
        lemma_reversed_cycle(a, c, j, i);
    }
}

/// A stretch of a backward chain that starts and ends at the same vertex,
/// read forwards, is a cycle.
proof fn lemma_reversed_cycle(a: Seq<Seq<usize>>, c: Seq<usize>, lo: int, hi: int)
    requires
        0 <= lo < hi < c.len(),
        c[lo] == c[hi],
        forall|i: int| 0 <= i < c.len() - 1 ==> #[trigger] has_edge(a, c[i + 1], c[i]),
    ensures
        !acyclic(a),
{
    let w = Seq::new((hi - lo + 1) as nat, |t: int| c[hi - t]);
    assert forall|t: int| 0 <= t < w.len() - 1 implies #[trigger] link(a, None, w, t) by {
        let i = hi - t - 1;
        assert(has_edge(a, c[i + 1], c[i]));
        assert(w[t] == c[i + 1]);
        assert(w[t + 1] == c[i]);
    }
    assert(is_walk(a, None, w));
    assert(w.len() >= 2 && w[0] == w.last());
}

/// The index at which `x` occurs in `o` (meaningful when it occurs once).
pub open spec fn position_in(o: Seq<usize>, x: usize) -> int {
    choose|i: int| 0 <= i < o.len() && o[i] == x
}

/// No edge ends at `x`.
pub open spec fn is_source(a: Seq<Seq<usize>>, x: usize) -> bool {
    forall|w: usize| !#[trigger] has_edge(a, w, x)
}

/// Entry `k` of the row of `p` is the edge that releases `v` in Kahn's
/// algorithm: `p` is the predecessor of `v` listed last in `o`, and `k` is the
/// last place of `v` in the row of `p`.
pub open spec fn release_point(a: Seq<Seq<usize>>, o: Seq<usize>, v: usize, p: usize, k: int) -> bool {
    &&& has_edge(a, p, v)
    &&& forall|q: usize| #[trigger] has_edge(a, q, v) ==> position_in(o, q) <= position_in(o, p)
    &&& 0 <= k < a[p as int].len()
    &&& a[p as int][k] == v
    &&& forall|k2: int| k < k2 < a[p as int].len() ==> a[p as int][k2] != v
}

/// First-in, first-out release order: sources come first, in increasing order;
/// other vertices follow in the order of their release points (the position
/// of the releasing predecessor, then the place in its row).
pub open spec fn released_before(a: Seq<Seq<usize>>, o: Seq<usize>, x: usize, y: usize) -> bool {
    if is_source(a, x) {
        is_source(a, y) ==> x < y
    } else {
        &&& !is_source(a, y)
        &&& exists|px: usize, kx: int, py: usize, ky: int|
            #![trigger release_point(a, o, x, px, kx), release_point(a, o, y, py, ky)]
            release_point(a, o, x, px, kx) && release_point(a, o, y, py, ky) && (position_in(o, px)
                < position_in(o, py) || (px == py && kx < ky))
    }
}

/// `o` lists the vertices in the order Kahn's algorithm with a first-in,
/// first-out queue takes them.
pub open spec fn fifo_order(a: Seq<Seq<usize>>, o: Seq<usize>) -> bool {
    forall|i: int, j: int| 0 <= i < j < o.len() ==> released_before(a, o, #[trigger] o[i], #[trigger] o[j])
}

/// Every predecessor of `x` is listed in `o`.
pub open spec fn preds_in(a: Seq<Seq<usize>>, o: Seq<usize>, x: usize) -> bool {
    forall|q: usize| #[trigger] has_edge(a, q, x) ==> o.contains(q)
}

/// In a duplicate-free sequence, the position of an element is its index.
pub proof fn lemma_position_in(o: Seq<usize>, i: int)
    requires
        o.no_duplicates(),
        0 <= i < o.len(),
    ensures
        position_in(o, o[i]) == i,
{
}

/// Appending a new element keeps the positions of the others.
pub proof fn lemma_position_push(o: Seq<usize>, y: usize, x: usize)
    requires
        o.push(y).no_duplicates(),
        o.contains(x),
    ensures
        position_in(o.push(y), x) == position_in(o, x),
{
    let i = choose|i: int| 0 <= i < o.len() && o[i] == x;
    assert(o.no_duplicates()) by {
        assert forall|i1: int, j1: int| 0 <= i1 < o.len() && 0 <= j1 < o.len() && i1 != j1 implies o[i1] != o[j1] by {
            assert(o.push(y)[i1] == o[i1]);
            assert(o.push(y)[j1] == o[j1]);
        }
    }
    lemma_position_in(o, i);
    assert(o.push(y)[i] == x);
    lemma_position_in(o.push(y), i);
}

/// Release points of a vertex whose predecessors are all listed stay the same
/// when a new vertex is appended.
pub proof fn lemma_release_push(a: Seq<Seq<usize>>, o: Seq<usize>, y: usize, v: usize, p: usize, k: int)
    requires
        o.push(y).no_duplicates(),
        preds_in(a, o, v),
    ensures
        release_point(a, o.push(y), v, p, k) == release_point(a, o, v, p, k),
{
    if has_edge(a, p, v) {
        lemma_position_push(o, y, p);
        assert forall|q: usize| #[trigger] has_edge(a, q, v) implies position_in(o.push(y), q) == position_in(o, q) by {
            lemma_position_push(o, y, q);
        }
    }
}

/// The release order between two vertices whose predecessors are all listed
/// stays the same when a new vertex is appended.
pub proof fn lemma_released_before_push(a: Seq<Seq<usize>>, o: Seq<usize>, y: usize, x: usize, z: usize)
    requires
        o.push(y).no_duplicates(),
        preds_in(a, o, x),
        preds_in(a, o, z),
    ensures
        released_before(a, o.push(y), x, z) == released_before(a, o, x, z),
{
    if !is_source(a, x) && !is_source(a, z) {
        if released_before(a, o, x, z) {
            let (px, kx, pz, kz) = choose|px: usize, kx: int, py: usize, ky: int|
                #![trigger release_point(a, o, x, px, kx), release_point(a, o, z, py, ky)]
                release_point(a, o, x, px, kx) && release_point(a, o, z, py, ky) && (position_in(o, px)
                    < position_in(o, py) || (px == py && kx < ky));
            lemma_release_push(a, o, y, x, px, kx);
            lemma_release_push(a, o, y, z, pz, kz);
            lemma_position_push(o, y, px);
            lemma_position_push(o, y, pz);
            assert(release_point(a, o.push(y), x, px, kx) && release_point(a, o.push(y), z, pz, kz));
        }
        if released_before(a, o.push(y), x, z) {
            let o2 = o.push(y);
            let (px, kx, pz, kz) = choose|px: usize, kx: int, py: usize, ky: int|
                #![trigger release_point(a, o2, x, px, kx), release_point(a, o2, z, py, ky)]
                release_point(a, o2, x, px, kx) && release_point(a, o2, z, py, ky) && (position_in(o2, px)
                    < position_in(o2, py) || (px == py && kx < ky));
            lemma_release_push(a, o, y, x, px, kx);
            lemma_release_push(a, o, y, z, pz, kz);
            lemma_position_push(o, y, px);
            lemma_position_push(o, y, pz);
            assert(release_point(a, o, x, px, kx) && release_point(a, o, z, pz, kz));
        }
    }
}

/// When a prefix of a row holds all the occurrences of `v`, nothing after it is `v`.
pub proof fn lemma_no_later_occurrence(s: Seq<usize>, j: int, v: usize)
    requires
        0 <= j < s.len(),
        occurrences(s.take(j + 1), v) == occurrences(s, v),
    ensures
        forall|k2: int| j < k2 < s.len() ==> s[k2] != v,
{
    assert forall|k2: int| j < k2 < s.len() implies s[k2] != v by {
        if s[k2] == v {
            lemma_occurrences_prefix(s.take(k2), j + 1, v);
            assert(s.take(k2).take(j + 1) =~= s.take(j + 1));
            lemma_occurrences_step(s, k2, v);
            lemma_occurrences_prefix(s, k2 + 1, v);
        }
    }
}

/// Every predecessor of a listed vertex is listed before it.
pub open spec fn preds_listed(a: Seq<Seq<usize>>, o: Seq<usize>) -> bool {
    forall|q: int, z: usize|
        0 <= q < o.len() && #[trigger] has_edge(a, z, o[q]) ==> exists|p: int| 0 <= p < q && o[p] == z
}

/// Every listed non-source has a release point that comes before position
/// `head`, or before place `j` in the row of `u`.
pub open spec fn released_by(a: Seq<Seq<usize>>, o: Seq<usize>, head: int, u: usize, j: int) -> bool {
    forall|i: int|
        0 <= i < o.len() && !is_source(a, #[trigger] o[i]) ==> exists|p: usize, k: int|
            #[trigger] release_point(a, o, o[i], p, k) && (position_in(o, p) < head || (p == u && k < j))
}

/// Moving on to the next place of a row keeps the release bound.
pub proof fn lemma_released_by_step(a: Seq<Seq<usize>>, o: Seq<usize>, head: int, u: usize, j: int)
    requires
        released_by(a, o, head, u, j),
    ensures
        released_by(a, o, head, u, j + 1),
{
    assert forall|i: int| 0 <= i < o.len() && !is_source(a, #[trigger] o[i]) implies exists|p: usize, k: int|
        #[trigger] release_point(a, o, o[i], p, k) && (position_in(o, p) < head || (p == u && k < j + 1)) by {
        let (p, k) = choose|p: usize, k: int|
            #[trigger] release_point(a, o, o[i], p, k) && (position_in(o, p) < head || (p == u && k < j));
    }
}

/// Starting on the row of `u` keeps the release bound.
pub proof fn lemma_released_by_start(a: Seq<Seq<usize>>, o: Seq<usize>, head: int, u0: usize, u: usize)
    requires
        released_by(a, o, head, u0, 0),
    ensures
        released_by(a, o, head, u, 0),
{
    assert forall|i: int| 0 <= i < o.len() && !is_source(a, #[trigger] o[i]) implies exists|p: usize, k: int|
        #[trigger] release_point(a, o, o[i], p, k) && (position_in(o, p) < head || (p == u && k < 0)) by {
        let (p, k) = choose|p: usize, k: int|
            #[trigger] release_point(a, o, o[i], p, k) && (position_in(o, p) < head || (p == u0 && k < 0));
        assert(0 <= k);
    }
}

/// Finishing the row of the vertex at `head` moves the release bound past it.
pub proof fn lemma_released_by_finish(a: Seq<Seq<usize>>, o: Seq<usize>, head: int, u: usize, j: int)
    requires
        released_by(a, o, head, u, j),
        position_in(o, u) == head,
    ensures
        released_by(a, o, head + 1, 0, 0),
{
    assert forall|i: int| 0 <= i < o.len() && !is_source(a, #[trigger] o[i]) implies exists|p: usize, k: int|
        #[trigger] release_point(a, o, o[i], p, k) && (position_in(o, p) < head + 1 || (p == 0 && k < 0)) by {
        let (p, k) = choose|p: usize, k: int|
            #[trigger] release_point(a, o, o[i], p, k) && (position_in(o, p) < head || (p == u && k < j));
    }
}

/// Appending the vertex `v` released by place `j` of the row of `u` (the
/// vertex at position `head`) keeps the first-in, first-out order.
pub proof fn lemma_fifo_push(a: Seq<Seq<usize>>, o: Seq<usize>, v: usize, u: usize, head: int, j: int)
    requires
        o.push(v).no_duplicates(),
        fifo_order(a, o),
        preds_listed(a, o),
        released_by(a, o, head, u, j),
        0 <= head < o.len(),
        o[head] == u,
        release_point(a, o, v, u, j),
        preds_in(a, o, v),
    ensures
        fifo_order(a, o.push(v)),
        released_by(a, o.push(v), head, u, j + 1),
{
    let o2 = o.push(v);
    assert(o.no_duplicates()) by {
        assert forall|i1: int, j1: int| 0 <= i1 < o.len() && 0 <= j1 < o.len() && i1 != j1 implies o[i1] != o[j1] by {
            assert(o2[i1] == o[i1]);
            assert(o2[j1] == o[j1]);
        }
    }
    lemma_position_in(o, head);
    lemma_position_push(o, v, u);
    assert(o.contains(u));
    assert forall|i: int| 0 <= i < o.len() implies #[trigger] preds_in(a, o, o[i]) by {
        assert forall|q: usize| #[trigger] has_edge(a, q, o[i]) implies o.contains(q) by {
            let p = choose|p: int| 0 <= p < i && o[p] == q;
        }
    }
    lemma_release_push(a, o, v, v, u, j);
    assert(has_edge(a, u, v));
    assert forall|i: int, k: int| 0 <= i < k < o2.len() implies released_before(a, o2, #[trigger] o2[i], #[trigger] o2[k]) by {
        assert(o2[i] == o[i]);
        assert(preds_in(a, o, o[i]));
        if k < o.len() {
            assert(o2[k] == o[k]);
            assert(preds_in(a, o, o[k]));
            assert(released_before(a, o, o[i], o[k]));
            lemma_released_before_push(a, o, v, o[i], o[k]);
        } else {
            assert(o2[k] == v);
            assert(!is_source(a, v));
            if !is_source(a, o[i]) {
                let (p, kk) = choose|p: usize, kk: int|
                    #[trigger] release_point(a, o, o[i], p, kk) && (position_in(o, p) < head || (p == u && kk < j));
                lemma_release_push(a, o, v, o[i], p, kk);
                assert(p == u || o.contains(p)) by {
                    assert(has_edge(a, p, o[i]));
                }
                if p != u {
                    lemma_position_push(o, v, p);
                }
                assert(release_point(a, o2, o[i], p, kk) && release_point(a, o2, v, u, j) && (position_in(o2, p)
                    < position_in(o2, u) || (p == u && kk < j)));
            }
        }
    }
    assert forall|i: int| 0 <= i < o2.len() && !is_source(a, #[trigger] o2[i]) implies exists|p: usize, k: int|
        #[trigger] release_point(a, o2, o2[i], p, k) && (position_in(o2, p) < head || (p == u && k < j + 1)) by {
        if i < o.len() {
            assert(o2[i] == o[i]);
            let (p, kk) = choose|p: usize, kk: int|
                #[trigger] release_point(a, o, o[i], p, kk) && (position_in(o, p) < head || (p == u && kk < j));
            assert(preds_in(a, o, o[i]));
            lemma_release_push(a, o, v, o[i], p, kk);
            assert(has_edge(a, p, o[i]));
            lemma_position_push(o, v, p);
            assert(release_point(a, o2, o2[i], p, kk));
        } else {
            assert(o2[i] == v);
            assert(release_point(a, o2, o2[i], u, j));
        }
    }
}

/// The first vertex of a topological order is a source and the last is a sink:
/// they appear in the lists of sources and sinks.
pub proof fn law_topological_ends(a: Seq<Seq<usize>>, o: Seq<usize>)
    requires
        wf_adj(a),
        topological_order(a, o),
        0 < a.len() <= usize::MAX,
    ensures
        vertex_range(a.len()).filter(no_incoming(a)).contains(o[0]),
        vertex_range(a.len()).filter(no_outgoing(a)).contains(o.last()),
{
    let n = a.len();
    assert forall|x: usize| (x as int) < n implies o.contains(x) by {
        if !o.contains(x) {
            lemma_missing_vertex(o, n as usize, x);
        }
    }
    let first = o[0];
    let last = o[o.len() - 1];
    assert forall|w: usize| !#[trigger] has_edge(a, w, first) by {
        if has_edge(a, w, first) {
            assert(o.contains(w));
            let i = choose|i: int| 0 <= i < o.len() && o[i] == w;
            assert(!has_edge(a, o[i], o[0]));
        }
    }
    if a[last as int].len() != 0 {
        let y = a[last as int][0];
        assert(a[last as int].contains(y));
        assert(o.contains(y));
        let k = choose|k: int| 0 <= k < o.len() && o[k] == y;
        assert(!has_edge(a, o[o.len() - 1], o[k]));
    }
    let range = vertex_range(n);
    assert(range[first as int] == first);
    assert(range[last as int] == last);
    range.lemma_filter_contains(no_incoming(a), first as int);
    range.lemma_filter_contains(no_outgoing(a), last as int);
}


/// In the first-in, first-out order of Kahn's algorithm the sources lead, in
/// increasing order: whatever stands before a vertex that no row lists is
/// itself listed by no row, and is smaller.
pub proof fn law_sources_lead(a: Seq<Seq<usize>>, o: Seq<usize>)
    requires
        fifo_order(a, o),
    ensures
        forall|i: int, j: int|
            0 <= i < j < o.len() && (forall|w: usize| (w as int) < a.len() ==> !a[w as int].contains(#[trigger] o[j]))
                ==> (forall|w: usize| (w as int) < a.len() ==> !a[w as int].contains(#[trigger] o[i])) && o[i] < o[j],
{
    assert forall|i: int, j: int|
        0 <= i < j < o.len() && (forall|w: usize| (w as int) < a.len() ==> !a[w as int].contains(#[trigger] o[j]))
            implies (forall|w: usize| (w as int) < a.len() ==> !a[w as int].contains(#[trigger] o[i])) && o[i] < o[j] by {
        assert(released_before(a, o, o[i], o[j]));
        assert(is_source(a, o[j])) by {
            assert forall|w: usize| !#[trigger] has_edge(a, w, o[j]) by {
                if (w as int) < a.len() {
                    assert(!a[w as int].contains(o[j]));
                }
            }
        }
        assert forall|w: usize| (w as int) < a.len() implies !a[w as int].contains(o[i]) by {
            assert(!has_edge(a, w, o[i]));
        }
    }
}

} // verus!
