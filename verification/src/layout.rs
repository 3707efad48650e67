//! Grouping vertices into the layers of a layered drawing.
use vstd::prelude::*;

use crate::graph::{longest_path_layers, vertex_range};
use crate::graph_laws::{increasing, lemma_filter_increasing};
use crate::paths::{has_edge, is_walk, link, reachable, walk_between};

verus! {

/// The largest entry of `l`, or 0 when `l` is empty.
pub open spec fn max_entry(l: Seq<usize>) -> nat
    decreases l.len(),
{
    if l.len() == 0 {
        0
    } else {
        let m = max_entry(l.drop_last());
        if m < l.last() {
            l.last() as nat
        } else {
            m
        }
    }
}

/// The vertices whose layer is `k`.
pub open spec fn on_layer(l: Seq<usize>, k: usize) -> spec_fn(usize) -> bool {
    |v: usize| l[v as int] == k
}

/// The maximum bounds every entry and is an entry (or 0).
proof fn lemma_max_entry(l: Seq<usize>)
    ensures
        forall|i: int| 0 <= i < l.len() ==> l[i] <= max_entry(l),
        max_entry(l) == 0 || exists|i: int| 0 <= i < l.len() && l[i] == max_entry(l),
    decreases l.len(),
{
    if l.len() > 0 {
        lemma_max_entry(l.drop_last());
        assert forall|i: int| 0 <= i < l.len() implies l[i] <= max_entry(l) by {
            if i < l.len() - 1 {
                assert(l.drop_last()[i] == l[i]);
            }
        }
        if max_entry(l) != 0 && max_entry(l) != l.last() {
            let i = choose|i: int| 0 <= i < l.drop_last().len() && l.drop_last()[i] == max_entry(l.drop_last());
            assert(l[i] == max_entry(l));
        }
    }
}

/// Splits the vertices `0..layer_of.len()` by layer: entry `k` of the result
/// lists, in increasing order, the vertices whose layer is `k`, for every `k`
/// up to the largest layer.
pub fn group_layers(layer_of: &Vec<usize>) -> (layers: Vec<Vec<usize>>)
    requires
        forall|v: int| 0 <= v < layer_of@.len() ==> #[trigger] layer_of@[v] < usize::MAX,
    ensures
        layers@.len() == max_entry(layer_of@) + 1,
        forall|k: int|
            0 <= k < layers@.len() ==> (#[trigger] layers@[k])@ == vertex_range(layer_of@.len()).filter(
                on_layer(layer_of@, k as usize),
            ),
{
    let ghost l = layer_of@;
    let n = layer_of.len();
    proof {
        lemma_max_entry(l);
        if max_entry(l) != 0 {
            let t = choose|t: int| 0 <= t < l.len() && l[t] == max_entry(l);
            assert(l[t] < usize::MAX);
        }
    }
    let mut top: usize = 0;
    let mut i: usize = 0;
    while i < n
        invariant
            l == layer_of@,
            n == l.len(),
            i <= n,
            forall|t: int| 0 <= t < l.len() ==> l[t] <= max_entry(l),
            max_entry(l) == 0 || exists|t: int| 0 <= t < l.len() && l[t] == max_entry(l),
            top <= max_entry(l),
            forall|t: int| 0 <= t < i ==> l[t] <= top,
            top == 0 || exists|t: int| 0 <= t < i && l[t] == top,
        decreases n - i,
    {
        if layer_of[i] > top {
            top = layer_of[i];
        }
        i += 1;
    }
    assert(top == max_entry(l)) by {
        if top < max_entry(l) {
            let t = choose|t: int| 0 <= t < l.len() && l[t] == max_entry(l);
        }
    }
    let ghost range = vertex_range(n as nat);
    let mut layers: Vec<Vec<usize>> = Vec::new();
    let mut k: usize = 0;
    proof {
        reveal(Seq::filter);
    }
    while k < top + 1
        invariant
            k <= top + 1,
            top < usize::MAX,
            layers@.len() == k,
            forall|t: int| 0 <= t < k ==> (#[trigger] layers@[t])@ == Seq::<usize>::empty(),
        decreases top + 1 - k,
    {
        layers.push(Vec::new());
        k += 1;
    }
    proof {
        assert(range.take(0) =~= Seq::<usize>::empty());
        assert forall|t: int| 0 <= t < layers@.len() implies (#[trigger] layers@[t])@ == range.take(0).filter(
            on_layer(l, t as usize)) by {
            reveal(Seq::filter);
        }
    }
    let mut v: usize = 0;
    while v < n
        invariant
            l == layer_of@,
            n == l.len(),
            range == vertex_range(n as nat),
            v <= n,
            top == max_entry(l),
            forall|t: int| 0 <= t < l.len() ==> l[t] <= max_entry(l),
            layers@.len() == top + 1,
            forall|t: int|
                0 <= t < layers@.len() ==> (#[trigger] layers@[t])@ == range.take(v as int).filter(
                    on_layer(l, t as usize),
                ),
        decreases n - v,
    {
        let k = layer_of[v];
        let ghost before = layers@;
        proof {
            assert(range.take(v as int + 1) =~= range.take(v as int).push(v));
            assert forall|t: int| 0 <= t < layers@.len() implies #[trigger] range.take(v as int + 1).filter(
                on_layer(l, t as usize)) == (if l[v as int] == t as usize {
                range.take(v as int).filter(on_layer(l, t as usize)).push(v)
            } else {
                range.take(v as int).filter(on_layer(l, t as usize))
            }) by {
                range.take(v as int).lemma_filter_push(v, on_layer(l, t as usize));
            }
        }
        layers[k].push(v);
        proof {
            assert forall|t: int| 0 <= t < layers@.len() implies (#[trigger] layers@[t])@ == range.take(
                v as int + 1).filter(on_layer(l, t as usize)) by {
                if t != k as int {
                    assert(layers@[t] == before[t]);
                }
            }
        }
        v += 1;
    }
    assert(range.take(n as int) =~= range);
    layers
}

/// In a layer assignment by longest walks, a vertex reachable from another,
/// distinct one lies on a strictly higher layer.
pub proof fn law_layers_rise_along_walks(a: Seq<Seq<usize>>, l: Seq<usize>, u: usize, v: usize)
    requires
        longest_path_layers(a, l),
        reachable(a, u, v),
        u != v,
    ensures
        l[u as int] < l[v as int],
{
    let p = choose|p: Seq<usize>| walk_between(a, None, p, u, v);
    lemma_layers_rise(a, l, p, p.len() - 1);
}

/// Layers increase along every step of a walk.
proof fn lemma_layers_rise(a: Seq<Seq<usize>>, l: Seq<usize>, p: Seq<usize>, e: int)
    requires
        longest_path_layers(a, l),
        is_walk(a, None, p),
        1 <= e < p.len(),
    ensures
        l[p[0] as int] < l[p[e] as int],
    decreases e,
{
    assert(link(a, None, p, e - 1));
    assert(has_edge(a, p[e - 1], p[e]));
    if e > 1 {
        lemma_layers_rise(a, l, p, e - 1);
    }
}


/// Grouping by layer puts every vertex in exactly the group of its own
/// layer, each group in increasing order, and there is one group per layer
/// from 0 up to the largest layer, which is the layer of some vertex (or 0),
/// so that no vertex is left out and no group is added past the largest.
pub proof fn law_layer_groups(l: Seq<usize>)
    requires
        l.len() <= usize::MAX,
    ensures
        forall|v: int| 0 <= v < l.len() ==> #[trigger] l[v] < max_entry(l) + 1,
        max_entry(l) == 0 || exists|v: int| 0 <= v < l.len() && #[trigger] l[v] == max_entry(l),
        forall|k: usize| increasing(#[trigger] vertex_range(l.len()).filter(on_layer(l, k))),
        forall|k: usize, v: usize|
            #[trigger] vertex_range(l.len()).filter(on_layer(l, k)).contains(v) <==> ((v as int) < l.len() && l[v as int]
                == k),
{
    lemma_max_entry(l);
    let r = vertex_range(l.len());
    assert(increasing(r));
    assert forall|k: usize| increasing(#[trigger] r.filter(on_layer(l, k))) by {
        lemma_filter_increasing(r, on_layer(l, k));
    }
    assert forall|k: usize, v: usize|
        #[trigger] r.filter(on_layer(l, k)).contains(v) <==> ((v as int) < l.len() && l[v as int] == k) by {
        let pred = on_layer(l, k);
        if r.filter(pred).contains(v) {
            let i = choose|i: int| 0 <= i < r.filter(pred).len() && r.filter(pred)[i] == v;
            r.lemma_filter_pred(pred, i);
            r.lemma_filter_contains_rev(pred, v);
        }
        if (v as int) < l.len() && l[v as int] == k {
            assert(r[v as int] == v);
            r.lemma_filter_contains(pred, v as int);
        }
    }
}

} // verus!
