use hasse::graph::Graph;

fn sorted(mut v: Vec<usize>) -> Vec<usize> {
    v.sort();
    v
}

#[test]
fn test_transitive_reduction() {
    // Create a graph: 0 -> 1 -> 2, with 0 -> 2 (transitive edge)
    let mut g = Graph::new(3, true);
    g.add_edge(0, 1);
    g.add_edge(1, 2);
    g.add_edge(0, 2); // This should be removed

    let reduced = g.transitive_reduction();

    // Should only have edges 0->1 and 1->2
    assert_eq!(reduced.num_edges(), 2);
    assert!(reduced.adj[0].contains(&1));
    assert!(reduced.adj[1].contains(&2));
    assert!(!reduced.adj[0].contains(&2));
}

#[test]
fn test_topological_sort() {
    let mut g = Graph::new(4, true);
    g.add_edge(0, 1);
    g.add_edge(0, 2);
    g.add_edge(1, 3);
    g.add_edge(2, 3);

    let topo = g.topological_sort();
    assert!(topo.is_some());

    let order = topo.unwrap();
    assert_eq!(order.len(), 4);
    assert_eq!(order[0], 0); // 0 should be first
    assert_eq!(order[3], 3); // 3 should be last
}

#[test]
fn new_graph_has_index_labels_and_no_edges() {
    let g = Graph::new(12, false);
    assert_eq!(g.num_vertices(), 12);
    assert_eq!(g.num_edges(), 0);
    assert!(!g.is_directed());
    assert_eq!(g.get_label(0), "0");
    assert_eq!(g.get_label(7), "7");
    assert_eq!(g.get_label(11), "11");
    assert_eq!(g.get_label(12), "");
}

#[test]
fn undirected_edge_is_stored_both_ways() {
    let mut g = Graph::new(3, false);
    g.add_edge(0, 2);
    g.add_edge(1, 1);
    assert_eq!(g.adj[0], vec![2]);
    assert_eq!(g.adj[2], vec![0]);
    assert_eq!(g.adj[1], vec![1, 1]);
    assert_eq!(g.num_edges(), 2);
}

#[test]
fn directed_edge_count_counts_every_entry() {
    let mut g = Graph::new(2, true);
    g.add_edge(0, 1);
    g.add_edge(0, 1);
    g.add_edge(1, 0);
    assert_eq!(g.num_edges(), 3);
    assert_eq!(g.adj[1], vec![0]);
}

#[test]
fn set_labels_replaces_labels() {
    let mut g = Graph::new(2, true);
    g.set_labels(vec!["low".to_string(), "high".to_string()]);
    assert_eq!(g.get_label(0), "low");
    assert_eq!(g.get_label(1), "high");
    assert_eq!(g.get_label(2), "");
}

#[test]
fn has_path_follows_edges_only_forwards() {
    let mut g = Graph::new(4, true);
    g.add_edge(0, 1);
    g.add_edge(1, 2);
    assert!(g.has_path(0, 2));
    assert!(g.has_path(3, 3));
    assert!(!g.has_path(2, 0));
    assert!(!g.has_path(0, 3));
}

#[test]
fn has_path_in_undirected_graph_goes_both_ways() {
    let mut g = Graph::new(3, false);
    g.add_edge(0, 1);
    g.add_edge(1, 2);
    assert!(g.has_path(2, 0));
}

#[test]
fn shortest_path_avoiding_values() {
    let mut g = Graph::new(5, true);
    g.add_edge(0, 1);
    g.add_edge(1, 2);
    g.add_edge(0, 2);
    g.add_edge(2, 3);
    g.add_edge(3, 4);
    assert_eq!(g.shortest_path_avoiding(0, 2, (0, 2)), Some(2));
    assert_eq!(g.shortest_path_avoiding(0, 2, (9, 9)), Some(1));
    assert_eq!(g.shortest_path_avoiding(0, 4, (0, 1)), Some(3));
    assert_eq!(g.shortest_path_avoiding(0, 1, (0, 1)), None);
    assert_eq!(g.shortest_path_avoiding(4, 0, (0, 1)), None);
    assert_eq!(g.shortest_path_avoiding(3, 3, (3, 3)), Some(0));
}

#[test]
fn shortest_path_avoiding_skips_parallel_copies() {
    let mut g = Graph::new(2, true);
    g.add_edge(0, 1);
    g.add_edge(0, 1);
    assert_eq!(g.shortest_path_avoiding(0, 1, (0, 1)), None);
}

#[test]
fn reduction_of_power_set_inclusion() {
    // 0 = {}, 1 = {a}, 2 = {b}, 3 = {a, b}
    let mut g = Graph::new(4, true);
    g.add_edge(0, 1);
    g.add_edge(0, 2);
    g.add_edge(0, 3);
    g.add_edge(1, 3);
    g.add_edge(2, 3);
    let r = g.transitive_reduction();
    assert_eq!(r.adj, vec![vec![1, 2], vec![3], vec![3], vec![]]);
    assert_eq!(r.num_edges(), 4);
    assert!(r.is_directed());
    assert_eq!(r.get_label(3), "3");
}

#[test]
fn reduction_of_divisibility() {
    // 0 = 1, 1 = 2, 2 = 3, 3 = 6
    let mut g = Graph::new(4, true);
    g.add_edge(0, 1);
    g.add_edge(0, 2);
    g.add_edge(0, 3);
    g.add_edge(1, 3);
    g.add_edge(2, 3);
    let r = g.transitive_reduction();
    assert!(!r.adj[0].contains(&3));
    assert_eq!(r.num_edges(), 4);
}

#[test]
fn reduction_keeps_reachability_of_a_dag() {
    let mut g = Graph::new(5, true);
    for (u, v) in [(0, 1), (1, 2), (2, 3), (0, 2), (0, 3), (1, 3), (3, 4), (0, 4)] {
        g.add_edge(u, v);
    }
    let r = g.transitive_reduction();
    assert_eq!(r.adj, vec![vec![1], vec![2], vec![3], vec![4], vec![]]);
    for s in 0..5 {
        for t in 0..5 {
            assert_eq!(r.has_path(s, t), g.has_path(s, t));
        }
    }
}

#[test]
fn reduction_has_no_redundant_edge() {
    let mut g = Graph::new(4, true);
    for (u, v) in [(0, 1), (1, 2), (0, 2), (2, 3), (1, 3)] {
        g.add_edge(u, v);
    }
    let r = g.transitive_reduction();
    for u in 0..4 {
        for &v in &r.adj[u] {
            assert_eq!(r.shortest_path_avoiding(u, v, (u, v)), None);
        }
    }
}

#[test]
fn reduction_of_a_cycle_with_chords_loses_reachability() {
    // a = 0, b = 1, c = 2: edges a->b, a->c, c->b, c->a
    let mut g = Graph::new(3, true);
    g.add_edge(0, 1);
    g.add_edge(0, 2);
    g.add_edge(2, 1);
    g.add_edge(2, 0);
    let r = g.transitive_reduction();
    assert_eq!(r.adj, vec![vec![2], vec![], vec![0]]);
    assert!(g.has_path(0, 1));
    assert!(!r.has_path(0, 1));
}

#[test]
fn reduction_drops_self_loops() {
    let mut g = Graph::new(2, true);
    g.add_edge(0, 0);
    g.add_edge(0, 1);
    let r = g.transitive_reduction();
    assert_eq!(r.adj, vec![vec![1], vec![]]);
}

#[test]
fn closure_of_a_chain() {
    let mut g = Graph::new(3, true);
    g.add_edge(0, 1);
    g.add_edge(1, 2);
    let c = g.transitive_closure();
    assert_eq!(c.adj, vec![vec![1, 0, 2], vec![2, 1], vec![2]]);
    assert_eq!(c.num_edges(), 6);
    assert!(c.is_directed());
}

#[test]
fn closure_edges_are_exactly_reachable_pairs() {
    let mut g = Graph::new(5, true);
    for (u, v) in [(0, 1), (1, 2), (2, 0), (3, 4)] {
        g.add_edge(u, v);
    }
    let c = g.transitive_closure();
    for i in 0..5 {
        for j in 0..5 {
            assert_eq!(c.adj[i].contains(&j), g.has_path(i, j));
            assert_eq!(c.has_path(i, j), g.has_path(i, j));
        }
        assert_eq!(c.adj[i][..g.adj[i].len()], g.adj[i][..]);
    }
}

#[test]
fn closure_keeps_undirected_rows() {
    let mut g = Graph::new(2, false);
    g.add_edge(0, 1);
    let c = g.transitive_closure();
    assert!(!c.is_directed());
    assert_eq!(c.adj, vec![vec![1, 0], vec![0, 1]]);
}

#[test]
fn sources_and_sinks() {
    let mut g = Graph::new(5, true);
    g.add_edge(0, 1);
    g.add_edge(1, 2);
    g.add_edge(3, 2);
    assert_eq!(g.get_sources(), vec![0, 3, 4]);
    assert_eq!(g.get_sinks(), vec![2, 4]);
}

#[test]
fn topological_sort_of_undirected_graph_is_none() {
    let mut g = Graph::new(2, false);
    g.add_edge(0, 1);
    assert_eq!(g.topological_sort(), None);
}

#[test]
fn topological_sort_detects_cycles() {
    let mut g = Graph::new(3, true);
    g.add_edge(0, 1);
    g.add_edge(1, 2);
    g.add_edge(2, 1);
    assert_eq!(g.topological_sort(), None);
    let mut h = Graph::new(1, true);
    h.add_edge(0, 0);
    assert_eq!(h.topological_sort(), None);
}

#[test]
fn topological_sort_orders_every_edge_forwards() {
    let mut g = Graph::new(6, true);
    for (u, v) in [(5, 2), (5, 0), (4, 0), (4, 1), (2, 3), (3, 1)] {
        g.add_edge(u, v);
    }
    let order = g.topological_sort().unwrap();
    assert_eq!(order, vec![4, 5, 2, 0, 3, 1]);
    assert_eq!(sorted(order.clone()), vec![0, 1, 2, 3, 4, 5]);
    let pos = |x: usize| order.iter().position(|&y| y == x).unwrap();
    for u in 0..6 {
        for &v in &g.adj[u] {
            assert!(pos(u) < pos(v));
        }
    }
}

#[test]
fn empty_graph_sorts_to_empty_order() {
    let g = Graph::new(0, true);
    assert_eq!(g.topological_sort(), Some(vec![]));
}

#[test]
fn clone_copies_everything() {
    let mut g = Graph::new(3, false);
    g.add_edge(0, 1);
    g.set_labels(vec!["a".to_string(), "b".to_string(), "c".to_string()]);
    let c = g.clone();
    assert_eq!(c.adj, g.adj);
    assert_eq!(c.directed, g.directed);
    assert_eq!(c.get_label(2), "c");
}

#[test]
fn layers_follow_longest_walks() {
    let mut g = Graph::new(5, true);
    for (u, v) in [(0, 1), (1, 2), (0, 2), (3, 2), (2, 4)] {
        g.add_edge(u, v);
    }
    let layers = g.layer_assignment().unwrap();
    assert_eq!(layers, vec![0, 1, 2, 0, 3]);
    let groups = hasse::layout::group_layers(&layers);
    assert_eq!(groups, vec![vec![0, 3], vec![1], vec![2], vec![4]]);
}

#[test]
fn layers_need_a_dag() {
    let mut g = Graph::new(2, true);
    g.add_edge(0, 1);
    g.add_edge(1, 0);
    assert_eq!(g.layer_assignment(), None);
    let mut u = Graph::new(2, false);
    u.add_edge(0, 1);
    assert_eq!(u.layer_assignment(), None);
}

#[test]
fn grouping_no_layers() {
    let groups = hasse::layout::group_layers(&vec![]);
    assert_eq!(groups, vec![Vec::<usize>::new()]);
}

#[test]
fn decimal_labels() {
    assert_eq!(hasse::text::decimal_string(0), "0");
    assert_eq!(hasse::text::decimal_string(42), "42");
    assert_eq!(hasse::text::decimal_string(1000), "1000");
    assert_eq!(hasse::text::decimal_string(usize::MAX), usize::MAX.to_string());
}

#[test]
fn reducing_twice_changes_nothing() {
    let mut g = Graph::new(6, true);
    for (u, v) in [(0, 1), (1, 2), (0, 2), (2, 0), (3, 4), (4, 5), (3, 5), (5, 5), (1, 1)] {
        g.add_edge(u, v);
    }
    let r = g.transitive_reduction();
    let rr = r.transitive_reduction();
    assert_eq!(rr.adj, r.adj);
}

#[test]
fn reduction_of_a_dag_sorts_topologically() {
    let mut g = Graph::new(4, true);
    for (u, v) in [(0, 1), (1, 2), (0, 2), (2, 3), (0, 3)] {
        g.add_edge(u, v);
    }
    let r = g.transitive_reduction();
    assert_eq!(r.topological_sort(), Some(vec![0, 1, 2, 3]));
}

#[test]
fn layers_rise_along_reachability() {
    let mut g = Graph::new(6, true);
    for (u, v) in [(0, 2), (1, 2), (2, 3), (1, 4), (4, 5), (5, 3)] {
        g.add_edge(u, v);
    }
    let l = g.layer_assignment().unwrap();
    assert_eq!(l, vec![0, 0, 1, 3, 1, 2]);
    for u in 0..6 {
        for v in 0..6 {
            if u != v && g.has_path(u, v) {
                assert!(l[u] < l[v]);
            }
        }
    }
}

#[test]
fn each_insertion_adds_one_edge() {
    for directed in [true, false] {
        let mut g = Graph::new(4, directed);
        let es = [(0, 1), (1, 1), (2, 3), (0, 1), (3, 0)];
        for (k, &(u, v)) in es.iter().enumerate() {
            assert_eq!(g.num_edges(), k);
            g.add_edge(u, v);
            assert_eq!(g.num_edges(), k + 1);
            assert_eq!(g.num_vertices(), 4);
        }
    }
}

#[test]
fn undirected_reachability_is_symmetric() {
    let mut g = Graph::new(6, false);
    for (u, v) in [(0, 1), (1, 2), (4, 3), (5, 5)] {
        g.add_edge(u, v);
    }
    for u in 0..6 {
        for v in 0..6 {
            assert_eq!(g.has_path(u, v), g.has_path(v, u));
        }
    }
    assert!(g.has_path(2, 0));
    assert!(!g.has_path(0, 3));
}

#[test]
fn reducing_the_closure_gives_the_hasse_diagram() {
    let mut g = Graph::new(5, true);
    for (u, v) in [(0, 1), (0, 2), (1, 3), (2, 3), (0, 3), (3, 4), (1, 4)] {
        g.add_edge(u, v);
    }
    let r = g.transitive_reduction();
    let rc = g.transitive_closure().transitive_reduction();
    for u in 0..5 {
        for v in 0..5 {
            assert_eq!(rc.adj[u].contains(&v), r.adj[u].contains(&v));
        }
    }
}

#[test]
fn topological_order_starts_at_a_source_and_ends_at_a_sink() {
    let mut g = Graph::new(5, true);
    for (u, v) in [(3, 1), (1, 0), (4, 0), (2, 4)] {
        g.add_edge(u, v);
    }
    let order = g.topological_sort().unwrap();
    assert!(g.get_sources().contains(&order[0]));
    assert!(g.get_sinks().contains(&order[order.len() - 1]));
}
