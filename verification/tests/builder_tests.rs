use hasse::{graph, graph_with, GraphBuilder};

#[test]
fn test_simple_directed_graph() {
    let g = graph()
        .directed(true)
        .vertices(3)
        .edge(0, 1)
        .edge(0, 2)
        .edge(1, 2)
        .build();

    assert_eq!(g.num_vertices(), 3);
    assert!(g.is_directed());
}

#[test]
fn test_string_vertex_graph() {
    let g = graph_with::<&str>()
        .directed(false)
        .vertex("A")
        .vertex("B")
        .vertex("C")
        .edge("A", "B")
        .edge("B", "C")
        .build();

    assert_eq!(g.num_vertices(), 3);
}

#[test]
fn test_convenience_function() {
    let g = graph()
        .vertices(4)
        .directed(true)
        .edges(vec![(0, 1), (1, 2), (2, 3)])
        .build();

    assert_eq!(g.num_vertices(), 4);
}

#[test]
fn test_vertex_labels() {
    let g = graph_with::<&str>()
        .edge("Alice", "Bob")
        .edge("Bob", "Charlie")
        .build();

    assert_eq!(g.num_vertices(), 3);
    // Labels should be set and accessible via get_label()
}

#[test]
fn named_vertices_are_numbered_in_order_of_appearance() {
    let g = graph_with::<&str>()
        .edge("Alice", "Bob")
        .edge("Bob", "Charlie")
        .build();
    assert_eq!(g.get_label(0), "Alice");
    assert_eq!(g.get_label(1), "Bob");
    assert_eq!(g.get_label(2), "Charlie");
    assert_eq!(g.adj, vec![vec![1], vec![0, 2], vec![1]]);
    assert!(!g.is_directed());
}

#[test]
fn repeated_vertex_is_added_once() {
    let g = graph_with::<&str>().vertex("x").vertex("y").vertex("x").build();
    assert_eq!(g.num_vertices(), 2);
    assert_eq!(g.get_label(1), "y");
}

#[test]
fn vertices_from_adds_new_names_only() {
    let g = graph_with::<String>()
        .directed(true)
        .vertices_from(vec!["p".to_string(), "q".to_string(), "p".to_string()])
        .edge("q".to_string(), "r".to_string())
        .build();
    assert_eq!(g.num_vertices(), 3);
    assert_eq!(g.get_label(2), "r");
    assert_eq!(g.adj, vec![vec![], vec![2], vec![]]);
}

#[test]
fn index_builder_labels_vertices_by_number() {
    let g = graph().vertices(3).directed(true).edge(2, 0).build();
    assert_eq!(g.get_label(0), "0");
    assert_eq!(g.get_label(2), "2");
    assert_eq!(g.adj, vec![vec![], vec![], vec![0]]);
}

#[test]
fn index_builder_adds_vertices_named_by_edges() {
    let g = graph().directed(true).edge(7, 3).build();
    assert_eq!(g.num_vertices(), 2);
    assert_eq!(g.get_label(0), "7");
    assert_eq!(g.get_label(1), "3");
    assert_eq!(g.adj, vec![vec![1], vec![]]);
}

#[test]
fn default_builder_is_empty_and_undirected() {
    let g = GraphBuilder::default().build();
    assert_eq!(g.num_vertices(), 0);
    assert!(!g.is_directed());
}

#[test]
fn builder_graph_supports_reduction() {
    let g = graph_with::<&str>()
        .directed(true)
        .edges(vec![("bottom", "left"), ("bottom", "right"), ("left", "top"), ("right", "top"), ("bottom", "top")])
        .build();
    let r = g.transitive_reduction();
    assert_eq!(r.num_edges(), 4);
    assert!(!r.adj[0].contains(&3));
}

#[test]
fn builder_edge_numbers_new_names_in_order() {
    let b = graph_with::<&str>().directed(true).vertex("a").vertex("b");
    let g0 = graph_with::<&str>().directed(true).vertex("a").vertex("b").build();
    let g = b.edge("c", "a").build();
    assert_eq!(g.num_vertices(), g0.num_vertices() + 1);
    assert_eq!(g.num_edges(), g0.num_edges() + 1);
    assert!(g.adj[2].contains(&0));
    assert_eq!(g.get_label(2), "c");
}

#[test]
fn builder_vertex_twice_is_vertex_once() {
    let once = graph_with::<&str>().edge("a", "b").vertex("z").build();
    let twice = graph_with::<&str>().edge("a", "b").vertex("z").vertex("z").build();
    assert_eq!(once.adj, twice.adj);
    assert_eq!(twice.num_vertices(), 3);
    assert_eq!(twice.get_label(2), "z");
    assert!(twice.adj[2].is_empty());
}

#[test]
fn builder_direction_keeps_counts_and_labels() {
    let d = graph().vertices(3).directed(true).edges(vec![(0, 1), (1, 2), (2, 2)]).build();
    let u = graph().vertices(3).directed(false).edges(vec![(0, 1), (1, 2), (2, 2)]).build();
    assert_eq!(d.num_vertices(), u.num_vertices());
    assert_eq!(d.num_edges(), u.num_edges());
    for i in 0..3 {
        assert_eq!(d.get_label(i), u.get_label(i));
    }
    for x in 0..3 {
        for y in 0..3 {
            let cxy = u.adj[x].iter().filter(|&&z| z == y).count();
            let cyx = u.adj[y].iter().filter(|&&z| z == x).count();
            assert_eq!(cxy, cyx);
        }
    }
}

#[test]
fn vertices_from_is_a_chain_of_vertex_calls() {
    let a = graph_with::<&str>().vertices_from(vec!["x", "y", "x", "w"]).build();
    let b = graph_with::<&str>().vertex("x").vertex("y").vertex("x").vertex("w").build();
    assert_eq!(a.num_vertices(), b.num_vertices());
    for i in 0..3 {
        assert_eq!(a.get_label(i), b.get_label(i));
    }
}
