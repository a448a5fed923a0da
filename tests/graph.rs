use monobuild::graph::Graph;

fn g(adjacency: Vec<(usize, Vec<(usize, usize)>)>) -> Graph<usize, usize> {
    Graph::from_adjacency(adjacency)
}

#[test]
fn mod_new_normalizes_graph() {
    let graph = Graph::<usize, usize>::from_adjacency(vec![(1, vec![(2, 0), (3, 0)])]);

    let expected = vec![1, 2, 3];
    let actual = graph.vertices().into_iter().cloned().collect::<Vec<_>>();

    assert_eq!(actual, expected);
}

#[test]
fn mod_filters_an_empty_graph() {
    let graph = Graph::<usize, usize>::new();

    let expected = Graph::<usize, usize>::new();
    let actual_v = graph.filter_vertices(|_v| true);
    let actual_e = graph.filter_edges(|_e| true);

    assert_eq!(actual_v, expected);
    assert_eq!(actual_e, expected);
}

#[test]
fn mod_filters_a_vertex_from_a_graph() {
    let graph = g(vec![(1, vec![(2, 0), (3, 0)])]);

    let expected = g(vec![(1, vec![(3, 0)])]);
    let actual = graph.filter_vertices(|v| *v != 2);

    assert_eq!(actual, expected);
}

#[test]
fn mod_filters_an_edge_from_a_graph() {
    let graph = g(vec![(1, vec![(2, 0), (3, 1)]), (2, vec![(3, 0)])]);

    let expected = g(vec![(1, vec![(2, 0)]), (2, vec![(3, 0)])]);
    let actual = graph.filter_edges(|e| *e != 1);

    assert_eq!(actual, expected);
}

#[test]
fn filters_a_vertex_from_a_subgraph() {
    let graph = g(vec![(1, vec![(2, 0), (3, 0)])]);

    let expected = g(vec![(1, vec![])]);
    let actual = graph
        .filter_vertices(|v| *v != 2)
        .filter_vertices(|v| *v != 3);

    assert_eq!(actual, expected);
}

#[test]
fn filters_an_edge_from_a_subgraph() {
    let graph = g(vec![(1, vec![(2, 0), (3, 1)]), (2, vec![(3, 0), (1, 2)])]);

    let expected = g(vec![(1, vec![(2, 0)]), (2, vec![(3, 0)])]);
    let actual = graph.filter_edges(|e| *e != 1).filter_edges(|e| *e != 2);

    assert_eq!(actual, expected);
}

#[test]
fn filters_an_edge_from_a_vertex_filtered_subgraph() {
    let graph = g(vec![(1, vec![(2, 0), (3, 1)]), (2, vec![(3, 0), (1, 2)])]);

    let expected = g(vec![(1, vec![(2, 0)]), (2, vec![])]);
    let actual = graph.filter_vertices(|v| *v != 3).filter_edges(|e| *e != 2);

    assert_eq!(actual, expected);
}

#[test]
fn mod_empty_graph() {
    let graph = Graph::<usize, usize>::new();

    let actual = graph.filter_vertices(|v| *v == 1).expand();
    let expected = Graph::<usize, usize>::new();

    assert_eq!(actual, expected);
}

#[test]
fn mod_single_vertex_graph() {
    let graph = g(vec![(1, vec![])]);

    let actual = graph.filter_vertices(|v| *v == 1).expand();
    let expected = g(vec![(1, vec![])]);

    assert_eq!(actual, expected);
}

#[test]
fn mod_single_child_of_one_vertex() {
    let graph = g(vec![(1, vec![(2, 0)]), (3, vec![(2, 0)])]);

    let actual = graph.filter_vertices(|v| *v == 1).expand();
    let expected = g(vec![(1, vec![(2, 0)])]);

    assert_eq!(actual, expected);
}

#[test]
fn mod_multiple_children_of_one_vertex() {
    let graph = g(vec![(1, vec![(2, 0), (3, 0)])]);

    let actual = &graph.filter_vertices(|v| *v == 1).expand();
    let expected = &graph;

    assert_eq!(actual, expected);
}

#[test]
fn mod_all_descendants_of_one_vertex() {
    let graph = g(vec![(1, vec![(2, 0), (3, 0)]), (2, vec![(3, 0), (4, 0)])]);

    let actual = &graph.filter_vertices(|v| *v == 1).expand();
    let expected = &graph;

    assert_eq!(actual, expected);
}

#[test]
fn mod_all_descendants_of_multiple_vertices() {
    let graph = g(vec![
        (1, vec![(4, 0), (5, 0)]),
        (2, vec![(6, 0)]),
        (3, vec![(8, 0), (9, 0)]),
        (4, vec![(7, 0)]),
        (7, vec![(8, 0)]),
        (8, vec![(5, 0)]),
    ]);

    let actual = graph.filter_vertices(|v| *v == 1 || *v == 2).expand();
    let expected = g(vec![
        (1, vec![(4, 0), (5, 0)]),
        (2, vec![(6, 0)]),
        (4, vec![(7, 0)]),
        (7, vec![(8, 0)]),
        (8, vec![(5, 0)]),
    ]);

    assert_eq!(actual, expected);
}

#[test]
fn all_descendants_via_edges_of_a_color() {
    let graph = g(vec![
        (1, vec![(4, 1), (5, 0)]),
        (2, vec![(6, 1)]),
        (3, vec![(8, 0), (9, 0)]),
        (4, vec![(7, 1)]),
        (7, vec![(8, 0)]),
        (8, vec![(5, 0)]),
    ]);

    let actual = graph
        .filter_vertices(|v| *v == 1 || *v == 2 || *v == 5)
        .expand_via(|e| *e == 1);
    let expected = g(vec![
        (1, vec![(4, 1), (5, 0)]),
        (2, vec![(6, 1)]),
        (4, vec![(7, 1)]),
        (5, vec![]),
        (7, vec![]),
    ]);

    assert_eq!(actual, expected);
}

#[test]
fn mod_reverses_empty_graph() {
    let graph = Graph::<usize, usize>::new();

    let expected = Graph::<usize, usize>::new();
    let actual = graph.reverse();

    assert_eq!(actual, expected);
}

#[test]
fn mod_reverses_single_edge() {
    let graph = g(vec![(1, vec![(2, 0)])]);

    let expected = g(vec![(2, vec![(1, 0)])]);
    let actual = graph.reverse();

    assert_eq!(actual, expected);
}

#[test]
fn mod_reverses_a_fan() {
    let graph = g(vec![(1, vec![(2, 0), (3, 1), (4, 0)])]);

    let expected = g(vec![(2, vec![(1, 0)]), (3, vec![(1, 1)]), (4, vec![(1, 0)])]);
    let actual = graph.reverse();

    assert_eq!(actual, expected);
}

#[test]
fn mod_reverses_a_complex_graph() {
    let graph = g(vec![(1, vec![(2, 0), (3, 1)]), (2, vec![(3, 0)]), (3, vec![(4, 0)])]);

    let expected = g(vec![(2, vec![(1, 0)]), (3, vec![(1, 1), (2, 0)]), (4, vec![(3, 0)])]);
    let actual = graph.reverse();

    assert_eq!(actual, expected);
}

#[test]
fn of_an_empty_graph() {
    let graph = Graph::<usize, usize>::new();

    let actual = graph.roots();
    let expected = Graph::<usize, usize>::new();

    assert_eq!(actual, expected);
}

#[test]
fn of_a_single_edge() {
    let graph = g(vec![(1, vec![(2, 0)])]);

    let actual = graph.roots();
    let expected = g(vec![(1, vec![])]);

    assert_eq!(actual, expected);
}

#[test]
fn of_a_complex_graph() {
    let graph = g(vec![
        (1, vec![(2, 0), (3, 0)]),
        (2, vec![(3, 0)]),
        (4, vec![(5, 0)]),
        (5, vec![(6, 0)]),
        (7, vec![(2, 0)]),
    ]);

    let actual = graph.roots();
    let expected = g(vec![(1, vec![]), (4, vec![]), (7, vec![])]);

    assert_eq!(actual, expected);
}

#[test]
fn of_a_subgraph() {
    let graph = g(vec![
        (1, vec![(2, 0), (3, 1)]),
        (2, vec![(3, 1)]),
        (4, vec![(5, 0)]),
        (5, vec![(6, 0)]),
        (7, vec![(2, 0)]),
    ]);

    let actual = graph
        .filter_edges(|e| *e != 1)
        .filter_vertices(|v| *v != 7)
        .roots();
    let expected = g(vec![(1, vec![]), (3, vec![]), (4, vec![])]);

    assert_eq!(actual, expected);
}

// Laws and edge cases on concrete values.

#[test]
fn normalization_adds_destination_only_vertices() {
    let graph = Graph::<String, usize>::from_adjacency(vec![(
        "A".to_string(),
        vec![("B".to_string(), 0), ("C".to_string(), 0)],
    )]);

    let actual: Vec<String> = graph.vertices().into_iter().cloned().collect();

    assert_eq!(actual, vec!["A".to_string(), "B".to_string(), "C".to_string()]);
}

#[test]
fn reverse_twice_is_identity() {
    let graph = g(vec![(1, vec![(2, 0), (3, 1)]), (2, vec![(3, 0), (1, 2)]), (5, vec![(5, 1)])]);

    assert_eq!(graph.reverse().reverse(), graph);
}

#[test]
fn filters_keeping_everything_change_nothing() {
    let graph = g(vec![(1, vec![(2, 0), (3, 1)]), (2, vec![(3, 0)]), (4, vec![])]);

    assert_eq!(graph.filter_vertices(|_| true).filter_edges(|_| true), graph);
}

#[test]
fn roots_of_a_shared_child() {
    let graph = g(vec![(1, vec![(2, 0)]), (3, vec![(2, 0)])]);

    let actual = graph.roots();
    let expected = g(vec![(1, vec![]), (3, vec![])]);

    assert_eq!(actual, expected);
    assert!(actual.iter().iter().all(|(_, edges)| edges.is_empty()));
}

#[test]
fn closure_of_one_vertex_keeps_all_edges() {
    let graph = g(vec![(1, vec![(2, 0), (3, 0)]), (2, vec![(3, 0), (4, 0)])]);

    assert_eq!(graph.filter_vertices(|v| *v == 1).expand(), graph);

    let strong_only = g(vec![(1, vec![(2, 1), (3, 0)]), (2, vec![(3, 0), (4, 1)])]);
    let actual = strong_only.filter_vertices(|v| *v == 1).expand_via(|e| *e == 1);
    let expected = g(vec![(1, vec![(2, 1)]), (2, vec![(4, 1)])]);

    assert_eq!(actual, expected);
}

#[test]
fn filter_order_does_not_matter() {
    let graph = g(vec![(1, vec![(2, 0), (3, 1)]), (2, vec![(3, 0), (1, 1)]), (3, vec![(1, 0)])]);

    let a = graph.filter_vertices(|v| *v != 2).filter_edges(|e| *e == 0);
    let b = graph.filter_edges(|e| *e == 0).filter_vertices(|v| *v != 2);

    assert_eq!(a, b);
}

#[test]
fn later_duplicate_edge_wins() {
    let graph = g(vec![(1, vec![(2, 0)]), (1, vec![(2, 1)])]);

    assert_eq!(graph, g(vec![(1, vec![(2, 1)])]));
}

#[test]
fn cycles_terminate_when_expanding() {
    let graph = g(vec![(1, vec![(2, 0)]), (2, vec![(1, 0)]), (3, vec![(1, 0)])]);

    let actual = graph.filter_vertices(|v| *v == 1).expand();
    let expected = g(vec![(1, vec![(2, 0)]), (2, vec![(1, 0)])]);

    assert_eq!(actual, expected);
}

#[test]
fn unequal_graphs_differ() {
    assert_ne!(g(vec![(1, vec![(2, 0)])]), g(vec![(1, vec![(2, 1)])]));
    assert_ne!(g(vec![(1, vec![])]), Graph::<usize, usize>::new());
}

#[test]
fn walks_follow_the_listing() {
    let graph = g(vec![(1, vec![(2, 0), (3, 1)]), (2, vec![(3, 0)]), (4, vec![])]);
    let view = graph.filter_vertices(|v| *v != 4);

    let mut seen = Vec::new();
    let mut walk = view.walk();
    while let Some((v, mut edges)) = walk.next() {
        let mut out = Vec::new();
        while let Some((to, label)) = edges.next() {
            out.push((*to, label));
        }
        seen.push((*v, out));
    }
    assert_eq!(seen, vec![(1, vec![(2, 0), (3, 1)]), (2, vec![(3, 0)]), (3, vec![])]);

    let mut vertices = Vec::new();
    let mut walk = view.walk_vertices();
    while let Some(v) = walk.next() {
        vertices.push(*v);
    }
    assert_eq!(vertices, vec![1, 2, 3]);

    let mut edges = view.walk_edges(0);
    assert_eq!(edges.next(), Some((&2, 0)));
    assert_eq!(edges.next(), Some((&3, 1)));
    assert_eq!(edges.next(), None);
}

#[test]
fn filtering_twice_is_filtering_with_both() {
    let graph = g(vec![(1, vec![(2, 0), (3, 1)]), (2, vec![(3, 0), (4, 0)]), (4, vec![(1, 1)])]);

    let twice = graph.filter_vertices(|v| *v != 2).filter_vertices(|v| *v != 4);
    let once = graph.filter_vertices(|v| *v != 2 && *v != 4);

    assert_eq!(twice, once);
}
