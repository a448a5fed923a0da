use monobuild::adjacency::{Edge, Graph};

#[test]
fn graph_new_normalizes_graph() {
    let graph = Graph::new(vec![(1, vec![Edge::new(2, 0), Edge::new(3, 0)])]);

    let expected: Vec<&usize> = vec![&1, &2, &3];
    let actual = graph.vertices();

    assert_eq!(actual, expected);
}

#[test]
fn graph_empty_graph() {
    let graph = Graph::<usize, usize>::new(vec![]);
    let query = vec![1];

    let actual = graph.children(&query);
    let expected: Vec<&usize> = vec![];

    assert_eq!(actual, expected);
}

#[test]
fn graph_single_vertex_graph() {
    let graph = Graph::<_, usize>::new(vec![(1, vec![])]);
    let query = vec![1];

    let actual = graph.children(&query);
    let expected: Vec<&usize> = vec![];

    assert_eq!(actual, expected);
}

#[test]
fn graph_single_child_of_one_vertex() {
    let graph = Graph::new(vec![(1, vec![Edge::new(2, 0)])]);
    let query = vec![1];

    let actual = graph.children(&query);
    let expected: Vec<&usize> = vec![&2];

    assert_eq!(actual, expected);
}

#[test]
fn graph_multiple_children_of_one_vertex() {
    let graph = Graph::new(vec![(1, vec![Edge::new(2, 0), Edge::new(3, 0)])]);

    let query = vec![1];

    let actual = graph.children(&query);
    let expected: Vec<&usize> = vec![&2, &3];

    assert_eq!(actual, expected);
}

#[test]
fn multiple_children_of_multiple_vertices() {
    let graph = Graph::new(vec![
        (1, vec![Edge::new(2, 0), Edge::new(3, 0)]),
        (2, vec![Edge::new(3, 0), Edge::new(4, 0)]),
    ]);

    let query = vec![1, 2];

    let actual = graph.children(&query);
    let expected: Vec<&usize> = vec![&2, &3, &4];

    assert_eq!(actual, expected);
}

#[test]
fn graph_descendants_of_empty_graph() {
    let graph = Graph::<usize, usize>::new(vec![]);
    let query = vec![1];

    let actual = graph.descendants(&query);
    let expected: Vec<&usize> = vec![];

    assert_eq!(actual, expected);
}

#[test]
fn graph_descendants_of_single_vertex_graph() {
    let graph = Graph::<_, usize>::new(vec![(1, vec![])]);
    let query = vec![1];

    let actual = graph.descendants(&query);
    let expected: Vec<&usize> = vec![];

    assert_eq!(actual, expected);
}

#[test]
fn graph_descendants_single_child_of_one_vertex() {
    let graph = Graph::new(vec![(1, vec![Edge::new(2, 0)])]);
    let query = vec![1];

    let actual = graph.descendants(&query);
    let expected: Vec<&usize> = vec![&2];

    assert_eq!(actual, expected);
}

#[test]
fn graph_descendants_multiple_children_of_one_vertex() {
    let graph = Graph::new(vec![(1, vec![Edge::new(2, 0), Edge::new(3, 0)])]);
    let query = vec![1];

    let actual = graph.descendants(&query);
    let expected: Vec<&usize> = vec![&2, &3];

    assert_eq!(actual, expected);
}

#[test]
fn graph_all_descendants_of_one_vertex() {
    let graph = Graph::new(vec![
        (1, vec![Edge::new(2, 0), Edge::new(3, 0)]),
        (2, vec![Edge::new(3, 0), Edge::new(4, 0)]),
    ]);

    let query = vec![1];

    let actual = graph.descendants(&query);
    let expected: Vec<&usize> = vec![&2, &3, &4];

    assert_eq!(actual, expected);
}

#[test]
fn graph_all_descendants_of_multiple_vertices() {
    let graph = Graph::new(vec![
        (1, vec![Edge::new(4, 0), Edge::new(5, 0)]),
        (2, vec![Edge::new(6, 0)]),
        (3, vec![Edge::new(8, 0), Edge::new(9, 0)]),
        (4, vec![Edge::new(7, 0)]),
        (7, vec![Edge::new(8, 0)]),
        (8, vec![Edge::new(5, 0)]),
    ]);

    let query = vec![1, 2];

    let actual = graph.descendants(&query);
    let expected: Vec<&usize> = vec![&4, &5, &6, &7, &8];

    assert_eq!(actual, expected);
}

#[test]
fn graph_reverses_empty_graph() {
    let graph = Graph::<usize, usize>::new(vec![]);

    let expected = Graph::<usize, usize>::new(vec![]);
    let actual = graph.reverse();

    assert_eq!(actual, expected);
}

#[test]
fn graph_reverses_single_edge() {
    let graph = Graph::<usize, usize>::new(vec![(1, vec![Edge::new(2, 0)])]);

    let expected = Graph::<usize, usize>::new(vec![(2, vec![Edge::new(1, 0)])]);
    let actual = graph.reverse();

    assert_eq!(actual, expected);
}

#[test]
fn graph_reverses_a_fan() {
    let graph = Graph::<usize, usize>::new(vec![(
        1,
        vec![Edge::new(2, 0), Edge::new(3, 1), Edge::new(4, 0)],
    )]);

    let expected = Graph::<usize, usize>::new(vec![
        (2, vec![Edge::new(1, 0)]),
        (3, vec![Edge::new(1, 1)]),
        (4, vec![Edge::new(1, 0)]),
    ]);
    let actual = graph.reverse();

    assert_eq!(actual, expected);
}

#[test]
fn graph_reverses_a_complex_graph() {
    let graph = Graph::<usize, usize>::new(vec![
        (1, vec![Edge::new(2, 0), Edge::new(3, 1)]),
        (2, vec![Edge::new(3, 0)]),
        (3, vec![Edge::new(4, 0)]),
    ]);

    let expected = Graph::<usize, usize>::new(vec![
        (2, vec![Edge::new(1, 0)]),
        (3, vec![Edge::new(1, 1), Edge::new(2, 0)]),
        (4, vec![Edge::new(3, 0)]),
    ]);
    let actual = graph.reverse();

    assert_eq!(actual, expected);
}

#[test]
fn graph_filters_an_empty_graph() {
    let graph = Graph::<usize, usize>::new(vec![]);

    let expected = Graph::<usize, usize>::new(vec![]);
    let actual = graph.filter(|_v| true, |_c| true);

    assert_eq!(actual, expected);
}

#[test]
fn graph_filters_a_vertex_from_a_graph() {
    let graph = Graph::new(vec![(1, vec![Edge::new(2, 0), Edge::new(3, 0)])]);

    let expected = Graph::new(vec![(1, vec![Edge::new(3, 0)])]);
    let actual = graph.filter(|v| *v != 2, |_| true);

    assert_eq!(actual, expected);
}

#[test]
fn graph_filters_an_edge_from_a_graph() {
    let graph = Graph::new(vec![
        (1, vec![Edge::new(2, 0), Edge::new(3, 1)]),
        (2, vec![Edge::new(3, 0)]),
    ]);

    let expected = Graph::new(vec![(1, vec![Edge::new(2, 0)]), (2, vec![Edge::new(3, 0)])]);
    let actual = graph.filter(|_| true, |c| *c != 1);

    assert_eq!(actual, expected);
}
