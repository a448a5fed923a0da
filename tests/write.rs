use monobuild::dependency::Dependency;
use monobuild::graph::Graph;
use monobuild::write::{to_dot, to_text, DotFormat, TextFormat};

fn example() -> Graph<String, Dependency> {
    Graph::from_adjacency(vec![
        (
            "a".into(),
            vec![("b".into(), Dependency::Weak), ("c".into(), Dependency::Weak)],
        ),
        ("b".into(), vec![("c".into(), Dependency::Weak)]),
        ("c".into(), vec![]),
        ("d".into(), vec![("a".into(), Dependency::Strong)]),
        (
            "e".into(),
            vec![("a".into(), Dependency::Strong), ("b".into(), Dependency::Strong)],
        ),
    ])
}

#[test]
fn write_empty_graph() {
    let graph = example();
    let filtered = graph.filter_vertices(|_| false);

    let actual = to_text(&filtered.iter(), TextFormat::Simple);
    let expected = "";

    assert_eq!(actual, expected);
}

#[test]
fn write_single_vertex() {
    let graph = example();
    let filtered = graph.filter_vertices(|v| *v == "a".to_string());

    let actual = to_text(&filtered.iter(), TextFormat::Simple);
    let expected = "a: \n";

    assert_eq!(actual, expected);
}

#[test]
fn write_single_edge() {
    let graph = example();
    let filtered = graph.filter_vertices(|v| ["a", "b"].contains(&v.as_str()));

    let actual = to_text(&filtered.iter(), TextFormat::Simple);
    let expected = "a: b\nb: \n";

    assert_eq!(actual, expected);
}

#[test]
fn edge_fan() {
    let graph = example();
    let filtered = graph.filter_vertices(|v| ["a", "b", "c"].contains(&v.as_str()));

    let actual = to_text(&filtered.iter(), TextFormat::Simple);
    let expected = "a: b, c\nb: c\nc: \n";

    assert_eq!(actual, expected);
}

#[test]
fn write_graph() {
    let graph = example();
    let filtered = graph.filter_vertices(|v| ["a", "b", "c", "d"].contains(&v.as_str()));

    let actual = to_text(&filtered.iter(), TextFormat::Simple);
    let expected = "a: b, c\nb: c\nc: \nd: a\n";

    assert_eq!(actual, expected);
}

#[test]
fn full_format() {
    let graph = example();
    let filtered = graph.filter_vertices(|v| ["a", "b", "c", "d"].contains(&v.as_str()));

    let actual = to_text(&filtered.iter(), TextFormat::Full);
    let expected = "a: b, c\nb: c\nc: \nd: !a\n";

    assert_eq!(actual, expected);
}

#[test]
fn dot_empty_graph() {
    let graph = example();
    let filtered = graph.filter_vertices(|_| false);

    let actual = to_dot(&filtered.iter(), DotFormat::Dependencies);
    let expected = "digraph dependencies {\n}\n";

    assert_eq!(actual, expected);
}

#[test]
fn dot_single_vertex() {
    let graph = example();
    let filtered = graph.filter_vertices(|v| *v == "a".to_string());

    let actual = to_dot(&filtered.iter(), DotFormat::Dependencies);
    let expected = "digraph dependencies {\n  \"a\"\n}\n";

    assert_eq!(actual, expected);
}

#[test]
fn dot_single_edge() {
    let graph = example();
    let filtered = graph.filter_vertices(|v| ["a", "b"].contains(&v.as_str()));

    let actual = to_dot(&filtered.iter(), DotFormat::Dependencies);
    let expected = "digraph dependencies {\n  \"a\" -> \"b\" [style=dashed]\n  \"b\"\n}\n";

    assert_eq!(actual, expected);
}

#[test]
fn single_strong_edge() {
    let graph = example();
    let filtered = graph.filter_vertices(|v| ["a", "d"].contains(&v.as_str()));

    let actual = to_dot(&filtered.iter(), DotFormat::Dependencies);
    let expected = "digraph dependencies {\n  \"a\"\n  \"d\" -> \"a\"\n}\n";

    assert_eq!(actual, expected);
}

#[test]
fn dot_graph() {
    let graph = example();
    let filtered = graph.filter_vertices(|v| ["a", "b", "c", "d"].contains(&v.as_str()));

    let actual = to_dot(&filtered.iter(), DotFormat::Dependencies);
    let expected = "digraph dependencies {\n  \
                    \"a\" -> \"b\" [style=dashed]\n  \
                    \"a\" -> \"c\" [style=dashed]\n  \
                    \"b\" -> \"c\" [style=dashed]\n  \
                    \"c\"\n  \
                    \"d\" -> \"a\"\n\
                    }\n";

    assert_eq!(actual, expected);
}

#[test]
fn schedule() {
    let graph = example().reverse();
    let filtered = graph.filter_edges(|c| *c == Dependency::Strong);

    let actual = to_dot(&filtered.iter(), DotFormat::Schedule);
    let expected = "digraph schedule {\n  \
                    randir=\"LR\"\n  \
                    node [shape=box]\n  \
                    \"a\" -> \"d\"\n  \
                    \"a\" -> \"e\"\n  \
                    \"b\" -> \"e\"\n  \
                    \"c\"\n  \
                    \"d\"\n  \
                    \"e\"\n\
                    }\n";

    assert_eq!(actual, expected);
}

#[test]
fn full_format_of_a_whole_graph_marks_strong_edges() {
    let graph = Graph::from_adjacency(vec![("a".to_string(), vec![("b".to_string(), Dependency::Strong)])]);

    assert_eq!(to_text(&graph.iter(), TextFormat::Full), "a: !b\nb: \n");
    assert_eq!(to_text(&graph.iter(), TextFormat::Simple), "a: b\nb: \n");
    assert_eq!(
        to_dot(&graph.iter(), DotFormat::Dependencies),
        "digraph dependencies {\n  \"a\" -> \"b\"\n  \"b\"\n}\n"
    );
}
