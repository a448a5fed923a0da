use monobuild::adjacency;
use monobuild::cli::{parse_stdin, DiffOpts, InputOpts, OutputOpts, Source};
use monobuild::dependency::Dependency;
use monobuild::git::{diff_mode, Mode};
use monobuild::graph::Graph;
use monobuild::impact::{affected, diff_graph, impacted, print_graph, print_output, scope_graph};
use monobuild::paths::changed_components;

fn s(v: &str) -> String {
    v.to_string()
}

fn scenario() -> Graph<String, Dependency> {
    Graph::from_adjacency(vec![
        (s("app"), vec![(s("lib1"), Dependency::Weak), (s("lib2"), Dependency::Weak)]),
        (s("lib1"), vec![(s("lib3"), Dependency::Weak)]),
        (s("lib2"), vec![(s("lib3"), Dependency::Weak)]),
        (s("stack"), vec![(s("app"), Dependency::Strong)]),
    ])
}

fn output(dependencies: bool, dot: bool, full: bool, scope: Option<&str>, top_level: bool) -> OutputOpts {
    OutputOpts { dependencies, dot, full, scope: scope.map(s), top_level }
}

fn diff_opts(rebuild_strong: bool, output_opts: OutputOpts) -> DiffOpts {
    DiffOpts {
        base_branch: s("master"),
        base_commit: s("HEAD^1"),
        main_branch: false,
        rebuild_strong,
        changes: Source::Git,
        input_opts: InputOpts { dependency_files_glob: s("**/Dependencies"), full_manifest: None },
        output_opts,
    }
}

#[test]
fn change_affects_all_dependents() {
    let graph = scenario();

    let actual = affected(&graph, &vec![s("lib3")]);

    assert_eq!(actual, vec![s("app"), s("lib1"), s("lib2"), s("lib3"), s("stack")]);
}

#[test]
fn schedule_of_a_change_keeps_strong_edges_only() {
    let graph = scenario();
    let opts = diff_opts(false, output(false, false, false, None, false));

    let actual = diff_graph(&graph, &vec![s("lib3")], &opts);

    assert_eq!(actual, "app: \nlib1: \nlib2: \nlib3: \nstack: app\n");
}

#[test]
fn dependencies_of_a_change_keep_every_edge() {
    let graph = scenario();
    let opts = diff_opts(false, output(true, false, false, None, false));

    let actual = diff_graph(&graph, &vec![s("lib1")], &opts);

    assert_eq!(actual, "app: lib1\nlib1: \nstack: app\n");
}

#[test]
fn rebuild_strong_pulls_in_strong_dependencies() {
    let graph = Graph::from_adjacency(vec![
        (s("a"), vec![(s("b"), Dependency::Strong)]),
        (s("b"), vec![(s("c"), Dependency::Weak)]),
    ]);
    let changed = vec![s("a")];

    let plain = diff_graph(&graph, &changed, &diff_opts(false, output(true, false, false, None, false)));
    let strong = diff_graph(&graph, &changed, &diff_opts(true, output(true, false, false, None, false)));

    assert_eq!(plain, "a: \n");
    assert_eq!(strong, "a: b\nb: \n");
}

#[test]
fn full_diff_marks_strong_edges() {
    let graph = scenario();
    let opts = diff_opts(false, output(false, false, true, None, false));

    let actual = diff_graph(&graph, &vec![s("app")], &opts);

    assert_eq!(actual, "app: \nstack: !app\n");
}

#[test]
fn scope_keeps_a_component_and_what_it_depends_on() {
    let graph = scenario();
    let opts = output(true, false, false, Some("lib1"), false);

    let view = scope_graph(graph.filter_vertices(|_| true), &opts);
    let expected = Graph::from_adjacency(vec![(s("lib1"), vec![(s("lib3"), Dependency::Weak)])]);

    assert_eq!(view, expected);
}

#[test]
fn top_level_keeps_roots_only() {
    let graph = scenario();
    let opts = output(true, false, false, None, true);

    let view = scope_graph(graph.filter_vertices(|_| true), &opts);

    assert_eq!(print_output(view, &opts), "stack: \n");
}

#[test]
fn print_schedule_as_dot() {
    let graph = scenario();
    let opts = output(false, true, false, None, false);

    let actual = print_graph(&graph, &opts);

    assert_eq!(
        actual,
        "digraph schedule {\n  randir=\"LR\"\n  node [shape=box]\n  \"app\"\n  \"lib1\"\n  \"lib2\"\n  \"lib3\"\n  \"stack\" -> \"app\"\n}\n"
    );
}

#[test]
fn print_full_text() {
    let graph = scenario();
    let opts = output(false, false, true, None, false);

    assert_eq!(print_graph(&graph, &opts), "app: lib1, lib2\nlib1: lib3\nlib2: lib3\nlib3: \nstack: !app\n");
}

#[test]
fn impacted_includes_changed_and_dependents() {
    let graph = adjacency::Graph::new(vec![
        (s("app"), vec![adjacency::Edge::new(s("lib1"), Dependency::Weak)]),
        (s("lib1"), vec![adjacency::Edge::new(s("lib3"), Dependency::Weak)]),
        (s("other"), vec![]),
    ]);

    let actual = impacted(&graph, &vec![s("lib3")]);

    assert_eq!(actual, vec![s("app"), s("lib1"), s("lib3")]);
}

#[test]
fn a_dash_reads_changes_from_stdin() {
    assert_eq!(parse_stdin("-"), Source::Stdin);
    assert_eq!(parse_stdin(""), Source::Git);
    assert_eq!(parse_stdin("--"), Source::Git);
}

#[test]
fn files_belong_to_the_longest_leading_component() {
    let components = vec![s("libs"), s("libs/lib1"), s("app")];
    let files = vec![
        s("libs/lib1/src/main.rs"),
        s("libs/lib10/x.rs"),
        s("./app/readme.md"),
        s("elsewhere/file"),
        s("libs/lib1/other.rs"),
    ];

    let actual = changed_components(&components, &files);

    assert_eq!(actual, vec![s("libs/lib1"), s("libs"), s("app")]);
}

#[test]
fn mode_follows_the_branch_option() {
    let mut opts = diff_opts(false, output(false, false, false, None, false));
    assert!(matches!(diff_mode(&opts), Mode::Feature(b) if b == "master"));

    opts.main_branch = true;
    assert!(matches!(diff_mode(&opts), Mode::Main(c) if c == "HEAD^1"));
}
