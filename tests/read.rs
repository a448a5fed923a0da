use std::collections::HashSet;

use monobuild::dependency::Dependency;
use monobuild::graph::Graph;
use monobuild::read::{manifest, manifests, repo_manifest, Warning};
use monobuild::write::{to_text, TextFormat};

fn set(deps: Vec<(String, Dependency)>) -> HashSet<(String, Dependency)> {
    deps.into_iter().collect()
}

#[test]
fn empty() {
    let text = "\n   \n \n   # comment   \n";

    let actual = set(manifest(text));
    let expected = HashSet::new();

    assert_eq!(actual, expected);
}

#[test]
fn single_dependency() {
    let text = "\n   other/\n \n   \n";

    let actual = set(manifest(text));
    let expected = vec![("other".to_string(), Dependency::Weak)].into_iter().collect();

    assert_eq!(actual, expected);
}

#[test]
fn single_strong_dependency() {
    let text = "\n   !other\n \n   \n";

    let actual = set(manifest(text));
    let expected = vec![("other".to_string(), Dependency::Strong)].into_iter().collect();

    assert_eq!(actual, expected)
}

#[test]
fn full() {
    let text = "\n  some  \n !other\n \none/more  \n  # comment  \n";

    let actual = set(manifest(text));
    let expected = vec![
        ("some".to_string(), Dependency::Weak),
        ("other".to_string(), Dependency::Strong),
        ("one/more".to_string(), Dependency::Weak),
    ]
    .into_iter()
    .collect();

    assert_eq!(actual, expected)
}

#[test]
fn no_manifests() {
    let files = Vec::new();

    let actual = manifests(files);
    let expected = (Graph::new(), Vec::new());

    assert_eq!(actual, expected);
}

#[test]
fn ignore_unknown_components() {
    let files = vec![("foo".to_string(), "\n bar\n".to_string())];

    let actual = manifests(files);
    let expected = (
        Graph::from_adjacency(vec![("foo".into(), vec![])]),
        vec![Warning::Unknown("foo".to_string(), "bar".to_string())],
    );

    assert_eq!(actual, expected);
}

#[test]
fn two_manifests() {
    let files = vec![
        ("bar".to_string(), "\n baz\n".to_string()),
        ("foo".to_string(), "\n bar\nbaz".to_string()),
    ];

    let actual = manifests(files);
    let expected = (
        Graph::from_adjacency(vec![
            ("foo".into(), vec![("bar".into(), Dependency::Weak)]),
            ("bar".into(), vec![]),
        ]),
        vec![
            Warning::Unknown("bar".to_string(), "baz".to_string()),
            Warning::Unknown("foo".to_string(), "baz".to_string()),
        ],
    );

    assert_eq!(actual, expected);
}

#[test]
fn complex_manifests() {
    let files = vec![
        ("app1".to_string(), "\nlibs/lib1\nlibs/lib2/".to_string()),
        ("app2".to_string(), "\nlibs/lib2\n\n\nlibs/lib3".to_string()),
        ("app3".to_string(), "\n\nlibs/lib3".to_string()),
        ("app4".to_string(), "\n\n# yo".to_string()),
        ("libs/lib1".to_string(), "\n libs/lib3\n".to_string()),
        ("libs/lib2".to_string(), "\n libs/lib3\n".to_string()),
        ("libs/lib3".to_string(), "".to_string()),
        (
            "stack1".to_string(),
            "# frontend\n!app1\n\n# backend\n!app2\n!app3".to_string(),
        ),
    ];

    let actual = manifests(files);
    let expected = (
        Graph::from_adjacency(vec![
            (
                "app1".into(),
                vec![
                    ("libs/lib1".into(), Dependency::Weak),
                    ("libs/lib2".into(), Dependency::Weak),
                ],
            ),
            (
                "app2".into(),
                vec![
                    ("libs/lib2".into(), Dependency::Weak),
                    ("libs/lib3".into(), Dependency::Weak),
                ],
            ),
            ("app3".into(), vec![("libs/lib3".into(), Dependency::Weak)]),
            ("app4".into(), vec![]),
            ("libs/lib1".into(), vec![("libs/lib3".into(), Dependency::Weak)]),
            ("libs/lib2".into(), vec![("libs/lib3".into(), Dependency::Weak)]),
            ("libs/lib3".into(), vec![]),
            (
                "stack1".into(),
                vec![
                    ("app1".into(), Dependency::Strong),
                    ("app2".into(), Dependency::Strong),
                    ("app3".into(), Dependency::Strong),
                ],
            ),
        ]),
        vec![],
    );

    assert_eq!(actual, expected);
}

#[test]
fn empty_manifest() {
    let manifest = "".into();

    let (actual, _) = repo_manifest(manifest);
    let expected = Graph::new();

    assert_eq!(actual, expected);
}

#[test]
fn single_component() {
    let manifest = "lib1:".into();

    let (actual, _) = repo_manifest(manifest);
    let expected = Graph::from_adjacency(vec![("lib1".into(), vec![])]);

    assert_eq!(actual, expected);
}

#[test]
fn component_with_depednency() {
    let manifest = "lib1: lib2\nlib2:".into();

    let (actual, _) = repo_manifest(manifest);
    let expected = Graph::from_adjacency(vec![
        ("lib1".into(), vec![("lib2".into(), Dependency::Weak)]),
        ("lib2".into(), vec![]),
    ]);

    assert_eq!(actual, expected);
}

#[test]
fn component_with_mutlitple_depednencies() {
    let manifest = "lib1: lib2, lib3\nlib2: \nlib3: ".into();

    let (actual, _) = repo_manifest(manifest);
    let expected = Graph::from_adjacency(vec![(
        "lib1".into(),
        vec![("lib2".into(), Dependency::Weak), ("lib3".into(), Dependency::Weak)],
    )]);

    assert_eq!(actual, expected);
}

#[test]
fn component_with_unlisted_dependency() {
    let manifest = "lib1: lib2, lib3\n".into();

    let (actual, _) = repo_manifest(manifest);
    let expected = Graph::from_adjacency(vec![(
        "lib1".into(),
        vec![("lib2".into(), Dependency::Weak), ("lib3".into(), Dependency::Weak)],
    )]);

    assert_eq!(actual, expected);
}

#[test]
fn complex_manifest() {
    let manifest = "# comment\napp1: lib1, lib2, lib3\napp2: \nlib1: \nlib2: lib3\nlib3: \n\nstack1: !app1, !app2".to_owned();

    let (actual, ws) = repo_manifest(manifest);
    let expected = Graph::from_adjacency(vec![
        (
            "app1".into(),
            vec![
                ("lib1".into(), Dependency::Weak),
                ("lib2".into(), Dependency::Weak),
                ("lib3".into(), Dependency::Weak),
            ],
        ),
        ("lib2".into(), vec![("lib3".into(), Dependency::Weak)]),
        (
            "stack1".into(),
            vec![("app1".into(), Dependency::Strong), ("app2".into(), Dependency::Strong)],
        ),
    ]);

    assert_eq!(actual, expected);
    assert_eq!(ws, vec![]);
}

#[test]
fn bad_line_is_reported_with_its_number() {
    let manifest = "# comment\n\nlib1: lib2\nnonsense\nlib2:".to_string();

    let (actual, ws) = repo_manifest(manifest);
    let expected = Graph::from_adjacency(vec![("lib1".into(), vec![("lib2".into(), Dependency::Weak)])]);

    assert_eq!(actual, expected);
    assert_eq!(ws, vec![Warning::BadLineFormat(1, "nonsense".to_string())]);
}

#[test]
fn strong_dependency_round_trips_through_full_text() {
    let (graph, _) = repo_manifest("a: !b\nb:".to_string());
    assert_eq!(
        graph,
        Graph::from_adjacency(vec![("a".to_string(), vec![("b".to_string(), Dependency::Strong)])])
    );

    let full = to_text(&graph.iter(), TextFormat::Full);
    assert_eq!(full, "a: !b\nb: \n");
    assert_eq!(to_text(&graph.iter(), TextFormat::Simple), "a: b\nb: \n");

    let (again, ws) = repo_manifest(full);
    assert_eq!(again, graph);
    assert!(ws.is_empty());
}

#[test]
fn manifest_lines_keep_first_of_duplicates() {
    assert_eq!(
        manifest("a\n a/ \n!a\r\n"),
        vec![("a".to_string(), Dependency::Weak), ("a".to_string(), Dependency::Strong)]
    );
}
