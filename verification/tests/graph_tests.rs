use metarepo::graph::{build, DependencyGraph, ProjectInput};

fn two_projects() -> Vec<ProjectInput> {
    vec![
        ProjectInput::new(
            String::from("A"),
            String::from("pkg-a"),
            vec![String::from("pkg-b"), String::from("left-pad")],
        ),
        ProjectInput::new(String::from("B"), String::from("pkg-b"), vec![]),
    ]
}

fn edges_of(g: &DependencyGraph) -> Vec<(String, String, Vec<String>)> {
    let mut out = Vec::new();
    let mut i = 0;
    while i < g.len() {
        let it = g.item(i);
        out.push((it.project.clone(), it.module.clone(), it.dependencies.clone()));
        i += 1;
    }
    out
}

#[test]
fn build_keeps_cross_dependencies_only() {
    let g = build(&two_projects());
    assert_eq!(g.len(), 2);
    let a = g.item(0);
    assert_eq!(a.project, "A");
    assert_eq!(a.module, "pkg-a");
    // "left-pad" matches no member project and is discarded.
    assert_eq!(a.dependencies, vec![String::from("pkg-b")]);
    let b = g.item(1);
    assert_eq!(b.project, "B");
    assert_eq!(b.module, "pkg-b");
    assert!(b.dependencies.is_empty());
}

#[test]
fn build_twice_yields_identical_graphs() {
    let g1 = build(&two_projects());
    let g2 = build(&two_projects());
    assert_eq!(edges_of(&g1), edges_of(&g2));
}

#[test]
fn build_strips_quotes_and_whitespace() {
    let inputs = vec![
        ProjectInput::new(
            String::from(" \"A\" "),
            String::from("\"pkg-a\"\n"),
            vec![String::from("pkg-b")],
        ),
        ProjectInput::new(String::from("B"), String::from("pkg-b"), vec![]),
    ];
    let g = build(&inputs);
    assert_eq!(g.item(0).project, "A");
    assert_eq!(g.item(0).module, "pkg-a");
    assert_eq!(g.item(0).dependencies, vec![String::from("pkg-b")]);
}

#[test]
fn build_accepts_empty_descriptor() {
    // A missing or unreadable descriptor arrives as an empty name with no
    // dependencies and yields an empty record rather than a failure.
    let inputs = vec![
        ProjectInput::new(String::from("A"), String::from(""), vec![]),
        ProjectInput::new(String::from("B"), String::from("pkg-b"), vec![]),
    ];
    let g = build(&inputs);
    assert_eq!(g.len(), 2);
    assert_eq!(g.item(0).module, "");
    assert!(g.item(0).dependencies.is_empty());
}

#[test]
fn lookup_module_takes_first_declared() {
    let inputs = vec![
        ProjectInput::new(String::from("A"), String::from("dup"), vec![]),
        ProjectInput::new(String::from("B"), String::from("dup"), vec![]),
    ];
    let g = build(&inputs);
    assert_eq!(g.lookup_module(&String::from("dup")), Some(0));
    assert_eq!(g.lookup_module(&String::from("missing")), None);
}

#[test]
fn build_of_nothing_is_empty() {
    let g = build(&vec![]);
    assert_eq!(g.len(), 0);
    assert_eq!(g.lookup_module(&String::from("pkg-a")), None);
}

#[test]
fn lookup_project_by_path() {
    let g = build(&two_projects());
    assert_eq!(g.lookup_project(&String::from("B")), Some(1));
    assert_eq!(g.lookup_project(&String::from("C")), None);
}
