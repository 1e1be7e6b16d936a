use metarepo::graph::{build, ProjectInput};
use metarepo::paths::{installed_path, join_path, source_path};
use metarepo::traverse::{traverse, DiskModel, PlanStep};

fn project(path: &str, name: &str, deps: &[&str]) -> ProjectInput {
    ProjectInput::new(
        String::from(path),
        String::from(name),
        deps.iter().map(|d| String::from(*d)).collect(),
    )
}

/// Everything installed, every project directory present.
fn full_disk(g: &metarepo::graph::DependencyGraph) -> DiskModel {
    let mut installed = Vec::new();
    let mut source_dir = Vec::new();
    let mut i = 0;
    while i < g.len() {
        installed.push(vec![true; g.item(i).dependencies.len()]);
        source_dir.push(true);
        i += 1;
    }
    DiskModel { installed, source_dir }
}

#[test]
fn plan_single_edge() {
    let g = build(&vec![project("A", "pkg-a", &["pkg-b"]), project("B", "pkg-b", &[])]);
    let d = full_disk(&g);
    let plan = traverse(&g, &d, &String::from("A"));
    assert_eq!(
        plan,
        vec![
            PlanStep::Enter { project: 0 },
            PlanStep::Enter { project: 1 },
            PlanStep::Apply { project: 0, dep: 0, target: 1 },
        ]
    );
}

#[test]
fn plan_edge_paths() {
    let g = build(&vec![project("A", "pkg-a", &["pkg-b"]), project("B", "pkg-b", &[])]);
    assert_eq!(installed_path("/repo", &g, 0, 0), "/repo/A/node_modules/pkg-b");
    assert_eq!(source_path("/repo", &g, 1), "/repo/B");
    assert_eq!(join_path("a", "b"), "a/b");
}

#[test]
fn plan_post_order_chain() {
    // A depends on B, B on C: C's edge is applied before A's.
    let g = build(&vec![
        project("A", "pkg-a", &["pkg-b"]),
        project("B", "pkg-b", &["pkg-c"]),
        project("C", "pkg-c", &[]),
    ]);
    let d = full_disk(&g);
    let plan = traverse(&g, &d, &String::from("A"));
    assert_eq!(
        plan,
        vec![
            PlanStep::Enter { project: 0 },
            PlanStep::Enter { project: 1 },
            PlanStep::Enter { project: 2 },
            PlanStep::Apply { project: 1, dep: 0, target: 2 },
            PlanStep::Apply { project: 0, dep: 0, target: 1 },
        ]
    );
}

#[test]
fn plan_diamond_applies_shared_edge_once_per_parent() {
    // A depends on B and C; both depend on D.  D is entered once, and the
    // edge D-under-B is applied before B is applied as A's dependency.
    let g = build(&vec![
        project("A", "pkg-a", &["pkg-b", "pkg-c"]),
        project("B", "pkg-b", &["pkg-d"]),
        project("C", "pkg-c", &["pkg-d"]),
        project("D", "pkg-d", &[]),
    ]);
    let d = full_disk(&g);
    let plan = traverse(&g, &d, &String::from("A"));
    assert_eq!(
        plan,
        vec![
            PlanStep::Enter { project: 0 },
            PlanStep::Enter { project: 1 },
            PlanStep::Enter { project: 3 },
            PlanStep::Apply { project: 1, dep: 0, target: 3 },
            PlanStep::Apply { project: 0, dep: 0, target: 1 },
            PlanStep::Enter { project: 2 },
            PlanStep::Apply { project: 2, dep: 0, target: 3 },
            PlanStep::Apply { project: 0, dep: 1, target: 2 },
        ]
    );
}

#[test]
fn plan_cycle_terminates_and_enters_once() {
    // A and B depend on each other: the visited-set guard stops the walk
    // and each project is entered exactly once.
    let g = build(&vec![project("A", "pkg-a", &["pkg-b"]), project("B", "pkg-b", &["pkg-a"])]);
    let d = full_disk(&g);
    let plan = traverse(&g, &d, &String::from("A"));
    let mut entered = Vec::new();
    for step in &plan {
        if let PlanStep::Enter { project } = step {
            entered.push(*project);
        }
    }
    assert_eq!(entered, vec![0, 1]);
    // The back-edge into the in-progress project A is still applied once.
    assert_eq!(
        plan,
        vec![
            PlanStep::Enter { project: 0 },
            PlanStep::Enter { project: 1 },
            PlanStep::Apply { project: 1, dep: 0, target: 0 },
            PlanStep::Apply { project: 0, dep: 0, target: 1 },
        ]
    );
}

#[test]
fn plan_skips_missing_installed_candidate() {
    let g = build(&vec![project("A", "pkg-a", &["pkg-b"]), project("B", "pkg-b", &[])]);
    let d = DiskModel { installed: vec![vec![false], vec![]], source_dir: vec![true, true] };
    let plan = traverse(&g, &d, &String::from("A"));
    assert_eq!(plan, vec![PlanStep::Enter { project: 0 }]);
}

#[test]
fn plan_enters_target_but_skips_apply_without_source_dir() {
    let g = build(&vec![project("A", "pkg-a", &["pkg-b"]), project("B", "pkg-b", &[])]);
    let d = DiskModel { installed: vec![vec![true], vec![]], source_dir: vec![true, false] };
    let plan = traverse(&g, &d, &String::from("A"));
    assert_eq!(plan, vec![PlanStep::Enter { project: 0 }, PlanStep::Enter { project: 1 }]);
}
