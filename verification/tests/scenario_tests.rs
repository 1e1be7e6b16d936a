//! The whole pipeline on one small meta-repository: descriptor data to
//! graph, graph and disk probe to plan, plan to filesystem effects.

use metarepo::fsops::{apply_link, apply_unlink, FsModel, FsNode};
use metarepo::graph::{build, ProjectInput};
use metarepo::paths::{backup_path, installed_path, source_path};
use metarepo::traverse::{traverse, DiskModel, PlanStep};

#[test]
fn link_then_unlink_round_trip() {
    // Project A declares pkg-a with a dependency on pkg-b; project B
    // declares pkg-b.  A's install directory already holds a pkg-b copy.
    let inputs = vec![
        ProjectInput::new(
            String::from("A"),
            String::from("pkg-a"),
            vec![String::from("pkg-b")],
        ),
        ProjectInput::new(String::from("B"), String::from("pkg-b"), vec![]),
    ];
    let graph = build(&inputs);
    let disk = DiskModel { installed: vec![vec![true], vec![]], source_dir: vec![true, true] };
    let plan = traverse(&graph, &disk, &String::from("A"));
    assert_eq!(
        plan,
        vec![
            PlanStep::Enter { project: 0 },
            PlanStep::Enter { project: 1 },
            PlanStep::Apply { project: 0, dep: 0, target: 1 },
        ]
    );

    let root = "/repo";
    let installed = installed_path(root, &graph, 0, 0);
    let source = source_path(root, &graph, 1);
    assert_eq!(installed, "/repo/A/node_modules/pkg-b");
    assert_eq!(source, "/repo/B");

    let mut fs = FsModel::new();
    fs.insert(installed.clone(), FsNode::Dir { contents: 41 });
    fs.insert(source.clone(), FsNode::Dir { contents: 42 });

    // Running Link renames the installed copy to its backup path and puts
    // a symbolic link to B's project root in its place.
    assert_eq!(apply_link(&mut fs, &installed, &source), Ok(()));
    let bak = backup_path(&installed);
    assert_eq!(bak, "/repo/A/node_modules/pkg-b_orig");
    assert_eq!(fs.get(&bak), Some(&FsNode::Dir { contents: 41 }));
    assert_eq!(fs.get(&installed), Some(&FsNode::Link { target: source.clone() }));

    // Running Unlink afterwards reverses exactly that.
    assert_eq!(apply_unlink(&mut fs, &installed), Ok(()));
    assert_eq!(fs.get(&installed), Some(&FsNode::Dir { contents: 41 }));
    assert_eq!(fs.get(&source), Some(&FsNode::Dir { contents: 42 }));
    assert_eq!(fs.get(&bak), None);
}
