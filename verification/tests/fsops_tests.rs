use metarepo::fsops::{apply_copy, apply_link, apply_unlink, FsModel, FsNode, OpError};
use metarepo::paths::backup_path;

fn edge_fs() -> (FsModel, String, String) {
    let installed = String::from("/repo/A/node_modules/pkg-b");
    let source = String::from("/repo/B");
    let mut fs = FsModel::new();
    fs.insert(installed.clone(), FsNode::Dir { contents: 7 });
    fs.insert(source.clone(), FsNode::Dir { contents: 9 });
    (fs, installed, source)
}

#[test]
fn link_displaces_and_links() {
    let (mut fs, installed, source) = edge_fs();
    assert_eq!(apply_link(&mut fs, &installed, &source), Ok(()));
    let bak = backup_path(&installed);
    assert_eq!(bak, "/repo/A/node_modules/pkg-b_orig");
    assert_eq!(fs.get(&bak), Some(&FsNode::Dir { contents: 7 }));
    assert_eq!(fs.get(&installed), Some(&FsNode::Link { target: source.clone() }));
    assert_eq!(fs.get(&source), Some(&FsNode::Dir { contents: 9 }));
}

#[test]
fn link_then_unlink_restores_exactly() {
    let (mut fs, installed, source) = edge_fs();
    assert_eq!(apply_link(&mut fs, &installed, &source), Ok(()));
    assert_eq!(apply_unlink(&mut fs, &installed), Ok(()));
    let bak = backup_path(&installed);
    assert_eq!(fs.get(&installed), Some(&FsNode::Dir { contents: 7 }));
    assert_eq!(fs.get(&source), Some(&FsNode::Dir { contents: 9 }));
    assert_eq!(fs.get(&bak), None);
}

#[test]
fn link_twice_fails_on_backup() {
    let (mut fs, installed, source) = edge_fs();
    assert_eq!(apply_link(&mut fs, &installed, &source), Ok(()));
    assert_eq!(apply_link(&mut fs, &installed, &source), Err(OpError::BackupExists));
    // The failed second call left the state of the first link untouched.
    assert_eq!(fs.get(&installed), Some(&FsNode::Link { target: source.clone() }));
}

#[test]
fn link_missing_installed() {
    let mut fs = FsModel::new();
    fs.insert(String::from("/repo/B"), FsNode::Dir { contents: 1 });
    let r = apply_link(
        &mut fs,
        &String::from("/repo/A/node_modules/pkg-b"),
        &String::from("/repo/B"),
    );
    assert_eq!(r, Err(OpError::MissingInstalled));
}

#[test]
fn link_missing_source() {
    let installed = String::from("/repo/A/node_modules/pkg-b");
    let mut fs = FsModel::new();
    fs.insert(installed.clone(), FsNode::Dir { contents: 1 });
    let r = apply_link(&mut fs, &installed, &String::from("/repo/B"));
    assert_eq!(r, Err(OpError::MissingSource));
}

#[test]
fn unlink_requires_a_link() {
    let (mut fs, installed, _source) = edge_fs();
    assert_eq!(apply_unlink(&mut fs, &installed), Err(OpError::NotALink));
}

#[test]
fn unlink_requires_backup() {
    let installed = String::from("/repo/A/node_modules/pkg-b");
    let mut fs = FsModel::new();
    fs.insert(installed.clone(), FsNode::Link { target: String::from("/repo/B") });
    assert_eq!(apply_unlink(&mut fs, &installed), Err(OpError::MissingBackup));
}

#[test]
fn copy_snapshots_source() {
    let (mut fs, installed, source) = edge_fs();
    assert_eq!(apply_copy(&mut fs, &installed, &source), Ok(()));
    let bak = backup_path(&installed);
    assert_eq!(fs.get(&bak), Some(&FsNode::Dir { contents: 7 }));
    // A snapshot of the source's contents, not a link.
    assert_eq!(fs.get(&installed), Some(&FsNode::Dir { contents: 9 }));
}

#[test]
fn copy_twice_fails_on_backup() {
    let (mut fs, installed, source) = edge_fs();
    assert_eq!(apply_copy(&mut fs, &installed, &source), Ok(()));
    assert_eq!(apply_copy(&mut fs, &installed, &source), Err(OpError::BackupExists));
}
