use vstd::prelude::*;

use crate::graph::DependencyGraph;
use crate::models::RepositoryItemView;

verus! {

/// Two path segments joined with a slash.
pub open spec fn joined(a: Seq<char>, b: Seq<char>) -> Seq<char> {
    a + seq!['/'] + b
}

/// Joins two path segments with a slash.
pub fn join_path(a: &str, b: &str) -> (r: String)
    ensures
        r@ == joined(a@, b@),
{
    let mut r = String::from_str(a);
    r.append("/");
    r.append(b);
    proof {
        reveal_strlit("/");
        assert("/"@ =~= seq!['/']);
        assert(r@ =~= joined(a@, b@));
    }
    r
}

/// The fixed dependency-install directory name under each project root.
pub open spec fn modules_folder() -> Seq<char> {
    "node_modules"@
}

/// The fixed suffix appended to an installed copy's path to mark the
/// displaced original.
pub open spec fn backup_suffix() -> Seq<char> {
    "_orig"@
}

/// A path with the backup suffix appended.
pub open spec fn backup_of(p: Seq<char>) -> Seq<char> {
    p + backup_suffix()
}

/// Appends the backup suffix to a path.
pub fn backup_path(p: &str) -> (r: String)
    ensures
        r@ == backup_of(p@),
{
    let mut r = String::from_str(p);
    r.append("_orig");
    r
}

/// The installed copy of record `i`'s cross-dependency `j` sits at
/// `root/<project>/node_modules/<dependency>`.
pub open spec fn installed_path_spec(
    root: Seq<char>,
    g: Seq<RepositoryItemView>,
    i: int,
    j: int,
) -> Seq<char> {
    joined(joined(joined(root, g[i].project), modules_folder()), g[i].dependencies[j])
}

/// Record `t`'s own project directory sits at `root/<project>`.
pub open spec fn source_path_spec(root: Seq<char>, g: Seq<RepositoryItemView>, t: int) -> Seq<
    char,
> {
    joined(root, g[t].project)
}

/// Composes the installed-copy path of the edge `(i, j)`.
pub fn installed_path(root: &str, graph: &DependencyGraph, i: usize, j: usize) -> (r: String)
    requires
        i < graph@.len(),
        j < graph@[i as int].dependencies.len(),
    ensures
        r@ == installed_path_spec(root@, graph@, i as int, j as int),
{
    let item = graph.item(i);
    let p1 = join_path(root, item.project.as_str());
    let p2 = join_path(p1.as_str(), "node_modules");
    let dep = &item.dependencies[j];
    proof {
        assert(dep@ == graph@[i as int].dependencies[j as int]);
    }
    join_path(p2.as_str(), dep.as_str())
}

/// Composes the project-directory path of record `t`.
pub fn source_path(root: &str, graph: &DependencyGraph, t: usize) -> (r: String)
    requires
        t < graph@.len(),
    ensures
        r@ == source_path_spec(root@, graph@, t as int),
{
    let item = graph.item(t);
    join_path(root, item.project.as_str())
}

} // verus!
