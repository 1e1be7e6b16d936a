use vstd::prelude::*;

verus! {

/// One declared project of the meta-repository: its relative path under the
/// root (the unique key), the package name its own descriptor declares, and
/// the subset of its declared dependencies that other member projects
/// produce.
pub struct RepositoryItem {
    pub project: String,
    pub module: String,
    pub dependencies: Vec<String>,
}

/// The ghost image of a `RepositoryItem`: every field as a mathematical
/// value.
#[verifier::ext_equal]
pub struct RepositoryItemView {
    pub project: Seq<char>,
    pub module: Seq<char>,
    pub dependencies: Seq<Seq<char>>,
}

impl View for RepositoryItem {
    type V = RepositoryItemView;

    open spec fn view(&self) -> RepositoryItemView {
        RepositoryItemView {
            project: self.project@,
            module: self.module@,
            dependencies: self.dependencies.deep_view(),
        }
    }
}

impl RepositoryItem {
    pub fn new(project: String, module: String, dependencies: Vec<String>) -> (r: Self)
        ensures
            r@.project == project@,
            r@.module == module@,
            r@.dependencies == dependencies.deep_view(),
    {
        Self { project, module, dependencies }
    }
}

/// The command line as plain values: an action word, the starting project,
/// and the meta-repository root path.
pub struct Params {
    pub action: String,
    pub project: String,
    pub path: String,
}

/// The four operations the tool can run over a traversal.
#[derive(Debug, Clone, Copy, PartialEq, Eq, Structural)]
pub enum ActionKind {
    Link,
    Unlink,
    Copy,
    Update,
}

/// Which operation an action word selects, if any.
pub open spec fn action_of(a: Seq<char>) -> Option<ActionKind> {
    if a == "link"@ {
        Some(ActionKind::Link)
    } else if a == "unlink"@ {
        Some(ActionKind::Unlink)
    } else if a == "copy"@ {
        Some(ActionKind::Copy)
    } else if a == "update"@ {
        Some(ActionKind::Update)
    } else {
        None
    }
}

impl Params {
    pub fn new(action: String, project: String, path: String) -> (r: Self)
        ensures
            r.action@ == action@,
            r.project@ == project@,
            r.path@ == path@,
    {
        Self { action, project, path }
    }

    /// The operation this command line selects, if its action word names
    /// one.
    pub fn action_kind(&self) -> (r: Option<ActionKind>)
        ensures
            r == action_of(self.action@),
    {
        if crate::strings::str_eq(self.action.as_str(), "link") {
            Some(ActionKind::Link)
        } else if crate::strings::str_eq(self.action.as_str(), "unlink") {
            Some(ActionKind::Unlink)
        } else if crate::strings::str_eq(self.action.as_str(), "copy") {
            Some(ActionKind::Copy)
        } else if crate::strings::str_eq(self.action.as_str(), "update") {
            Some(ActionKind::Update)
        } else {
            None
        }
    }
}

} // verus!
