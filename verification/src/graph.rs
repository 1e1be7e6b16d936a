use vstd::prelude::*;

use crate::models::{RepositoryItem, RepositoryItemView};
use crate::strings::{stripped, StringExtension};

verus! {

/// The plain descriptor data of one declared project, as the manifest and
/// descriptor readers hand it in: the declared relative path, the package
/// name the project's own descriptor declares (empty when the descriptor is
/// missing or unreadable), and the declared dependency names.
pub struct ProjectInput {
    pub path: String,
    pub name: String,
    pub dependencies: Vec<String>,
}

/// The ghost image of a `ProjectInput`.
#[verifier::ext_equal]
pub struct ProjectInputView {
    pub path: Seq<char>,
    pub name: Seq<char>,
    pub dependencies: Seq<Seq<char>>,
}

impl View for ProjectInput {
    type V = ProjectInputView;

    open spec fn view(&self) -> ProjectInputView {
        ProjectInputView {
            path: self.path@,
            name: self.name@,
            dependencies: self.dependencies.deep_view(),
        }
    }
}

impl ProjectInput {
    pub fn new(path: String, name: String, dependencies: Vec<String>) -> (r: Self)
        ensures
            r@.path == path@,
            r@.name == name@,
            r@.dependencies == dependencies.deep_view(),
    {
        Self { path, name, dependencies }
    }
}

/// The views of a sequence of inputs.
pub open spec fn input_views(s: Seq<ProjectInput>) -> Seq<ProjectInputView> {
    s.map_values(|p: ProjectInput| p@)
}

/// The views of a sequence of strings.
pub open spec fn strs_view(s: Seq<String>) -> Seq<Seq<char>> {
    s.map_values(|x: String| x@)
}

/// The module names known in the meta-repository: every declared project's
/// stripped package name, in declaration order.
pub open spec fn module_names(ins: Seq<ProjectInputView>) -> Seq<Seq<char>> {
    ins.map_values(|p: ProjectInputView| stripped(p.name))
}

/// The cross-dependencies of one project: its declared dependency names
/// that match a known module name, each stripped, in declaration order.
pub open spec fn cross_deps(deps: Seq<Seq<char>>, modules: Seq<Seq<char>>) -> Seq<Seq<char>>
    decreases deps.len(),
{
    if deps.len() == 0 {
        Seq::<Seq<char>>::empty()
    } else if modules.contains(deps.last()) {
        cross_deps(deps.drop_last(), modules).push(stripped(deps.last()))
    } else {
        cross_deps(deps.drop_last(), modules)
    }
}

/// The record the builder produces for one project.
pub open spec fn built_item(p: ProjectInputView, modules: Seq<Seq<char>>) -> RepositoryItemView {
    RepositoryItemView {
        project: stripped(p.path),
        module: stripped(p.name),
        dependencies: cross_deps(p.dependencies, modules),
    }
}

/// What the graph builder returns for given descriptor data: one record per
/// declared project, in declaration order, with cross-dependencies computed
/// against the full module-name set.
pub open spec fn build_spec(ins: Seq<ProjectInputView>) -> Seq<RepositoryItemView> {
    ins.map_values(|p: ProjectInputView| built_item(p, module_names(ins)))
}

/// The cross-project dependency graph: one record per declared project, in
/// declaration order.  The declared relative path is the key; lookups by
/// module name return the first record in declaration order that declares
/// the name.
pub struct DependencyGraph {
    pub items: Vec<RepositoryItem>,
}

impl View for DependencyGraph {
    type V = Seq<RepositoryItemView>;

    open spec fn view(&self) -> Seq<RepositoryItemView> {
        self.items@.map_values(|it: RepositoryItem| it@)
    }
}

/// First index at or after `i` whose record declares module `name`, or
/// `g.len()` when none does.
pub open spec fn find_module_from(g: Seq<RepositoryItemView>, name: Seq<char>, i: int) -> int
    decreases g.len() - i,
{
    if i < 0 || i >= g.len() {
        g.len() as int
    } else if g[i].module == name {
        i
    } else {
        find_module_from(g, name, i + 1)
    }
}

/// First index whose record declares module `name`, or `g.len()`.
pub open spec fn find_module(g: Seq<RepositoryItemView>, name: Seq<char>) -> int {
    find_module_from(g, name, 0)
}

/// First index at or after `i` whose record has project path `path`, or
/// `g.len()` when none has.
pub open spec fn find_project_from(g: Seq<RepositoryItemView>, path: Seq<char>, i: int) -> int
    decreases g.len() - i,
{
    if i < 0 || i >= g.len() {
        g.len() as int
    } else if g[i].project == path {
        i
    } else {
        find_project_from(g, path, i + 1)
    }
}

/// First index whose record has project path `path`, or `g.len()`.
pub open spec fn find_project(g: Seq<RepositoryItemView>, path: Seq<char>) -> int {
    find_project_from(g, path, 0)
}

/// A module lookup answers inside `[from, g.len()]`.
pub proof fn lemma_find_module_range(g: Seq<RepositoryItemView>, name: Seq<char>, from: int)
    requires
        0 <= from <= g.len(),
    ensures
        from <= find_module_from(g, name, from) <= g.len(),
    decreases g.len() - from,
{
    if from < g.len() && g[from].module != name {
        lemma_find_module_range(g, name, from + 1);
    }
}

proof fn lemma_find_module_at(g: Seq<RepositoryItemView>, name: Seq<char>, from: int, d: int)
    requires
        0 <= from <= d <= g.len(),
        forall|m: int| from <= m < d ==> g[m].module != name,
        d == g.len() || g[d].module == name,
    ensures
        find_module_from(g, name, from) == d,
    decreases g.len() - from,
{
    if from < g.len() && g[from].module != name {
        lemma_find_module_at(g, name, from + 1, d);
    }
}

proof fn lemma_find_project_at(g: Seq<RepositoryItemView>, path: Seq<char>, from: int, d: int)
    requires
        0 <= from <= d <= g.len(),
        forall|m: int| from <= m < d ==> g[m].project != path,
        d == g.len() || g[d].project == path,
    ensures
        find_project_from(g, path, from) == d,
    decreases g.len() - from,
{
    if from < g.len() && g[from].project != path {
        lemma_find_project_at(g, path, from + 1, d);
    }
}

impl DependencyGraph {
    /// Number of project records.
    pub fn len(&self) -> (r: usize)
        ensures
            r == self@.len(),
    {
        self.items.len()
    }

    /// The record at `i`.
    pub fn item(&self, i: usize) -> (r: &RepositoryItem)
        requires
            i < self@.len(),
        ensures
            r@ == self@[i as int],
    {
        &self.items[i]
    }

    /// The first record in declaration order that declares module `name`.
    pub fn lookup_module(&self, name: &String) -> (r: Option<usize>)
        ensures
            match r {
                Some(k) => k == find_module(self@, name@) && k < self@.len(),
                None => find_module(self@, name@) == self@.len(),
            },
    {
        let n = self.items.len();
        let mut i: usize = 0;
        while i < n
            invariant
                0 <= i <= n,
                n == self@.len(),
                forall|m: int| 0 <= m < i ==> self@[m].module != name@,
            decreases n - i,
        {
            if self.items[i].module.eq(name) {
                proof {
                    lemma_find_module_at(self@, name@, 0, i as int);
                }
                return Some(i);
            }
            i = i + 1;
        }
        proof {
            lemma_find_module_at(self@, name@, 0, n as int);
        }
        None
    }

    /// The first record in declaration order with project path `path`.
    pub fn lookup_project(&self, path: &String) -> (r: Option<usize>)
        ensures
            match r {
                Some(k) => k == find_project(self@, path@) && k < self@.len(),
                None => find_project(self@, path@) == self@.len(),
            },
    {
        let n = self.items.len();
        let mut i: usize = 0;
        while i < n
            invariant
                0 <= i <= n,
                n == self@.len(),
                forall|m: int| 0 <= m < i ==> self@[m].project != path@,
            decreases n - i,
        {
            if self.items[i].project.eq(path) {
                proof {
                    lemma_find_project_at(self@, path@, 0, i as int);
                }
                return Some(i);
            }
            i = i + 1;
        }
        proof {
            lemma_find_project_at(self@, path@, 0, n as int);
        }
        None
    }
}

/// True iff some element of `xs` views as `x`'s characters.
fn contains_string(xs: &Vec<String>, x: &String) -> (r: bool)
    ensures
        r == strs_view(xs@).contains(x@),
{
    let n = xs.len();
    let mut i: usize = 0;
    while i < n
        invariant
            0 <= i <= n,
            n == xs@.len(),
            forall|m: int| 0 <= m < i ==> strs_view(xs@)[m] != x@,
        decreases n - i,
    {
        if xs[i].eq(x) {
            proof {
                assert(strs_view(xs@)[i as int] == x@);
            }
            return true;
        }
        i = i + 1;
    }
    proof {
        assert forall|m: int| 0 <= m < strs_view(xs@).len() implies strs_view(xs@)[m] != x@ by {}
    }
    false
}

/// Builds the dependency graph from the declared projects' descriptor data.
///
/// A first pass strips every declared path and package name so the full
/// module-name set is known; a second pass keeps, for each project, exactly
/// the declared dependencies that match a known module name.  Nothing fails:
/// a project whose descriptor was missing arrives with an empty name and no
/// dependencies and simply yields an empty record.
pub fn build(inputs: &Vec<ProjectInput>) -> (g: DependencyGraph)
    ensures
        g@ == build_spec(input_views(inputs@)),
{
    let n = inputs.len();
    let ghost ins = input_views(inputs@);
    let mut modules: Vec<String> = Vec::new();
    let mut i: usize = 0;
    while i < n
        invariant
            0 <= i <= n,
            n == inputs@.len(),
            ins == input_views(inputs@),
            strs_view(modules@) =~= module_names(ins).subrange(0, i as int),
        decreases n - i,
    {
        let m = inputs[i].name.strip();
        modules.push(m);
        proof {
            assert(strs_view(modules@) =~= strs_view(modules@.drop_last()).push(m@));
            assert(module_names(ins).subrange(0, i as int + 1) =~= module_names(ins).subrange(
                0,
                i as int,
            ).push(module_names(ins)[i as int]));
        }
        i = i + 1;
    }
    proof {
        assert(module_names(ins).subrange(0, n as int) =~= module_names(ins));
    }
    let mut items: Vec<RepositoryItem> = Vec::new();
    let mut i: usize = 0;
    while i < n
        invariant
            0 <= i <= n,
            n == inputs@.len(),
            ins == input_views(inputs@),
            strs_view(modules@) == module_names(ins),
            items@.map_values(|it: RepositoryItem| it@) =~= build_spec(ins).subrange(0, i as int),
        decreases n - i,
    {
        let input = &inputs[i];
        let path = input.path.strip();
        let name = input.name.strip();
        let dn = input.dependencies.len();
        let mut deps: Vec<String> = Vec::new();
        let mut j: usize = 0;
        while j < dn
            invariant
                0 <= j <= dn,
                i < n,
                n == inputs@.len(),
                dn == input.dependencies@.len(),
                input == &inputs[i as int],
                ins == input_views(inputs@),
                strs_view(modules@) == module_names(ins),
                strs_view(deps@) =~= cross_deps(
                    input@.dependencies.subrange(0, j as int),
                    module_names(ins),
                ),
            decreases dn - j,
        {
            let d = &input.dependencies[j];
            proof {
                let declared = input@.dependencies;
                let pref = declared.subrange(0, j as int + 1);
                assert(pref.drop_last() =~= declared.subrange(0, j as int));
                assert(pref.last() == declared[j as int]);
                assert(declared[j as int] == d@);
            }
            if contains_string(&modules, d) {
                let sd = d.strip();
                deps.push(sd);
                proof {
                    assert(strs_view(deps@) =~= strs_view(deps@.drop_last()).push(sd@));
                }
            }
            j = j + 1;
        }
        proof {
            assert(input@.dependencies.subrange(0, dn as int) =~= input@.dependencies);
        }
        let item = RepositoryItem::new(path, name, deps);
        items.push(item);
        proof {
            let f = |it: RepositoryItem| it@;
            assert(items@.map_values(f) =~= items@.drop_last().map_values(f).push(item@));
            assert(ins[i as int] == inputs@[i as int]@);
            assert(item@ =~= built_item(ins[i as int], module_names(ins)));
            assert(item@.dependencies =~= strs_view(deps@));
            assert(ins[i as int] == inputs@[i as int]@);
            assert(input@ == inputs@[i as int]@);
            assert(build_spec(ins)[i as int] == built_item(ins[i as int], module_names(ins)));
            assert(build_spec(ins).subrange(0, i as int + 1) =~= build_spec(ins).subrange(
                0,
                i as int,
            ).push(build_spec(ins)[i as int]));
        }
        i = i + 1;
    }
    proof {
        assert(build_spec(ins).subrange(0, n as int) =~= build_spec(ins));
    }
    DependencyGraph { items }
}

/// Building the graph twice from identical descriptor data yields identical
/// graphs, cross-dependency edge sets included: the builder is a function
/// of its input alone, with no hidden state and no iteration-order effects.
pub proof fn lemma_build_deterministic(a: Seq<ProjectInputView>, b: Seq<ProjectInputView>)
    requires
        a == b,
    ensures
        build_spec(a) == build_spec(b),
{
}

} // verus!
