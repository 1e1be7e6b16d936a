use vstd::prelude::*;

use crate::graph::{find_module, find_project, DependencyGraph};
use crate::models::RepositoryItemView;

verus! {

/// What the traversal reads of the disk, probed once before a walk, in the
/// same order as the graph's records: `installed[i][j]` says whether the
/// candidate installed copy of record `i`'s cross-dependency `j` is present
/// under the project's dependency-install directory, and `source_dir[i]`
/// whether record `i`'s own project directory exists.
pub struct DiskModel {
    pub installed: Vec<Vec<bool>>,
    pub source_dir: Vec<bool>,
}

/// The ghost image of a `DiskModel`.
#[verifier::ext_equal]
pub struct DiskModelView {
    pub installed: Seq<Seq<bool>>,
    pub source_dir: Seq<bool>,
}

impl View for DiskModel {
    type V = DiskModelView;

    open spec fn view(&self) -> DiskModelView {
        DiskModelView { installed: self.installed.deep_view(), source_dir: self.source_dir@ }
    }
}

/// The disk probe lines up with the graph: one row per record, one entry
/// per cross-dependency.
pub open spec fn disk_wf(g: Seq<RepositoryItemView>, d: DiskModelView) -> bool {
    &&& d.installed.len() == g.len()
    &&& d.source_dir.len() == g.len()
    &&& forall|i: int|
        0 <= i < g.len() ==> (#[trigger] d.installed[i]).len() == g[i].dependencies.len()
}

/// One step of a traversal plan, in execution order.  `Enter` records the
/// single entry into a project; `Apply` asks the chosen operation to act on
/// the edge from record `project`'s cross-dependency `dep` to the record
/// `target` that produces it.
#[derive(Clone, Copy, PartialEq, Eq, Debug, Structural)]
pub enum PlanStep {
    Enter { project: usize },
    Apply { project: usize, dep: usize, target: usize },
}

/// How many records a visited row still leaves unvisited.
pub open spec fn count_unvisited(v: Seq<bool>) -> nat
    decreases v.len(),
{
    if v.len() == 0 {
        0
    } else {
        count_unvisited(v.drop_last()) + if v.last() {
            0nat
        } else {
            1nat
        }
    }
}

pub proof fn lemma_count_update_true(v: Seq<bool>, i: int)
    requires
        0 <= i < v.len(),
        !v[i],
    ensures
        count_unvisited(v.update(i, true)) == count_unvisited(v) - 1,
    decreases v.len(),
{
    let u = v.update(i, true);
    if i == v.len() - 1 {
        assert(u.drop_last() =~= v.drop_last());
        assert(u.last());
        assert(!v.last());
    } else {
        assert(u.drop_last() =~= v.drop_last().update(i, true));
        assert(u.last() == v.last());
        lemma_count_update_true(v.drop_last(), i);
    }
}

/// Pointwise disjunction, on the length of the first row.
pub open spec fn or_merge(a: Seq<bool>, b: Seq<bool>) -> Seq<bool> {
    Seq::new(a.len(), |k: int| a[k] || (0 <= k < b.len() && b[k]))
}

pub proof fn lemma_count_or_merge(a: Seq<bool>, b: Seq<bool>)
    ensures
        count_unvisited(or_merge(a, b)) <= count_unvisited(a),
    decreases a.len(),
{
    if a.len() > 0 {
        assert(or_merge(a, b).drop_last() =~= or_merge(a.drop_last(), b));
        lemma_count_or_merge(a.drop_last(), b);
    }
}

/// Visits record `i`: nothing happens when `i` was already visited; else
/// `i` is marked, entered, and each of its cross-dependency edges is walked
/// in declaration order.  Returns the visited row after the visit and the
/// plan steps the visit emits.
pub open spec fn visit_spec(
    g: Seq<RepositoryItemView>,
    d: DiskModelView,
    i: int,
    v: Seq<bool>,
) -> (Seq<bool>, Seq<PlanStep>)
    decreases count_unvisited(v), 0int, 0int,
{
    if !(disk_wf(g, d) && v.len() == g.len() && 0 <= i < g.len()) {
        (v, Seq::<PlanStep>::empty())
    } else if v[i] {
        (v, Seq::<PlanStep>::empty())
    } else {
        proof {
            lemma_count_update_true(v, i);
        }
        let r = visit_deps_spec(g, d, i, 0, v.update(i, true));
        (r.0, seq![PlanStep::Enter { project: i as usize }] + r.1)
    }
}

/// Walks record `i`'s cross-dependency edges from index `j` on.  An edge
/// qualifies when its installed candidate is present on disk and some
/// record produces the dependency; the walk then recurses into that record
/// first and, if the record's own directory exists, emits the edge's
/// `Apply` step afterwards — post-order.
pub open spec fn visit_deps_spec(
    g: Seq<RepositoryItemView>,
    d: DiskModelView,
    i: int,
    j: int,
    v: Seq<bool>,
) -> (Seq<bool>, Seq<PlanStep>)
    decreases
        count_unvisited(v),
        1int,
        (if 0 <= i < g.len() {
            g[i].dependencies.len() - j
        } else {
            0int
        }),
{
    if !(disk_wf(g, d) && v.len() == g.len() && 0 <= i < g.len() && 0 <= j) {
        (v, Seq::<PlanStep>::empty())
    } else if j >= g[i].dependencies.len() {
        (v, Seq::<PlanStep>::empty())
    } else {
        proof {
            assert forall|x: Seq<bool>|
                count_unvisited(or_merge(v, x)) <= count_unvisited(v) by {
                lemma_count_or_merge(v, x);
            }
        }
        let edge = if d.installed[i][j] && find_module(g, g[i].dependencies[j]) < g.len() {
            let r = find_module(g, g[i].dependencies[j]);
            let rec = visit_spec(g, d, r, v);
            let applied = if d.source_dir[r] {
                seq![PlanStep::Apply { project: i as usize, dep: j as usize, target: r as usize }]
            } else {
                Seq::<PlanStep>::empty()
            };
            (or_merge(v, rec.0), rec.1 + applied)
        } else {
            (v, Seq::<PlanStep>::empty())
        };
        let rest = visit_deps_spec(g, d, i, j + 1, edge.0);
        (rest.0, edge.1 + rest.1)
    }
}

/// A visit only ever adds to the visited row: the row keeps its length and
/// no record is ever unmarked.
pub proof fn lemma_visit_monotone(g: Seq<RepositoryItemView>, d: DiskModelView, i: int, v: Seq<bool>)
    ensures
        visit_spec(g, d, i, v).0.len() == v.len(),
        forall|k: int| 0 <= k < v.len() && v[k] ==> visit_spec(g, d, i, v).0[k],
    decreases count_unvisited(v), 0int, 0int,
{
    if disk_wf(g, d) && v.len() == g.len() && 0 <= i < g.len() && !v[i] {
        lemma_count_update_true(v, i);
        let u = v.update(i, true);
        lemma_visit_deps_monotone(g, d, i, 0, u);
        assert forall|k: int| 0 <= k < v.len() && v[k] implies visit_spec(g, d, i, v).0[k] by {
            assert(u[k]);
            assert(visit_deps_spec(g, d, i, 0, u).0[k]);
        }
    }
}

/// Walking edges only ever adds to the visited row.
pub proof fn lemma_visit_deps_monotone(
    g: Seq<RepositoryItemView>,
    d: DiskModelView,
    i: int,
    j: int,
    v: Seq<bool>,
)
    ensures
        visit_deps_spec(g, d, i, j, v).0.len() == v.len(),
        forall|k: int| 0 <= k < v.len() && v[k] ==> visit_deps_spec(g, d, i, j, v).0[k],
    decreases
        count_unvisited(v),
        1int,
        (if 0 <= i < g.len() {
            g[i].dependencies.len() - j
        } else {
            0int
        }),
{
    if disk_wf(g, d) && v.len() == g.len() && 0 <= i < g.len() && 0 <= j
        && j < g[i].dependencies.len() {
        let edge = if d.installed[i][j] && find_module(g, g[i].dependencies[j]) < g.len() {
            let r = find_module(g, g[i].dependencies[j]);
            let rec = visit_spec(g, d, r, v);
            let applied = if d.source_dir[r] {
                seq![PlanStep::Apply { project: i as usize, dep: j as usize, target: r as usize }]
            } else {
                Seq::<PlanStep>::empty()
            };
            (or_merge(v, rec.0), rec.1 + applied)
        } else {
            (v, Seq::<PlanStep>::empty())
        };
        if d.installed[i][j] && find_module(g, g[i].dependencies[j]) < g.len() {
            lemma_count_or_merge(v, visit_spec(g, d, find_module(g, g[i].dependencies[j]), v).0);
        }
        lemma_visit_deps_monotone(g, d, i, j + 1, edge.0);
        assert forall|k: int| 0 <= k < v.len() && v[k] implies visit_deps_spec(
            g,
            d,
            i,
            j,
            v,
        ).0[k] by {
            assert(edge.0[k]);
            assert(visit_deps_spec(g, d, i, j + 1, edge.0).0[k]);
        }
    }
}

/// Visits record `i`, threading the visited row and the plan through.
fn visit(
    g: &DependencyGraph,
    d: &DiskModel,
    i: usize,
    v: Vec<bool>,
    plan: Vec<PlanStep>,
) -> (r: (Vec<bool>, Vec<PlanStep>))
    requires
        disk_wf(g@, d@),
        v@.len() == g@.len(),
        i < g@.len(),
    ensures
        r.0@ == visit_spec(g@, d@, i as int, v@).0,
        r.1@ == plan@ + visit_spec(g@, d@, i as int, v@).1,
    decreases count_unvisited(v@), 0int, 0int,
{
    if v[i] {
        proof {
            assert(plan@ + visit_spec(g@, d@, i as int, v@).1 =~= plan@);
        }
        return (v, plan);
    }
    let ghost v0 = v@;
    let mut v2 = v;
    v2.set(i, true);
    let mut plan2 = plan;
    plan2.push(PlanStep::Enter { project: i });
    proof {
        lemma_count_update_true(v0, i as int);
    }
    let r = visit_deps(g, d, i, 0, v2, plan2);
    proof {
        let whole = visit_spec(g@, d@, i as int, v0);
        let deps = visit_deps_spec(g@, d@, i as int, 0, v0.update(i as int, true));
        assert(whole.1 == seq![PlanStep::Enter { project: i }] + deps.1);
        assert(plan@ + whole.1 =~= (plan@ + seq![PlanStep::Enter { project: i }]) + deps.1);
        assert(plan@ + seq![PlanStep::Enter { project: i }] =~= plan@.push(
            PlanStep::Enter { project: i },
        ));
    }
    r
}

/// Walks record `i`'s cross-dependency edges from index `j` on, threading
/// the visited row and the plan through.
fn visit_deps(
    g: &DependencyGraph,
    d: &DiskModel,
    i: usize,
    j: usize,
    v: Vec<bool>,
    plan: Vec<PlanStep>,
) -> (r: (Vec<bool>, Vec<PlanStep>))
    requires
        disk_wf(g@, d@),
        v@.len() == g@.len(),
        i < g@.len(),
    ensures
        r.0@ == visit_deps_spec(g@, d@, i as int, j as int, v@).0,
        r.1@ == plan@ + visit_deps_spec(g@, d@, i as int, j as int, v@).1,
    decreases
        count_unvisited(v@),
        1int,
        (if 0 <= i < g@.len() {
            g@[i as int].dependencies.len() - j
        } else {
            0int
        }),
{
    let deps_len = g.item(i).dependencies.len();
    if j >= deps_len {
        proof {
            assert(plan@ + visit_deps_spec(g@, d@, i as int, j as int, v@).1 =~= plan@);
        }
        return (v, plan);
    }
    let ghost v0 = v@;
    let ghost plan0 = plan@;
    let ghost edge_spec = {
        let gg = g@;
        let dd = d@;
        if dd.installed[i as int][j as int] && find_module(gg, gg[i as int].dependencies[j as int])
            < gg.len() {
            let r = find_module(gg, gg[i as int].dependencies[j as int]);
            let rec = visit_spec(gg, dd, r, v0);
            let applied = if dd.source_dir[r] {
                seq![PlanStep::Apply { project: i, dep: j, target: r as usize }]
            } else {
                Seq::<PlanStep>::empty()
            };
            (or_merge(v0, rec.0), rec.1 + applied)
        } else {
            (v0, Seq::<PlanStep>::empty())
        }
    };
    let mut v_cur = v;
    let mut plan_cur = plan;
    let row = &d.installed[i];
    proof {
        assert(d@.installed[i as int] =~= row@);
    }
    if row[j] {
        let dep = &g.item(i).dependencies[j];
        proof {
            assert(dep@ == g@[i as int].dependencies[j as int]);
        }
        match g.lookup_module(dep) {
            Some(t) => {
                let res = visit(g, d, t, v_cur, plan_cur);
                v_cur = res.0;
                plan_cur = res.1;
                proof {
                    let rec0 = visit_spec(g@, d@, t as int, v0).0;
                    lemma_visit_monotone(g@, d@, t as int, v0);
                    assert(or_merge(v0, rec0) =~= rec0);
                    lemma_count_or_merge(v0, rec0);
                }
                if d.source_dir[t] {
                    plan_cur.push(PlanStep::Apply { project: i, dep: j, target: t });
                }
                proof {
                    let rec = visit_spec(g@, d@, t as int, v0);
                    if d@.source_dir[t as int] {
                        assert(plan_cur@ =~= (plan0 + rec.1) + seq![
                            PlanStep::Apply { project: i, dep: j, target: t },
                        ]);
                        assert(plan_cur@ =~= plan0 + edge_spec.1);
                    } else {
                        assert(plan_cur@ =~= plan0 + edge_spec.1);
                    }
                    assert(v_cur@ == edge_spec.0);
                }
            },
            None => {
                proof {
                    assert(v_cur@ == edge_spec.0);
                    assert(plan_cur@ =~= plan0 + edge_spec.1);
                }
            },
        }
    } else {
        proof {
            assert(v_cur@ == edge_spec.0);
            assert(plan_cur@ =~= plan0 + edge_spec.1);
        }
    }
    proof {
        assert(count_unvisited(v_cur@) <= count_unvisited(v0));
    }
    let r = visit_deps(g, d, i, j + 1, v_cur, plan_cur);
    proof {
        let whole = visit_deps_spec(g@, d@, i as int, j as int, v0);
        let rest = visit_deps_spec(g@, d@, i as int, j as int + 1, edge_spec.0);
        assert(whole.1 == edge_spec.1 + rest.1);
        assert((plan0 + edge_spec.1) + rest.1 =~= plan0 + (edge_spec.1 + rest.1));
    }
    r
}

/// A fresh visited row: nothing visited yet.
pub open spec fn fresh_row(n: nat) -> Seq<bool> {
    Seq::new(n, |k: int| false)
}

/// The full traversal plan from the record at `start`: a depth-first,
/// post-order walk over the cross-dependency graph that enters each record
/// at most once.
pub open spec fn traverse_spec(g: Seq<RepositoryItemView>, d: DiskModelView, start: int) -> Seq<
    PlanStep,
> {
    visit_spec(g, d, start, fresh_row(g.len())).1
}

/// Walks the graph depth-first from the project declared at relative path
/// `start`, and returns the plan: one `Enter` per project reached, and one
/// `Apply` per qualifying cross-dependency edge, each `Apply` placed after
/// the full walk of its target record.
pub fn traverse(graph: &DependencyGraph, disk: &DiskModel, start: &String) -> (plan: Vec<
    PlanStep,
>)
    requires
        disk_wf(graph@, disk@),
        find_project(graph@, start@) < graph@.len(),
    ensures
        plan@ == traverse_spec(graph@, disk@, find_project(graph@, start@)),
{
    let idx = match graph.lookup_project(start) {
        Some(k) => k,
        None => {
            proof {
                assert(false);
            }
            0
        },
    };
    let n = graph.len();
    let mut visited: Vec<bool> = Vec::new();
    let mut k: usize = 0;
    while k < n
        invariant
            0 <= k <= n,
            visited@ =~= fresh_row(k as nat),
        decreases n - k,
    {
        visited.push(false);
        proof {
            assert(visited@ =~= fresh_row(k as nat + 1));
        }
        k = k + 1;
    }
    let r = visit(graph, disk, idx, visited, Vec::new());
    proof {
        assert(Seq::<PlanStep>::empty() + traverse_spec(graph@, disk@, idx as int)
            =~= traverse_spec(graph@, disk@, idx as int));
    }
    r.1
}

/// After a visit of `i` under a well-formed probe, `i` is visited.
pub proof fn lemma_visit_marks(g: Seq<RepositoryItemView>, d: DiskModelView, i: int, v: Seq<bool>)
    requires
        disk_wf(g, d),
        v.len() == g.len(),
        0 <= i < g.len(),
    ensures
        visit_spec(g, d, i, v).0[i],
{
    if !v[i] {
        lemma_count_update_true(v, i);
        let u = v.update(i, true);
        lemma_visit_deps_monotone(g, d, i, 0, u);
        assert(u[i]);
        assert(visit_deps_spec(g, d, i, 0, u).0[i]);
        assert(visit_spec(g, d, i, v).0 == visit_deps_spec(g, d, i, 0, u).0);
    } else {
        lemma_visit_monotone(g, d, i, v);
    }
}

} // verus!
