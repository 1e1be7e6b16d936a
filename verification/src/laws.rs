use vstd::prelude::*;

use crate::models::RepositoryItemView;
use crate::traverse::{
    disk_wf, or_merge, traverse_spec, visit_deps_spec, visit_spec, DiskModelView, PlanStep,
};
use crate::traverse::{lemma_visit_deps_monotone, lemma_visit_marks, lemma_visit_monotone};
use crate::graph::find_module;

verus! {

/// The projects a plan enters, in order.
pub open spec fn entered_projects(s: Seq<PlanStep>) -> Seq<usize>
    decreases s.len(),
{
    if s.len() == 0 {
        Seq::<usize>::empty()
    } else {
        entered_projects(s.drop_last()) + match s.last() {
            PlanStep::Enter { project } => seq![project],
            _ => Seq::<usize>::empty(),
        }
    }
}

proof fn lemma_entered_concat(a: Seq<PlanStep>, b: Seq<PlanStep>)
    ensures
        entered_projects(a + b) == entered_projects(a) + entered_projects(b),
    decreases b.len(),
{
    if b.len() == 0 {
        assert(a + b =~= a);
        assert(entered_projects(a) + entered_projects(b) =~= entered_projects(a));
    } else {
        lemma_entered_concat(a, b.drop_last());
        assert((a + b).drop_last() =~= a + b.drop_last());
        assert((a + b).last() == b.last());
        assert(entered_projects(a + b) =~= entered_projects(a) + entered_projects(b));
    }
}

proof fn lemma_entered_single(step: PlanStep)
    ensures
        entered_projects(seq![step]) == (match step {
            PlanStep::Enter { project } => seq![project],
            _ => Seq::<usize>::empty(),
        }),
{
    let s = seq![step];
    assert(s.drop_last() =~= Seq::<PlanStep>::empty());
    assert(entered_projects(Seq::<PlanStep>::empty()) =~= Seq::<usize>::empty());
    assert(entered_projects(s) =~= Seq::<usize>::empty() + (match step {
        PlanStep::Enter { project } => seq![project],
        _ => Seq::<usize>::empty(),
    }));
    assert(Seq::<usize>::empty() + (match step {
        PlanStep::Enter { project } => seq![project],
        _ => Seq::<usize>::empty(),
    }) =~= (match step {
        PlanStep::Enter { project } => seq![project],
        _ => Seq::<usize>::empty(),
    }));
}

proof fn lemma_contains_concat<T>(a: Seq<T>, b: Seq<T>, x: T)
    ensures
        (a + b).contains(x) <==> (a.contains(x) || b.contains(x)),
{
    if a.contains(x) {
        let k = choose|k: int| 0 <= k < a.len() && a[k] == x;
        assert((a + b)[k] == x);
    }
    if b.contains(x) {
        let k = choose|k: int| 0 <= k < b.len() && b[k] == x;
        assert((a + b)[a.len() + k] == x);
    }
    if (a + b).contains(x) {
        let k = choose|k: int| 0 <= k < (a + b).len() && (a + b)[k] == x;
        if k < a.len() {
            assert(a[k] == x);
        } else {
            assert(b[k - a.len()] == x);
        }
    }
}

proof fn lemma_no_dup_concat<T>(a: Seq<T>, b: Seq<T>)
    requires
        a.no_duplicates(),
        b.no_duplicates(),
        forall|x: T| !(a.contains(x) && b.contains(x)),
    ensures
        (a + b).no_duplicates(),
{
    assert forall|p: int, q: int|
        0 <= p < (a + b).len() && 0 <= q < (a + b).len() && p != q implies (a + b)[p] != (a
        + b)[q] by {
        if p < a.len() && q < a.len() {
        } else if p >= a.len() && q >= a.len() {
        } else if p < a.len() && q >= a.len() {
            assert(a.contains((a + b)[p]));
            assert(b.contains((a + b)[q]));
        } else {
            assert(b.contains((a + b)[p]));
            assert(a.contains((a + b)[q]));
        }
    }
}

/// What a visit's plan enters: exactly the records it newly marks, each
/// once.
proof fn lemma_visit_entered(
    g: Seq<RepositoryItemView>,
    d: DiskModelView,
    i: int,
    v: Seq<bool>,
)
    requires
        g.len() <= usize::MAX,
    ensures
        entered_projects(visit_spec(g, d, i, v).1).no_duplicates(),
        forall|p: usize|
            #[trigger] entered_projects(visit_spec(g, d, i, v).1).contains(p) <==> ((p as int)
                < v.len() && !v[p as int] && visit_spec(g, d, i, v).0[p as int]),
    decreases crate::traverse::count_unvisited(v), 0int, 0int,
{
    let s = visit_spec(g, d, i, v).1;
    let v1 = visit_spec(g, d, i, v).0;
    if !(disk_wf(g, d) && v.len() == g.len() && 0 <= i < g.len()) || v[i] {
        assert(s =~= Seq::<PlanStep>::empty());
        assert(entered_projects(s) =~= Seq::<usize>::empty());
        assert forall|p: usize| #[trigger] entered_projects(s).contains(p) <==> ((p as int)
            < v.len() && !v[p as int] && v1[p as int]) by {
            assert(!entered_projects(s).contains(p));
        }
    } else {
        crate::traverse::lemma_count_update_true(v, i);
        let u = v.update(i, true);
        let rd = visit_deps_spec(g, d, i, 0, u);
        lemma_visit_deps_entered(g, d, i, 0, u);
        lemma_visit_deps_monotone(g, d, i, 0, u);
        let head = seq![PlanStep::Enter { project: i as usize }];
        assert(s == head + rd.1);
        lemma_entered_concat(head, rd.1);
        lemma_entered_single(PlanStep::Enter { project: i as usize });
        assert(entered_projects(head) =~= seq![i as usize]);
        assert(v1 == rd.0);
        assert forall|x: usize| !(entered_projects(head).contains(x) && entered_projects(
            rd.1,
        ).contains(x)) by {
            if entered_projects(head).contains(x) {
                assert(x == i as usize);
                assert(i as usize as int == i);
                assert(u[i]);
                assert(!(entered_projects(visit_deps_spec(g, d, i, 0, u).1).contains(x)));
            }
        }
        assert(seq![i as usize].no_duplicates());
        lemma_no_dup_concat(entered_projects(head), entered_projects(rd.1));
        assert forall|p: usize| #[trigger] entered_projects(s).contains(p) <==> ((p as int)
            < v.len() && !v[p as int] && v1[p as int]) by {
            lemma_contains_concat(entered_projects(head), entered_projects(rd.1), p);
            assert(entered_projects(visit_deps_spec(g, d, i, 0, u).1).contains(p) <==> ((p as int)
                < u.len() && !u[p as int] && rd.0[p as int]));
            if p == i as usize {
                assert(i as usize as int == i);
                assert(entered_projects(head)[0] == i as usize);
                assert(entered_projects(head).contains(i as usize));
                assert(u[i]);
                assert(visit_deps_spec(g, d, i, 0, u).0[i]);
                assert(v1[i]);
            } else {
                assert(!entered_projects(head).contains(p));
                if (p as int) < v.len() {
                    assert(u[p as int] == v[p as int]);
                }
            }
        }
    }
}

/// What an edge walk's plan enters: exactly the records it newly marks,
/// each once.
proof fn lemma_visit_deps_entered(
    g: Seq<RepositoryItemView>,
    d: DiskModelView,
    i: int,
    j: int,
    v: Seq<bool>,
)
    requires
        g.len() <= usize::MAX,
    ensures
        entered_projects(visit_deps_spec(g, d, i, j, v).1).no_duplicates(),
        forall|p: usize|
            #[trigger] entered_projects(visit_deps_spec(g, d, i, j, v).1).contains(p) <==> ((
            p as int) < v.len() && !v[p as int] && visit_deps_spec(g, d, i, j, v).0[p as int]),
    decreases
        crate::traverse::count_unvisited(v),
        1int,
        (if 0 <= i < g.len() {
            g[i].dependencies.len() - j
        } else {
            0int
        }),
{
    let s = visit_deps_spec(g, d, i, j, v).1;
    let v1 = visit_deps_spec(g, d, i, j, v).0;
    if !(disk_wf(g, d) && v.len() == g.len() && 0 <= i < g.len() && 0 <= j) || j >= g[
        i
    ].dependencies.len() {
        assert(s =~= Seq::<PlanStep>::empty());
        assert(entered_projects(s) =~= Seq::<usize>::empty());
        assert forall|p: usize| #[trigger] entered_projects(s).contains(p) <==> ((p as int)
            < v.len() && !v[p as int] && v1[p as int]) by {
            assert(!entered_projects(s).contains(p));
        }
    } else {
        let hit = d.installed[i][j] && find_module(g, g[i].dependencies[j]) < g.len();
        let edge = if hit {
            let r = find_module(g, g[i].dependencies[j]);
            let rec = visit_spec(g, d, r, v);
            let applied = if d.source_dir[r] {
                seq![PlanStep::Apply { project: i as usize, dep: j as usize, target: r as usize }]
            } else {
                Seq::<PlanStep>::empty()
            };
            (or_merge(v, rec.0), rec.1 + applied)
        } else {
            (v, Seq::<PlanStep>::empty())
        };
        let rest = visit_deps_spec(g, d, i, j + 1, edge.0);
        assert(s == edge.1 + rest.1);
        assert(v1 == rest.0);
        if hit {
            let r = find_module(g, g[i].dependencies[j]);
            let rec = visit_spec(g, d, r, v);
            lemma_visit_entered(g, d, r, v);
            lemma_visit_monotone(g, d, r, v);
            crate::traverse::lemma_count_or_merge(v, rec.0);
            let applied = if d.source_dir[r] {
                seq![PlanStep::Apply { project: i as usize, dep: j as usize, target: r as usize }]
            } else {
                Seq::<PlanStep>::empty()
            };
            lemma_entered_concat(rec.1, applied);
            if d.source_dir[r] {
                lemma_entered_single(
                    PlanStep::Apply { project: i as usize, dep: j as usize, target: r as usize },
                );
            }
            assert(entered_projects(applied) =~= Seq::<usize>::empty());
            assert(entered_projects(edge.1) =~= entered_projects(rec.1));
            lemma_visit_deps_entered(g, d, i, j + 1, edge.0);
            lemma_visit_deps_monotone(g, d, i, j + 1, edge.0);
            lemma_entered_concat(edge.1, rest.1);
            assert forall|x: usize| !(entered_projects(edge.1).contains(x) && entered_projects(
                rest.1,
            ).contains(x)) by {
                if entered_projects(edge.1).contains(x) && entered_projects(rest.1).contains(x) {
                    assert(rec.0[x as int]);
                    assert(edge.0[x as int]);
                }
            }
            lemma_no_dup_concat(entered_projects(edge.1), entered_projects(rest.1));
            assert forall|p: usize| #[trigger] entered_projects(s).contains(p) <==> ((p as int)
                < v.len() && !v[p as int] && v1[p as int]) by {
                lemma_contains_concat(entered_projects(edge.1), entered_projects(rest.1), p);
                if (p as int) < v.len() {
                    assert(edge.0[p as int] == (v[p as int] || rec.0[p as int]));
                    if !v[p as int] && v1[p as int] {
                        if edge.0[p as int] {
                            if rec.0[p as int] {
                                assert(entered_projects(rec.1).contains(p));
                            }
                        } else {
                            assert(entered_projects(rest.1).contains(p));
                        }
                    }
                    if entered_projects(edge.1).contains(p) {
                        assert(rec.0[p as int]);
                        assert(edge.0[p as int]);
                        assert(v1[p as int]);
                    }
                    if entered_projects(rest.1).contains(p) {
                        assert(!edge.0[p as int] && v1[p as int]);
                        assert(!v[p as int]);
                    }
                }
            }
        } else {
            assert(edge.1 =~= Seq::<PlanStep>::empty());
            assert(edge.0 == v);
            assert(edge.1 + rest.1 =~= rest.1);
            lemma_visit_deps_entered(g, d, i, j + 1, v);
        }
    }
}

/// The record edge `(i, j)` points at.
pub open spec fn target_of(g: Seq<RepositoryItemView>, i: int, j: int) -> int {
    find_module(g, g[i].dependencies[j])
}

/// Edge `(i, j)` qualifies for application: the dependency's installed
/// candidate is present on disk, a record produces the dependency, and
/// that record's own directory exists.
pub open spec fn qualifies(g: Seq<RepositoryItemView>, d: DiskModelView, i: int, j: int) -> bool {
    &&& 0 <= i < g.len()
    &&& 0 <= j < g[i].dependencies.len()
    &&& d.installed[i][j]
    &&& target_of(g, i, j) < g.len()
    &&& d.source_dir[target_of(g, i, j)]
}

/// The `Apply` step the traversal emits for edge `(i, j)`.
pub open spec fn apply_step_of(g: Seq<RepositoryItemView>, i: int, j: int) -> PlanStep {
    PlanStep::Apply { project: i as usize, dep: j as usize, target: target_of(g, i, j) as usize }
}

/// Every qualifying edge of record `r` already has its `Apply` step in
/// `done`.
pub open spec fn completed(
    g: Seq<RepositoryItemView>,
    d: DiskModelView,
    r: int,
    done: Seq<PlanStep>,
) -> bool {
    forall|j2: int| #[trigger] qualifies(g, d, r, j2) ==> done.contains(apply_step_of(g, r, j2))
}

/// Post-order, relative to an already-emitted prefix `ctx`: every `Apply`
/// step in `s` finds its target's own qualifying edges already applied in
/// what came before it.
pub open spec fn post_order_ok(
    g: Seq<RepositoryItemView>,
    d: DiskModelView,
    ctx: Seq<PlanStep>,
    s: Seq<PlanStep>,
) -> bool {
    forall|k: int| #![trigger s[k]]
        0 <= k < s.len() ==> match s[k] {
            PlanStep::Apply { project, dep, target } => completed(
                g,
                d,
                target as int,
                ctx + s.subrange(0, k),
            ),
            _ => true,
        }
}

/// A rank that every cross-dependency edge strictly decreases: the witness
/// that the graph is acyclic.
pub open spec fn rank_ok(g: Seq<RepositoryItemView>, rank: Map<int, nat>) -> bool {
    forall|i: int, j: int| #![trigger g[i].dependencies[j]]
        0 <= i < g.len() && 0 <= j < g[i].dependencies.len() && target_of(g, i, j) < g.len()
            ==> rank[target_of(g, i, j)] < rank[i]
}

/// The cross-dependency graph admits no cycle: some rank decreases along
/// every edge.
pub open spec fn acyclic(g: Seq<RepositoryItemView>) -> bool {
    exists|rank: Map<int, nat>| rank_ok(g, rank)
}

/// Membership survives appending more steps.
proof fn lemma_completed_extend(
    g: Seq<RepositoryItemView>,
    d: DiskModelView,
    r: int,
    done: Seq<PlanStep>,
    more: Seq<PlanStep>,
)
    requires
        completed(g, d, r, done),
    ensures
        completed(g, d, r, done + more),
{
    assert forall|j2: int| #[trigger] qualifies(g, d, r, j2) implies (done + more).contains(
        apply_step_of(g, r, j2),
    ) by {
        assert(done.contains(apply_step_of(g, r, j2)));
        lemma_contains_concat(done, more, apply_step_of(g, r, j2));
    }
}

/// Two post-order segments compose.
proof fn lemma_post_ok_concat(
    g: Seq<RepositoryItemView>,
    d: DiskModelView,
    ctx: Seq<PlanStep>,
    s1: Seq<PlanStep>,
    s2: Seq<PlanStep>,
)
    requires
        post_order_ok(g, d, ctx, s1),
        post_order_ok(g, d, ctx + s1, s2),
    ensures
        post_order_ok(g, d, ctx, s1 + s2),
{
    let s = s1 + s2;
    assert forall|k: int| #![trigger s[k]] 0 <= k < s.len() implies match s[k] {
        PlanStep::Apply { project, dep, target } => completed(
            g,
            d,
            target as int,
            ctx + s.subrange(0, k),
        ),
        _ => true,
    } by {
        if k < s1.len() {
            assert(s[k] == s1[k]);
            assert(s.subrange(0, k) =~= s1.subrange(0, k));
        } else {
            let k2: int = k - s1.len();
            assert(s[k] == s2[k2]);
            assert(ctx + s.subrange(0, k) =~= (ctx + s1) + s2.subrange(0, k2));
        }
    }
}

/// Post-order for one visit, under an acyclicity rank.  `anc` holds the
/// records whose visits are still in progress (the recursion's ancestors);
/// every other visited record has its qualifying edges already applied in
/// `ctx`, and the visit keeps it that way.
proof fn lemma_visit_postorder(
    g: Seq<RepositoryItemView>,
    d: DiskModelView,
    rank: Map<int, nat>,
    i: int,
    v: Seq<bool>,
    anc: Set<int>,
    ctx: Seq<PlanStep>,
)
    requires
        g.len() <= usize::MAX,
        disk_wf(g, d),
        v.len() == g.len(),
        0 <= i < g.len(),
        rank_ok(g, rank),
        forall|a: int| #[trigger] anc.contains(a) ==> 0 <= a < g.len() && v[a] && rank[a] > rank[i],
        forall|r: int|
            0 <= r < g.len() && v[r] && !anc.contains(r) ==> completed(g, d, r, ctx),
    ensures
        post_order_ok(g, d, ctx, visit_spec(g, d, i, v).1),
        forall|r: int|
            0 <= r < g.len() && visit_spec(g, d, i, v).0[r] && !anc.contains(r) ==> completed(
                g,
                d,
                r,
                ctx + visit_spec(g, d, i, v).1,
            ),
    decreases crate::traverse::count_unvisited(v), 0int, 0int,
{
    let s = visit_spec(g, d, i, v).1;
    let v1 = visit_spec(g, d, i, v).0;
    if v[i] {
        assert(s =~= Seq::<PlanStep>::empty());
        assert forall|r: int|
            0 <= r < g.len() && v1[r] && !anc.contains(r) implies completed(g, d, r, ctx + s) by {
            assert(completed(g, d, r, ctx));
            lemma_completed_extend(g, d, r, ctx, s);
        }
    } else {
        crate::traverse::lemma_count_update_true(v, i);
        let u = v.update(i, true);
        let head = seq![PlanStep::Enter { project: i as usize }];
        let ctx2 = ctx + head;
        let anc2 = anc.insert(i);
        assert forall|r: int|
            0 <= r < g.len() && u[r] && !anc2.contains(r) implies completed(g, d, r, ctx2) by {
            assert(r != i);
            assert(v[r]);
            assert(completed(g, d, r, ctx));
            lemma_completed_extend(g, d, r, ctx, head);
        }
        lemma_deps_postorder(g, d, rank, i, 0, u, anc2, ctx2);
        let rd = visit_deps_spec(g, d, i, 0, u);
        assert(s == head + rd.1);
        assert(v1 == rd.0);
        // The head is no Apply step, so the segment starting at `ctx` is
        // post-order as soon as the tail after `ctx2` is.
        assert forall|k: int| #![trigger s[k]] 0 <= k < s.len() implies match s[k] {
            PlanStep::Apply { project, dep, target } => completed(
                g,
                d,
                target as int,
                ctx + s.subrange(0, k),
            ),
            _ => true,
        } by {
            if k > 0 {
                let k2: int = k - 1;
                assert(s[k] == rd.1[k2]);
                assert(ctx + s.subrange(0, k) =~= ctx2 + rd.1.subrange(0, k2));
            }
        }
        // Record `i` itself is now completed: every qualifying edge got its
        // step during the walk of its dependency list.
        assert forall|r: int|
            0 <= r < g.len() && v1[r] && !anc.contains(r) implies completed(g, d, r, ctx + s) by {
            if r == i {
                assert forall|j2: int| #[trigger] qualifies(g, d, i, j2) implies (ctx
                    + s).contains(apply_step_of(g, i, j2)) by {
                    assert(rd.1.contains(apply_step_of(g, i, j2)));
                    lemma_contains_concat(head, rd.1, apply_step_of(g, i, j2));
                    lemma_contains_concat(ctx, s, apply_step_of(g, i, j2));
                }
            } else {
                assert(!anc2.contains(r));
                assert(completed(g, d, r, ctx2 + rd.1));
                assert(ctx2 + rd.1 =~= ctx + s);
            }
        }
    }
}

/// Post-order for the walk of record `i`'s edges from `j` on, under an
/// acyclicity rank; on top of preserving the invariant, the walk emits the
/// `Apply` step of every remaining qualifying edge of `i`.
proof fn lemma_deps_postorder(
    g: Seq<RepositoryItemView>,
    d: DiskModelView,
    rank: Map<int, nat>,
    i: int,
    j: int,
    v: Seq<bool>,
    anc: Set<int>,
    ctx: Seq<PlanStep>,
)
    requires
        g.len() <= usize::MAX,
        disk_wf(g, d),
        v.len() == g.len(),
        0 <= i < g.len(),
        0 <= j,
        rank_ok(g, rank),
        anc.contains(i),
        forall|a: int| #[trigger] anc.contains(a) ==> 0 <= a < g.len() && v[a] && rank[a] >= rank[i],
        forall|r: int|
            0 <= r < g.len() && v[r] && !anc.contains(r) ==> completed(g, d, r, ctx),
    ensures
        post_order_ok(g, d, ctx, visit_deps_spec(g, d, i, j, v).1),
        forall|r: int|
            0 <= r < g.len() && visit_deps_spec(g, d, i, j, v).0[r] && !anc.contains(r)
                ==> completed(g, d, r, ctx + visit_deps_spec(g, d, i, j, v).1),
        forall|j2: int|
            j <= j2 < g[i].dependencies.len() && #[trigger] qualifies(g, d, i, j2)
                ==> visit_deps_spec(g, d, i, j, v).1.contains(apply_step_of(g, i, j2)),
    decreases
        crate::traverse::count_unvisited(v),
        1int,
        (if 0 <= i < g.len() {
            g[i].dependencies.len() - j
        } else {
            0int
        }),
{
    let s = visit_deps_spec(g, d, i, j, v).1;
    let v1 = visit_deps_spec(g, d, i, j, v).0;
    if j >= g[i].dependencies.len() {
        assert(s =~= Seq::<PlanStep>::empty());
        assert forall|r: int|
            0 <= r < g.len() && v1[r] && !anc.contains(r) implies completed(g, d, r, ctx + s) by {
            assert(completed(g, d, r, ctx));
            lemma_completed_extend(g, d, r, ctx, s);
        }
    } else {
        let hit = d.installed[i][j] && find_module(g, g[i].dependencies[j]) < g.len();
        if hit {
            let t = find_module(g, g[i].dependencies[j]);
            crate::graph::lemma_find_module_range(g, g[i].dependencies[j], 0);
            assert(rank[t] < rank[i]);
            let rec = visit_spec(g, d, t, v);
            let applied = if d.source_dir[t] {
                seq![PlanStep::Apply { project: i as usize, dep: j as usize, target: t as usize }]
            } else {
                Seq::<PlanStep>::empty()
            };
            let edge = (or_merge(v, rec.0), rec.1 + applied);
            assert forall|a: int| #[trigger] anc.contains(a) implies 0 <= a < g.len() && v[a]
                && rank[a] > rank[t] by {}
            lemma_visit_postorder(g, d, rank, t, v, anc, ctx);
            lemma_visit_monotone(g, d, t, v);
            lemma_visit_marks(g, d, t, v);
            crate::traverse::lemma_count_or_merge(v, rec.0);
            assert(!anc.contains(t));
            assert(completed(g, d, t, ctx + rec.1));
            // The freshly applied step lands after the full walk of its
            // target, so the segment stays post-order.
            let s1 = rec.1 + applied;
            assert forall|k: int| #![trigger s1[k]] 0 <= k < s1.len() implies match s1[k] {
                PlanStep::Apply { project, dep, target } => completed(
                    g,
                    d,
                    target as int,
                    ctx + s1.subrange(0, k),
                ),
                _ => true,
            } by {
                if k < rec.1.len() {
                    assert(s1[k] == rec.1[k]);
                    assert(ctx + s1.subrange(0, k) =~= ctx + rec.1.subrange(0, k));
                } else {
                    assert(d.source_dir[t]);
                    assert(s1[k] == PlanStep::Apply {
                        project: i as usize,
                        dep: j as usize,
                        target: t as usize,
                    });
                    assert(t as usize as int == t);
                    assert(ctx + s1.subrange(0, k) =~= ctx + rec.1);
                }
            }
            // Invariant going into the rest of the edge list.
            let ctx3 = ctx + s1;
            assert forall|r: int|
                0 <= r < g.len() && edge.0[r] && !anc.contains(r) implies completed(
                g,
                d,
                r,
                ctx3,
            ) by {
                if v[r] {
                    assert(completed(g, d, r, ctx));
                    lemma_completed_extend(g, d, r, ctx, s1);
                    assert(ctx + s1 =~= ctx3);
                } else {
                    assert(rec.0[r]);
                    assert(completed(g, d, r, ctx + rec.1));
                    lemma_completed_extend(g, d, r, ctx + rec.1, applied);
                    assert((ctx + rec.1) + applied =~= ctx3);
                }
            }
            lemma_deps_postorder(g, d, rank, i, j + 1, edge.0, anc, ctx3);
            let rest = visit_deps_spec(g, d, i, j + 1, edge.0);
            assert(s == s1 + rest.1);
            assert(v1 == rest.0);
            lemma_post_ok_concat(g, d, ctx, s1, rest.1);
            assert forall|r: int|
                0 <= r < g.len() && v1[r] && !anc.contains(r) implies completed(
                g,
                d,
                r,
                ctx + s,
            ) by {
                assert(completed(g, d, r, ctx3 + rest.1));
                assert(ctx3 + rest.1 =~= ctx + s);
            }
            assert forall|j2: int|
                j <= j2 < g[i].dependencies.len() && #[trigger] qualifies(g, d, i, j2) implies s
                .contains(apply_step_of(g, i, j2)) by {
                if j2 == j {
                    assert(d.source_dir[t]);
                    assert(applied[0] == apply_step_of(g, i, j));
                    assert(applied.contains(apply_step_of(g, i, j)));
                    lemma_contains_concat(rec.1, applied, apply_step_of(g, i, j));
                    lemma_contains_concat(s1, rest.1, apply_step_of(g, i, j));
                } else {
                    assert(rest.1.contains(apply_step_of(g, i, j2)));
                    lemma_contains_concat(s1, rest.1, apply_step_of(g, i, j2));
                }
            }
        } else {
            let rest = visit_deps_spec(g, d, i, j + 1, v);
            assert(s == Seq::<PlanStep>::empty() + rest.1);
            assert(v1 == rest.0);
            lemma_deps_postorder(g, d, rank, i, j + 1, v, anc, ctx);
            assert(Seq::<PlanStep>::empty() + rest.1 =~= rest.1);
            assert forall|j2: int|
                j <= j2 < g[i].dependencies.len() && #[trigger] qualifies(g, d, i, j2) implies s
                .contains(apply_step_of(g, i, j2)) by {
                assert(j2 != j);
                assert(rest.1.contains(apply_step_of(g, i, j2)));
            }
        }
    }
}

/// For every acyclic graph the traversal is post-order: an `Apply` step
/// passes a project to the operation as a dependency target only after
/// every qualifying cross-dependency edge of that project has already had
/// its own `Apply` step emitted earlier in the plan.
pub proof fn lemma_traverse_postorder(g: Seq<RepositoryItemView>, d: DiskModelView, start: int)
    requires
        g.len() <= usize::MAX,
        disk_wf(g, d),
        acyclic(g),
    ensures
        post_order_ok(g, d, Seq::<PlanStep>::empty(), traverse_spec(g, d, start)),
{
    let rank = choose|rank: Map<int, nat>| rank_ok(g, rank);
    let v = crate::traverse::fresh_row(g.len());
    if 0 <= start < g.len() {
        lemma_visit_postorder(g, d, rank, start, v, Set::<int>::empty(), Seq::<PlanStep>::empty());
    } else {
        assert(traverse_spec(g, d, start) =~= Seq::<PlanStep>::empty());
    }
}

/// For any graph — cyclic graphs included — the traversal terminates (its
/// walk is a well-founded recursion) and enters each project at most once:
/// the visited-set guard at work.
pub proof fn lemma_traverse_enters_once(
    g: Seq<RepositoryItemView>,
    d: DiskModelView,
    start: int,
)
    requires
        g.len() <= usize::MAX,
    ensures
        entered_projects(traverse_spec(g, d, start)).no_duplicates(),
{
    lemma_visit_entered(g, d, start, crate::traverse::fresh_row(g.len()));
}

} // verus!
