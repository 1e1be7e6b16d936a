use vstd::prelude::*;

use crate::versioning::{
    first_ch, is_more_recent_str, lemma_first_ch_at, lemma_first_ch_le_len, more_recent,
    scan_for, valid_version,
};

verus! {

/// One row of the package manager's outdated report: a package name and
/// its current, wanted and latest versions — the newest version inside the
/// declared range and the newest version published overall.
pub struct OutdatedRow {
    pub name: String,
    pub current: String,
    pub wanted: String,
    pub latest: String,
}

/// The ghost image of an `OutdatedRow`.
#[verifier::ext_equal]
pub struct OutdatedRowView {
    pub name: Seq<char>,
    pub current: Seq<char>,
    pub wanted: Seq<char>,
    pub latest: Seq<char>,
}

impl View for OutdatedRow {
    type V = OutdatedRowView;

    open spec fn view(&self) -> OutdatedRowView {
        OutdatedRowView {
            name: self.name@,
            current: self.current@,
            wanted: self.wanted@,
            latest: self.latest@,
        }
    }
}

impl OutdatedRow {
    pub fn new(name: String, current: String, wanted: String, latest: String) -> (r: Self)
        ensures
            r@.name == name@,
            r@.current == current@,
            r@.wanted == wanted@,
            r@.latest == latest@,
    {
        Self { name, current, wanted, latest }
    }
}

/// One action the upgrade mode decides on: an upgrade of a package to
/// exactly a version, or a warning that a newer major version exists
/// beyond the declared range — emitted, never acted on.
#[derive(Debug, PartialEq, Eq)]
pub enum UpgradeStep {
    Upgrade { name: String, version: String },
    MajorWarning { name: String, latest: String },
}

/// The ghost image of an `UpgradeStep`.
#[verifier::ext_equal]
pub enum UpgradeStepView {
    Upgrade { name: Seq<char>, version: Seq<char> },
    MajorWarning { name: Seq<char>, latest: Seq<char> },
}

impl View for UpgradeStep {
    type V = UpgradeStepView;

    open spec fn view(&self) -> UpgradeStepView {
        match self {
            UpgradeStep::Upgrade { name, version } => UpgradeStepView::Upgrade {
                name: name@,
                version: version@,
            },
            UpgradeStep::MajorWarning { name, latest } => UpgradeStepView::MajorWarning {
                name: name@,
                latest: latest@,
            },
        }
    }
}

/// A report row the comparator can read: all three versions are valid
/// dotted version strings.
pub open spec fn row_valid(r: OutdatedRowView) -> bool {
    &&& valid_version(r.current)
    &&& valid_version(r.wanted)
    &&& valid_version(r.latest)
}

/// What the upgrade mode decides for one row, in order: an upgrade to
/// exactly the wanted version when wanted is strictly newer than current,
/// then a major-version warning when latest is strictly newer than wanted.
pub open spec fn decide_row(r: OutdatedRowView) -> Seq<UpgradeStepView> {
    (if more_recent(r.wanted, r.current) {
        seq![UpgradeStepView::Upgrade { name: r.name, version: r.wanted }]
    } else {
        Seq::<UpgradeStepView>::empty()
    }) + (if more_recent(r.latest, r.wanted) {
        seq![UpgradeStepView::MajorWarning { name: r.name, latest: r.latest }]
    } else {
        Seq::<UpgradeStepView>::empty()
    })
}

/// The views of a sequence of rows.
pub open spec fn rows_view(s: Seq<OutdatedRow>) -> Seq<OutdatedRowView> {
    s.map_values(|r: OutdatedRow| r@)
}

/// The views of a sequence of decided steps.
pub open spec fn steps_view(s: Seq<UpgradeStep>) -> Seq<UpgradeStepView> {
    s.map_values(|x: UpgradeStep| x@)
}

/// What the upgrade mode decides for a full report: each row's decisions,
/// in report order.
pub open spec fn decide_spec(rows: Seq<OutdatedRowView>) -> Seq<UpgradeStepView>
    decreases rows.len(),
{
    if rows.len() == 0 {
        Seq::<UpgradeStepView>::empty()
    } else {
        decide_spec(rows.drop_last()) + decide_row(rows.last())
    }
}

/// Decides the upgrade mode's actions for an outdated report: for each row
/// in order, an upgrade to exactly the wanted version when it is strictly
/// newer than the current one — never a jump to latest, which would leave
/// the declared range — and a major-version warning, acted on by nobody,
/// when the latest version is strictly newer than the wanted one.
pub fn decide_upgrades(rows: &Vec<OutdatedRow>) -> (r: Vec<UpgradeStep>)
    requires
        forall|k: int| 0 <= k < rows@.len() ==> row_valid(#[trigger] rows@[k]@),
    ensures
        steps_view(r@) == decide_spec(rows_view(rows@)),
{
    let n = rows.len();
    let mut out: Vec<UpgradeStep> = Vec::new();
    let mut i: usize = 0;
    proof {
        assert(rows_view(rows@).subrange(0, 0) =~= Seq::<OutdatedRowView>::empty());
        assert(steps_view(out@) =~= decide_spec(rows_view(rows@).subrange(0, 0)));
    }
    while i < n
        invariant
            0 <= i <= n,
            n == rows@.len(),
            forall|k: int| 0 <= k < rows@.len() ==> row_valid(#[trigger] rows@[k]@),
            steps_view(out@) =~= decide_spec(rows_view(rows@).subrange(0, i as int)),
        decreases n - i,
    {
        let row = &rows[i];
        proof {
            assert(row_valid(rows@[i as int]@));
        }
        let ghost out0 = out@;
        let up = is_more_recent_str(row.wanted.as_str(), row.current.as_str());
        if up {
            out.push(
                UpgradeStep::Upgrade { name: row.name.clone(), version: row.wanted.clone() },
            );
        }
        let ghost out1 = out@;
        let warn = is_more_recent_str(row.latest.as_str(), row.wanted.as_str());
        if warn {
            out.push(
                UpgradeStep::MajorWarning { name: row.name.clone(), latest: row.latest.clone() },
            );
        }
        proof {
            let rv = rows_view(rows@);
            let pre = rv.subrange(0, i as int);
            let ext = rv.subrange(0, i as int + 1);
            assert(ext.drop_last() =~= pre);
            assert(ext.last() == rv[i as int]);
            assert(rv[i as int] == row@);
            if up {
                assert(out1.drop_last() =~= out0);
                assert(steps_view(out1) =~= steps_view(out0) + seq![
                    UpgradeStepView::Upgrade { name: row@.name, version: row@.wanted },
                ]);
            }
            if warn {
                assert(out@.drop_last() =~= out1);
                assert(steps_view(out@) =~= steps_view(out1) + seq![
                    UpgradeStepView::MajorWarning { name: row@.name, latest: row@.latest },
                ]);
            }
            assert(steps_view(out@) =~= steps_view(out0) + decide_row(row@));
            assert(decide_spec(ext) == decide_spec(pre) + decide_row(rv[i as int]));
            assert(steps_view(out@) =~= decide_spec(ext));
        }
        i = i + 1;
    }
    proof {
        assert(rows_view(rows@).subrange(0, n as int) =~= rows_view(rows@));
    }
    out
}

/// The second line of a report: the text between the first line feed and
/// the next one or the end; nothing when the report has no line feed.
pub open spec fn second_line_spec(s: Seq<char>) -> Option<Seq<char>> {
    let k: nat = first_ch(s, '\n');
    if k >= s.len() {
        None
    } else {
        let rest = s.subrange(k as int + 1, s.len() as int);
        let m: nat = first_ch(rest, '\n');
        if m > rest.len() {
            Some(rest)
        } else {
            Some(rest.subrange(0, m as int))
        }
    }
}

/// Cuts the second line out of a report, as the outdated check reads the
/// package manager's output.
pub fn second_line(s: &str) -> (r: Option<String>)
    ensures
        match r {
            Some(x) => second_line_spec(s@) == Some(x@),
            None => second_line_spec(s@) is None,
        },
{
    let n = s.unicode_len();
    let k = scan_for(s, 0, '\n');
    proof {
        lemma_first_ch_at(s@, '\n', k as int);
    }
    if k == n {
        return None;
    }
    let m = scan_for(s, k + 1, '\n');
    let ghost rest = s@.subrange(k as int + 1, n as int);
    proof {
        lemma_first_ch_le_len(rest, '\n');
        assert forall|q: int| 0 <= q < m - (k + 1) implies rest[q] != '\n' by {
            assert(s@[q + k + 1] != '\n');
        }
        if m < n {
            assert(rest[m - (k + 1)] == '\n');
        }
        lemma_first_ch_at(rest, '\n', m - (k + 1));
    }
    let out = s.substring_char(k + 1, m);
    let r = String::from_str(out);
    proof {
        assert(r@ =~= rest.subrange(0, m - (k + 1)));
    }
    Some(r)
}

} // verus!
