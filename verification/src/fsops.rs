use vstd::prelude::*;

use crate::paths::backup_of;
use crate::paths::backup_path;

verus! {

/// A filesystem entry the operation handlers care about: an ordinary
/// directory, whose contents are opaque and named by a token, or a symbolic
/// link to a target path.
#[derive(Debug, PartialEq, Eq)]
pub enum FsNode {
    Dir { contents: u64 },
    Link { target: String },
}

/// The ghost image of an `FsNode`.
#[verifier::ext_equal]
pub enum FsNodeView {
    Dir { contents: u64 },
    Link { target: Seq<char> },
}

impl View for FsNode {
    type V = FsNodeView;

    open spec fn view(&self) -> FsNodeView {
        match self {
            FsNode::Dir { contents } => FsNodeView::Dir { contents: *contents },
            FsNode::Link { target } => FsNodeView::Link { target: target@ },
        }
    }
}

impl FsNode {
    /// A copy of the entry.
    pub fn duplicate(&self) -> (r: FsNode)
        ensures
            r@ == self@,
    {
        match self {
            FsNode::Dir { contents } => FsNode::Dir { contents: *contents },
            FsNode::Link { target } => FsNode::Link { target: target.clone() },
        }
    }
}

/// The map a binding list stands for, later bindings winning.
pub open spec fn entries_map(s: Seq<(String, FsNode)>) -> Map<Seq<char>, FsNodeView>
    decreases s.len(),
{
    if s.len() == 0 {
        Map::<Seq<char>, FsNodeView>::empty()
    } else {
        entries_map(s.drop_last()).insert(s.last().0@, s.last().1@)
    }
}

/// The binding list with every binding of key `k` dropped.
pub open spec fn without_key(s: Seq<(String, FsNode)>, k: Seq<char>) -> Seq<(String, FsNode)>
    decreases s.len(),
{
    if s.len() == 0 {
        Seq::<(String, FsNode)>::empty()
    } else if s.last().0@ == k {
        without_key(s.drop_last(), k)
    } else {
        without_key(s.drop_last(), k).push(s.last())
    }
}

proof fn lemma_without_key_map(s: Seq<(String, FsNode)>, k: Seq<char>)
    ensures
        entries_map(without_key(s, k)) == entries_map(s).remove(k),
    decreases s.len(),
{
    if s.len() == 0 {
        assert(entries_map(without_key(s, k)) =~= entries_map(s).remove(k));
    } else {
        lemma_without_key_map(s.drop_last(), k);
        if s.last().0@ == k {
            assert(entries_map(without_key(s, k)) =~= entries_map(s).remove(k));
        } else {
            assert(without_key(s, k).drop_last() =~= without_key(s.drop_last(), k));
            assert(without_key(s, k).last() == s.last());
            assert(entries_map(without_key(s, k)) == entries_map(
                without_key(s.drop_last(), k),
            ).insert(s.last().0@, s.last().1@));
            assert(entries_map(without_key(s, k)) =~= entries_map(s).remove(k));
        }
    }
}

/// The filesystem as the operation handlers see it: a finite map from path
/// to entry, held as a binding list in which the latest binding of a path
/// wins.
pub struct FsModel {
    pub entries: Vec<(String, FsNode)>,
}

impl View for FsModel {
    type V = Map<Seq<char>, FsNodeView>;

    open spec fn view(&self) -> Map<Seq<char>, FsNodeView> {
        entries_map(self.entries@)
    }
}

impl FsModel {
    /// An empty filesystem.
    pub fn new() -> (r: FsModel)
        ensures
            r@ == Map::<Seq<char>, FsNodeView>::empty(),
    {
        FsModel { entries: Vec::new() }
    }

    /// The entry at `path`, if any.
    pub fn get(&self, path: &String) -> (r: Option<&FsNode>)
        ensures
            match r {
                Some(n) => self@.contains_key(path@) && n@ == self@[path@],
                None => !self@.contains_key(path@),
            },
    {
        let n = self.entries.len();
        let mut p: usize = n;
        proof {
            assert(self.entries@.subrange(0, n as int) =~= self.entries@);
        }
        while p > 0
            invariant
                0 <= p <= n,
                n == self.entries@.len(),
                forall|q: int| p <= q < n ==> self.entries@[q].0@ != path@,
                entries_map(self.entries@.subrange(0, p as int)).contains_key(path@)
                    == self@.contains_key(path@),
                entries_map(self.entries@.subrange(0, p as int)).contains_key(path@)
                    ==> entries_map(self.entries@.subrange(0, p as int))[path@] == self@[path@],
            decreases p,
        {
            let entry = &self.entries[p - 1];
            let ghost pre = self.entries@.subrange(0, p as int);
            proof {
                assert(pre.drop_last() =~= self.entries@.subrange(0, p - 1));
                assert(pre.last() == self.entries@[p - 1]);
            }
            if entry.0.eq(path) {
                return Some(&entry.1);
            }
            p = p - 1;
        }
        proof {
            assert(self.entries@.subrange(0, 0) =~= Seq::<(String, FsNode)>::empty());
        }
        None
    }

    /// Binds `path` to `node`, replacing any earlier binding.
    pub fn insert(&mut self, path: String, node: FsNode)
        ensures
            final(self)@ == old(self)@.insert(path@, node@),
    {
        let ghost before = self.entries@;
        self.entries.push((path, node));
        proof {
            assert(self.entries@.drop_last() =~= before);
        }
    }

    /// Drops any binding of `path`.
    pub fn remove(&mut self, path: &String)
        ensures
            final(self)@ == old(self)@.remove(path@),
    {
        let ghost before = self.entries@;
        let ghost kept = without_key(before, path@);
        let mut rest: Vec<(String, FsNode)> = Vec::new();
        while self.entries.len() > 0
            invariant
                without_key(self.entries@, path@) + rev_of(rest@) =~= kept,
            decreases self.entries@.len(),
        {
            let ghost prev = self.entries@;
            let e = match self.entries.pop() {
                Some(e) => e,
                None => {
                    proof {
                        assert(false);
                    }
                    continue
                },
            };
            proof {
                assert(self.entries@ =~= prev.drop_last());
            }
            if !e.0.eq(path) {
                let ghost rest0 = rest@;
                rest.push(e);
                proof {
                    assert(rest@.drop_last() =~= rest0);
                    assert(rev_of(rest@) =~= seq![e] + rev_of(rest0));
                    assert(without_key(prev, path@) =~= without_key(self.entries@, path@).push(e));
                    assert(without_key(self.entries@, path@) + rev_of(rest@) =~= without_key(
                        prev,
                        path@,
                    ) + rev_of(rest0));
                }
            }
        }
        while rest.len() > 0
            invariant
                self.entries@ + rev_of(rest@) =~= kept,
            decreases rest@.len(),
        {
            let ghost rest0 = rest@;
            let e = match rest.pop() {
                Some(e) => e,
                None => {
                    proof {
                        assert(false);
                    }
                    continue
                },
            };
            let ghost mid = self.entries@;
            self.entries.push(e);
            proof {
                assert(rest@ =~= rest0.drop_last());
                assert(rev_of(rest0) =~= seq![e] + rev_of(rest@));
                assert(self.entries@ =~= mid.push(e));
                assert(self.entries@ + rev_of(rest@) =~= mid + rev_of(rest0));
            }
        }
        proof {
            assert(self.entries@ =~= kept);
            lemma_without_key_map(before, path@);
        }
    }
}

/// The sequence reversed.
pub open spec fn rev_of<T>(s: Seq<T>) -> Seq<T>
    decreases s.len(),
{
    if s.len() == 0 {
        Seq::<T>::empty()
    } else {
        seq![s.last()] + rev_of(s.drop_last())
    }
}

/// Why an operation handler refused to act on an edge.
#[derive(Debug, Clone, Copy, PartialEq, Eq, Structural)]
pub enum OpError {
    /// The installed copy to displace is not present.
    MissingInstalled,
    /// The backup path is already taken: the edge is already displaced.
    BackupExists,
    /// The producing project's own directory is not present.
    MissingSource,
    /// The installed path does not hold a symbolic link made by a link run.
    NotALink,
    /// The displaced original to restore is not present.
    MissingBackup,
}

/// When a link (or copy) of `inst` from `src` goes through: the installed
/// copy is present, its backup path is still free, and the source project
/// directory is present.  The entry's kind is not examined, as a rename
/// moves any entry.
pub open spec fn link_ok(m: Map<Seq<char>, FsNodeView>, inst: Seq<char>, src: Seq<char>) -> bool {
    &&& m.contains_key(inst)
    &&& !m.contains_key(backup_of(inst))
    &&& m.contains_key(src)
}

/// The error a refused link (or copy) reports, checks in the order the
/// filesystem operations would hit them.
pub open spec fn link_err(m: Map<Seq<char>, FsNodeView>, inst: Seq<char>, src: Seq<char>) -> OpError {
    if !m.contains_key(inst) {
        OpError::MissingInstalled
    } else if m.contains_key(backup_of(inst)) {
        OpError::BackupExists
    } else {
        OpError::MissingSource
    }
}

/// What a link leaves behind: the installed entry moved to its backup
/// path, and a symbolic link to the source in its place.
pub open spec fn link_effect(
    m: Map<Seq<char>, FsNodeView>,
    inst: Seq<char>,
    src: Seq<char>,
) -> Map<Seq<char>, FsNodeView> {
    m.insert(backup_of(inst), m[inst]).insert(inst, FsNodeView::Link { target: src })
}

/// What a copy leaves behind: the installed entry moved to its backup
/// path, and a snapshot of the source entry in its place.
pub open spec fn copy_effect(
    m: Map<Seq<char>, FsNodeView>,
    inst: Seq<char>,
    src: Seq<char>,
) -> Map<Seq<char>, FsNodeView> {
    m.insert(backup_of(inst), m[inst]).insert(inst, m[src])
}

/// When an unlink of `inst` goes through: the installed path holds a
/// symbolic link and the displaced original is present at the backup path.
pub open spec fn unlink_ok(m: Map<Seq<char>, FsNodeView>, inst: Seq<char>) -> bool {
    &&& m.contains_key(inst)
    &&& m[inst] is Link
    &&& m.contains_key(backup_of(inst))
}

/// The error a refused unlink reports.
pub open spec fn unlink_err(m: Map<Seq<char>, FsNodeView>, inst: Seq<char>) -> OpError {
    if !(m.contains_key(inst) && m[inst] is Link) {
        OpError::NotALink
    } else {
        OpError::MissingBackup
    }
}

/// What an unlink leaves behind: the symbolic link gone and the displaced
/// original back in its place.
pub open spec fn unlink_effect(m: Map<Seq<char>, FsNodeView>, inst: Seq<char>) -> Map<
    Seq<char>,
    FsNodeView,
> {
    m.insert(inst, m[backup_of(inst)]).remove(backup_of(inst))
}

/// The link handler: renames the installed copy to its backup path, then
/// places a symbolic link to the source project where the copy was.  Not
/// idempotent: with the backup path taken, nothing changes and the run
/// reports why.
pub fn apply_link(fs: &mut FsModel, installed: &String, source: &String) -> (r: Result<
    (),
    OpError,
>)
    ensures
        link_ok(old(fs)@, installed@, source@) ==> r is Ok && final(fs)@ == link_effect(
            old(fs)@,
            installed@,
            source@,
        ),
        !link_ok(old(fs)@, installed@, source@) ==> r == Err::<(), OpError>(
            link_err(old(fs)@, installed@, source@),
        ) && final(fs)@ == old(fs)@,
{
    let node = match fs.get(installed) {
        Some(n) => n.duplicate(),
        None => {
            return Err(OpError::MissingInstalled);
        },
    };
    let bak = backup_path(installed.as_str());
    match fs.get(&bak) {
        Some(_) => {
            return Err(OpError::BackupExists);
        },
        None => {},
    }
    match fs.get(source) {
        Some(_) => {},
        None => {
            return Err(OpError::MissingSource);
        },
    }
    fs.insert(bak, node);
    fs.insert(installed.clone(), FsNode::Link { target: source.clone() });
    Ok(())
}

/// The copy handler: renames the installed copy to its backup path as the
/// link handler does, then snapshots the source project's contents where
/// the copy was.  Not idempotent for the same reason.
pub fn apply_copy(fs: &mut FsModel, installed: &String, source: &String) -> (r: Result<
    (),
    OpError,
>)
    ensures
        link_ok(old(fs)@, installed@, source@) ==> r is Ok && final(fs)@ == copy_effect(
            old(fs)@,
            installed@,
            source@,
        ),
        !link_ok(old(fs)@, installed@, source@) ==> r == Err::<(), OpError>(
            link_err(old(fs)@, installed@, source@),
        ) && final(fs)@ == old(fs)@,
{
    let node = match fs.get(installed) {
        Some(n) => n.duplicate(),
        None => {
            return Err(OpError::MissingInstalled);
        },
    };
    let bak = backup_path(installed.as_str());
    match fs.get(&bak) {
        Some(_) => {
            return Err(OpError::BackupExists);
        },
        None => {},
    }
    let snapshot = match fs.get(source) {
        Some(n) => n.duplicate(),
        None => {
            return Err(OpError::MissingSource);
        },
    };
    fs.insert(bak, node);
    fs.insert(installed.clone(), snapshot);
    Ok(())
}

/// The unlink handler: removes the symbolic link a link run placed and
/// renames the displaced original back.  Fails when the edge was never
/// linked.
pub fn apply_unlink(fs: &mut FsModel, installed: &String) -> (r: Result<(), OpError>)
    ensures
        unlink_ok(old(fs)@, installed@) ==> r is Ok && final(fs)@ == unlink_effect(
            old(fs)@,
            installed@,
        ),
        !unlink_ok(old(fs)@, installed@) ==> r == Err::<(), OpError>(
            unlink_err(old(fs)@, installed@),
        ) && final(fs)@ == old(fs)@,
{
    match fs.get(installed) {
        Some(n) => match n {
            FsNode::Link { .. } => {},
            _ => {
                return Err(OpError::NotALink);
            },
        },
        None => {
            return Err(OpError::NotALink);
        },
    }
    let bak = backup_path(installed.as_str());
    let restored = match fs.get(&bak) {
        Some(n) => n.duplicate(),
        None => {
            return Err(OpError::MissingBackup);
        },
    };
    let ghost m0 = fs@;
    fs.remove(installed);
    fs.insert(installed.clone(), restored);
    fs.remove(&bak);
    proof {
        assert(fs@ =~= unlink_effect(m0, installed@));
    }
    Ok(())
}

/// The backup path is longer than the path itself, so the two never
/// collide.
pub proof fn lemma_backup_distinct(p: Seq<char>)
    ensures
        backup_of(p) != p,
{
    reveal_strlit("_orig");
    assert(crate::paths::backup_suffix().len() == 5);
    assert(backup_of(p).len() == p.len() + 5);
}

/// Link followed by Unlink on the same edge restores the filesystem to
/// exactly its pre-Link state: whenever a link of `inst` from `src` goes
/// through, the unlink of `inst` goes through afterwards and hands back
/// the very map the link started from.
pub proof fn lemma_link_then_unlink(m: Map<Seq<char>, FsNodeView>, inst: Seq<char>, src: Seq<char>)
    requires
        link_ok(m, inst, src),
    ensures
        unlink_ok(link_effect(m, inst, src), inst),
        unlink_effect(link_effect(m, inst, src), inst) == m,
{
    lemma_backup_distinct(inst);
    let le = link_effect(m, inst, src);
    assert(le[inst] is Link);
    assert(le[backup_of(inst)] == m[inst]);
    assert(unlink_effect(le, inst) =~= m);
}

/// A second Link on the same edge without an intervening Unlink fails, and
/// fails because the backup path is already taken; the filesystem map the
/// first link produced admits no second displacement.
pub proof fn lemma_link_twice_fails(
    m: Map<Seq<char>, FsNodeView>,
    inst: Seq<char>,
    src: Seq<char>,
    src2: Seq<char>,
)
    requires
        link_ok(m, inst, src),
    ensures
        !link_ok(link_effect(m, inst, src), inst, src2),
        link_err(link_effect(m, inst, src), inst, src2) == OpError::BackupExists,
{
    lemma_backup_distinct(inst);
    let le = link_effect(m, inst, src);
    assert(le.contains_key(inst));
    assert(le.contains_key(backup_of(inst)));
}

} // verus!
