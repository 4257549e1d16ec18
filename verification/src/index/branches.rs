//! Switching branches: what happens to the live index, and which snapshots are kept.

use crate::index::history::positive_setting;
use crate::index::layout::{
    current_branch_key, current_branch_name, head_commit_of, key_of_head, name_of_head,
    resolve_git_head_commit, BranchMeta, BranchMetaView, RefFiles,
};
use crate::index::registry::{
    branch_recorded, is_one_of, upsert_branch, BranchEntryView, RegistryV2, TempRoots,
};
use crate::order::{
    is_weak_order, lemma_ranked_in_order, lemma_ranked_multiset, ranked, sorted, Ranked,
};
use crate::text::{
    contains_text, has_text, holds_text, opt_text, parse_unsigned, same_text, trim, trimmed, views,
};
use crate::types::IndexMeta;
use vstd::prelude::*;

verus! {

/// What became of the live index when the branch was compared.
#[derive(Debug, Clone)]
pub enum BranchSwitchAction {
    /// No branch is recorded for the live index yet.
    FirstBuild,
    /// The live index belongs to the branch that is checked out.
    Unchanged { branch_key: String },
    /// The snapshot of the branch that is checked out took the place of the live index.
    Restored { from_branch_key: String, to_branch_key: String },
    /// The branch that is checked out has no snapshot; the live index stays, and the branch that
    /// was left has a snapshot.
    SnapshottedOutgoing { from_branch_key: String, to_branch_key: String },
}

/// What a [`BranchSwitchAction`] says.
pub enum SwitchView {
    FirstBuild,
    Unchanged(Seq<char>),
    Restored(Seq<char>, Seq<char>),
    SnapshottedOutgoing(Seq<char>, Seq<char>),
}

impl View for BranchSwitchAction {
    type V = SwitchView;

    open spec fn view(&self) -> SwitchView {
        match self {
            BranchSwitchAction::FirstBuild => SwitchView::FirstBuild,
            BranchSwitchAction::Unchanged { branch_key } => SwitchView::Unchanged(branch_key@),
            BranchSwitchAction::Restored { from_branch_key, to_branch_key } => SwitchView::Restored(
                from_branch_key@,
                to_branch_key@,
            ),
            BranchSwitchAction::SnapshottedOutgoing { from_branch_key, to_branch_key } =>
                SwitchView::SnapshottedOutgoing(from_branch_key@, to_branch_key@),
        }
    }
}

impl BranchSwitchAction {
    /// Whether the branch has changed, so that a build is owed.
    pub fn switched(&self) -> (r: bool)
        ensures
            r == (self@ is Restored || self@ is SnapshottedOutgoing),
    {
        match self {
            BranchSwitchAction::Restored { .. } => true,
            BranchSwitchAction::SnapshottedOutgoing { .. } => true,
            _ => false,
        }
    }
}

/// Whether the live index belongs to another branch than the one that is checked out. With no
/// branch recorded there is nothing to switch from.
pub fn branch_switch_pending(root_meta: &Option<BranchMeta>, current_key: &str) -> (r: bool)
    ensures
        r == is_pending(opt_meta(*root_meta), current_key@),
{
    match root_meta {
        Some(m) => !same_text(&m.branch_key, current_key),
        None => false,
    }
}

/// What is to be done to the files of the index.
#[derive(Debug, Clone, Copy, PartialEq, Eq, Structural)]
pub enum SwitchWork {
    Nothing,
    /// The snapshot of the new branch takes the place of the live index.
    RestoreSnapshot,
    /// The live index is copied into the snapshot of the branch that was left.
    MirrorOutgoing,
    /// The snapshot of the branch that was left is already that of its commit.
    KeepOutgoing,
}

/// What is known, with the lock of the index held, when the branch is compared.
#[derive(Debug, Clone)]
pub struct SwitchFacts {
    /// The key of the branch that is checked out.
    pub new_key: String,
    /// The branch that the live index belongs to.
    pub root_meta: Option<BranchMeta>,
    /// Whether the new branch has a snapshot.
    pub new_snapshot: bool,
    /// Whether the branch of the live index has a snapshot.
    pub outgoing_snapshot: bool,
    /// The branch that this snapshot belongs to.
    pub outgoing_meta: Option<BranchMeta>,
}

/// The snapshot of the branch that was left was taken at the commit of the live index.
pub open spec fn outgoing_current(
    root: BranchMetaView,
    outgoing_snapshot: bool,
    outgoing: Option<BranchMetaView>,
) -> bool {
    root.head_commit is Some && outgoing_snapshot && outgoing is Some && outgoing->0.head_commit
        == root.head_commit
}

/// The view of optional metadata.
pub open spec fn opt_meta(o: Option<BranchMeta>) -> Option<BranchMetaView> {
    match o {
        Some(m) => Some(m@),
        None => None,
    }
}

/// What is done when the branch is compared, and what is reported.
pub open spec fn switch_of(
    new_key: Seq<char>,
    root: Option<BranchMetaView>,
    new_snapshot: bool,
    outgoing_snapshot: bool,
    outgoing: Option<BranchMetaView>,
) -> (SwitchView, SwitchWork) {
    match root {
        None => (SwitchView::FirstBuild, SwitchWork::Nothing),
        Some(m) => if m.branch_key == new_key {
            (SwitchView::Unchanged(new_key), SwitchWork::Nothing)
        } else if new_snapshot {
            (SwitchView::Restored(m.branch_key, new_key), SwitchWork::RestoreSnapshot)
        } else if outgoing_current(m, outgoing_snapshot, outgoing) {
            (SwitchView::SnapshottedOutgoing(m.branch_key, new_key), SwitchWork::KeepOutgoing)
        } else {
            (SwitchView::SnapshottedOutgoing(m.branch_key, new_key), SwitchWork::MirrorOutgoing)
        },
    }
}

/// What is done when the branch is compared, and what is reported: a snapshot of the branch that is
/// checked out is restored; without one, the branch that was left gets a snapshot, unless it has
/// one of the same commit.
pub fn detect_and_handle_branch_switch(facts: &SwitchFacts) -> (r: (BranchSwitchAction, SwitchWork))
    ensures
        (r.0@, r.1) == switch_of(
            facts.new_key@,
            opt_meta(facts.root_meta),
            facts.new_snapshot,
            facts.outgoing_snapshot,
            opt_meta(facts.outgoing_meta),
        ),
{
    let root: &BranchMeta = match &facts.root_meta {
        Some(m) => m,
        None => {
            return (BranchSwitchAction::FirstBuild, SwitchWork::Nothing);
        },
    };
    if same_text(&root.branch_key, &facts.new_key) {
        return (
            BranchSwitchAction::Unchanged { branch_key: facts.new_key.clone() },
            SwitchWork::Nothing,
        );
    }
    let from_branch_key: String = root.branch_key.clone();
    let to_branch_key: String = facts.new_key.clone();
    if facts.new_snapshot {
        return (
            BranchSwitchAction::Restored { from_branch_key, to_branch_key },
            SwitchWork::RestoreSnapshot,
        );
    }
    let same_commit: bool = match (&root.head_commit, &facts.outgoing_meta) {
        (Some(h), Some(m)) => match &m.head_commit {
            Some(s) => same_text(h, s),
            None => false,
        },
        _ => false,
    };
    let work: SwitchWork = if facts.outgoing_snapshot && same_commit {
        SwitchWork::KeepOutgoing
    } else {
        SwitchWork::MirrorOutgoing
    };
    (BranchSwitchAction::SnapshottedOutgoing { from_branch_key, to_branch_key }, work)
}

/// The live index is only replaced when the branch has changed and has a snapshot; a snapshot is
/// only written for the branch that was left, and never over one of the same commit.
pub proof fn lemma_switch_safe(
    new_key: Seq<char>,
    root: Option<BranchMetaView>,
    new_snapshot: bool,
    outgoing_snapshot: bool,
    outgoing: Option<BranchMetaView>,
)
    ensures
        ({
            let (action, work) = switch_of(
                new_key,
                root,
                new_snapshot,
                outgoing_snapshot,
                outgoing,
            );
            &&& work == SwitchWork::RestoreSnapshot ==> new_snapshot && root is Some
                && root->0.branch_key != new_key
            &&& work == SwitchWork::MirrorOutgoing ==> root is Some && root->0.branch_key
                != new_key && !outgoing_current(root->0, outgoing_snapshot, outgoing)
            &&& (action is Restored || action is SnapshottedOutgoing) == (root is Some
                && root->0.branch_key != new_key)
        }),
{
}

/// The most snapshots that are kept, given the setting `SEMANTEX_MAX_BRANCH_INDEXES`: 5 unless it
/// is a positive number.
pub fn max_branch_indexes(setting: Option<&str>) -> (r: usize)
    ensures
        r == positive_setting(
            match setting {
                Some(s) => Some(s@),
                None => None,
            },
            5,
        ),
{
    match setting {
        Some(s) => match parse_unsigned(&trim(s), usize::MAX as u64) {
            Some(n) => if n > 0 {
                n as usize
            } else {
                5
            },
            None => 5,
        },
        None => 5,
    }
}

/// A directory among the snapshots, and when it was last written.
#[derive(Debug, Clone)]
pub struct SnapshotEntry {
    pub name: String,
    /// When its metadata was written; a greater number is later.
    pub modified: i128,
}

/// What a [`SnapshotEntry`] holds.
pub struct SnapshotView {
    pub name: Seq<char>,
    pub modified: int,
}

impl View for SnapshotEntry {
    type V = SnapshotView;

    open spec fn view(&self) -> SnapshotView {
        SnapshotView { name: self.name@, modified: self.modified as int }
    }
}

impl Ranked for SnapshotEntry {
    /// The later one first.
    open spec fn before(a: SnapshotView, b: SnapshotView) -> bool {
        a.modified > b.modified
    }

    fn goes_before(&self, other: &Self) -> (r: bool) {
        self.modified > other.modified
    }
}

/// The directories that are snapshots, not snapshots in the making.
pub open spec fn snapshots_of(entries: Seq<SnapshotView>) -> Seq<SnapshotView>
    decreases entries.len(),
{
    if entries.len() == 0 {
        entries
    } else if has_text(entries.last().name, ".tmp-"@) {
        snapshots_of(entries.drop_last())
    } else {
        snapshots_of(entries.drop_last()).push(entries.last())
    }
}

/// The names that are kept: the current one, and the first others until there are `cap`.
pub open spec fn kept_names(s: Seq<SnapshotView>, current: Seq<char>, cap: nat) -> Seq<Seq<char>>
    decreases s.len(),
{
    if s.len() == 0 {
        seq![current]
    } else {
        let k = kept_names(s.drop_last(), current, cap);
        if k.len() >= cap || k.contains(s.last().name) {
            k
        } else {
            k.push(s.last().name)
        }
    }
}

/// The names of `s` that are not in `kept`, in their order.
pub open spec fn names_outside(s: Seq<SnapshotView>, kept: Seq<Seq<char>>) -> Seq<Seq<char>>
    decreases s.len(),
{
    if s.len() == 0 {
        Seq::empty()
    } else if kept.contains(s.last().name) {
        names_outside(s.drop_last(), kept)
    } else {
        names_outside(s.drop_last(), kept).push(s.last().name)
    }
}

/// The snapshots that are removed, the latest first: none while there are at most `cap`; else all
/// but the current one and the latest others, `cap` together.
pub open spec fn evicted_of(entries: Seq<SnapshotView>, current: Seq<char>, cap: nat) -> Seq<
    Seq<char>,
> {
    let s = snapshots_of(entries);
    if s.len() <= cap {
        Seq::empty()
    } else {
        let r = ranked::<SnapshotEntry>(s);
        names_outside(r, kept_names(r, current, cap))
    }
}

/// The snapshots that are removed so that at most `cap` are kept, among them the current one.
pub fn enforce_retention_with_cap(
    entries: Vec<SnapshotEntry>,
    current_branch_key: &str,
    cap: usize,
) -> (r: Vec<String>)
    ensures
        views(r@) == evicted_of(views(entries@), current_branch_key@, cap as nat),
{
    let ghost all = views(entries@);
    let mut candidates: Vec<SnapshotEntry> = Vec::new();
    proof {
        assert(views(candidates@) =~= snapshots_of(all.take(0)));
    }
    for e in it: entries
        invariant
            it.seq() == entries@,
            all == views(entries@),
            views(candidates@) == snapshots_of(all.take(it.index())),
    {
        let ghost shown = views(candidates@);
        let ghost ev = e@;
        proof {
            assert(all.take(it.index() + 1).drop_last() =~= all.take(it.index()));
            assert(all.take(it.index() + 1).last() == ev);
        }
        if !contains_text(&e.name, ".tmp-") {
            candidates.push(e);
            proof {
                assert(views(candidates@) =~= shown.push(ev));
            }
        }
    }
    proof {
        assert(all.take(all.len() as int) =~= all);
    }
    let mut evicted: Vec<String> = Vec::new();
    proof {
        assert(views(evicted@) =~= Seq::<Seq<char>>::empty());
    }
    if candidates.len() <= cap {
        return evicted;
    }
    let order: Vec<SnapshotEntry> = sorted(candidates);
    let ghost s = views(order@);
    let mut keep: Vec<String> = Vec::new();
    keep.push(current_branch_key.to_owned());
    let mut i: usize = 0;
    proof {
        assert(views(keep@) =~= kept_names(s.take(0), current_branch_key@, cap as nat));
    }
    while i < order.len()
        invariant
            i <= order@.len(),
            s == views(order@),
            views(keep@) == kept_names(s.take(i as int), current_branch_key@, cap as nat),
        decreases order@.len() - i,
    {
        let ghost shown = views(keep@);
        proof {
            assert(s.take(i + 1).drop_last() =~= s.take(i as int));
            assert(s.take(i + 1).last() == order@[i as int]@);
        }
        if keep.len() < cap && !holds_text(&keep, &order[i].name) {
            keep.push(order[i].name.clone());
            proof {
                assert(views(keep@) =~= shown.push(order@[i as int]@.name));
            }
        }
        i = i + 1;
    }
    proof {
        assert(s.take(i as int) =~= s);
    }
    let ghost kept = views(keep@);
    let mut j: usize = 0;
    while j < order.len()
        invariant
            j <= order@.len(),
            s == views(order@),
            kept == views(keep@),
            views(evicted@) == names_outside(s.take(j as int), kept),
        decreases order@.len() - j,
    {
        let ghost shown = views(evicted@);
        proof {
            assert(s.take(j + 1).drop_last() =~= s.take(j as int));
            assert(s.take(j + 1).last() == order@[j as int]@);
        }
        if !holds_text(&keep, &order[j].name) {
            evicted.push(order[j].name.clone());
            proof {
                assert(views(evicted@) =~= shown.push(order@[j as int]@.name));
            }
        }
        j = j + 1;
    }
    proof {
        assert(s.take(j as int) =~= s);
    }
    evicted
}

/// The snapshots that are removed, given the setting `SEMANTEX_MAX_BRANCH_INDEXES`.
pub fn enforce_retention(
    entries: Vec<SnapshotEntry>,
    current_branch_key: &str,
    setting: Option<&str>,
) -> (r: Vec<String>)
    ensures
        views(r@) == evicted_of(
            views(entries@),
            current_branch_key@,
            positive_setting(
                match setting {
                    Some(s) => Some(s@),
                    None => None,
                },
                5,
            ),
        ),
{
    enforce_retention_with_cap(entries, current_branch_key, max_branch_indexes(setting))
}

proof fn lemma_kept_names(s: Seq<SnapshotView>, current: Seq<char>, cap: nat)
    ensures
        ({
            let k = kept_names(s, current, cap);
            &&& k.len() >= 1 && k[0] == current
            &&& k.len() <= cap || k.len() == 1
            &&& forall|x: Seq<char>| #[trigger]
                k.contains(x) ==> x == current || exists|j: int|
                    0 <= j < s.len() && (#[trigger] s[j]).name == x
            &&& forall|i: int|
                0 <= i < s.len() && !k.contains((#[trigger] s[i]).name) ==> kept_names(
                    s.take(i),
                    current,
                    cap,
                ) == k
        }),
    decreases s.len(),
{
    let k = kept_names(s, current, cap);
    if s.len() > 0 {
        let front = s.drop_last();
        let f = kept_names(front, current, cap);
        lemma_kept_names(front, current, cap);
        assert forall|x: Seq<char>| #[trigger] f.contains(x) implies k.contains(x) by {
            let m = choose|m: int| 0 <= m < f.len() && f[m] == x;
            assert(k[m] == x);
        }
        assert forall|x: Seq<char>| #[trigger] k.contains(x) implies x == current || exists|j: int|
            0 <= j < s.len() && (#[trigger] s[j]).name == x by {
            let m = choose|m: int| 0 <= m < k.len() && k[m] == x;
            if m < f.len() {
                assert(f[m] == x);
                assert(f.contains(x));
                if x != current {
                    let j = choose|j: int| 0 <= j < front.len() && (#[trigger] front[j]).name == x;
                    assert(s[j].name == x);
                }
            } else {
                assert(s[s.len() - 1].name == x);
            }
        }
        assert forall|i: int|
            0 <= i < s.len() && !k.contains((#[trigger] s[i]).name) implies kept_names(
            s.take(i),
            current,
            cap,
        ) == k by {
            if i < front.len() {
                assert(front[i] == s[i]);
                assert(!f.contains(front[i].name));
                assert(front.take(i) =~= s.take(i));
                lemma_unkept_full(front, current, cap, i);
            } else {
                assert(s.take(i) =~= front);
                if f.len() < cap && !f.contains(s.last().name) {
                    assert(k[f.len() as int] == s.last().name);
                }
            }
        }
    } else {
        assert(k[0] == current);
    }
}

proof fn lemma_unkept_full(s: Seq<SnapshotView>, current: Seq<char>, cap: nat, i: int)
    requires
        0 <= i < s.len(),
        !kept_names(s, current, cap).contains(s[i].name),
    ensures
        kept_names(s, current, cap).len() >= cap,
    decreases s.len(),
{
    let front = s.drop_last();
    let f = kept_names(front, current, cap);
    let k = kept_names(s, current, cap);
    if f.len() < cap {
        if i < front.len() {
            assert(front[i] == s[i]);
            assert forall|x: Seq<char>| #[trigger] f.contains(x) implies k.contains(x) by {
                let m = choose|m: int| 0 <= m < f.len() && f[m] == x;
                assert(k[m] == x);
            }
            lemma_unkept_full(front, current, cap, i);
        } else if !f.contains(s.last().name) {
            assert(k[f.len() as int] == s.last().name);
        }
    }
}

proof fn lemma_names_outside(s: Seq<SnapshotView>, kept: Seq<Seq<char>>)
    ensures
        forall|x: Seq<char>| #[trigger]
            names_outside(s, kept).contains(x) <==> !kept.contains(x) && exists|j: int|
                0 <= j < s.len() && (#[trigger] s[j]).name == x,
    decreases s.len(),
{
    if s.len() > 0 {
        let front = s.drop_last();
        let o = names_outside(front, kept);
        let r = names_outside(s, kept);
        lemma_names_outside(front, kept);
        assert forall|x: Seq<char>| #[trigger] r.contains(x) <==> !kept.contains(x) && exists|
            j: int,
        |
            0 <= j < s.len() && (#[trigger] s[j]).name == x by {
            if r.contains(x) {
                let m = choose|m: int| 0 <= m < r.len() && r[m] == x;
                if m < o.len() {
                    assert(o[m] == x);
                    assert(o.contains(x));
                    let j = choose|j: int| 0 <= j < front.len() && (#[trigger] front[j]).name == x;
                    assert(s[j].name == x);
                } else {
                    assert(s[s.len() - 1].name == x);
                }
            }
            if !kept.contains(x) && exists|j: int|
                0 <= j < s.len() && (#[trigger] s[j]).name == x {
                let j = choose|j: int| 0 <= j < s.len() && (#[trigger] s[j]).name == x;
                if j < front.len() {
                    assert(front[j].name == x);
                    assert(o.contains(x));
                    let m = choose|m: int| 0 <= m < o.len() && o[m] == x;
                    assert(r[m] == x);
                } else {
                    assert(r[o.len() as int] == x);
                }
            }
        }
    }
}

/// One of the snapshots has that name.
pub open spec fn is_among(s: Seq<SnapshotView>, name: Seq<char>) -> bool {
    exists|j: int| 0 <= j < s.len() && (#[trigger] s[j]).name == name
}

/// What is kept of the first snapshots is kept of all, and nothing more once there are `cap`.
proof fn lemma_kept_grows(s: Seq<SnapshotView>, current: Seq<char>, cap: nat, i: int)
    requires
        0 <= i <= s.len(),
    ensures
        ({
            let early = kept_names(s.take(i), current, cap);
            let k = kept_names(s, current, cap);
            &&& early.len() >= cap ==> early == k
            &&& forall|x: Seq<char>| #[trigger] early.contains(x) ==> k.contains(x)
        }),
    decreases s.len(),
{
    if i == s.len() {
        assert(s.take(i) =~= s);
    } else {
        let front = s.drop_last();
        let early = kept_names(s.take(i), current, cap);
        let f = kept_names(front, current, cap);
        let k = kept_names(s, current, cap);
        assert(front.take(i) =~= s.take(i));
        lemma_kept_grows(front, current, cap, i);
        assert forall|x: Seq<char>| #[trigger] early.contains(x) implies k.contains(x) by {
            assert(f.contains(x));
            let m = choose|m: int| 0 <= m < f.len() && f[m] == x;
            assert(k[m] == x);
        }
    }
}

/// Every one of the first `i` snapshots goes, or is kept, or is the current one.
proof fn lemma_kept_and_gone(s: Seq<SnapshotView>, current: Seq<char>, cap: nat, i: int)
    requires
        0 <= i <= s.len(),
        forall|a: int, b: int|
            0 <= a < b < s.len() ==> (#[trigger] s[a]).name != (#[trigger] s[b]).name,
    ensures
        names_outside(s.take(i), kept_names(s, current, cap)).len() + kept_names(
            s.take(i),
            current,
            cap,
        ).len() + (if is_among(s.take(i), current) {
            1int
        } else {
            0int
        }) == i + 1,
    decreases i,
{
    if i > 0 {
        let k = kept_names(s, current, cap);
        let before = s.take(i - 1);
        let here = s.take(i);
        let early = kept_names(before, current, cap);
        let name = s[i - 1].name;
        assert(here.drop_last() =~= before);
        assert(here.last() == s[i - 1]);
        lemma_kept_and_gone(s, current, cap, i - 1);
        lemma_kept_names(before, current, cap);
        lemma_kept_grows(s, current, cap, i - 1);
        lemma_kept_grows(s, current, cap, i);
        assert(early.contains(current)) by {
            assert(early[0] == current);
        }
        assert(!is_among(before, name)) by {
            if is_among(before, name) {
                let j = choose|j: int| 0 <= j < before.len() && (#[trigger] before[j]).name == name;
                assert(s[j].name == name);
            }
        }
        if name == current {
            assert(here[i - 1].name == current);
            assert(is_among(here, current));
            assert(k.contains(current));
        } else {
            assert(is_among(here, current) == is_among(before, current)) by {
                if is_among(before, current) {
                    let j = choose|j: int|
                        0 <= j < before.len() && (#[trigger] before[j]).name == current;
                    assert(here[j].name == current);
                }
                if is_among(here, current) {
                    let j = choose|j: int|
                        0 <= j < here.len() && (#[trigger] here[j]).name == current;
                    assert(before[j].name == current);
                }
            }
            assert(!early.contains(name));
            if early.len() < cap {
                let now = kept_names(here, current, cap);
                assert(now[early.len() as int] == name);
                assert(now.contains(name));
            }
        }
    } else {
        assert(s.take(0) =~= Seq::empty());
    }
}

/// The snapshot of the current branch is never removed; only snapshots are removed, and none while
/// there are at most `cap`. When some are, at most `cap` names are kept, the current one counted.
/// As long as no two have the same name, every other snapshot that stays is at least as recent as
/// every one that goes, and as many go as there are over the cap: the current branch always has its
/// place, even if it has no snapshot or the cap is 0.
pub proof fn lemma_retention(entries: Seq<SnapshotView>, current: Seq<char>, cap: nat)
    ensures
        ({
            let s = snapshots_of(entries);
            let gone = evicted_of(entries, current, cap);
            let r = ranked::<SnapshotEntry>(s);
            &&& !gone.contains(current)
            &&& s.len() <= cap ==> gone.len() == 0
            &&& forall|x: Seq<char>| #[trigger]
                gone.contains(x) ==> exists|j: int| 0 <= j < r.len() && (#[trigger] r[j]).name == x
            &&& s.len() > cap ==> {
                let kept = kept_names(r, current, cap);
                &&& kept.len() <= cap || kept.len() == 1
                &&& forall|j: int|
                    0 <= j < r.len() ==> (gone.contains((#[trigger] r[j]).name)
                        <==> !kept.contains(r[j].name))
            }
            &&& (forall|i: int, j: int|
                0 <= i < j < r.len() ==> (#[trigger] r[i]).name != (#[trigger] r[j]).name)
                ==> forall|i: int, j: int|
                0 <= i < r.len() && 0 <= j < r.len() && gone.contains((#[trigger] r[i]).name)
                    && !gone.contains((#[trigger] r[j]).name) && r[j].name != current
                    ==> r[j].modified >= r[i].modified
            &&& s.len() > cap && (forall|i: int, j: int|
                0 <= i < j < r.len() ==> (#[trigger] r[i]).name != (#[trigger] r[j]).name)
                ==> gone.len() == s.len() - (if cap == 0 {
                1int
            } else {
                cap as int
            }) + (if is_among(r, current) {
                0int
            } else {
                1int
            })
        }),
{
    let s = snapshots_of(entries);
    let gone = evicted_of(entries, current, cap);
    let r = ranked::<SnapshotEntry>(s);
    if s.len() > cap {
        let kept = kept_names(r, current, cap);
        lemma_kept_names(r, current, cap);
        lemma_names_outside(r, kept);
        assert(kept.contains(current));
        assert(is_weak_order::<SnapshotEntry>());
        lemma_ranked_in_order::<SnapshotEntry>(s);
        if forall|i: int, j: int|
            0 <= i < j < r.len() ==> (#[trigger] r[i]).name != (#[trigger] r[j]).name {
            lemma_ranked_multiset::<SnapshotEntry>(s);
            lemma_kept_and_gone(r, current, cap, r.len() as int);
            assert(r.take(r.len() as int) =~= r);
            if gone.len() > 0 {
                assert(gone.contains(gone[0]));
                let i = choose|i: int| 0 <= i < r.len() && (#[trigger] r[i]).name == gone[0];
                lemma_unkept_full(r, current, cap, i);
            }
            assert forall|i: int, j: int|
                0 <= i < r.len() && 0 <= j < r.len() && gone.contains((#[trigger] r[i]).name)
                    && !gone.contains((#[trigger] r[j]).name) && r[j].name
                    != current implies r[j].modified >= r[i].modified by {
                assert(!kept.contains(r[i].name));
                let early = kept_names(r.take(i), current, cap);
                assert(early == kept);
                lemma_kept_names(r.take(i), current, cap);
                assert(kept.contains(r[j].name));
                let m = choose|m: int|
                    0 <= m < r.take(i).len() && (#[trigger] r.take(i)[m]).name == r[j].name;
                assert(r[m].name == r[j].name);
                assert(m == j);
                assert(!SnapshotEntry::before(r[i], r[j]));
            }
        }
    }
}

/// The fingerprint of the embedder that the live index was built with; empty where its metadata
/// cannot be read.
pub fn root_embedder_fingerprint(meta: &Option<IndexMeta>) -> (r: String)
    ensures
        r@ == (match *meta {
            Some(m) => m.embedder_fingerprint@,
            None => ""@,
        }),
{
    match meta {
        Some(m) => m.embedder_fingerprint.clone(),
        None => "".to_owned(),
    }
}

/// What is known of a project whose branch was just indexed.
#[derive(Debug, Clone)]
pub struct IndexedFacts {
    pub project_root: String,
    /// The content of `HEAD`, if it can be read.
    pub head: Option<String>,
    /// What the git directory holds about the reference that `HEAD` names.
    pub own: RefFiles,
    /// What the git directory that a linked worktree shares holds about it.
    pub common: Option<RefFiles>,
    /// The metadata of the live index.
    pub meta: Option<IndexMeta>,
    /// The present time, in seconds since 1970.
    pub now: i64,
    pub roots: TempRoots,
    pub is_worktree: bool,
}

impl IndexedFacts {
    /// The branch as it is recorded.
    pub open spec fn entry(&self) -> BranchEntryView {
        BranchEntryView {
            branch: name_of_head(opt_text(self.head)),
            branch_key: key_of_head(opt_text(self.head)),
            last_indexed_ts: self.now,
            head_commit: head_commit_of(opt_text(self.head), self.own, self.common),
        }
    }
}

/// Records in the registry that the branch that is checked out was indexed, and says whether the
/// registry is to be written and which snapshots are removed, given the setting
/// `SEMANTEX_MAX_BRANCH_INDEXES`.
pub fn record_branch_indexed(
    registry: &mut RegistryV2,
    facts: &IndexedFacts,
    entries: Vec<SnapshotEntry>,
    setting: Option<&str>,
) -> (r: (bool, Vec<String>))
    ensures
        final(registry)@ == branch_recorded(
            old(registry)@,
            facts.project_root@,
            facts.entry(),
            (match facts.meta {
                Some(m) => m.embedder_fingerprint@,
                None => ""@,
            }),
            facts.roots.all(),
            facts.is_worktree,
        ),
        r.0 == !is_one_of(facts.project_root@, facts.roots.all()),
        views(r.1@) == evicted_of(
            views(entries@),
            key_of_head(opt_text(facts.head)),
            positive_setting(
                match setting {
                    Some(s) => Some(s@),
                    None => None,
                },
                5,
            ),
        ),
{
    let head: Option<&str> = match &facts.head {
        Some(h) => Some(h.as_str()),
        None => None,
    };
    let branch: String = current_branch_name(head);
    let branch_key: String = current_branch_key(head);
    let head_commit: Option<String> = resolve_git_head_commit(head, &facts.own, &facts.common);
    let fingerprint: String = root_embedder_fingerprint(&facts.meta);
    let changed: bool = upsert_branch(
        registry,
        &facts.project_root,
        &branch,
        &branch_key,
        facts.now,
        head_commit,
        &fingerprint,
        &facts.roots,
        facts.is_worktree,
    );
    (changed, enforce_retention(entries, &branch_key, setting))
}

/// What a change of branch leads to: nothing where there is no index or the branch is the same; a
/// branch with a snapshot gets that; and else the branch that was left gets a snapshot, unless it
/// has one of the same commit.
pub proof fn lemma_switch_cases(
    new_key: Seq<char>,
    root: BranchMetaView,
    new_snapshot: bool,
    outgoing_snapshot: bool,
    outgoing: Option<BranchMetaView>,
)
    ensures
        switch_of(new_key, None, new_snapshot, outgoing_snapshot, outgoing) == (
            SwitchView::FirstBuild,
            SwitchWork::Nothing,
        ),
        ({
            let (view, work) = switch_of(
                new_key,
                Some(root),
                new_snapshot,
                outgoing_snapshot,
                outgoing,
            );
            let changed = root.branch_key != new_key;
            &&& work == SwitchWork::Nothing <==> !changed
            &&& work == SwitchWork::RestoreSnapshot <==> changed && new_snapshot
            &&& work == SwitchWork::KeepOutgoing <==> changed && !new_snapshot && outgoing_snapshot
                && (outgoing matches Some(o) && o.head_commit is Some && o.head_commit
                == root.head_commit)
            &&& view == SwitchView::Unchanged(new_key) <==> !changed
            &&& view == SwitchView::Restored(root.branch_key, new_key) <==> changed && new_snapshot
            &&& view == SwitchView::SnapshottedOutgoing(root.branch_key, new_key) <==> changed
                && !new_snapshot
        }),
{
}

/// What counts as a snapshot: every entry but those that are still being written, in their order.
pub proof fn lemma_snapshots_of(entries: Seq<SnapshotView>)
    ensures
        snapshots_of(entries) == entries.filter(|e: SnapshotView| !has_text(e.name, ".tmp-"@)),
    decreases entries.len(),
{
    reveal(Seq::filter);
    if entries.len() > 0 {
        lemma_snapshots_of(entries.drop_last());
    } else {
        assert(snapshots_of(entries) =~= entries.filter(
            |e: SnapshotView| !has_text(e.name, ".tmp-"@),
        ));
    }
}

/// A snapshot goes exactly if its name is not kept; the others go in their order.
pub proof fn lemma_names_in_order(s: Seq<SnapshotView>, kept: Seq<Seq<char>>)
    ensures
        ({
            let out = s.filter(|e: SnapshotView| !kept.contains(e.name));
            let r = names_outside(s, kept);
            &&& r.len() == out.len()
            &&& forall|i: int| 0 <= i < r.len() ==> #[trigger] r[i] == out[i].name
        }),
    decreases s.len(),
{
    reveal(Seq::filter);
    if s.len() > 0 {
        lemma_names_in_order(s.drop_last(), kept);
    }
}

/// The index is that of another branch.
pub open spec fn is_pending(root: Option<BranchMetaView>, key: Seq<char>) -> bool {
    root is Some && root->0.branch_key != key
}

/// A switch is pending exactly if something is done about it, and then the outcome says that the
/// branch was switched, from the one of the index to the new one.
pub proof fn lemma_pending(
    new_key: Seq<char>,
    root: Option<BranchMetaView>,
    new_snapshot: bool,
    outgoing_snapshot: bool,
    outgoing: Option<BranchMetaView>,
)
    ensures
        ({
            let (view, work) = switch_of(new_key, root, new_snapshot, outgoing_snapshot, outgoing);
            &&& is_pending(root, new_key) <==> work != SwitchWork::Nothing
            &&& is_pending(root, new_key) <==> view is Restored || view is SnapshottedOutgoing
            &&& is_pending(root, new_key) ==> view == SwitchView::Restored(
                root->0.branch_key,
                new_key,
            ) || view == SwitchView::SnapshottedOutgoing(root->0.branch_key, new_key)
        }),
{
}

/// What is recorded of a build: the branch that `HEAD` refers to, under its key, the commit that it
/// points to, and the time of the build.
pub proof fn lemma_recorded_branch(f: IndexedFacts, branch: Seq<char>)
    requires
        f.head is Some,
        trimmed(f.head->0@) == "ref: refs/heads/"@ + branch,
    ensures
        f.entry().branch == branch,
        f.entry().branch_key == crate::index::layout::branch_key(branch),
        f.entry().last_indexed_ts == f.now,
        f.own.loose matches Some(h) ==> f.entry().head_commit == Some(trimmed(h@)),
{
    crate::index::layout::lemma_head_branch(branch, f.head->0@);
    reveal_strlit("ref: refs/heads/");
    reveal_strlit("ref: ");
    reveal_strlit("refs/heads/");
    assert("ref: refs/heads/"@ =~= "ref: "@ + "refs/heads/"@);
    let name = "refs/heads/"@ + branch;
    assert(trimmed(f.head->0@) =~= "ref: "@ + name);
    crate::index::layout::lemma_commit_of_ref(f.head->0@, name, f.own, f.common);
}

} // verus!
