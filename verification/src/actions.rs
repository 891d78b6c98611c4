//! Deleting files: the preview, the plan that keeps to the safety rules, and the steps of
//! carrying it out.

use crate::index::PathSet;
use crate::model::{
    entries_view, groups_view, paths_view, size_total, DuplicateGroup, EntryKind, EntryView,
    FileEntry, GroupView,
};
use crate::path::{
    has_parent, joined_all, law_spelled, law_within, lemma_joined_all_id, within, FilePath, PartId,
    PartKind, PartView, PathId, PathPart, PathView,
};
use crate::scanner::{
    descent, law_hidden_are_passed_over, product, FoundView, ListedView, ScanOptions,
};
use crate::text::{
    decimal, decimal_bytes, law_decimal, lemma_decimal_bytes_differ, push_decimal,
    push_decimal_bytes,
};
use vstd::prelude::*;
use vstd::string::*;

verus! {

/// How files are deleted.
#[derive(Clone, Copy, Debug, PartialEq, Eq, Structural)]
pub enum DeleteMode {
    /// Moved into `<root>/.reclaim-trash/`, from where they can be brought back.
    Trash,
    /// Removed for good.
    Permanent,
}

/// The preview of a deletion: the files that are marked, and the space that they take.
pub struct DeletePlan {
    pub targets: Vec<FileEntry>,
    pub reclaimable: u64,
}

/// Entries whose path is in a set.
pub open spec fn listed_in(set: Set<PathId>) -> spec_fn(EntryView) -> bool {
    |e: EntryView| set.contains(e.path.id())
}

proof fn lemma_filter_step(s: Seq<EntryView>, i: int, pred: spec_fn(EntryView) -> bool)
    requires
        0 <= i < s.len(),
    ensures
        s.take(i + 1).filter(pred) == if pred(s[i]) {
            s.take(i).filter(pred).push(s[i])
        } else {
            s.take(i).filter(pred)
        },
{
    reveal(Seq::filter);
    assert(s.take(i + 1).drop_last() =~= s.take(i));
}

proof fn lemma_size_total_grows(s: Seq<EntryView>, i: int)
    requires
        0 <= i <= s.len(),
    ensures
        size_total(s.take(i)) <= size_total(s),
    decreases s.len(),
{
    if i < s.len() {
        lemma_size_total_grows(s.drop_last(), i);
        assert(s.drop_last().take(i) =~= s.take(i));
    } else {
        assert(s.take(i) =~= s);
    }
}

impl DeletePlan {
    /// Collects the entries that are marked.
    pub fn build(marked: &PathSet, entries: &Vec<FileEntry>) -> (plan: DeletePlan)
        requires
            size_total(entries_view(entries@).filter(listed_in(marked@))) <= u64::MAX,
        ensures
            entries_view(plan.targets@) == entries_view(entries@).filter(listed_in(marked@)),
            plan.reclaimable == size_total(entries_view(plan.targets@)),
    {
        let ghost all = entries_view(entries@);
        let ghost pred = listed_in(marked@);
        let mut targets: Vec<FileEntry> = Vec::new();
        assert(entries_view(targets@) =~= all.take(0).filter(pred)) by {
            reveal(Seq::filter);
        }
        for i in 0..entries.len()
            invariant
                all == entries_view(entries@),
                pred == listed_in(marked@),
                entries_view(targets@) == all.take(i as int).filter(pred),
        {
            proof {
                lemma_filter_step(all, i as int, pred);
            }
            if marked.contains(&entries[i].path) {
                targets.push(entries[i].clone());
                assert(entries_view(targets@) =~= all.take(i + 1).filter(pred));
            }
        }
        assert(all.take(all.len() as int) =~= all);
        let ghost chosen = entries_view(targets@);
        let mut reclaimable: u64 = 0;
        for i in 0..targets.len()
            invariant
                chosen == entries_view(targets@),
                size_total(chosen) <= u64::MAX,
                reclaimable == size_total(chosen.take(i as int)),
        {
            proof {
                lemma_size_total_grows(chosen, i + 1);
                assert(chosen.take(i + 1).drop_last() =~= chosen.take(i as int));
            }
            reclaimable = reclaimable + targets[i].size;
        }
        assert(chosen.take(chosen.len() as int) =~= chosen);
        DeletePlan { targets, reclaimable }
    }
}

/// What is really deleted, once the safety rules are applied.
pub struct SafeDeletion {
    /// The files to delete.
    pub targets: Vec<FileEntry>,
    /// Paths that were spared so that each group of duplicates keeps a copy.
    pub kept_for_safety: Vec<FilePath>,
}

/// Whether an entry may be deleted: it is a file, it is marked, and it lies within the root.
pub open spec fn deletable(marked: Set<PathId>, root: PathId) -> spec_fn(EntryView) -> bool {
    |e: EntryView|
        e.kind == EntryKind::File && marked.contains(e.path.id()) && within(e.path.id(), root)
}

/// The paths of entries.
pub open spec fn path_ids(entries: Seq<EntryView>) -> Set<PathId> {
    entries.map_values(|e: EntryView| e.path.id()).to_set()
}

/// Whether a group has several copies and all of them are to be deleted.
pub open spec fn doomed(group: GroupView, to_delete: Set<PathId>) -> bool {
    group.paths.len() >= 2 && forall|i: int|
        0 <= i < group.paths.len() ==> to_delete.contains(#[trigger] group.paths[i].id())
}

/// What is left to delete after each group in turn has been protected: the first copy of a group
/// whose copies would all go is spared.
pub open spec fn protected(to_delete: Set<PathId>, groups: Seq<GroupView>) -> Set<PathId>
    decreases groups.len(),
{
    if groups.len() == 0 {
        to_delete
    } else {
        let left = protected(to_delete, groups.drop_last());
        if doomed(groups.last(), left) {
            left.remove(groups.last().paths[0].id())
        } else {
            left
        }
    }
}

/// The copies that are spared, in the order of their groups.
pub open spec fn spared(to_delete: Set<PathId>, groups: Seq<GroupView>) -> Seq<PathView>
    decreases groups.len(),
{
    if groups.len() == 0 {
        Seq::empty()
    } else {
        let before = spared(to_delete, groups.drop_last());
        if doomed(groups.last(), protected(to_delete, groups.drop_last())) {
            before.push(groups.last().paths[0])
        } else {
            before
        }
    }
}

/// The paths that the safety rules leave to delete.
pub open spec fn safe_paths(
    marked: Set<PathId>,
    entries: Seq<EntryView>,
    dups: Seq<GroupView>,
    root: PathId,
) -> Set<PathId> {
    protected(path_ids(entries.filter(deletable(marked, root))), dups)
}

/// The files whose path is in a set.
pub open spec fn file_listed_in(set: Set<PathId>) -> spec_fn(EntryView) -> bool {
    |e: EntryView| e.kind == EntryKind::File && set.contains(e.path.id())
}

/// The entries that the safety rules leave to delete.
pub open spec fn safe_targets(
    marked: Set<PathId>,
    entries: Seq<EntryView>,
    dups: Seq<GroupView>,
    root: PathId,
) -> Seq<EntryView> {
    entries.filter(file_listed_in(safe_paths(marked, entries, dups, root)))
}

fn is_doomed(group: &DuplicateGroup, to_delete: &PathSet) -> (r: bool)
    ensures
        r == doomed(group@, to_delete@),
{
    if group.paths.len() < 2 {
        return false;
    }
    for i in 0..group.paths.len()
        invariant
            forall|j: int| 0 <= j < i ==> to_delete@.contains(#[trigger] group@.paths[j].id()),
    {
        if !to_delete.contains(&group.paths[i]) {
            assert(!to_delete@.contains(group@.paths[i as int].id()));
            return false;
        }
    }
    true
}

/// Applies every safety rule to what is marked. Nothing is written.
///
/// Only files within `root` are deleted, no directories and nothing outside. Of a group of
/// duplicates that is marked as a whole the first copy is kept.
pub fn plan_safe_deletion(
    marked: &PathSet,
    entries: &Vec<FileEntry>,
    dups: &Vec<DuplicateGroup>,
    root: &FilePath,
) -> (safe: SafeDeletion)
    ensures
        entries_view(safe.targets@) == safe_targets(
            marked@,
            entries_view(entries@),
            groups_view(dups@),
            root@.id(),
        ),
        paths_view(safe.kept_for_safety@) == spared(
            path_ids(entries_view(entries@).filter(deletable(marked@, root@.id()))),
            groups_view(dups@),
        ),
{
    let ghost all = entries_view(entries@);
    let ghost may = deletable(marked@, root@.id());
    let mut to_delete = PathSet::new();
    assert(to_delete@ =~= path_ids(all.take(0).filter(may))) by {
        reveal(Seq::filter);
        assert(all.take(0).filter(may) =~= Seq::<EntryView>::empty());
    }
    for i in 0..entries.len()
        invariant
            all == entries_view(entries@),
            may == deletable(marked@, root@.id()),
            to_delete@ == path_ids(all.take(i as int).filter(may)),
    {
        let entry = &entries[i];
        proof {
            lemma_filter_step(all, i as int, may);
        }
        if entry.kind == EntryKind::File && marked.contains(&entry.path) && entry.path.starts_with(
            root,
        ) {
            to_delete.insert(entry.path.clone());
            proof {
                let before = all.take(i as int).filter(may);
                let ids = |e: EntryView| e.path.id();
                before.map_values(ids).lemma_push_to_set_commute(all[i as int].path.id());
                assert(before.push(all[i as int]).map_values(ids) =~= before.map_values(ids).push(
                    all[i as int].path.id(),
                ));
            }
        }
    }
    assert(all.take(all.len() as int) =~= all);

    let ghost start = to_delete@;
    let ghost groups = groups_view(dups@);
    let mut kept_for_safety: Vec<FilePath> = Vec::new();
    assert(paths_view(kept_for_safety@) =~= spared(start, groups.take(0)));
    for i in 0..dups.len()
        invariant
            groups == groups_view(dups@),
            to_delete@ == protected(start, groups.take(i as int)),
            paths_view(kept_for_safety@) == spared(start, groups.take(i as int)),
    {
        assert(groups.take(i + 1).drop_last() =~= groups.take(i as int));
        if is_doomed(&dups[i], &to_delete) {
            let keep = &dups[i].paths[0];
            to_delete.remove(keep);
            kept_for_safety.push(keep.clone());
            assert(paths_view(kept_for_safety@) =~= spared(start, groups.take(i + 1)));
        }
    }
    assert(groups.take(groups.len() as int) =~= groups);

    let ghost pred = file_listed_in(to_delete@);
    let mut targets: Vec<FileEntry> = Vec::new();
    assert(entries_view(targets@) =~= all.take(0).filter(pred)) by {
        reveal(Seq::filter);
    }
    for i in 0..entries.len()
        invariant
            all == entries_view(entries@),
            pred == file_listed_in(to_delete@),
            entries_view(targets@) == all.take(i as int).filter(pred),
    {
        proof {
            lemma_filter_step(all, i as int, pred);
        }
        if entries[i].kind == EntryKind::File && to_delete.contains(&entries[i].path) {
            targets.push(entries[i].clone());
            assert(entries_view(targets@) =~= all.take(i + 1).filter(pred));
        }
    }
    SafeDeletion { targets, kept_for_safety }
}

/// What is deleted is among the entries, is a file, is marked and lies within the root.
pub proof fn law_targets_are_deletable(
    marked: Set<PathId>,
    entries: Seq<EntryView>,
    dups: Seq<GroupView>,
    root: PathId,
    target: EntryView,
)
    requires
        safe_targets(marked, entries, dups, root).contains(target),
    ensures
        entries.contains(target),
        target.kind == EntryKind::File,
        marked.contains(target.path.id()),
        within(target.path.id(), root),
{
    let start = path_ids(entries.filter(deletable(marked, root)));
    lemma_filter_holds(entries, file_listed_in(safe_paths(marked, entries, dups, root)), target);
    lemma_protected_shrinks(start, dups, 0);
    lemma_path_ids_deletable(marked, entries, root, target.path.id());
}

/// What is deleted was in the preview.
pub proof fn law_targets_were_previewed(
    marked: Set<PathId>,
    entries: Seq<EntryView>,
    dups: Seq<GroupView>,
    root: PathId,
    target: EntryView,
)
    requires
        safe_targets(marked, entries, dups, root).contains(target),
    ensures
        entries.filter(listed_in(marked)).contains(target),
{
    law_targets_are_deletable(marked, entries, dups, root, target);
    lemma_filter_keeps(entries, listed_in(marked), target);
}

/// Of each group of several copies at least one copy is not deleted.
pub proof fn law_group_keeps_a_copy(
    marked: Set<PathId>,
    entries: Seq<EntryView>,
    dups: Seq<GroupView>,
    root: PathId,
    g: int,
)
    requires
        0 <= g < dups.len(),
        dups[g].paths.len() >= 2,
    ensures
        exists|k: int|
            0 <= k < dups[g].paths.len() && forall|target: EntryView| #[trigger]
                safe_targets(marked, entries, dups, root).contains(target) ==> target.path.id()
                    != (#[trigger] dups[g].paths[k]).id(),
{
    let start = path_ids(entries.filter(deletable(marked, root)));
    let safe = protected(start, dups);
    let left = protected(start, dups.take(g));
    let group = dups[g];
    assert(dups.take(g + 1).drop_last() =~= dups.take(g));
    let k = if doomed(group, left) {
        0
    } else {
        choose|k: int| 0 <= k < group.paths.len() && !left.contains(#[trigger] group.paths[k].id())
    };
    assert(!protected(start, dups.take(g + 1)).contains(group.paths[k].id()));
    lemma_protected_shrinks(start, dups, g + 1);
    assert forall|target: EntryView| #[trigger]
        safe_targets(marked, entries, dups, root).contains(target) implies target.path.id()
        != group.paths[k].id() by {
        lemma_filter_holds(entries, file_listed_in(safe), target);
    }
}

/// A marked file within the root is deleted unless its path is one of those spared.
pub proof fn law_unspared_are_targets(
    marked: Set<PathId>,
    entries: Seq<EntryView>,
    dups: Seq<GroupView>,
    root: PathId,
    entry: EntryView,
)
    requires
        entries.contains(entry),
        deletable(marked, root)(entry),
        forall|i: int|
            0 <= i < spared(path_ids(entries.filter(deletable(marked, root))), dups).len()
                ==> entry.path.id() != (#[trigger] spared(
                path_ids(entries.filter(deletable(marked, root))),
                dups,
            )[i]).id(),
    ensures
        safe_targets(marked, entries, dups, root).contains(entry),
{
    let may = deletable(marked, root);
    let start = path_ids(entries.filter(may));
    lemma_filter_keeps(entries, may, entry);
    let ids = entries.filter(may).map_values(|e: EntryView| e.path.id());
    let i = choose|i: int| 0 <= i < entries.filter(may).len() && entries.filter(may)[i] == entry;
    assert(ids[i] == entry.path.id());
    assert(start.contains(entry.path.id()));
    lemma_protected_loses_spared(start, dups, entry.path.id());
    lemma_filter_keeps(entries, file_listed_in(protected(start, dups)), entry);
}

/// What is spared is not deleted, and is spared only where a whole group would have gone.
pub proof fn law_spared_are_kept(
    marked: Set<PathId>,
    entries: Seq<EntryView>,
    dups: Seq<GroupView>,
    root: PathId,
    i: int,
)
    requires
        0 <= i < spared(path_ids(entries.filter(deletable(marked, root))), dups).len(),
    ensures
        !safe_paths(marked, entries, dups, root).contains(
            spared(path_ids(entries.filter(deletable(marked, root))), dups)[i].id(),
        ),
        exists|g: int|
            0 <= g < dups.len() && doomed(
                #[trigger] dups[g],
                path_ids(entries.filter(deletable(marked, root))),
            ) && dups[g].paths[0] == spared(
                path_ids(entries.filter(deletable(marked, root))),
                dups,
            )[i],
{
    lemma_spared_kept(path_ids(entries.filter(deletable(marked, root))), dups, i);
}

proof fn lemma_filter_keeps(s: Seq<EntryView>, pred: spec_fn(EntryView) -> bool, e: EntryView)
    requires
        s.contains(e),
        pred(e),
    ensures
        s.filter(pred).contains(e),
    decreases s.len(),
{
    reveal(Seq::filter);
    let i = choose|i: int| 0 <= i < s.len() && s[i] == e;
    let rest = s.drop_last();
    if i < s.len() - 1 {
        assert(rest[i] == e);
        lemma_filter_keeps(rest, pred, e);
        let k = choose|k: int| 0 <= k < rest.filter(pred).len() && rest.filter(pred)[k] == e;
        assert(s.filter(pred)[k] == e);
    } else {
        assert(s.filter(pred).last() == e);
    }
}

proof fn lemma_filter_holds(s: Seq<EntryView>, pred: spec_fn(EntryView) -> bool, e: EntryView)
    requires
        s.filter(pred).contains(e),
    ensures
        s.contains(e),
        pred(e),
    decreases s.len(),
{
    reveal(Seq::filter);
    let kept = s.filter(pred);
    let k = choose|k: int| 0 <= k < kept.len() && kept[k] == e;
    if s.len() > 0 {
        let rest = s.drop_last();
        if pred(s.last()) && k == kept.len() - 1 {
            assert(s[s.len() - 1] == e);
        } else {
            assert(rest.filter(pred)[k] == e);
            lemma_filter_holds(rest, pred, e);
            let i = choose|i: int| 0 <= i < rest.len() && rest[i] == e;
            assert(s[i] == e);
        }
    }
}

proof fn lemma_path_ids_deletable(
    marked: Set<PathId>,
    entries: Seq<EntryView>,
    root: PathId,
    id: PathId,
)
    requires
        path_ids(entries.filter(deletable(marked, root))).contains(id),
    ensures
        marked.contains(id),
        within(id, root),
{
    let may = deletable(marked, root);
    let kept = entries.filter(may);
    let ids = kept.map_values(|e: EntryView| e.path.id());
    let i = choose|i: int| 0 <= i < ids.len() && ids[i] == id;
    assert(kept.contains(kept[i]));
    lemma_filter_holds(entries, may, kept[i]);
}

proof fn lemma_protected_shrinks(start: Set<PathId>, groups: Seq<GroupView>, n: int)
    requires
        0 <= n <= groups.len(),
    ensures
        protected(start, groups).subset_of(protected(start, groups.take(n))),
    decreases groups.len() - n,
{
    if n < groups.len() {
        lemma_protected_shrinks(start, groups, n + 1);
        assert(groups.take(n + 1).drop_last() =~= groups.take(n));
    } else {
        assert(groups.take(n) =~= groups);
    }
}

proof fn lemma_protected_loses_spared(start: Set<PathId>, groups: Seq<GroupView>, id: PathId)
    requires
        start.contains(id),
        forall|i: int|
            0 <= i < spared(start, groups).len() ==> id != (#[trigger] spared(
                start,
                groups,
            )[i]).id(),
    ensures
        protected(start, groups).contains(id),
    decreases groups.len(),
{
    if groups.len() > 0 {
        let before = spared(start, groups.drop_last());
        assert forall|i: int| 0 <= i < before.len() implies id != (#[trigger] before[i]).id() by {
            assert(spared(start, groups)[i] == before[i]);
        }
        lemma_protected_loses_spared(start, groups.drop_last(), id);
        if doomed(groups.last(), protected(start, groups.drop_last())) {
            assert(spared(start, groups)[before.len() as int] == groups.last().paths[0]);
        }
    }
}

proof fn lemma_spared_kept(start: Set<PathId>, groups: Seq<GroupView>, i: int)
    requires
        0 <= i < spared(start, groups).len(),
    ensures
        !protected(start, groups).contains(spared(start, groups)[i].id()),
        exists|g: int|
            0 <= g < groups.len() && doomed(#[trigger] groups[g], start) && groups[g].paths[0]
                == spared(start, groups)[i],
    decreases groups.len(),
{
    let short = groups.drop_last();
    let before = spared(start, short);
    if i < before.len() {
        lemma_spared_kept(start, short, i);
        assert(spared(start, groups)[i] == before[i]);
        let g = choose|g: int|
            0 <= g < short.len() && doomed(#[trigger] short[g], start) && short[g].paths[0]
                == before[i];
        assert(groups[g] == short[g]);
    } else {
        let g = groups.len() - 1;
        lemma_protected_shrinks(start, short, 0);
        assert(short.take(0) =~= Seq::<GroupView>::empty());
        assert(doomed(groups[g], start));
    }
}

/// The result of a deletion.
#[derive(Debug)]
pub struct DeleteOutcome {
    pub deleted: Vec<FilePath>,
    pub freed: u64,
    /// What could not be deleted, with the reason.
    pub failed: Vec<(FilePath, String)>,
}

/// What the result of a deletion says.
pub struct OutcomeView {
    pub deleted: Seq<PathView>,
    pub freed: nat,
    pub failed: Seq<(PathView, Seq<char>)>,
}

/// What a list of failures says.
pub open spec fn failures_view(failed: Seq<(FilePath, String)>) -> Seq<(PathView, Seq<char>)> {
    failed.map_values(|f: (FilePath, String)| (f.0@, f.1@))
}

impl View for DeleteOutcome {
    type V = OutcomeView;

    open spec fn view(&self) -> OutcomeView {
        OutcomeView {
            deleted: paths_view(self.deleted@),
            freed: self.freed as nat,
            failed: failures_view(self.failed@),
        }
    }
}

impl OutcomeView {
    /// The result of a deletion that has not begun.
    pub open spec fn nothing() -> OutcomeView {
        OutcomeView { deleted: Seq::empty(), freed: 0, failed: Seq::empty() }
    }

    /// The result with one more file deleted.
    pub open spec fn with_deleted(self, target: EntryView) -> OutcomeView {
        OutcomeView {
            deleted: self.deleted.push(target.path),
            freed: self.freed + target.size as nat,
            failed: self.failed,
        }
    }

    /// The result with one more failure.
    pub open spec fn with_failed(self, target: EntryView, reason: Seq<char>) -> OutcomeView {
        OutcomeView {
            deleted: self.deleted,
            freed: self.freed,
            failed: self.failed.push((target.path, reason)),
        }
    }
}

/// What has become known of a target whose deletion is under way.
pub enum DeleteEvent {
    /// Nothing yet: it is the target's turn.
    Begin,
    /// A regular file stands at the path.
    Regular,
    /// Something else stands at the path.
    NotRegular,
    /// The path could not be examined, for this reason.
    Unreadable(String),
    /// The file is gone.
    Done,
    /// The file could not be moved or removed, for this reason.
    Refused(String),
}

/// What is known of a target whose deletion is under way.
pub enum EventView {
    Begin,
    Regular,
    NotRegular,
    Unreadable(Seq<char>),
    Done,
    Refused(Seq<char>),
}

impl View for DeleteEvent {
    type V = EventView;

    open spec fn view(&self) -> EventView {
        match self {
            DeleteEvent::Begin => EventView::Begin,
            DeleteEvent::Regular => EventView::Regular,
            DeleteEvent::NotRegular => EventView::NotRegular,
            DeleteEvent::Unreadable(reason) => EventView::Unreadable(reason@),
            DeleteEvent::Done => EventView::Done,
            DeleteEvent::Refused(reason) => EventView::Refused(reason@),
        }
    }
}

/// What to do next with a target.
#[derive(Debug)]
pub enum DeleteAction {
    /// Find out what stands at the path, without following links.
    Examine,
    /// Move the file here, or beside it where this name is taken, making the directories above.
    MoveTo(FilePath),
    /// Remove the file.
    Remove,
    /// Append the deletion to the log, then turn to the next target.
    Log,
    /// Turn to the next target.
    Next,
}

/// What is to be done next with a target.
pub enum ActionView {
    Examine,
    MoveTo(PathView),
    Remove,
    Log,
    Next,
}

impl View for DeleteAction {
    type V = ActionView;

    open spec fn view(&self) -> ActionView {
        match self {
            DeleteAction::Examine => ActionView::Examine,
            DeleteAction::MoveTo(dest) => ActionView::MoveTo(dest@),
            DeleteAction::Remove => ActionView::Remove,
            DeleteAction::Log => ActionView::Log,
            DeleteAction::Next => ActionView::Next,
        }
    }
}

/// The name of the directory that deleted files are moved into.
pub open spec fn trash_name() -> PartId {
    PartId {
        kind: PartKind::Normal,
        name: seq![46u8, 114, 101, 99, 108, 97, 105, 109, 45, 116, 114, 97, 115, 104],
    }
}

/// Where a deleted file goes: into the trash directory of the root, at the same place below it.
pub open spec fn trash_path(path: PathView, root: PathView) -> PathView {
    joined_all(root, seq![trash_name()] + path.id().skip(root.id().len() as int))
}

/// The next step of a deletion, and the result so far.
pub open spec fn delete_step(
    outcome: OutcomeView,
    target: EntryView,
    mode: DeleteMode,
    root: PathView,
    event: EventView,
) -> (OutcomeView, ActionView) {
    match event {
        EventView::Begin => if within(target.path.id(), root.id()) {
            (outcome, ActionView::Examine)
        } else {
            (outcome.with_failed(target, "拒绝：路径在扫描根之外"@), ActionView::Next)
        },
        EventView::Regular => match mode {
            DeleteMode::Trash => (outcome, ActionView::MoveTo(trash_path(target.path, root))),
            DeleteMode::Permanent => (outcome, ActionView::Remove),
        },
        EventView::NotRegular => {
            (outcome.with_failed(target, "拒绝：不是普通文件"@), ActionView::Next)
        },
        EventView::Unreadable(reason) => (outcome.with_failed(target, reason), ActionView::Next),
        EventView::Done => (outcome.with_deleted(target), ActionView::Log),
        EventView::Refused(reason) => (outcome.with_failed(target, reason), ActionView::Next),
    }
}

fn trash_bytes() -> (name: Vec<u8>)
    ensures
        name@ == trash_name().name,
{
    let name: Vec<u8> = vec![46, 114, 101, 99, 108, 97, 105, 109, 45, 116, 114, 97, 115, 104];
    assert(name@ =~= trash_name().name);
    name
}

fn trash_dest(path: &FilePath, root: &FilePath) -> (dest: FilePath)
    requires
        within(path@.id(), root@.id()),
    ensures
        dest@ == trash_path(path@, root@),
{
    let mut dest = root.clone();
    let start = root.parts.len();
    let ghost more = seq![trash_name()] + path@.id().skip(start as int);
    dest.join(PartKind::Normal, trash_bytes());
    proof {
        assert(more.take(1).drop_last() =~= Seq::<PartId>::empty());
        assert(more.take(1).last() == trash_name());
        assert(joined_all(root@, more.take(1).drop_last()) == root@);
    }
    for i in start..path.parts.len()
        invariant
            start == root@.id().len(),
            start <= path.parts@.len(),
            more == seq![trash_name()] + path@.id().skip(start as int),
            dest@ == joined_all(root@, more.take(i - start + 1)),
    {
        let part = path.parts[i].clone();
        proof {
            let k = i - start + 1;
            assert(more.take(k + 1).drop_last() =~= more.take(k));
            assert(more.take(k + 1).last() == path@.id()[i as int]);
            assert(path@.parts[i as int] == path.parts@[i as int]@);
        }
        dest.join(part.kind, part.name);
    }
    assert(more.take(more.len() as int) =~= more);
    dest
}

impl DeleteOutcome {
    /// The result of a deletion that has not begun.
    pub fn new() -> (outcome: DeleteOutcome)
        ensures
            outcome@ == OutcomeView::nothing(),
    {
        let outcome = DeleteOutcome { deleted: Vec::new(), freed: 0, failed: Vec::new() };
        assert(outcome@.deleted =~= OutcomeView::nothing().deleted);
        assert(outcome@.failed =~= OutcomeView::nothing().failed);
        outcome
    }

    fn fail(&mut self, target: &FileEntry, reason: String)
        ensures
            final(self)@ == old(self)@.with_failed(target@, reason@),
    {
        self.failed.push((target.path.clone(), reason));
        assert(self@.failed =~= old(self)@.with_failed(target@, reason@).failed);
    }
}

/// Takes the deletion of one target a step further.
///
/// Each target is handed in with `Begin` first. What the action asks for is done outside, and
/// what came of it is handed in next, until the action turns to the next target. A target
/// outside the root, or one that is no regular file any more, is refused. A failure is noted and
/// does not stop the deletion of the others.
pub fn execute_deletion(
    outcome: &mut DeleteOutcome,
    target: &FileEntry,
    mode: DeleteMode,
    root: &FilePath,
    event: DeleteEvent,
) -> (action: DeleteAction)
    requires
        event is Regular ==> within(target@.path.id(), root@.id()),
        event is Done ==> old(outcome)@.freed + target.size <= u64::MAX,
    ensures
        (final(outcome)@, action@) == delete_step(old(outcome)@, target@, mode, root@, event@),
{
    match event {
        DeleteEvent::Begin => {
            if target.path.starts_with(root) {
                DeleteAction::Examine
            } else {
                outcome.fail(target, "拒绝：路径在扫描根之外".to_string());
                DeleteAction::Next
            }
        },
        DeleteEvent::Regular => match mode {
            DeleteMode::Trash => DeleteAction::MoveTo(trash_dest(&target.path, root)),
            DeleteMode::Permanent => DeleteAction::Remove,
        },
        DeleteEvent::NotRegular => {
            outcome.fail(target, "拒绝：不是普通文件".to_string());
            DeleteAction::Next
        },
        DeleteEvent::Unreadable(reason) => {
            outcome.fail(target, reason);
            DeleteAction::Next
        },
        DeleteEvent::Done => {
            outcome.deleted.push(target.path.clone());
            outcome.freed = outcome.freed + target.size;
            assert(outcome@.deleted =~= old(outcome)@.with_deleted(target@).deleted);
            DeleteAction::Log
        },
        DeleteEvent::Refused(reason) => {
            outcome.fail(target, reason);
            DeleteAction::Next
        },
    }
}

/// What is found when a target is examined, and what comes of trying to delete it.
pub struct Findings {
    pub examined: EventView,
    pub tried: EventView,
}

impl Findings {
    /// Whether each finding answers its question.
    pub open spec fn valid(self) -> bool {
        (self.examined is Regular || self.examined is NotRegular || self.examined is Unreadable)
            && (self.tried is Done || self.tried is Refused)
    }
}

/// The result after one more target has been taken through all of its steps.
pub open spec fn delete_one(
    outcome: OutcomeView,
    target: EntryView,
    mode: DeleteMode,
    root: PathView,
    findings: Findings,
) -> OutcomeView {
    let (begun, first) = delete_step(outcome, target, mode, root, EventView::Begin);
    if first is Examine {
        let (seen, second) = delete_step(begun, target, mode, root, findings.examined);
        if second is MoveTo || second is Remove {
            delete_step(seen, target, mode, root, findings.tried).0
        } else {
            seen
        }
    } else {
        begun
    }
}

/// The result after all targets have been taken through their steps.
pub open spec fn delete_all(
    targets: Seq<EntryView>,
    mode: DeleteMode,
    root: PathView,
    findings: Seq<Findings>,
) -> OutcomeView
    decreases targets.len(),
{
    if targets.len() == 0 {
        OutcomeView::nothing()
    } else {
        delete_one(
            delete_all(targets.drop_last(), mode, root, findings.drop_last()),
            targets.last(),
            mode,
            root,
            findings.last(),
        )
    }
}

/// The targets that were deleted: those within the root that were regular files and that could
/// be moved or removed.
pub open spec fn gone(
    targets: Seq<EntryView>,
    root: PathId,
    findings: Seq<Findings>,
) -> Seq<EntryView>
    decreases targets.len(),
{
    if targets.len() == 0 {
        Seq::empty()
    } else {
        let before = gone(targets.drop_last(), root, findings.drop_last());
        if within(targets.last().path.id(), root) && findings.last().examined is Regular
            && findings.last().tried is Done {
            before.push(targets.last())
        } else {
            before
        }
    }
}

/// The targets that were not deleted.
pub open spec fn left_over(
    targets: Seq<EntryView>,
    root: PathId,
    findings: Seq<Findings>,
) -> Seq<EntryView>
    decreases targets.len(),
{
    if targets.len() == 0 {
        Seq::empty()
    } else {
        let before = left_over(targets.drop_last(), root, findings.drop_last());
        if within(targets.last().path.id(), root) && findings.last().examined is Regular
            && findings.last().tried is Done {
            before
        } else {
            before.push(targets.last())
        }
    }
}

/// Each target ends up either among the deleted or among the failed, in order. The deleted ones
/// are those within the root that were regular files and could be moved or removed, and the space
/// that was freed is theirs.
pub proof fn law_deletion_accounts(
    targets: Seq<EntryView>,
    mode: DeleteMode,
    root: PathView,
    findings: Seq<Findings>,
)
    requires
        findings.len() == targets.len(),
        forall|i: int| 0 <= i < findings.len() ==> (#[trigger] findings[i]).valid(),
    ensures
        delete_all(targets, mode, root, findings).deleted == gone(
            targets,
            root.id(),
            findings,
        ).map_values(|e: EntryView| e.path),
        delete_all(targets, mode, root, findings).freed == size_total(
            gone(targets, root.id(), findings),
        ),
        delete_all(targets, mode, root, findings).failed.map_values(
            |f: (PathView, Seq<char>)| f.0,
        ) == left_over(targets, root.id(), findings).map_values(|e: EntryView| e.path),
        delete_all(targets, mode, root, findings).deleted.len() + delete_all(
            targets,
            mode,
            root,
            findings,
        ).failed.len() == targets.len(),
    decreases targets.len(),
{
    let paths = |e: EntryView| e.path;
    let firsts = |f: (PathView, Seq<char>)| f.0;
    if targets.len() > 0 {
        let before = gone(targets.drop_last(), root.id(), findings.drop_last());
        assert(findings.last().valid());
        assert forall|i: int| 0 <= i < findings.drop_last().len() implies (
        #[trigger] findings.drop_last()[i]).valid() by {
            assert(findings[i].valid());
        }
        law_deletion_accounts(targets.drop_last(), mode, root, findings.drop_last());
        let all = before.push(targets.last());
        assert(all.map_values(paths) =~= before.map_values(paths).push(targets.last().path));
        assert(all.drop_last() =~= before);
        let kept = left_over(targets.drop_last(), root.id(), findings.drop_last());
        assert(kept.push(targets.last()).map_values(paths) =~= kept.map_values(paths).push(
            targets.last().path,
        ));
        let failed = delete_all(
            targets.drop_last(),
            mode,
            root,
            findings.drop_last(),
        ).failed;
        assert forall|reason: Seq<char>|
            (#[trigger] failed.push((targets.last().path, reason))).map_values(firsts)
                == failed.map_values(firsts).push(targets.last().path) by {
            assert(failed.push((targets.last().path, reason)).map_values(firsts)
                =~= failed.map_values(firsts).push(targets.last().path));
        }
    } else {
        assert(gone(targets, root.id(), findings).map_values(paths) =~= Seq::<PathView>::empty());
        assert(OutcomeView::nothing().failed.map_values(firsts) =~= Seq::<PathView>::empty());
        assert(left_over(targets, root.id(), findings).map_values(paths) =~= Seq::<
            PathView,
        >::empty());
    }
}

/// A file is moved or removed only once it was seen to be a regular file. In the trash mode
/// nothing is removed, and a file goes to its own place below the trash directory of the root.
pub proof fn law_only_regular_files_go(
    outcome: OutcomeView,
    target: EntryView,
    mode: DeleteMode,
    root: PathView,
    event: EventView,
)
    ensures
        ({
            let action = delete_step(outcome, target, mode, root, event).1;
            &&& action is MoveTo || action is Remove ==> event is Regular
            &&& action is Remove ==> mode == DeleteMode::Permanent
            &&& action is MoveTo ==> mode == DeleteMode::Trash
            &&& action is MoveTo ==> action->MoveTo_0.id() == root.id() + seq![trash_name()]
                + target.path.id().skip(root.id().len() as int)
        }),
{
    let more = seq![trash_name()] + target.path.id().skip(root.id().len() as int);
    lemma_joined_all_id(root, more);
    assert(root.id() + more =~= root.id() + seq![trash_name()] + target.path.id().skip(
        root.id().len() as int,
    ));
}

/// Every file that is deleted is logged, and nothing else is.
pub proof fn law_deletions_are_logged(
    outcome: OutcomeView,
    target: EntryView,
    mode: DeleteMode,
    root: PathView,
    event: EventView,
)
    ensures
        ({
            let (after, action) = delete_step(outcome, target, mode, root, event);
            action is Log <==> after.deleted.len() > outcome.deleted.len()
        }),
{
}

/// The trash directory is hidden: a scan passes over it unless hidden entries are wanted.
pub proof fn law_trash_is_passed_over(
    dir: PathView,
    options: ScanOptions,
    path: PathView,
    found: FoundView,
)
    requires
        !options.include_hidden,
    ensures
        product(dir, options, ListedView::Found { path, name: trash_name().name, found }) is None,
        descent(options, ListedView::Found { path, name: trash_name().name, found }) is None,
{
    law_hidden_are_passed_over(dir, options, path, trash_name().name, found);
}

/// A target outside the root is refused before anything is done with it.
pub proof fn law_outside_is_refused(
    outcome: OutcomeView,
    target: EntryView,
    mode: DeleteMode,
    root: PathView,
    findings: Findings,
)
    requires
        !within(target.path.id(), root.id()),
    ensures
        delete_one(outcome, target, mode, root, findings) == outcome.with_failed(
            target,
            "拒绝：路径在扫描根之外"@,
        ),
{
}

/// The line that the log gets for a deleted file: the time in seconds, the size and the path.
pub open spec fn log_line(secs: u64, size: u64, path: PathView) -> Seq<char> {
    decimal(secs as nat) + "\t"@ + decimal(size as nat) + "\t"@ + path.text() + "\n"@
}

/// The line that the log gets for a deleted file.
pub fn audit_line(secs: u64, path: &FilePath, size: u64) -> (line: String)
    ensures
        line@ == log_line(secs, size, path@),
{
    let mut line = String::new();
    push_decimal(&mut line, secs);
    line.append("\t");
    push_decimal(&mut line, size);
    line.append("\t");
    line.append(path.display().as_str());
    line.append("\n");
    assert(line@ =~= log_line(secs, size, path@));
    line
}

/// The name of the log.
pub open spec fn log_name() -> PartId {
    PartId {
        kind: PartKind::Normal,
        name: seq![
            114u8, 101, 99, 108, 97, 105, 109, 45, 100, 101, 108, 101, 116, 101, 100, 46, 108, 111,
            103,
        ],
    }
}

/// Where the log of a root stands.
pub fn log_path(root: &FilePath) -> (path: FilePath)
    ensures
        path@ == joined_all(root@, seq![log_name()]),
{
    let name: Vec<u8> = vec![
        114, 101, 99, 108, 97, 105, 109, 45, 100, 101, 108, 101, 116, 101, 100, 46, 108, 111, 103,
    ];
    assert(name@ =~= log_name().name);
    let mut path = root.clone();
    path.join(PartKind::Normal, name);
    proof {
        let more = seq![log_name()];
        assert(more.drop_last() =~= Seq::<PartId>::empty());
        assert(joined_all(root@, more.drop_last()) == root@);
    }
    path
}

/// The `n`-th name for a file: its own, then with `.1`, `.2` and so on behind it.
pub open spec fn numbered(dest: PathView, n: nat) -> PathView {
    if n == 0 {
        dest
    } else {
        let last = dest.parts.last();
        PathView {
            parts: dest.parts.drop_last().push(
                PartView {
                    id: PartId {
                        kind: PartKind::Normal,
                        name: last.id.name + seq![46u8] + decimal_bytes(n),
                    },
                    lead: last.lead,
                },
            ),
            tail: Seq::empty(),
        }
    }
}

/// What is decided of a name for a file.
#[derive(Debug)]
pub enum DestStep {
    /// This name is used.
    Use(FilePath),
    /// Whether this name is taken has to be found out; the number is the name's.
    Probe(FilePath, u32),
    /// Every name is taken: the file stays where it is.
    NoFreeName,
}

/// What is decided of a name.
pub enum DestView {
    Use(PathView),
    Probe(PathView, nat),
    NoFreeName,
}

impl View for DestStep {
    type V = DestView;

    open spec fn view(&self) -> DestView {
        match self {
            DestStep::Use(path) => DestView::Use(path@),
            DestStep::Probe(path, n) => DestView::Probe(path@, *n as nat),
            DestStep::NoFreeName => DestView::NoFreeName,
        }
    }
}

/// What follows once it is known whether the `n`-th name is taken: a free name is used, else the
/// next one is tried, as long as there is a number for it.
pub open spec fn dest_step(dest: PathView, n: nat, taken: bool) -> DestView {
    if !taken {
        DestView::Use(numbered(dest, n))
    } else if n < u32::MAX {
        DestView::Probe(numbered(dest, n + 1), n + 1)
    } else {
        DestView::NoFreeName
    }
}

fn nth_dest(dest: &FilePath, n: u32) -> (path: FilePath)
    requires
        has_parent(dest@.id()),
    ensures
        path@ == numbered(dest@, n as nat),
{
    if n == 0 {
        return dest.clone();
    }
    let count = dest.parts.len();
    let mut path = dest.prefix(count - 1);
    let last = dest.parts[count - 1].clone();
    let mut name = last.name;
    let ghost start = name@;
    name.push(46);
    push_decimal_bytes(&mut name, n as u64);
    assert(name@ =~= start + seq![46u8] + decimal_bytes(n as nat));
    assert(dest@.parts.last() == dest.parts@.last()@);
    path.parts.push(PathPart { kind: PartKind::Normal, name, lead: last.lead });
    assert(path@.parts =~= numbered(dest@, n as nat).parts);
    path
}

/// Picks a name that is not taken. Only a name that was found free is used.
///
/// Begin with the plain name, whose number is 0: `n` is the number of the name that was looked
/// at, and `taken` is what was found.
pub fn unique_dest(dest: &FilePath, n: u32, taken: bool) -> (step: DestStep)
    requires
        has_parent(dest@.id()),
    ensures
        step@ == dest_step(dest@, n as nat, taken),
        step@ matches DestView::Use(path) ==> !taken && path == numbered(dest@, n as nat),
{
    if !taken {
        DestStep::Use(nth_dest(dest, n))
    } else if n < u32::MAX {
        DestStep::Probe(nth_dest(dest, n + 1), n + 1)
    } else {
        DestStep::NoFreeName
    }
}

/// The name that is settled on, when the names in `taken` are taken and the `n`-th is tried next.
pub open spec fn settled(dest: PathView, taken: Set<PathId>, n: nat) -> Option<PathView>
    decreases u32::MAX - n,
{
    match dest_step(dest, n, taken.contains(numbered(dest, n).id())) {
        DestView::Use(path) => Some(path),
        DestView::Probe(path, m) => if n < m <= u32::MAX {
            settled(dest, taken, m)
        } else {
            None
        },
        DestView::NoFreeName => None,
    }
}

/// The name that is settled on is free, and it is the first one that is. There is none only if
/// every name is taken. So no file that is in the trash is ever overwritten.
pub proof fn law_first_free_name(dest: PathView, taken: Set<PathId>)
    ensures
        match settled(dest, taken, 0) {
            Some(path) => !taken.contains(path.id()) && exists|k: nat|
                k <= u32::MAX && path == #[trigger] numbered(dest, k) && (forall|j: nat|
                    j < k ==> taken.contains(#[trigger] numbered(dest, j).id())),
            None => forall|j: nat|
                j <= u32::MAX ==> taken.contains(#[trigger] numbered(dest, j).id()),
        },
{
    lemma_first_free_from(dest, taken, 0);
}

proof fn lemma_first_free_from(dest: PathView, taken: Set<PathId>, n: nat)
    requires
        n <= u32::MAX,
        forall|j: nat| j < n ==> taken.contains(#[trigger] numbered(dest, j).id()),
    ensures
        match settled(dest, taken, n) {
            Some(path) => !taken.contains(path.id()) && exists|k: nat|
                k <= u32::MAX && path == #[trigger] numbered(dest, k) && (forall|j: nat|
                    j < k ==> taken.contains(#[trigger] numbered(dest, j).id())),
            None => forall|j: nat|
                j <= u32::MAX ==> taken.contains(#[trigger] numbered(dest, j).id()),
        },
    decreases u32::MAX - n,
{
    if taken.contains(numbered(dest, n).id()) && n < u32::MAX {
        lemma_first_free_from(dest, taken, n + 1);
    }
}

/// No two of the names that are tried are the same.
pub proof fn law_names_differ(dest: PathView, a: nat, b: nat)
    requires
        has_parent(dest.id()),
        a != b,
    ensures
        numbered(dest, a).id() != numbered(dest, b).id(),
{
    let x = numbered(dest, a).id();
    let y = numbered(dest, b).id();
    let name = dest.parts.last().id.name;
    if x == y {
        assert(x.last().name == y.last().name);
        if a == 0 || b == 0 {
            assert(x.last().name.len() != y.last().name.len());
        } else {
            lemma_decimal_bytes_differ(a, b);
            let stem = name + seq![46u8];
            assert(decimal_bytes(a) =~= x.last().name.skip(stem.len() as int));
            assert(decimal_bytes(b) =~= y.last().name.skip(stem.len() as int));
        }
    }
}

/// The preview takes the entries one by one, in order: one that is marked comes into it, one that is
/// not does not. Its size is that of what is in it.
pub proof fn law_preview(marked: Set<PathId>, entries: Seq<EntryView>, entry: EntryView)
    ensures
        entries.push(entry).filter(listed_in(marked)) == if marked.contains(entry.path.id()) {
            entries.filter(listed_in(marked)).push(entry)
        } else {
            entries.filter(listed_in(marked))
        },
        Seq::<EntryView>::empty().filter(listed_in(marked)).len() == 0,
{
    reveal(Seq::filter);
    assert(entries.push(entry).drop_last() =~= entries);
}

/// Whether an entry is a marked file that lies at or below the root, at any depth.
pub open spec fn marked_file(marked: Set<PathId>, root: PathId, entry: EntryView) -> bool {
    &&& entry.kind == EntryKind::File
    &&& marked.contains(entry.path.id())
    &&& exists|rest: PathId| entry.path.id() == #[trigger] (root + rest)
}

/// Whether a path is that of a marked file within the root.
pub open spec fn path_marked(
    marked: Set<PathId>,
    entries: Seq<EntryView>,
    root: PathId,
    id: PathId,
) -> bool {
    exists|e: EntryView| #[trigger]
        entries.contains(e) && marked_file(marked, root, e) && e.path.id() == id
}

/// Whether a group has several copies, all of which are marked files within the root.
pub open spec fn wholly_marked(
    marked: Set<PathId>,
    entries: Seq<EntryView>,
    root: PathId,
    group: GroupView,
) -> bool {
    group.paths.len() >= 2 && forall|i: int|
        0 <= i < group.paths.len() ==> path_marked(
            marked,
            entries,
            root,
            (#[trigger] group.paths[i]).id(),
        )
}

/// Whether a path is the first one of a group of several copies that are all marked files within
/// the root.
pub open spec fn first_of_wholly_marked(
    marked: Set<PathId>,
    entries: Seq<EntryView>,
    dups: Seq<GroupView>,
    root: PathId,
    path: PathView,
) -> bool {
    exists|g: int|
        0 <= g < dups.len() && wholly_marked(marked, entries, root, #[trigger] dups[g])
            && dups[g].paths[0] == path
}

/// The paths that are kept for safety.
pub open spec fn kept_paths(
    marked: Set<PathId>,
    entries: Seq<EntryView>,
    dups: Seq<GroupView>,
    root: PathId,
) -> Seq<PathView> {
    spared(path_ids(entries.filter(deletable(marked, root))), dups)
}

proof fn lemma_marked_file(marked: Set<PathId>, entries: Seq<EntryView>, root: PathId)
    ensures
        forall|e: EntryView| #[trigger] deletable(marked, root)(e) <==> marked_file(
            marked,
            root,
            e,
        ),
        forall|id: PathId| #[trigger]
            path_ids(entries.filter(deletable(marked, root))).contains(id) <==> path_marked(
                marked,
                entries,
                root,
                id,
            ),
{
    let may = deletable(marked, root);
    let kept = entries.filter(may);
    let ids = kept.map_values(|e: EntryView| e.path.id());
    assert forall|e: EntryView| #[trigger] may(e) <==> marked_file(marked, root, e) by {
        law_within(e.path.id(), root);
    }
    assert forall|id: PathId| #[trigger] path_ids(kept).contains(id) <==> path_marked(
        marked,
        entries,
        root,
        id,
    ) by {
        if path_ids(kept).contains(id) {
            let i = choose|i: int| 0 <= i < ids.len() && ids[i] == id;
            assert(kept.contains(kept[i]));
            lemma_filter_holds(entries, may, kept[i]);
        }
        if path_marked(marked, entries, root, id) {
            let e = choose|e: EntryView| #[trigger]
                entries.contains(e) && marked_file(marked, root, e) && e.path.id() == id;
            assert(may(e));
            lemma_filter_keeps(entries, may, e);
            let i = choose|i: int| 0 <= i < kept.len() && kept[i] == e;
            assert(ids[i] == id);
        }
    }
}

proof fn lemma_doomed_is_wholly_marked(
    marked: Set<PathId>,
    entries: Seq<EntryView>,
    root: PathId,
    group: GroupView,
)
    ensures
        doomed(group, path_ids(entries.filter(deletable(marked, root)))) <==> wholly_marked(
            marked,
            entries,
            root,
            group,
        ),
{
    let start = path_ids(entries.filter(deletable(marked, root)));
    lemma_marked_file(marked, entries, root);
    if doomed(group, start) {
        assert forall|i: int| 0 <= i < group.paths.len() implies path_marked(
            marked,
            entries,
            root,
            (#[trigger] group.paths[i]).id(),
        ) by {
            assert(start.contains(group.paths[i].id()));
        }
    }
    if wholly_marked(marked, entries, root, group) {
        assert forall|i: int| 0 <= i < group.paths.len() implies start.contains(
            #[trigger] group.paths[i].id(),
        ) by {
            assert(path_marked(marked, entries, root, group.paths[i].id()));
        }
    }
}

/// Every entry that is a marked file at or below the root, at any depth, is deleted, unless its path
/// is the first one of a group of several copies that are all marked files within the root.
pub proof fn law_marked_files_are_deleted(
    marked: Set<PathId>,
    entries: Seq<EntryView>,
    dups: Seq<GroupView>,
    root: PathId,
    entry: EntryView,
)
    requires
        entries.contains(entry),
        marked_file(marked, root, entry),
        forall|g: int|
            0 <= g < dups.len() && wholly_marked(marked, entries, root, #[trigger] dups[g])
                ==> dups[g].paths[0].id() != entry.path.id(),
    ensures
        safe_targets(marked, entries, dups, root).contains(entry),
{
    let start = path_ids(entries.filter(deletable(marked, root)));
    lemma_marked_file(marked, entries, root);
    assert(deletable(marked, root)(entry));
    assert forall|i: int| 0 <= i < spared(start, dups).len() implies entry.path.id() != (
    #[trigger] spared(start, dups)[i]).id() by {
        lemma_spared_kept(start, dups, i);
        let g = choose|g: int|
            0 <= g < dups.len() && doomed(#[trigger] dups[g], start) && dups[g].paths[0] == spared(
                start,
                dups,
            )[i];
        lemma_doomed_is_wholly_marked(marked, entries, root, dups[g]);
    }
    law_unspared_are_targets(marked, entries, dups, root, entry);
}

/// What is deleted is exactly the marked files within the root, in the order of the entries, without
/// those whose path is kept for safety.
pub proof fn law_deleted_are_marked_and_not_kept(
    marked: Set<PathId>,
    entries: Seq<EntryView>,
    dups: Seq<GroupView>,
    root: PathId,
)
    ensures
        safe_targets(marked, entries, dups, root) == entries.filter(
            |e: EntryView|
                marked_file(marked, root, e) && forall|i: int|
                    0 <= i < kept_paths(marked, entries, dups, root).len() ==> e.path.id() != (
                    #[trigger] kept_paths(marked, entries, dups, root)[i]).id(),
        ),
{
    let start = path_ids(entries.filter(deletable(marked, root)));
    let kept = kept_paths(marked, entries, dups, root);
    let a = file_listed_in(safe_paths(marked, entries, dups, root));
    let b = |e: EntryView|
        marked_file(marked, root, e) && forall|i: int|
            0 <= i < kept_paths(marked, entries, dups, root).len() ==> e.path.id() != (
            #[trigger] kept_paths(marked, entries, dups, root)[i]).id();
    lemma_marked_file(marked, entries, root);
    assert forall|k: int| 0 <= k < entries.len() implies a(#[trigger] entries[k]) == b(
        entries[k],
    ) by {
        let e = entries[k];
        assert(entries.contains(e));
        if a(e) {
            lemma_filter_keeps(entries, a, e);
            law_targets_are_deletable(marked, entries, dups, root, e);
            law_within(e.path.id(), root);
            assert forall|i: int| 0 <= i < kept.len() implies e.path.id() != (
            #[trigger] kept[i]).id() by {
                lemma_spared_kept(start, dups, i);
            }
        }
        if b(e) {
            assert(start.contains(e.path.id()));
            lemma_protected_loses_spared(start, dups, e.path.id());
        }
    }
    lemma_filters_agree(entries, a, b);
}

proof fn lemma_filters_agree(
    s: Seq<EntryView>,
    a: spec_fn(EntryView) -> bool,
    b: spec_fn(EntryView) -> bool,
)
    requires
        forall|k: int| 0 <= k < s.len() ==> a(#[trigger] s[k]) == b(s[k]),
    ensures
        s.filter(a) == s.filter(b),
    decreases s.len(),
{
    reveal(Seq::filter);
    if s.len() > 0 {
        let rest = s.drop_last();
        assert forall|k: int| 0 <= k < rest.len() implies a(#[trigger] rest[k]) == b(rest[k]) by {
            assert(rest[k] == s[k]);
        }
        lemma_filters_agree(rest, a, b);
        assert(s[s.len() - 1] == s.last());
    }
}

/// What is kept for safety is the first copy of a group all of whose several copies are marked
/// files within the root. Of each such group a copy is kept: the first one, unless a copy is kept
/// for an earlier group already.
pub proof fn law_first_copies_are_kept(
    marked: Set<PathId>,
    entries: Seq<EntryView>,
    dups: Seq<GroupView>,
    root: PathId,
)
    ensures
        forall|i: int|
            0 <= i < kept_paths(marked, entries, dups, root).len() ==> first_of_wholly_marked(
                marked,
                entries,
                dups,
                root,
                #[trigger] kept_paths(marked, entries, dups, root)[i],
            ),
        forall|g: int|
            0 <= g < dups.len() && wholly_marked(marked, entries, root, #[trigger] dups[g]) && (
            forall|h: int, k: int|
                0 <= h < g && 0 <= k < dups[g].paths.len() && wholly_marked(
                    marked,
                    entries,
                    root,
                    #[trigger] dups[h],
                ) ==> dups[h].paths[0].id() != (#[trigger] dups[g].paths[k]).id())
                ==> kept_paths(marked, entries, dups, root).contains(dups[g].paths[0]),
        kept_paths(marked, entries, Seq::empty(), root).len() == 0,
{
    let start = path_ids(entries.filter(deletable(marked, root)));
    let kept = kept_paths(marked, entries, dups, root);
    assert forall|i: int| 0 <= i < kept.len() implies first_of_wholly_marked(
        marked,
        entries,
        dups,
        root,
        #[trigger] kept[i],
    ) by {
        lemma_spared_kept(start, dups, i);
        let g = choose|g: int|
            0 <= g < dups.len() && doomed(#[trigger] dups[g], start) && dups[g].paths[0]
                == kept[i];
        lemma_doomed_is_wholly_marked(marked, entries, root, dups[g]);
    }
    assert forall|g: int|
        0 <= g < dups.len() && wholly_marked(marked, entries, root, #[trigger] dups[g]) && (forall|
            h: int,
            k: int,
        |
            0 <= h < g && 0 <= k < dups[g].paths.len() && wholly_marked(
                marked,
                entries,
                root,
                #[trigger] dups[h],
            ) ==> dups[h].paths[0].id() != (#[trigger] dups[g].paths[k]).id()) implies kept.contains(
        dups[g].paths[0],
    ) by {
        let before = dups.take(g);
        let left = protected(start, before);
        lemma_doomed_is_wholly_marked(marked, entries, root, dups[g]);
        assert forall|k: int| 0 <= k < dups[g].paths.len() implies left.contains(
            #[trigger] dups[g].paths[k].id(),
        ) by {
            let id = dups[g].paths[k].id();
            assert(start.contains(id));
            assert forall|i: int| 0 <= i < spared(start, before).len() implies id != (
            #[trigger] spared(start, before)[i]).id() by {
                lemma_spared_kept(start, before, i);
                let h = choose|h: int|
                    0 <= h < before.len() && doomed(#[trigger] before[h], start)
                        && before[h].paths[0] == spared(start, before)[i];
                assert(before[h] == dups[h]);
                lemma_doomed_is_wholly_marked(marked, entries, root, dups[h]);
            }
            lemma_protected_loses_spared(start, before, id);
        }
        assert(dups.take(g + 1).drop_last() =~= before);
        assert(doomed(dups[g], left));
        let now = spared(start, dups.take(g + 1));
        assert(now.last() == dups[g].paths[0]);
        lemma_spared_grows(start, dups, g + 1);
        assert(kept[now.len() - 1] == dups[g].paths[0]);
    }
}

proof fn lemma_spared_grows(start: Set<PathId>, groups: Seq<GroupView>, n: int)
    requires
        0 <= n <= groups.len(),
    ensures
        spared(start, groups.take(n)).is_prefix_of(spared(start, groups)),
    decreases groups.len() - n,
{
    let now = spared(start, groups.take(n));
    let all = spared(start, groups);
    if n < groups.len() {
        lemma_spared_grows(start, groups, n + 1);
        assert(groups.take(n + 1).drop_last() =~= groups.take(n));
        let next = spared(start, groups.take(n + 1));
        assert(now =~= all.subrange(0, now.len() as int)) by {
            assert(next =~= all.subrange(0, next.len() as int));
            assert(now =~= next.subrange(0, now.len() as int));
        }
    } else {
        assert(groups.take(n) =~= groups);
        assert(now =~= all.subrange(0, now.len() as int));
    }
}

/// The steps of a deletion. A target within the root is examined first, one outside is refused. A
/// regular file is moved into the trash or removed, as the mode says; anything else is refused. Once
/// the file is gone it counts as deleted, with its size, and is logged. Every failure is noted with
/// its own reason. Nothing else is noted, and at the start nothing is.
pub proof fn law_steps_of_a_deletion(
    outcome: OutcomeView,
    target: EntryView,
    mode: DeleteMode,
    root: PathView,
    rest: PathId,
    reason: Seq<char>,
)
    ensures
        target.path.id() == root.id() + rest ==> delete_step(
            outcome,
            target,
            mode,
            root,
            EventView::Begin,
        ) == (outcome, ActionView::Examine),
        target.path.id() == root.id() + rest ==> ({
            let (after, action) = delete_step(
                outcome,
                target,
                DeleteMode::Trash,
                root,
                EventView::Regular,
            );
            &&& after == outcome
            &&& action is MoveTo
            &&& action->MoveTo_0.id() == root.id() + seq![trash_name()] + rest
        }),
        delete_step(outcome, target, DeleteMode::Permanent, root, EventView::Regular) == (
            outcome,
            ActionView::Remove,
        ),
        ({
            let (after, action) = delete_step(outcome, target, mode, root, EventView::Done);
            &&& action is Log
            &&& after.deleted == outcome.deleted.push(target.path)
            &&& after.freed == outcome.freed + target.size
            &&& after.failed == outcome.failed
        }),
        ({
            let (after, action) = delete_step(outcome, target, mode, root, EventView::NotRegular);
            &&& action is Next
            &&& after.deleted == outcome.deleted
            &&& after.freed == outcome.freed
            &&& after.failed.len() == outcome.failed.len() + 1
            &&& after.failed.drop_last() == outcome.failed
            &&& after.failed.last() == (target.path, "拒绝：不是普通文件"@)
        }),
        (forall|more: PathId| target.path.id() != #[trigger] (root.id() + more)) ==> delete_step(
            outcome,
            target,
            mode,
            root,
            EventView::Begin,
        ) == (
            OutcomeView {
                deleted: outcome.deleted,
                freed: outcome.freed,
                failed: outcome.failed.push((target.path, "拒绝：路径在扫描根之外"@)),
            },
            ActionView::Next,
        ),
        OutcomeView::nothing().deleted.len() == 0 && OutcomeView::nothing().failed.len() == 0
            && OutcomeView::nothing().freed == 0,
        forall|event: EventView|
            event == EventView::Unreadable(reason) || event == EventView::Refused(reason)
                ==> #[trigger] delete_step(outcome, target, mode, root, event) == (
                OutcomeView {
                    deleted: outcome.deleted,
                    freed: outcome.freed,
                    failed: outcome.failed.push((target.path, reason)),
                },
                ActionView::Next,
            ),
{
    law_within(target.path.id(), root.id());
    if target.path.id() == root.id() + rest {
        assert(target.path.id().skip(root.id().len() as int) =~= rest);
        law_only_regular_files_go(outcome, target, DeleteMode::Trash, root, EventView::Regular);
    }
    let failed = delete_step(outcome, target, mode, root, EventView::NotRegular).0.failed;
    assert(failed.drop_last() =~= outcome.failed);
}

/// The trash directory and the log stand in the root, under these names.
pub proof fn law_names_in_the_root(root: PathView)
    ensures
        trash_name().kind == PartKind::Normal,
        trash_name().name == ".reclaim-trash"@.map_values(|c: char| c as u8),
        log_name().kind == PartKind::Normal,
        log_name().name == "reclaim-deleted.log"@.map_values(|c: char| c as u8),
        joined_all(root, seq![log_name()]).id() == root.id().push(log_name()),
{
    reveal_strlit(".reclaim-trash");
    reveal_strlit("reclaim-deleted.log");
    assert(trash_name().name =~= ".reclaim-trash"@.map_values(|c: char| c as u8));
    assert(log_name().name =~= "reclaim-deleted.log"@.map_values(|c: char| c as u8));
    lemma_joined_all_id(root, seq![log_name()]);
    assert(root.id() + seq![log_name()] =~= root.id().push(log_name()));
}

/// A line of the log is read back field by field: up to the first tab it is the time, up to the
/// second one the size, and from there to the end of the line the path.
pub proof fn law_log_is_read_back(secs: u64, size: u64, path: PathView)
    ensures
        ({
            let line = log_line(secs, size, path);
            let a = decimal(secs as nat).len() as int;
            let b = a + 1 + decimal(size as nat).len();
            &&& line.take(a) == decimal(secs as nat)
            &&& line[a] == '\t'
            &&& line.subrange(a + 1, b) == decimal(size as nat)
            &&& line[b] == '\t'
            &&& line.subrange(b + 1, line.len() - 1) == path.text()
            &&& line.last() == '\n'
            &&& forall|i: int|
                0 <= i < b && i != a ==> '0' <= #[trigger] line[i] <= '9'
        }),
{
    reveal_strlit("\t");
    reveal_strlit("\n");
    let line = log_line(secs, size, path);
    let a = decimal(secs as nat).len() as int;
    let b = a + 1 + decimal(size as nat).len();
    law_decimal(secs as nat, 0);
    law_decimal(size as nat, 0);
    assert(line.take(a) =~= decimal(secs as nat));
    assert(line.subrange(a + 1, b) =~= decimal(size as nat));
    assert(line.subrange(b + 1, line.len() - 1) =~= path.text());
    assert forall|i: int| 0 <= i < b && i != a implies '0' <= #[trigger] line[i] <= '9' by {
        if i < a {
            assert(line[i] == decimal(secs as nat)[i]);
        } else {
            assert(line[i] == decimal(size as nat)[i - a - 1]);
        }
    }
}

/// A name that is tried stands beside the plain one and is the plain one with a dot and a number
/// behind it.
pub proof fn law_numbered_name(dest: PathView, n: nat)
    requires
        has_parent(dest.id()),
    ensures
        numbered(dest, 0) == dest,
        n > 0 ==> numbered(dest, n).id().len() == dest.id().len(),
        n > 0 ==> numbered(dest, n).id().drop_last() == dest.id().drop_last(),
        n > 0 ==> numbered(dest, n).id().last().kind == PartKind::Normal,
        n > 0 ==> numbered(dest, n).id().last().name == dest.id().last().name + seq!['.' as u8]
            + decimal_bytes(n),
        n > 0 && dest.tail.len() == 0 ==> numbered(dest, n).spelled() == dest.spelled() + seq![
            '.' as u8,
        ] + decimal_bytes(n),
{
    if n > 0 {
        let next = numbered(dest, n);
        assert(next.id().drop_last() =~= dest.id().drop_last());
        assert(dest.parts =~= dest.parts.drop_last().push(dest.parts.last()));
        law_spelled(dest.parts.drop_last(), dest.parts.last(), Seq::empty());
        law_spelled(dest.parts.drop_last(), next.parts.last(), Seq::empty());
        if dest.tail.len() == 0 {
            assert(dest.tail =~= Seq::<u8>::empty());
            assert(dest == (PathView {
                parts: dest.parts.drop_last().push(dest.parts.last()),
                tail: Seq::empty(),
            }));
            assert(next.spelled() =~= dest.spelled() + seq!['.' as u8] + decimal_bytes(n));
        }
    }
}

/// A free name is used; otherwise the next one is looked at. The names are looked at in order, from
/// the plain one on, and the last number is the largest of 32 bits.
pub proof fn law_next_name(dest: PathView, n: nat)
    ensures
        dest_step(dest, n, false) == DestView::Use(numbered(dest, n)),
        n < 4294967295 ==> dest_step(dest, n, true) == DestView::Probe(
            numbered(dest, n + 1),
            n + 1,
        ),
        n >= 4294967295 ==> dest_step(dest, n, true) is NoFreeName,
{
}

} // verus!
