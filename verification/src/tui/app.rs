//! The state of the interactive interface.

use crate::actions::{
    deletable, listed_in, path_ids, plan_safe_deletion, safe_targets, spared, DeleteMode,
    DeleteOutcome, DeletePlan, OutcomeView, SafeDeletion,
};
use crate::error::{errors_view, ErrorView, ScanError};
use crate::index::{PathSet, PathSizes};
use crate::model::{
    counted, entries_view, file_total, groups_view, paths_view, size_total, DuplicateGroup,
    EntryKind, EntryView, FileEntry, GroupView, ResultView, ScanResult,
};
use crate::order::{law_stable_sort, sorted_order, stable_sort, weak_order, Ranked};
use crate::path::{
    has_parent, lemma_path_order_total, path_less, within, FilePath, PartKind, PathId, PathView,
};
use crate::report::{
    freed_by_each, freed_order, frees_more, human_size, law_groups_by_freed, size_text,
};
use crate::text::{decimal, push_decimal};
use crate::tui::laws::law_directory_size_is_file_total;
use vstd::prelude::*;
use vstd::string::*;
use vstd::view::View as _;

verus! {

/// What is shown. The help is no view of its own: it lies on top of one.
#[derive(Clone, Copy, Debug, PartialEq, Eq, Structural)]
pub enum View {
    Sizes,
    Duplicates,
}

/// How the list of sizes is sorted.
#[derive(Clone, Copy, Debug, PartialEq, Eq, Structural)]
pub enum SortKey {
    Size,
    Name,
}

/// A key that was pressed.
#[derive(Clone, Copy, Debug, PartialEq, Eq, Structural)]
pub enum KeyCode {
    Char(char),
    Enter,
    Esc,
    Tab,
    Backspace,
    Up,
    Down,
    /// Any other key.
    Other,
}

/// An item of the directory that is shown.
#[derive(Debug)]
pub struct Row {
    pub path: FilePath,
    /// A file's own size; of a directory, the size of all files in it.
    pub size: u64,
    pub is_dir: bool,
}

/// What an item of the directory is.
pub struct RowView {
    pub path: PathView,
    pub size: nat,
    pub is_dir: bool,
}

impl vstd::view::View for Row {
    type V = RowView;

    open spec fn view(&self) -> RowView {
        RowView { path: self.path@, size: self.size as nat, is_dir: self.is_dir }
    }
}

/// What a list of items is.
pub open spec fn rows_view(rows: Seq<Row>) -> Seq<RowView> {
    rows.map_values(|r: Row| r@)
}

/// The state of the interactive interface. Entries flow in while the scan is running.
pub struct App {
    pub result: ScanResult,
    /// The size of each directory: that of all files in it.
    pub dir_sizes: PathSizes,
    /// The directory that is shown, at or below the root of the scan.
    pub cwd: FilePath,
    /// What lies directly in it, sorted.
    pub rows: Vec<Row>,
    /// The groups of duplicates, those that free the most first.
    pub dups: Vec<DuplicateGroup>,
    pub view: View,
    pub sort: SortKey,
    /// Whether the help is shown.
    pub show_help: bool,
    /// The highlighted item of the view.
    pub selected: usize,
    pub should_quit: bool,
    /// Whether the scan is running.
    pub scanning: bool,
    /// How many entries have been scanned.
    pub scanned_count: usize,
    /// Whether duplicates have been looked for.
    pub dups_ready: bool,
    /// Whether the files of the selected group are being browsed.
    pub dup_focus: bool,
    /// The highlighted file of the selected group.
    pub detail_cursor: usize,
    /// Whether leaving has to be confirmed.
    pub confirm_quit: bool,
    /// The files that are marked for deletion.
    pub marked: PathSet,
    /// Whether the preview of the deletion is shown.
    pub show_plan: bool,
    pub mode: DeleteMode,
    /// Whether the deletion has to be confirmed.
    pub confirm_delete: bool,
    /// Whether a deletion for good has been confirmed once and waits for the second time.
    pub permanent_armed: bool,
    /// Whether the deletion was confirmed and is to be carried out.
    pub request_delete: bool,
    /// What came of the deletion, while it is shown.
    pub delete_result: Option<String>,
}

/// What the state of the interface is.
pub struct AppView {
    pub result: ResultView,
    pub cwd: PathView,
    pub rows: Seq<RowView>,
    pub dups: Seq<GroupView>,
    pub view: View,
    pub sort: SortKey,
    pub show_help: bool,
    pub selected: nat,
    pub should_quit: bool,
    pub scanning: bool,
    pub scanned_count: nat,
    pub dups_ready: bool,
    pub dup_focus: bool,
    pub detail_cursor: nat,
    pub confirm_quit: bool,
    pub marked: Set<PathId>,
    pub show_plan: bool,
    pub mode: DeleteMode,
    pub confirm_delete: bool,
    pub permanent_armed: bool,
    pub request_delete: bool,
    pub delete_result: Option<Seq<char>>,
}

impl vstd::view::View for App {
    type V = AppView;

    open spec fn view(&self) -> AppView {
        AppView {
            result: self.result@,
            cwd: self.cwd@,
            rows: rows_view(self.rows@),
            dups: groups_view(self.dups@),
            view: self.view,
            sort: self.sort,
            show_help: self.show_help,
            selected: self.selected as nat,
            should_quit: self.should_quit,
            scanning: self.scanning,
            scanned_count: self.scanned_count as nat,
            dups_ready: self.dups_ready,
            dup_focus: self.dup_focus,
            detail_cursor: self.detail_cursor as nat,
            confirm_quit: self.confirm_quit,
            marked: self.marked@,
            show_plan: self.show_plan,
            mode: self.mode,
            confirm_delete: self.confirm_delete,
            permanent_armed: self.permanent_armed,
            request_delete: self.request_delete,
            delete_result: match self.delete_result {
                Some(text) => Some(text@),
                None => None,
            },
        }
    }
}

/// Whether a file's size counts for the directory `dir`: it is the file's parent, or lies above
/// it, up to the root of the scan.
pub open spec fn counts_for(file: PathId, root: PathId, dir: PathId) -> bool
    decreases file.len(),
{
    has_parent(file) && (file.drop_last() == dir || (file.drop_last() != root && counts_for(
        file.drop_last(),
        root,
        dir,
    )))
}

/// Whether a file lies strictly below the root, with names for components there.
pub open spec fn below_root(file: PathId, root: PathId) -> bool {
    &&& within(file, root)
    &&& file.len() > root.len()
    &&& forall|k: int| root.len() < k <= file.len() ==> has_parent(#[trigger] file.take(k))
}

/// Whether all entries lie strictly below the root.
pub open spec fn all_below_root(entries: Seq<EntryView>, root: PathId) -> bool {
    forall|i: int| 0 <= i < entries.len() ==> below_root((#[trigger] entries[i]).path.id(), root)
}

/// Entries that lie in a directory, at any depth.
pub open spec fn inside(dir: PathId) -> spec_fn(EntryView) -> bool {
    |e: EntryView| within(e.path.id(), dir) && e.path.id() != dir
}

/// The size of a directory: that of all files in it.
#[verifier::opaque]
pub open spec fn dir_total(entries: Seq<EntryView>, root: PathId, dir: PathId) -> nat
    decreases entries.len(),
{
    if entries.len() == 0 {
        0
    } else {
        dir_total(entries.drop_last(), root, dir) + if counts_for(
            entries.last().path.id(),
            root,
            dir,
        ) {
            counted(entries.last())
        } else {
            0
        }
    }
}

/// The item that an entry makes in the list.
pub open spec fn row_of(entries: Seq<EntryView>, root: PathId, entry: EntryView) -> RowView {
    RowView {
        path: entry.path,
        size: if entry.kind == EntryKind::Dir {
            dir_total(entries, root, entry.path.id())
        } else {
            entry.size as nat
        },
        is_dir: entry.kind == EntryKind::Dir,
    }
}

/// Entries that lie directly in a directory.
pub open spec fn lies_in(dir: PathId) -> spec_fn(EntryView) -> bool {
    |e: EntryView| has_parent(e.path.id()) && e.path.id().drop_last() == dir
}

/// Which item of a list comes before which.
pub open spec fn row_order(sort: SortKey) -> spec_fn(RowView, RowView) -> bool {
    match sort {
        SortKey::Size => |a: RowView, b: RowView| a.size > b.size,
        SortKey::Name => |a: RowView, b: RowView| path_less(a.path.id(), b.path.id()),
    }
}

/// The list of what lies directly in a directory.
#[verifier::opaque]
pub open spec fn rows_of(
    entries: Seq<EntryView>,
    root: PathId,
    cwd: PathId,
    sort: SortKey,
) -> Seq<RowView> {
    stable_sort(
        entries.filter(lies_in(cwd)).map_values(|e: EntryView| row_of(entries, root, e)),
        row_order(sort),
    )
}

/// The last position of a list at most; the first one where it is empty.
pub open spec fn clamped(at: nat, len: nat) -> nat {
    if at < len {
        at
    } else if len == 0 {
        0
    } else {
        (len - 1) as nat
    }
}

/// Whether groups are held by the space that they free, the most first. No group is empty, and
/// the space that each frees can be counted.
pub open spec fn most_freed_first(groups: Seq<GroupView>) -> bool {
    &&& forall|i: int, j: int|
        0 <= i < j < groups.len() ==> (#[trigger] groups[i]).reclaimable() >= (
        #[trigger] groups[j]).reclaimable()
    &&& forall|i: int|
        0 <= i < groups.len() ==> (#[trigger] groups[i]).paths.len() > 0 && groups[i].reclaimable()
            <= u64::MAX
}

impl AppView {
    /// What every state keeps to: the total is that of the files, the list is that of the
    /// directory shown, which lies at or below the root, the highlighted item of the list exists
    /// unless the list is empty, and the groups that free the most come first.
    #[verifier::opaque]
    pub open spec fn consistent(self) -> bool {
        &&& self.result.total_size == file_total(self.result.entries)
        &&& self.rows == rows_of(
            self.result.entries,
            self.result.root.id(),
            self.cwd.id(),
            self.sort,
        )
        &&& within(self.cwd.id(), self.result.root.id())
        &&& self.view == View::Sizes ==> self.selected == 0 || self.selected < self.rows.len()
        &&& self.selected < usize::MAX
        &&& most_freed_first(self.dups)
    }

    /// The state with a new list, in which the highlighted item exists.
    pub open spec fn rebuilt(self) -> AppView {
        let rows = rows_of(
            self.result.entries,
            self.result.root.id(),
            self.cwd.id(),
            self.sort,
        );
        AppView { rows, selected: clamped(self.selected, rows.len()), ..self }
    }

    /// The state at the start of a scan.
    pub open spec fn started(root: PathView) -> AppView {
        AppView {
            result: ResultView {
                root,
                entries: Seq::empty(),
                total_size: 0,
                warnings: Seq::empty(),
            },
            cwd: root,
            rows: Seq::empty(),
            dups: Seq::empty(),
            view: View::Sizes,
            sort: SortKey::Size,
            show_help: false,
            selected: 0,
            should_quit: false,
            scanning: true,
            scanned_count: 0,
            dups_ready: false,
            dup_focus: false,
            detail_cursor: 0,
            confirm_quit: false,
            marked: Set::empty(),
            show_plan: false,
            mode: DeleteMode::Trash,
            confirm_delete: false,
            permanent_armed: false,
            request_delete: false,
            delete_result: None,
        }
    }

    /// The state with other entries, counted anew.
    pub open spec fn with_entries(self, entries: Seq<EntryView>) -> AppView {
        AppView {
            result: ResultView {
                entries,
                total_size: file_total(entries) as u64,
                ..self.result
            },
            ..self
        }.rebuilt()
    }

    /// The state with more entries.
    pub open spec fn added(self, batch: Seq<EntryView>) -> AppView {
        self.with_entries(self.result.entries + batch)
    }

    /// The length of the list of the view.
    pub open spec fn list_len(self) -> nat {
        match self.view {
            View::Sizes => self.rows.len(),
            View::Duplicates => self.dups.len(),
        }
    }

    /// One item up.
    pub open spec fn moved_up(self) -> AppView {
        AppView {
            selected: if self.selected > 0 {
                (self.selected - 1) as nat
            } else {
                0
            },
            ..self
        }
    }

    /// One item down.
    pub open spec fn moved_down(self) -> AppView {
        AppView {
            selected: if self.selected + 1 < self.list_len() {
                self.selected + 1
            } else {
                self.selected
            },
            ..self
        }
    }

    /// Into the highlighted directory.
    pub open spec fn entered(self) -> AppView {
        if self.selected < self.rows.len() && self.rows[self.selected as int].is_dir {
            AppView { cwd: self.rows[self.selected as int].path, selected: 0, ..self }.rebuilt()
        } else {
            self
        }
    }

    /// Out of the directory, unless it is the root of the scan.
    pub open spec fn gone_up(self) -> AppView {
        if self.cwd.id() != self.result.root.id() && has_parent(self.cwd.id()) {
            AppView { cwd: self.cwd.parent(), selected: 0, ..self }.rebuilt()
        } else {
            self
        }
    }

    /// The other view.
    pub open spec fn view_toggled(self) -> AppView {
        AppView {
            view: match self.view {
                View::Sizes => View::Duplicates,
                View::Duplicates => View::Sizes,
            },
            selected: 0,
            dup_focus: false,
            detail_cursor: 0,
            ..self
        }
    }

    /// How many files the selected group has.
    pub open spec fn group_len(self) -> nat {
        if self.selected < self.dups.len() {
            self.dups[self.selected as int].paths.len()
        } else {
            0
        }
    }

    /// The key for up.
    pub open spec fn on_up(self) -> AppView {
        if self.view == View::Duplicates && self.dup_focus {
            AppView {
                detail_cursor: if self.detail_cursor > 0 {
                    (self.detail_cursor - 1) as nat
                } else {
                    0
                },
                ..self
            }
        } else {
            AppView { detail_cursor: 0, ..self.moved_up() }
        }
    }

    /// The key for down.
    pub open spec fn on_down(self) -> AppView {
        if self.view == View::Duplicates && self.dup_focus {
            AppView {
                detail_cursor: if self.detail_cursor + 1 < self.group_len() {
                    self.detail_cursor + 1
                } else {
                    self.detail_cursor
                },
                ..self
            }
        } else {
            AppView { detail_cursor: 0, ..self.moved_down() }
        }
    }

    /// The enter key.
    pub open spec fn on_enter(self) -> AppView {
        match self.view {
            View::Sizes => self.entered(),
            View::Duplicates => if self.group_len() > 0 {
                AppView { dup_focus: true, detail_cursor: 0, ..self }
            } else {
                self
            },
        }
    }

    /// The backspace key.
    pub open spec fn on_back(self) -> AppView {
        match self.view {
            View::Sizes => self.gone_up(),
            View::Duplicates => AppView { dup_focus: false, ..self },
        }
    }

    /// The other order of the list.
    pub open spec fn sort_toggled(self) -> AppView {
        AppView {
            sort: match self.sort {
                SortKey::Size => SortKey::Name,
                SortKey::Name => SortKey::Size,
            },
            selected: 0,
            ..self
        }.rebuilt()
    }

    /// The file that the space key marks: the highlighted file of the list, or the highlighted
    /// file of the group that is being browsed.
    pub open spec fn mark_target(self) -> Option<PathId> {
        match self.view {
            View::Sizes => if self.selected < self.rows.len()
                && !self.rows[self.selected as int].is_dir {
                Some(self.rows[self.selected as int].path.id())
            } else {
                None
            },
            View::Duplicates => if self.dup_focus && self.detail_cursor < self.group_len() {
                Some(self.dups[self.selected as int].paths[self.detail_cursor as int].id())
            } else {
                None
            },
        }
    }

    /// The file under the cursor marked, or not marked any more.
    pub open spec fn mark_toggled(self) -> AppView {
        match self.mark_target() {
            Some(id) => AppView {
                marked: if self.marked.contains(id) {
                    self.marked.remove(id)
                } else {
                    self.marked.insert(id)
                },
                ..self
            },
            None => self,
        }
    }

    /// A key while the deletion has to be confirmed. For good it has to be confirmed twice.
    #[verifier::opaque]
    pub open spec fn confirming_delete(self, key: KeyCode) -> AppView {
        match key {
            KeyCode::Char('n') | KeyCode::Esc => AppView {
                confirm_delete: false,
                permanent_armed: false,
                ..self
            },
            KeyCode::Char('y') | KeyCode::Enter => match self.mode {
                DeleteMode::Trash => AppView {
                    confirm_delete: false,
                    request_delete: true,
                    ..self
                },
                DeleteMode::Permanent => if self.permanent_armed {
                    AppView {
                        confirm_delete: false,
                        permanent_armed: false,
                        request_delete: true,
                        ..self
                    }
                } else {
                    AppView { permanent_armed: true, ..self }
                },
            },
            _ => if self.permanent_armed {
                AppView { permanent_armed: false, confirm_delete: false, ..self }
            } else {
                self
            },
        }
    }

    /// A key while leaving has to be confirmed.
    #[verifier::opaque]
    pub open spec fn confirming_quit(self, key: KeyCode) -> AppView {
        match key {
            KeyCode::Char('y') | KeyCode::Enter => AppView { should_quit: true, ..self },
            KeyCode::Char('n') | KeyCode::Esc => AppView { confirm_quit: false, ..self },
            _ => self,
        }
    }

    /// A key while the preview of the deletion is shown.
    #[verifier::opaque]
    pub open spec fn previewing(self, key: KeyCode) -> AppView {
        match key {
            KeyCode::Enter => AppView {
                show_plan: false,
                confirm_delete: true,
                permanent_armed: false,
                ..self
            },
            KeyCode::Esc | KeyCode::Char('d') => AppView { show_plan: false, ..self },
            _ => self,
        }
    }

    /// A key while a view is shown, perhaps below the help.
    #[verifier::opaque]
    pub open spec fn browsing(self, key: KeyCode) -> AppView {
        match key {
            KeyCode::Char('q') => AppView { confirm_quit: true, ..self },
            KeyCode::Char('?') => AppView { show_help: !self.show_help, ..self },
            KeyCode::Esc => if self.show_help {
                AppView { show_help: false, ..self }
            } else if self.dup_focus {
                AppView { dup_focus: false, ..self }
            } else {
                AppView { confirm_quit: true, ..self }
            },
            _ => if self.show_help {
                self
            } else {
                match key {
                    KeyCode::Tab => self.view_toggled(),
                    KeyCode::Char('s') => self.sort_toggled(),
                    KeyCode::Char(' ') => self.mark_toggled(),
                    KeyCode::Char('d') => AppView { show_plan: true, ..self },
                    KeyCode::Up => self.on_up(),
                    KeyCode::Down => self.on_down(),
                    KeyCode::Enter => self.on_enter(),
                    KeyCode::Backspace => self.on_back(),
                    _ => self,
                }
            },
        }
    }

    /// The state after a key. What lies on top gets the key: the result of a deletion, its
    /// confirmation, the confirmation of leaving, the preview, then the view.
    pub open spec fn key_pressed(self, key: KeyCode) -> AppView {
        if self.delete_result is Some {
            AppView { delete_result: None, ..self }
        } else if self.confirm_delete {
            self.confirming_delete(key)
        } else if self.confirm_quit {
            self.confirming_quit(key)
        } else if self.show_plan {
            self.previewing(key)
        } else {
            self.browsing(key)
        }
    }
}

/// Entries whose path is not in a set.
pub open spec fn not_in(set: Set<PathId>) -> spec_fn(EntryView) -> bool {
    |e: EntryView| !set.contains(e.path.id())
}

/// Paths as a set.
pub open spec fn id_set(paths: Seq<PathView>) -> Set<PathId> {
    paths.map_values(|p: PathView| p.id()).to_set()
}

/// A group without the paths in a set.
pub open spec fn group_without(group: GroupView, set: Set<PathId>) -> GroupView {
    GroupView { paths: group.paths.filter(|p: PathView| !set.contains(p.id())), ..group }
}

/// Groups without the paths in a set; a group needs two copies to stay.
pub open spec fn groups_without(groups: Seq<GroupView>, set: Set<PathId>) -> Seq<GroupView> {
    groups.map_values(|g: GroupView| group_without(g, set)).filter(
        |g: GroupView| g.paths.len() >= 2,
    )
}

/// What is said of a deletion.
pub open spec fn summary(outcome: OutcomeView) -> Seq<char> {
    "已删除 "@ + decimal(outcome.deleted.len()) + " 个文件，释放 "@ + size_text(outcome.freed) + if outcome.failed.len()
        > 0 {
        "；"@ + decimal(outcome.failed.len()) + " 个失败（见界面）"@
    } else {
        Seq::empty()
    }
}

impl AppView {
    /// The state after a deletion: what was deleted is gone from the marks, the entries and the
    /// groups, the groups are in order again, and the result is shown.
    pub open spec fn after_deletion(self, outcome: OutcomeView) -> AppView {
        let gone = id_set(outcome.deleted);
        let left = AppView {
            marked: self.marked.difference(gone),
            dups: stable_sort(groups_without(self.dups, gone), frees_more()),
            ..self
        }.with_entries(self.result.entries.filter(not_in(gone)));
        AppView {
            detail_cursor: clamped(left.detail_cursor, left.group_len()),
            delete_result: Some(summary(outcome)),
            show_plan: false,
            confirm_delete: false,
            permanent_armed: false,
            ..left
        }
    }
}

/// Whether each directory's size is that of all files in it.
#[verifier::opaque]
pub open spec fn sizes_agree(sizes: PathSizes, entries: Seq<EntryView>, root: PathId) -> bool {
    forall|q: PathId| #[trigger] sizes.size_of(q) == dir_total(entries, root, q)
}

impl App {
    /// What every state keeps to: `consistent`, and each directory's size is that of all files
    /// in it.
    pub open spec fn wf(&self) -> bool {
        &&& self@.consistent()
        &&& sizes_agree(self.dir_sizes, self@.result.entries, self@.result.root.id())
    }
}

/// Paths that a size counts for lie above.
proof fn lemma_counts_shorter(file: PathId, root: PathId, dir: PathId)
    requires
        counts_for(file, root, dir),
    ensures
        dir.len() < file.len(),
    decreases file.len(),
{
    if file.drop_last() != dir {
        lemma_counts_shorter(file.drop_last(), root, dir);
    }
}

/// Adds the size of a file to each directory above it, up to the root.
fn accumulate_dir_sizes(sizes: &mut PathSizes, root: &FilePath, file: &FilePath, size: u64)
    requires
        forall|q: PathId| #[trigger] old(sizes).size_of(q) + size <= u64::MAX,
    ensures
        forall|q: PathId| #[trigger]
            final(sizes).size_of(q) == old(sizes).size_of(q) + (if counts_for(
                file@.id(),
                root@.id(),
                q,
            ) {
                size as int
            } else {
                0
            }),
{
    let ghost p = file@.id();
    let ghost r = root@.id();
    let ghost before = *sizes;
    let mut n: usize = file.parts.len();
    assert(p.take(n as int) =~= p);
    proof {
        assert forall|q: PathId| #[trigger] sizes.size_of(q) == before.size_of(q) + (if counts_for(
            p,
            r,
            q,
        ) && q.len() >= n {
            size as int
        } else {
            0
        }) by {
            if counts_for(p, r, q) {
                lemma_counts_shorter(p, r, q);
            }
        }
    }
    let mut done = false;
    while !done && n > 0 && file.parts[n - 1].kind != PartKind::Prefix && file.parts[n - 1].kind
        != PartKind::RootDir
        invariant
            p == file@.id(),
            r == root@.id(),
            n <= file.parts@.len(),
            forall|q: PathId| #[trigger] before.size_of(q) + size <= u64::MAX,
            forall|q: PathId| #[trigger]
                sizes.size_of(q) == before.size_of(q) + (if counts_for(p, r, q) && q.len() >= n {
                    size as int
                } else {
                    0
                }),
            !done ==> forall|q: PathId|
                q.len() < n ==> #[trigger] counts_for(p, r, q) == counts_for(
                    p.take(n as int),
                    r,
                    q,
                ),
            done ==> forall|q: PathId| q.len() < n ==> !#[trigger] counts_for(p, r, q),
        decreases (if done {
            0
        } else {
            n + 1
        }),
    {
        let ghost here = p.take(n as int);
        let ghost parent = p.take(n - 1);
        proof {
            assert(here.last() == p[n - 1]);
            assert(p[n - 1].kind == file.parts@[n - 1].kind);
            assert(here.drop_last() =~= parent);
            assert(has_parent(here));
            assert(counts_for(here, r, parent));
            assert(counts_for(p, r, parent));
            assert forall|q: PathId| q.len() == n - 1 && #[trigger] counts_for(p, r, q) implies q
                == parent by {
                assert(counts_for(here, r, q));
                if parent != q {
                    lemma_counts_shorter(parent, r, q);
                }
            }
        }
        n = n - 1;
        sizes.grow(file, n, size);
        if file.prefix_is(n, root) {
            done = true;
            proof {
                assert forall|q: PathId| q.len() < n implies !#[trigger] counts_for(p, r, q) by {
                    assert(counts_for(p, r, q) == counts_for(here, r, q));
                }
            }
        } else {
            proof {
                assert forall|q: PathId| q.len() < n implies #[trigger] counts_for(p, r, q)
                    == counts_for(parent, r, q) by {
                    assert(counts_for(p, r, q) == counts_for(here, r, q));
                }
            }
        }
    }
    proof {
        assert forall|q: PathId| q.len() < n implies !#[trigger] counts_for(p, r, q) by {
            if !done {
                assert(counts_for(p, r, q) == counts_for(p.take(n as int), r, q));
                if n > 0 {
                    assert(p.take(n as int).last() == p[n - 1]);
                    assert(p[n - 1].kind == file.parts@[n - 1].kind);
                }
            }
        }
    }
}

/// A directory holds no more than there is in all.
proof fn lemma_dir_total_part(entries: Seq<EntryView>, root: PathId, dir: PathId)
    ensures
        dir_total(entries, root, dir) <= file_total(entries),
    decreases entries.len(),
{
    reveal(dir_total);
    if entries.len() > 0 {
        lemma_dir_total_part(entries.drop_last(), root, dir);
    }
}

proof fn lemma_file_total_part(entries: Seq<EntryView>, n: int)
    requires
        0 <= n <= entries.len(),
    ensures
        file_total(entries.take(n)) <= file_total(entries),
    decreases entries.len(),
{
    if n < entries.len() {
        lemma_file_total_part(entries.drop_last(), n);
        assert(entries.drop_last().take(n) =~= entries.take(n));
    } else {
        assert(entries.take(n) =~= entries);
    }
}

/// An entry of the directory that is shown, with the size that is shown for it.
struct Shown<'a> {
    entry: &'a FileEntry,
    size: u64,
}

spec fn shown_row(shown: Shown<'_>) -> RowView {
    RowView {
        path: shown.entry@.path,
        size: shown.size as nat,
        is_dir: shown.entry.kind == EntryKind::Dir,
    }
}

struct Listing<'a> {
    items: &'a Vec<Shown<'a>>,
    sort: SortKey,
}

impl<'a> Ranked for Listing<'a> {
    type Item = RowView;

    closed spec fn items(&self) -> Seq<RowView> {
        self.items@.map_values(|s: Shown<'a>| shown_row(s))
    }

    closed spec fn order(&self) -> spec_fn(RowView, RowView) -> bool {
        row_order(self.sort)
    }

    proof fn ranks(&self) {
        lemma_row_order_ranks(self.sort);
    }

    fn comes_before(&self, i: usize, j: usize) -> (before: bool) {
        match self.sort {
            SortKey::Size => self.items[i].size > self.items[j].size,
            SortKey::Name => self.items[i].entry.path.precedes(&self.items[j].entry.path),
        }
    }
}

/// The list of what lies directly in a directory.
fn list_dir(
    entries: &Vec<FileEntry>,
    sizes: &PathSizes,
    Ghost(root): Ghost<PathId>,
    cwd: &FilePath,
    sort: SortKey,
) -> (rows: Vec<Row>)
    requires
        sizes_agree(*sizes, entries_view(entries@), root),
    ensures
        rows_view(rows@) == rows_of(entries_view(entries@), root, cwd@.id(), sort),
{
    let ghost all = entries_view(entries@);
    let ghost inside = lies_in(cwd@.id());
    let ghost to_row = |e: EntryView| row_of(all, root, e);
    let mut items: Vec<Shown<'_>> = Vec::new();
    proof {
        reveal(sizes_agree);
        reveal(Seq::filter);
        assert(items@.map_values(|s: Shown<'_>| shown_row(s)) =~= all.take(0).filter(
            inside,
        ).map_values(to_row));
    }
    for i in 0..entries.len()
        invariant
            all == entries_view(entries@),
            inside == lies_in(cwd@.id()),
            to_row == (|e: EntryView| row_of(all, root, e)),
            forall|q: PathId| #[trigger] sizes.size_of(q) == dir_total(all, root, q),
            items@.map_values(|s: Shown<'_>| shown_row(s)) == all.take(i as int).filter(
                inside,
            ).map_values(to_row),
    {
        let entry = &entries[i];
        let ghost before = all.take(i as int).filter(inside);
        proof {
            reveal(Seq::filter);
            assert(all.take(i + 1).drop_last() =~= all.take(i as int));
        }
        if entry.path.is_child_of(cwd) {
            let size = if entry.kind == EntryKind::Dir {
                sizes.get(&entry.path)
            } else {
                entry.size
            };
            let shown = Shown { entry, size };
            let ghost old_items = items@.map_values(|s: Shown<'_>| shown_row(s));
            items.push(shown);
            proof {
                let now = all.take(i + 1).filter(inside);
                assert(now == before.push(entry@));
                assert(items@.map_values(|s: Shown<'_>| shown_row(s)) =~= old_items.push(
                    shown_row(shown),
                ));
                assert(now.map_values(to_row) =~= before.map_values(to_row).push(to_row(entry@)));
            }
        }
    }
    assert(all.take(all.len() as int) =~= all);
    let ghost unsorted = items@.map_values(|s: Shown<'_>| shown_row(s));
    let listing = Listing { items: &items, sort };
    let order = sorted_order(&listing, items.len());
    let ghost wanted = stable_sort(unsorted, row_order(sort));
    assert(order@.map_values(|i: usize| unsorted[i as int]) == wanted);
    let mut rows: Vec<Row> = Vec::new();
    for k in 0..order.len()
        invariant
            unsorted == items@.map_values(|s: Shown<'_>| shown_row(s)),
            wanted == order@.map_values(|i: usize| unsorted[i as int]),
            forall|k: int| 0 <= k < order@.len() ==> #[trigger] order@[k] < items@.len(),
            rows@.len() == k,
            forall|j: int| 0 <= j < k ==> (#[trigger] rows@[j])@ == wanted[j],
    {
        let shown = &items[order[k]];
        assert(wanted[k as int] == unsorted[order@[k as int] as int]);
        rows.push(
            Row {
                path: shown.entry.path.clone(),
                size: shown.size,
                is_dir: shown.entry.kind == EntryKind::Dir,
            },
        );
    }
    assert(rows_view(rows@) =~= wanted);
    proof {
        reveal(rows_of);
    }
    rows
}

/// Each item of a list stems from an entry that lies directly in the directory.
pub proof fn lemma_row_from_entry(
    entries: Seq<EntryView>,
    root: PathId,
    cwd: PathId,
    sort: SortKey,
    i: int,
) -> (entry: EntryView)
    requires
        0 <= i < rows_of(entries, root, cwd, sort).len(),
    ensures
        entries.contains(entry),
        lies_in(cwd)(entry),
        rows_of(entries, root, cwd, sort)[i] == row_of(entries, root, entry),
{
    broadcast use vstd::seq_lib::group_to_multiset_ensures;

    reveal(rows_of);
    let inside = entries.filter(lies_in(cwd));
    let unsorted = inside.map_values(|e: EntryView| row_of(entries, root, e));
    let rows = rows_of(entries, root, cwd, sort);
    lemma_row_order_ranks(sort);
    law_stable_sort(unsorted, row_order(sort));
    assert(rows.contains(rows[i]));
    assert(unsorted.to_multiset().count(rows[i]) > 0);
    assert(unsorted.contains(rows[i]));
    let k = choose|k: int| 0 <= k < unsorted.len() && unsorted[k] == rows[i];
    let entry = inside[k];
    assert(inside.contains(entry));
    entries.lemma_filter_contains_rev(lies_in(cwd), entry);
    entries.lemma_filter_pred(lies_in(cwd), k);
    entry
}

/// Items can be ranked by either order.
pub proof fn lemma_row_order_ranks(sort: SortKey)
    ensures
        weak_order(row_order(sort)),
{
    lemma_path_order_total();
    let before = row_order(sort);
    assert forall|x: RowView, y: RowView, z: RowView| #[trigger] before(x, z) implies (
    #[trigger] before(x, y)) || #[trigger] before(y, z) by {
        if sort == SortKey::Name {
            let (a, b, c) = (x.path.id(), y.path.id(), z.path.id());
            assert(path_less(a, c));
            if !path_less(a, b) && !path_less(b, c) {
                assert(a == b || path_less(b, a));
            }
        }
    }
    assert forall|x: RowView, y: RowView| #[trigger] before(x, y) implies !(#[trigger] before(
        y,
        x,
    )) by {
        if sort == SortKey::Name {
            let (a, b) = (x.path.id(), y.path.id());
            if path_less(a, b) && path_less(b, a) {
                assert(path_less(a, a));
            }
        }
    }
}

proof fn lemma_child_within(id: PathId, root: PathId)
    requires
        id.len() > 0,
        within(id.drop_last(), root),
    ensures
        within(id, root),
{
    assert(root =~= id.subrange(0, root.len() as int)) by {
        assert(root == id.drop_last().subrange(0, root.len() as int));
    }
}

proof fn lemma_parent_within(id: PathId, root: PathId)
    requires
        id.len() > 0,
        within(id, root),
        id != root,
    ensures
        within(id.drop_last(), root),
{
    assert(root.len() < id.len()) by {
        if root.len() == id.len() {
            assert(id.subrange(0, root.len() as int) =~= id);
        }
    }
    assert(root =~= id.drop_last().subrange(0, root.len() as int));
}

/// Whether two states agree on what `consistent` speaks of, but for the highlighted item.
spec fn same_lists(a: AppView, b: AppView) -> bool {
    a.result == b.result && a.rows == b.rows && a.cwd == b.cwd && a.sort == b.sort && a.view
        == b.view && a.dups == b.dups
}

proof fn lemma_same_lists(a: AppView, b: AppView)
    requires
        a.consistent(),
        same_lists(a, b),
        b.view == View::Sizes ==> b.selected == 0 || b.selected < b.rows.len(),
        b.selected < usize::MAX,
    ensures
        b.consistent(),
{
    reveal(AppView::consistent);
}

proof fn lemma_rebuilt(a: AppView)
    requires
        a.result.total_size == file_total(a.result.entries),
        within(a.cwd.id(), a.result.root.id()),
        a.selected < usize::MAX,
        most_freed_first(a.dups),
    ensures
        a.rebuilt().consistent(),
{
    reveal(AppView::consistent);
}

/// A scan starts in a consistent state.
pub proof fn law_start_is_consistent(root: PathView)
    ensures
        AppView::started(root).consistent(),
{
    reveal(AppView::consistent);
    reveal(rows_of);
    reveal(Seq::filter);
    let none = Seq::<EntryView>::empty();
    assert(none.filter(lies_in(root.id())).map_values(
        |e: EntryView| row_of(none, root.id(), e),
    ) =~= Seq::<RowView>::empty());
    assert(root.id() =~= root.id().subrange(0, root.id().len() as int));
}

/// Taking in other entries keeps a state consistent.
pub proof fn law_entries_keep_consistent(app: AppView, entries: Seq<EntryView>)
    requires
        app.consistent(),
        file_total(entries) <= u64::MAX,
    ensures
        app.with_entries(entries).consistent(),
{
    reveal(AppView::consistent);
    lemma_rebuilt(
        AppView {
            result: ResultView { entries, total_size: file_total(entries) as u64, ..app.result },
            ..app
        },
    );
}

proof fn lemma_moved(app: AppView)
    requires
        app.consistent(),
    ensures
        app.selected < usize::MAX,
        app.moved_up().consistent(),
        app.list_len() <= usize::MAX ==> app.moved_down().consistent(),
{
    reveal(AppView::consistent);
}

proof fn lemma_mark_toggled(app: AppView)
    requires
        app.consistent(),
    ensures
        app.mark_toggled().consistent(),
        app.mark_toggled().result == app.result,
{
    reveal(AppView::consistent);
}

proof fn lemma_confirming_delete(app: AppView, key: KeyCode)
    requires
        app.consistent(),
    ensures
        app.confirming_delete(key).consistent(),
        app.confirming_delete(key).result == app.result,
{
    reveal(AppView::consistent);
    reveal(AppView::confirming_delete);
}

proof fn lemma_sort_toggled(app: AppView)
    requires
        app.consistent(),
    ensures
        app.sort_toggled().consistent(),
{
    reveal(AppView::consistent);
    lemma_rebuilt(
        AppView {
            sort: match app.sort {
                SortKey::Size => SortKey::Name,
                SortKey::Name => SortKey::Size,
            },
            selected: 0,
            ..app
        },
    );
}

proof fn lemma_entered(app: AppView)
    requires
        app.consistent(),
    ensures
        app.entered().consistent(),
{
    reveal(AppView::consistent);
    if app.selected < app.rows.len() && app.rows[app.selected as int].is_dir {
        let entry = lemma_row_from_entry(
            app.result.entries,
            app.result.root.id(),
            app.cwd.id(),
            app.sort,
            app.selected as int,
        );
        lemma_child_within(entry.path.id(), app.result.root.id());
        lemma_rebuilt(AppView { cwd: app.rows[app.selected as int].path, selected: 0, ..app });
    }
}

proof fn lemma_gone_up(app: AppView)
    requires
        app.consistent(),
    ensures
        app.gone_up().consistent(),
{
    reveal(AppView::consistent);
    if app.cwd.id() != app.result.root.id() && has_parent(app.cwd.id()) {
        lemma_parent_within(app.cwd.id(), app.result.root.id());
        assert(app.cwd.parent().id() =~= app.cwd.id().drop_last());
        lemma_rebuilt(AppView { cwd: app.cwd.parent(), selected: 0, ..app });
    }
}

/// A key keeps a state consistent: above all, the directory that is shown never leaves the root,
/// and the highlighted item of the list exists.
#[verifier::rlimit(30)]
pub proof fn law_key_keeps_consistent(app: AppView, key: KeyCode)
    requires
        app.consistent(),
        app.list_len() <= usize::MAX,
    ensures
        app.key_pressed(key).consistent(),
{
    reveal(AppView::confirming_delete);
    reveal(AppView::confirming_quit);
    reveal(AppView::previewing);
    reveal(AppView::browsing);
    let next = app.key_pressed(key);
    assert(app.selected < usize::MAX && (app.view == View::Sizes ==> app.selected == 0
        || app.selected < app.rows.len())) by {
        reveal(AppView::consistent);
    }
    if app.delete_result is Some || app.confirm_delete || app.confirm_quit || app.show_plan {
        lemma_same_lists(app, next);
    } else if key == KeyCode::Char('q') || key == KeyCode::Char('?') || key == KeyCode::Esc
        || app.show_help {
        lemma_same_lists(app, next);
    } else if key == KeyCode::Tab {
        reveal(AppView::consistent);
    } else if key == KeyCode::Char('s') {
        lemma_sort_toggled(app);
    } else if key == KeyCode::Enter && app.view == View::Sizes {
        lemma_entered(app);
    } else if key == KeyCode::Backspace && app.view == View::Sizes {
        lemma_gone_up(app);
    } else {
        lemma_same_lists(app, next);
    }
}

proof fn lemma_key_keeps_entries(app: AppView, key: KeyCode)
    ensures
        app.key_pressed(key).result == app.result,
{
    reveal(AppView::confirming_delete);
    reveal(AppView::confirming_quit);
    reveal(AppView::previewing);
    reveal(AppView::browsing);
}

/// An item of sorted groups is one of the groups.
pub proof fn lemma_sorted_group(groups: Seq<GroupView>, i: int)
    requires
        0 <= i < stable_sort(groups, frees_more()).len(),
    ensures
        groups.contains(stable_sort(groups, frees_more())[i]),
{
    broadcast use vstd::seq_lib::group_to_multiset_ensures;

    law_stable_sort(groups, frees_more());
    let sorted = stable_sort(groups, frees_more());
    assert(sorted.contains(sorted[i]));
    assert(sorted.to_multiset().count(sorted[i]) > 0);
}

/// Sorted groups that can be counted are in order.
proof fn lemma_sort_orders(groups: Seq<GroupView>)
    requires
        forall|i: int|
            0 <= i < groups.len() ==> (#[trigger] groups[i]).paths.len() > 0
                && groups[i].reclaimable() <= u64::MAX,
    ensures
        most_freed_first(stable_sort(groups, frees_more())),
{
    let sorted = stable_sort(groups, frees_more());
    law_stable_sort(groups, frees_more());
    law_groups_by_freed(groups);
    assert forall|i: int| 0 <= i < sorted.len() implies (#[trigger] sorted[i]).paths.len() > 0
        && sorted[i].reclaimable() <= u64::MAX by {
        lemma_sorted_group(groups, i);
        let k = choose|k: int| 0 <= k < groups.len() && groups[k] == sorted[i];
        assert(groups[k].paths.len() > 0);
    }
}

/// Groups that lose paths can still be counted.
proof fn lemma_left_groups(groups: Seq<GroupView>, gone: Set<PathId>)
    requires
        most_freed_first(groups),
    ensures
        forall|i: int|
            0 <= i < groups_without(groups, gone).len() ==> (#[trigger] groups_without(
                groups,
                gone,
            )[i]).paths.len() > 0 && groups_without(groups, gone)[i].reclaimable() <= u64::MAX,
{
    let cut = groups.map_values(|g: GroupView| group_without(g, gone));
    let several = |g: GroupView| g.paths.len() >= 2;
    let left = groups_without(groups, gone);
    let kept = |p: PathView| !gone.contains(p.id());
    assert forall|i: int| 0 <= i < left.len() implies (#[trigger] left[i]).paths.len() > 0
        && left[i].reclaimable() <= u64::MAX by {
        cut.lemma_filter_pred(several, i);
        assert(left.contains(left[i]));
        cut.lemma_filter_contains_rev(several, left[i]);
        let h = choose|h: int| 0 <= h < cut.len() && cut[h] == left[i];
        let whole = groups[h];
        assert(left[i] == group_without(whole, gone));
        whole.paths.lemma_filter_len(kept);
        assert(left[i].reclaimable() <= whole.reclaimable()) by (nonlinear_arith)
            requires
                left[i].reclaimable() == left[i].size * (left[i].paths.len() - 1),
                whole.reclaimable() == whole.size * (whole.paths.len() - 1),
                left[i].size == whole.size,
                left[i].paths.len() <= whole.paths.len(),
                whole.size >= 0,
        ;
    }
}

/// The groups by the space that they free, the most first.
fn sort_groups(dups: &Vec<DuplicateGroup>) -> (sorted: Vec<DuplicateGroup>)
    requires
        forall|i: int|
            0 <= i < dups@.len() ==> (#[trigger] dups@[i])@.paths.len() > 0
                && dups@[i]@.reclaimable() <= u64::MAX,
    ensures
        groups_view(sorted@) == stable_sort(groups_view(dups@), frees_more()),
{
    let freed = freed_by_each(dups);
    let order = freed_order(dups, &freed);
    let ghost all = groups_view(dups@);
    let ghost wanted = stable_sort(all, frees_more());
    let mut sorted: Vec<DuplicateGroup> = Vec::new();
    for k in 0..order.len()
        invariant
            all == groups_view(dups@),
            wanted == order@.map_values(|i: usize| all[i as int]),
            forall|k: int| 0 <= k < order@.len() ==> #[trigger] order@[k] < dups@.len(),
            sorted@.len() == k,
            forall|j: int| 0 <= j < k ==> (#[trigger] sorted@[j])@ == wanted[j],
    {
        assert(wanted[k as int] == all[order@[k as int] as int]);
        sorted.push(dups[order[k]].clone());
    }
    assert(groups_view(sorted@) =~= wanted);
    sorted
}

impl App {
    /// The state at the start of a scan of `root`.
    pub fn new(root: FilePath) -> (app: App)
        ensures
            app.wf(),
            app@ == AppView::started(root@),
    {
        let app = App {
            result: ScanResult {
                root: root.clone(),
                entries: Vec::new(),
                total_size: 0,
                warnings: Vec::new(),
            },
            dir_sizes: PathSizes::new(),
            cwd: root,
            rows: Vec::new(),
            dups: Vec::new(),
            view: View::Sizes,
            sort: SortKey::Size,
            show_help: false,
            selected: 0,
            should_quit: false,
            scanning: true,
            scanned_count: 0,
            dups_ready: false,
            dup_focus: false,
            detail_cursor: 0,
            confirm_quit: false,
            marked: PathSet::new(),
            show_plan: false,
            mode: DeleteMode::Trash,
            confirm_delete: false,
            permanent_armed: false,
            request_delete: false,
            delete_result: None,
        };
        proof {
            reveal(dir_total);
            reveal(sizes_agree);
            assert(app@.result.entries =~= Seq::<EntryView>::empty());
            assert(app@.result.warnings =~= Seq::<ErrorView>::empty());
            assert(app@.rows =~= Seq::<RowView>::empty());
            assert(app@.dups =~= Seq::<GroupView>::empty());
            law_start_is_consistent(root@);
        }
        app
    }

    /// Makes the list anew and keeps the highlight on an item.
    fn rebuild_rows(&mut self)
        requires
            sizes_agree(
                old(self).dir_sizes,
                old(self)@.result.entries,
                old(self)@.result.root.id(),
            ),
        ensures
            final(self)@ == old(self)@.rebuilt(),
            final(self).dir_sizes == old(self).dir_sizes,
            final(self).selected < usize::MAX,
    {
        let rows = list_dir(
            &self.result.entries,
            &self.dir_sizes,
            Ghost(self.result@.root.id()),
            &self.cwd,
            self.sort,
        );
        if self.selected >= rows.len() {
            self.selected = if rows.len() == 0 {
                0
            } else {
                rows.len() - 1
            };
        }
        self.rows = rows;
    }

    /// Takes in entries: they are counted, and the list is made anew.
    #[verifier::rlimit(30)]
    pub fn add_entries(&mut self, batch: Vec<FileEntry>)
        requires
            old(self).wf(),
            file_total(old(self)@.result.entries + entries_view(batch@)) <= u64::MAX,
        ensures
            final(self).wf(),
            final(self)@ == old(self)@.added(entries_view(batch@)),
    {
        let ghost start = self@;
        let ghost more = entries_view(batch@);
        let ghost all = start.result.entries + more;
        let ghost root = start.result.root.id();
        let mut batch = batch;
        proof {
            reveal(sizes_agree);
            assert(start.result.entries + more.take(0) =~= start.result.entries);
            assert(start.result.total_size == file_total(start.result.entries)) by {
                reveal(AppView::consistent);
            }
            law_entries_keep_consistent(start, all);
        }
        for i in 0..batch.len()
            invariant
                more == entries_view(batch@),
                all == start.result.entries + more,
                root == start.result.root.id(),
                file_total(all) <= u64::MAX,
                self@ == (AppView {
                    result: ResultView {
                        total_size: file_total(start.result.entries + more.take(i as int)) as u64,
                        ..start.result
                    },
                    ..start
                }),
                forall|q: PathId| #[trigger]
                    self.dir_sizes.size_of(q) == dir_total(
                        start.result.entries + more.take(i as int),
                        root,
                        q,
                    ),
        {
            let entry = &batch[i];
            let ghost seen = start.result.entries + more.take(i as int);
            let ghost now = start.result.entries + more.take(i + 1);
            proof {
                reveal(dir_total);
                assert(now.drop_last() =~= seen);
                assert(now.last() == entry@);
                assert(all.take(seen.len() as int) =~= seen);
                assert(all.take(now.len() as int) =~= now);
                lemma_file_total_part(all, seen.len() as int);
                lemma_file_total_part(all, now.len() as int);
            }
            if entry.kind == EntryKind::File {
                proof {
                    assert forall|q: PathId| #[trigger] self.dir_sizes.size_of(q) + entry.size
                        <= u64::MAX by {
                        lemma_dir_total_part(seen, root, q);
                    }
                }
                self.result.total_size = self.result.total_size + entry.size;
                accumulate_dir_sizes(
                    &mut self.dir_sizes,
                    &self.result.root,
                    &entry.path,
                    entry.size,
                );
            }
        }
        assert(more.take(more.len() as int) =~= more);
        let ghost old_entries = self.result.entries@;
        let ghost old_batch = batch@;
        self.result.entries.append(&mut batch);
        proof {
            assert(entries_view(self.result.entries@) =~= entries_view(old_entries) + entries_view(
                old_batch,
            ));
            assert(self@.result.entries == all);
        }
        self.rebuild_rows();
    }

    /// Notes how many entries have been scanned.
    pub fn set_progress(&mut self, scanned: usize)
        requires
            old(self).wf(),
        ensures
            final(self).wf(),
            final(self)@ == (AppView { scanned_count: scanned as nat, ..old(self)@ }),
    {
        self.scanned_count = scanned;
        proof {
            reveal(AppView::consistent);
        }
    }

    /// Notes the end of the scan and its warnings.
    pub fn finish_scan(&mut self, warnings: Vec<ScanError>)
        requires
            old(self).wf(),
        ensures
            final(self).wf(),
            final(self)@ == (AppView {
                result: ResultView { warnings: errors_view(warnings@), ..old(self)@.result },
                scanning: false,
                ..old(self)@
            }).rebuilt(),
    {
        proof {
            reveal(AppView::consistent);
        }
        self.result.warnings = warnings;
        self.scanning = false;
        self.rebuild_rows();
    }

    /// Takes in the groups of duplicates, those that free the most first.
    pub fn set_dups(&mut self, dups: Vec<DuplicateGroup>)
        requires
            old(self).wf(),
            forall|i: int|
                0 <= i < dups@.len() ==> (#[trigger] dups@[i])@.paths.len() > 0
                    && dups@[i]@.reclaimable() <= u64::MAX,
        ensures
            final(self).wf(),
            final(self)@ == (AppView {
                dups: stable_sort(groups_view(dups@), frees_more()),
                dups_ready: true,
                ..old(self)@
            }),
    {
        proof {
            lemma_sort_orders(groups_view(dups@));
        }
        self.dups = sort_groups(&dups);
        self.dups_ready = true;
        proof {
            reveal(AppView::consistent);
        }
    }

    /// The size of the directory that is shown: that of all files in it. Of the root it is the
    /// total.
    pub fn cwd_size(&self) -> (size: u64)
        requires
            self.wf(),
        ensures
            size == dir_total(self@.result.entries, self@.result.root.id(), self@.cwd.id()),
            all_below_root(self@.result.entries, self@.result.root.id()) ==> size == file_total(
                self@.result.entries.filter(inside(self@.cwd.id())),
            ),
            all_below_root(self@.result.entries, self@.result.root.id()) && self@.cwd.id()
                == self@.result.root.id() ==> size == self@.result.total_size,
    {
        proof {
            reveal(sizes_agree);
            reveal(AppView::consistent);
            if all_below_root(self@.result.entries, self@.result.root.id()) {
                law_directory_size_is_file_total(
                    self@.result.entries,
                    self@.result.root.id(),
                    self@.cwd.id(),
                );
            }
        }
        self.dir_sizes.get(&self.cwd)
    }

    fn current_len(&self) -> (len: usize)
        ensures
            len == self@.list_len(),
    {
        match self.view {
            View::Sizes => self.rows.len(),
            View::Duplicates => self.dups.len(),
        }
    }

    /// One item up; the first one stays.
    #[verifier::rlimit(30)]
    pub fn move_up(&mut self)
        requires
            old(self).wf(),
        ensures
            final(self).wf(),
            final(self)@ == old(self)@.moved_up(),
    {
        let selected = if self.selected > 0 {
            self.selected - 1
        } else {
            0
        };
        self.selected = selected;
        proof {
            lemma_moved(old(self)@);
        }
    }

    /// One item down; the last one stays.
    pub fn move_down(&mut self)
        requires
            old(self).wf(),
        ensures
            final(self).wf(),
            final(self)@ == old(self)@.moved_down(),
    {
        let len = self.current_len();
        proof {
            lemma_moved(self@);
        }
        let selected = if self.selected + 1 < len {
            self.selected + 1
        } else {
            self.selected
        };
        self.selected = selected;
    }
}

impl App {
    /// Into the highlighted directory. On a file nothing changes.
    pub fn enter(&mut self)
        requires
            old(self).wf(),
        ensures
            final(self).wf(),
            final(self)@ == old(self)@.entered(),
    {
        if self.selected < self.rows.len() && self.rows[self.selected].is_dir {
            let ghost start = self@;
            proof {
                lemma_entered(start);
            }
            let at = self.selected;
            self.cwd = self.rows[at].path.clone();
            self.selected = 0;
            assert(self@ == (AppView {
                cwd: start.rows[start.selected as int].path,
                selected: 0,
                ..start
            }));
            self.rebuild_rows();
        }
    }

    /// Out of the directory, unless it is the root of the scan.
    pub fn go_up(&mut self)
        requires
            old(self).wf(),
        ensures
            final(self).wf(),
            final(self)@ == old(self)@.gone_up(),
    {
        proof {
            lemma_gone_up(self@);
        }
        if self.cwd.same(&self.result.root) {
            return;
        }
        if let Some(parent) = self.cwd.parent() {
            self.cwd = parent;
            self.selected = 0;
            self.rebuild_rows();
        }
    }

    /// The other view.
    fn toggle_view(&mut self)
        ensures
            final(self).dir_sizes == old(self).dir_sizes,
            final(self)@ == old(self)@.view_toggled(),
    {
        self.view = match self.view {
            View::Sizes => View::Duplicates,
            View::Duplicates => View::Sizes,
        };
        self.selected = 0;
        self.dup_focus = false;
        self.detail_cursor = 0;
    }

    fn selected_dup_paths(&self) -> (len: usize)
        ensures
            len == self@.group_len(),
    {
        if self.selected < self.dups.len() {
            self.dups[self.selected].paths.len()
        } else {
            0
        }
    }

    #[verifier::rlimit(30)]
    fn on_up(&mut self)
        ensures
            final(self).dir_sizes == old(self).dir_sizes,
            final(self)@ == old(self)@.on_up(),
    {
        let browsing = self.view == View::Duplicates && self.dup_focus;
        let selected = if !browsing && self.selected > 0 {
            self.selected - 1
        } else {
            self.selected
        };
        let cursor = if browsing && self.detail_cursor > 0 {
            self.detail_cursor - 1
        } else {
            0
        };
        self.selected = selected;
        self.detail_cursor = cursor;
    }

    fn on_down(&mut self)
        requires
            old(self).selected < usize::MAX,
        ensures
            final(self).dir_sizes == old(self).dir_sizes,
            final(self)@ == old(self)@.on_down(),
    {
        let browsing = self.view == View::Duplicates && self.dup_focus;
        let selected = if !browsing && self.selected + 1 < self.current_len() {
            self.selected + 1
        } else {
            self.selected
        };
        let len = self.selected_dup_paths();
        let cursor = if !browsing {
            0
        } else if len > 0 && self.detail_cursor < len - 1 {
            self.detail_cursor + 1
        } else {
            self.detail_cursor
        };
        self.selected = selected;
        self.detail_cursor = cursor;
    }

    fn on_enter(&mut self)
        requires
            old(self).wf(),
        ensures
            final(self).wf(),
            final(self)@ == old(self)@.on_enter(),
    {
        match self.view {
            View::Sizes => self.enter(),
            View::Duplicates => {
                proof {
                    reveal(AppView::consistent);
                }
                if self.selected_dup_paths() > 0 {
                    self.dup_focus = true;
                    self.detail_cursor = 0;
                }
            },
        }
    }

    fn on_back(&mut self)
        requires
            old(self).wf(),
        ensures
            final(self).wf(),
            final(self)@ == old(self)@.on_back(),
    {
        match self.view {
            View::Sizes => self.go_up(),
            View::Duplicates => {
                proof {
                    reveal(AppView::consistent);
                }
                self.dup_focus = false;
            },
        }
    }

    fn toggle_sort(&mut self)
        requires
            old(self).wf(),
        ensures
            final(self).wf(),
            final(self)@ == old(self)@.sort_toggled(),
    {
        proof {
            lemma_sort_toggled(self@);
        }
        self.sort = match self.sort {
            SortKey::Size => SortKey::Name,
            SortKey::Name => SortKey::Size,
        };
        self.selected = 0;
        self.rebuild_rows();
    }

    /// The file under the cursor.
    fn mark_target(&self) -> (target: Option<FilePath>)
        ensures
            self@.mark_target() == match target {
                Some(path) => Some(path@.id()),
                None => None,
            },
    {
        match self.view {
            View::Sizes => if self.selected < self.rows.len() && !self.rows[self.selected].is_dir {
                Some(self.rows[self.selected].path.clone())
            } else {
                None
            },
            View::Duplicates => if self.dup_focus && self.detail_cursor
                < self.selected_dup_paths() {
                Some(self.dups[self.selected].paths[self.detail_cursor].clone())
            } else {
                None
            },
        }
    }

    /// Marks the file under the cursor, or takes the mark away.
    pub fn toggle_mark(&mut self)
        requires
            old(self).wf(),
        ensures
            final(self).wf(),
            final(self)@ == old(self)@.mark_toggled(),
    {
        proof {
            lemma_mark_toggled(self@);
        }
        if let Some(path) = self.mark_target() {
            self.marked.toggle(path);
        }
    }

    /// A key while the deletion has to be confirmed. For good it has to be confirmed twice.
    pub fn handle_confirm_delete(&mut self, key: KeyCode)
        requires
            old(self).wf(),
        ensures
            final(self).wf(),
            final(self)@ == old(self)@.confirming_delete(key),
    {
        proof {
            lemma_confirming_delete(self@, key);
            reveal(AppView::confirming_delete);
        }
        let (confirm, armed, request) = match key {
            KeyCode::Char('n') | KeyCode::Esc => (false, false, self.request_delete),
            KeyCode::Char('y') | KeyCode::Enter => match self.mode {
                DeleteMode::Trash => (false, self.permanent_armed, true),
                DeleteMode::Permanent => if self.permanent_armed {
                    (false, false, true)
                } else {
                    (self.confirm_delete, true, self.request_delete)
                },
            },
            _ => if self.permanent_armed {
                (false, false, self.request_delete)
            } else {
                (self.confirm_delete, self.permanent_armed, self.request_delete)
            },
        };
        self.confirm_delete = confirm;
        self.permanent_armed = armed;
        self.request_delete = request;
    }

    /// A key while leaving has to be confirmed.
    fn handle_confirm_quit(&mut self, key: KeyCode)
        ensures
            final(self).dir_sizes == old(self).dir_sizes,
            final(self)@ == old(self)@.confirming_quit(key),
    {
        proof {
            reveal(AppView::confirming_quit);
        }
        let (quit, confirm) = match key {
            KeyCode::Char('y') | KeyCode::Enter => (true, self.confirm_quit),
            KeyCode::Char('n') | KeyCode::Esc => (self.should_quit, false),
            _ => (self.should_quit, self.confirm_quit),
        };
        self.should_quit = quit;
        self.confirm_quit = confirm;
    }

    /// A key while the preview of the deletion is shown. Nothing is deleted from here.
    fn handle_plan(&mut self, key: KeyCode)
        ensures
            final(self).dir_sizes == old(self).dir_sizes,
            final(self)@ == old(self)@.previewing(key),
    {
        proof {
            reveal(AppView::previewing);
        }
        let (show, confirm, armed) = match key {
            KeyCode::Enter => (false, true, false),
            KeyCode::Esc | KeyCode::Char('d') => (
                false,
                self.confirm_delete,
                self.permanent_armed,
            ),
            _ => (self.show_plan, self.confirm_delete, self.permanent_armed),
        };
        self.show_plan = show;
        self.confirm_delete = confirm;
        self.permanent_armed = armed;
    }

    /// The keys that also work while the help is shown.
    fn handle_help(&mut self, key: KeyCode)
        requires
            key == KeyCode::Char('q') || key == KeyCode::Char('?') || key == KeyCode::Esc,
        ensures
            final(self).dir_sizes == old(self).dir_sizes,
            final(self)@ == old(self)@.browsing(key),
    {
        proof {
            reveal(AppView::browsing);
        }
        let (quit, help, focus) = match key {
            KeyCode::Char('q') => (true, self.show_help, self.dup_focus),
            KeyCode::Char('?') => (self.confirm_quit, !self.show_help, self.dup_focus),
            _ => if self.show_help {
                (self.confirm_quit, false, self.dup_focus)
            } else if self.dup_focus {
                (self.confirm_quit, false, false)
            } else {
                (true, false, false)
            },
        };
        self.confirm_quit = quit;
        self.show_help = help;
        self.dup_focus = focus;
    }

    /// A key while a view is shown and nothing else.
    fn handle_view(&mut self, key: KeyCode)
        requires
            old(self).wf(),
            old(self).selected < usize::MAX,
            !old(self).show_help,
            key != KeyCode::Char('q') && key != KeyCode::Char('?') && key != KeyCode::Esc,
        ensures
            sizes_agree(
                final(self).dir_sizes,
                final(self)@.result.entries,
                final(self)@.result.root.id(),
            ),
            final(self)@ == old(self)@.browsing(key),
    {
        proof {
            reveal(AppView::browsing);
        }
        match key {
            KeyCode::Tab => self.toggle_view(),
            KeyCode::Char('s') => self.toggle_sort(),
            KeyCode::Char(' ') => self.toggle_mark(),
            KeyCode::Char('d') => {
                self.show_plan = true;
            },
            KeyCode::Up => self.on_up(),
            KeyCode::Down => self.on_down(),
            KeyCode::Enter => self.on_enter(),
            KeyCode::Backspace => self.on_back(),
            _ => {},
        }
    }

    /// A key while a view is shown, perhaps below the help.
    fn handle_browse(&mut self, key: KeyCode)
        requires
            old(self).wf(),
            old(self).selected < usize::MAX,
        ensures
            sizes_agree(
                final(self).dir_sizes,
                final(self)@.result.entries,
                final(self)@.result.root.id(),
            ),
            final(self)@ == old(self)@.browsing(key),
    {
        assert(self@.browsing(key).result == self@.result) by {
            reveal(AppView::browsing);
        }
        if key == KeyCode::Char('q') || key == KeyCode::Char('?') || key == KeyCode::Esc {
            self.handle_help(key);
        } else if self.show_help {
            assert(self@.browsing(key) == self@) by {
                reveal(AppView::browsing);
            }
        } else {
            self.handle_view(key);
        }
    }

    /// Takes in a key. What lies on top gets it first.
    pub fn handle_key(&mut self, key: KeyCode)
        requires
            old(self).wf(),
        ensures
            final(self).wf(),
            final(self)@ == old(self)@.key_pressed(key),
    {
        let ghost start = self@;
        proof {
            assert(self.rows.len() == start.rows.len() && self.dups.len() == start.dups.len());
            lemma_moved(start);
            law_key_keeps_consistent(start, key);
            lemma_key_keeps_entries(start, key);
        }
        if self.delete_result.is_some() {
            self.delete_result = None;
        } else if self.confirm_delete {
            self.handle_confirm_delete(key);
        } else if self.confirm_quit {
            self.handle_confirm_quit(key);
        } else if self.show_plan {
            self.handle_plan(key);
        } else {
            self.handle_browse(key);
        }
    }

    /// The preview of the deletion.
    pub fn delete_plan(&self) -> (plan: DeletePlan)
        requires
            size_total(self@.result.entries.filter(listed_in(self@.marked))) <= u64::MAX,
        ensures
            entries_view(plan.targets@) == self@.result.entries.filter(listed_in(self@.marked)),
            plan.reclaimable == size_total(entries_view(plan.targets@)),
    {
        DeletePlan::build(&self.marked, &self.result.entries)
    }

    /// What is deleted once it is confirmed.
    pub fn safe_deletion(&self) -> (safe: SafeDeletion)
        ensures
            entries_view(safe.targets@) == safe_targets(
                self@.marked,
                self@.result.entries,
                self@.dups,
                self@.result.root.id(),
            ),
            paths_view(safe.kept_for_safety@) == spared(
                path_ids(
                    self@.result.entries.filter(
                        deletable(self@.marked, self@.result.root.id()),
                    ),
                ),
                self@.dups,
            ),
    {
        plan_safe_deletion(&self.marked, &self.result.entries, &self.dups, &self.result.root)
    }
}

/// A part of the entries holds no more than all of them.
pub proof fn lemma_filter_total(entries: Seq<EntryView>, pred: spec_fn(EntryView) -> bool)
    ensures
        file_total(entries.filter(pred)) <= file_total(entries),
    decreases entries.len(),
{
    reveal(Seq::filter);
    if entries.len() > 0 {
        let rest = entries.drop_last();
        lemma_filter_total(rest, pred);
        assert(rest.filter(pred).push(entries.last()).drop_last() =~= rest.filter(pred));
    }
}

/// The total size of the files among entries, and the size of each directory.
fn count_entries(entries: &Vec<FileEntry>, root: &FilePath) -> (counts: (u64, PathSizes))
    requires
        file_total(entries_view(entries@)) <= u64::MAX,
    ensures
        counts.0 == file_total(entries_view(entries@)),
        sizes_agree(counts.1, entries_view(entries@), root@.id()),
{
    let ghost all = entries_view(entries@);
    let ghost r = root@.id();
    let mut total: u64 = 0;
    let mut sizes = PathSizes::new();
    proof {
        reveal(dir_total);
        reveal(sizes_agree);
    }
    for i in 0..entries.len()
        invariant
            all == entries_view(entries@),
            r == root@.id(),
            file_total(all) <= u64::MAX,
            total == file_total(all.take(i as int)),
            forall|q: PathId| #[trigger]
                sizes.size_of(q) == dir_total(all.take(i as int), r, q),
    {
        let entry = &entries[i];
        proof {
            reveal(dir_total);
            assert(all.take(i + 1).drop_last() =~= all.take(i as int));
            assert(all.take(i + 1).last() == entry@);
            lemma_file_total_part(all, i + 1);
        }
        if entry.kind == EntryKind::File {
            proof {
                assert forall|q: PathId| #[trigger] sizes.size_of(q) + entry.size
                    <= u64::MAX by {
                    lemma_dir_total_part(all.take(i as int), r, q);
                }
            }
            total = total + entry.size;
            accumulate_dir_sizes(&mut sizes, root, &entry.path, entry.size);
        }
    }
    assert(all.take(all.len() as int) =~= all);
    (total, sizes)
}

fn path_set(paths: &Vec<FilePath>) -> (set: PathSet)
    ensures
        set@ == id_set(paths_view(paths@)),
{
    let ghost all = paths_view(paths@);
    let ghost ids = all.map_values(|p: PathView| p.id());
    let mut set = PathSet::new();
    assert(set@ =~= ids.take(0).to_set());
    for i in 0..paths.len()
        invariant
            all == paths_view(paths@),
            ids == all.map_values(|p: PathView| p.id()),
            set@ == ids.take(i as int).to_set(),
    {
        set.insert(paths[i].clone());
        proof {
            assert(ids.take(i + 1) =~= ids.take(i as int).push(ids[i as int]));
            ids.take(i as int).lemma_push_to_set_commute(ids[i as int]);
        }
    }
    assert(ids.take(ids.len() as int) =~= ids);
    set
}

/// Takes paths out of a set.
fn unmark(marked: &mut PathSet, paths: &Vec<FilePath>)
    ensures
        final(marked)@ == old(marked)@.difference(id_set(paths_view(paths@))),
{
    let ghost start = marked@;
    let ghost all = paths_view(paths@);
    let ghost ids = all.map_values(|p: PathView| p.id());
    assert(start =~= start.difference(ids.take(0).to_set()));
    for i in 0..paths.len()
        invariant
            all == paths_view(paths@),
            ids == all.map_values(|p: PathView| p.id()),
            marked@ == start.difference(ids.take(i as int).to_set()),
    {
        marked.remove(&paths[i]);
        proof {
            assert(ids.take(i + 1) =~= ids.take(i as int).push(ids[i as int]));
            ids.take(i as int).lemma_push_to_set_commute(ids[i as int]);
            assert(marked@ =~= start.difference(ids.take(i + 1).to_set()));
        }
    }
    assert(ids.take(ids.len() as int) =~= ids);
}

/// The entries whose path is not in a set.
fn retain_entries(entries: Vec<FileEntry>, gone: &PathSet) -> (kept: Vec<FileEntry>)
    ensures
        entries_view(kept@) == entries_view(entries@).filter(not_in(gone@)),
{
    let ghost given = entries@;
    let ghost all = entries_view(given);
    let ghost pred = not_in(gone@);
    let mut kept: Vec<FileEntry> = Vec::new();
    proof {
        reveal(Seq::filter);
        assert(entries_view(kept@) =~= all.take(0).filter(pred));
    }
    for entry in it: entries
        invariant
            it.seq() == given,
            all == entries_view(given),
            pred == not_in(gone@),
            entries_view(kept@) == all.take(it.index() as int).filter(pred),
    {
        let ghost i = it.index() as int;
        proof {
            reveal(Seq::filter);
            assert(all.take(i + 1).drop_last() =~= all.take(i));
            assert(entry@ == all[i]);
        }
        if !gone.contains(&entry.path) {
            kept.push(entry);
            assert(entries_view(kept@) =~= all.take(i + 1).filter(pred));
        }
    }
    assert(all.take(all.len() as int) =~= all);
    kept
}

/// A group without the paths in a set.
fn retain_paths(group: DuplicateGroup, gone: &PathSet) -> (kept: DuplicateGroup)
    ensures
        kept@ == group_without(group@, gone@),
{
    let DuplicateGroup { hash, size, paths } = group;
    let ghost given = paths@;
    let ghost all = paths_view(given);
    let ghost pred = |p: PathView| !gone@.contains(p.id());
    let mut left: Vec<FilePath> = Vec::new();
    proof {
        reveal(Seq::filter);
        assert(paths_view(left@) =~= all.take(0).filter(pred));
    }
    for path in it: paths
        invariant
            it.seq() == given,
            all == paths_view(given),
            pred == (|p: PathView| !gone@.contains(p.id())),
            paths_view(left@) == all.take(it.index() as int).filter(pred),
    {
        let ghost i = it.index() as int;
        proof {
            reveal(Seq::filter);
            assert(all.take(i + 1).drop_last() =~= all.take(i));
            assert(path@ == all[i]);
        }
        if !gone.contains(&path) {
            left.push(path);
            assert(paths_view(left@) =~= all.take(i + 1).filter(pred));
        }
    }
    assert(all.take(all.len() as int) =~= all);
    DuplicateGroup { hash, size, paths: left }
}

/// Groups without the paths in a set; a group needs two copies to stay.
fn retain_groups(groups: Vec<DuplicateGroup>, gone: &PathSet) -> (kept: Vec<DuplicateGroup>)
    ensures
        groups_view(kept@) == groups_without(groups_view(groups@), gone@),
{
    let ghost given = groups@;
    let ghost all = groups_view(given).map_values(|g: GroupView| group_without(g, gone@));
    let ghost pred = |g: GroupView| g.paths.len() >= 2;
    let mut kept: Vec<DuplicateGroup> = Vec::new();
    proof {
        reveal(Seq::filter);
        assert(groups_view(kept@) =~= all.take(0).filter(pred));
    }
    for group in it: groups
        invariant
            it.seq() == given,
            all == groups_view(given).map_values(|g: GroupView| group_without(g, gone@)),
            pred == (|g: GroupView| g.paths.len() >= 2),
            groups_view(kept@) == all.take(it.index() as int).filter(pred),
    {
        let ghost i = it.index() as int;
        let left = retain_paths(group, gone);
        proof {
            reveal(Seq::filter);
            assert(all.take(i + 1).drop_last() =~= all.take(i));
            assert(left@ == all[i]);
        }
        if left.paths.len() >= 2 {
            kept.push(left);
            assert(groups_view(kept@) =~= all.take(i + 1).filter(pred));
        }
    }
    assert(all.take(all.len() as int) =~= all);
    kept
}

/// What is said of a deletion.
fn summarize(outcome: &DeleteOutcome) -> (text: String)
    ensures
        text@ == summary(outcome@),
{
    let mut text = "已删除 ".to_string();
    push_decimal(&mut text, outcome.deleted.len() as u64);
    text.append(" 个文件，释放 ");
    text.append(human_size(outcome.freed).as_str());
    if outcome.failed.len() > 0 {
        text.append("；");
        push_decimal(&mut text, outcome.failed.len() as u64);
        text.append(" 个失败（见界面）");
    }
    assert(text@ =~= summary(outcome@));
    text
}

/// A deletion keeps a state consistent.
pub proof fn law_deletion_keeps_consistent(app: AppView, outcome: OutcomeView)
    requires
        app.consistent(),
    ensures
        app.after_deletion(outcome).consistent(),
{
    let gone = id_set(outcome.deleted);
    let entries = app.result.entries.filter(not_in(gone));
    let left = AppView {
        marked: app.marked.difference(gone),
        dups: stable_sort(groups_without(app.dups, gone), frees_more()),
        ..app
    };
    assert(left.consistent() && file_total(app.result.entries) <= u64::MAX) by {
        reveal(AppView::consistent);
        lemma_left_groups(app.dups, gone);
        lemma_sort_orders(groups_without(app.dups, gone));
    }
    lemma_filter_total(app.result.entries, not_in(gone));
    law_entries_keep_consistent(left, entries);
    let counted_anew = left.with_entries(entries);
    assert(app.after_deletion(outcome).consistent()) by {
        reveal(AppView::consistent);
    }
}

impl App {
    /// Takes in the result of a deletion: what was deleted goes from the marks, the entries and
    /// the groups, the groups are in order again, and the result is shown.
    #[verifier::rlimit(30)]
    pub fn apply_delete_outcome(&mut self, outcome: DeleteOutcome)
        requires
            old(self).wf(),
        ensures
            final(self).wf(),
            final(self)@ == old(self)@.after_deletion(outcome@),
    {
        let ghost start = self@;
        let gone = path_set(&outcome.deleted);
        let ghost kept = start.result.entries.filter(not_in(gone@));
        proof {
            law_deletion_keeps_consistent(start, outcome@);
            assert(file_total(start.result.entries) <= u64::MAX) by {
                reveal(AppView::consistent);
            }
            lemma_filter_total(start.result.entries, not_in(gone@));
        }
        unmark(&mut self.marked, &outcome.deleted);
        let mut entries: Vec<FileEntry> = Vec::new();
        std::mem::swap(&mut entries, &mut self.result.entries);
        let entries = retain_entries(entries, &gone);
        let (total, sizes) = count_entries(&entries, &self.result.root);
        self.result.entries = entries;
        self.result.total_size = total;
        self.dir_sizes = sizes;
        let mut dups: Vec<DuplicateGroup> = Vec::new();
        std::mem::swap(&mut dups, &mut self.dups);
        let dups = retain_groups(dups, &gone);
        proof {
            assert(most_freed_first(start.dups)) by {
                reveal(AppView::consistent);
            }
            lemma_left_groups(start.dups, gone@);
            assert forall|i: int| 0 <= i < dups@.len() implies (#[trigger] dups@[i])@.paths.len()
                > 0 && dups@[i]@.reclaimable() <= u64::MAX by {
                assert(groups_view(dups@)[i] == dups@[i]@);
            }
        }
        self.dups = sort_groups(&dups);
        self.rebuild_rows();
        let len = self.selected_dup_paths();
        let cursor = if self.detail_cursor < len {
            self.detail_cursor
        } else if len == 0 {
            0
        } else {
            len - 1
        };
        self.detail_cursor = cursor;
        self.delete_result = Some(summarize(&outcome));
        self.show_plan = false;
        self.confirm_delete = false;
        self.permanent_armed = false;
    }
}

} // verus!
