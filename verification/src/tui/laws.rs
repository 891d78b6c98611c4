//! What holds of the interactive interface, whatever keys are pressed.

use crate::actions::{DeleteMode, OutcomeView};
use crate::model::{file_total, EntryKind, EntryView, GroupView};
use crate::order::{law_sort_is_stable, law_sort_keeps_items, law_stable_sort};
use crate::path::{
    has_parent, lemma_path_order_total, path_less, within, PartKind, PathId, PathView,
};
use crate::report::{frees_more, size_text};
use crate::seqs::{lemma_filter_apart, lemma_filter_pair};
use crate::text::decimal;
use crate::tui::app::{
    all_below_root, below_root, counts_for, dir_total, group_without, groups_without, id_set,
    inside, law_deletion_keeps_consistent, law_key_keeps_consistent, lemma_filter_total,
    lemma_row_from_entry, lemma_row_order_ranks, lemma_sorted_group, lies_in, most_freed_first, not_in, row_of,
    row_order, rows_of, summary, AppView, KeyCode, RowView, SortKey, View,
};
use vstd::prelude::*;
use vstd::view::View as _;

verus! {

/// Whether a key says yes.
pub open spec fn says_yes(key: KeyCode) -> bool {
    key == KeyCode::Char('y') || key == KeyCode::Enter
}

/// Whether nothing lies on top of the view.
pub open spec fn uncovered(app: AppView) -> bool {
    app.delete_result is None && !app.confirm_delete && !app.confirm_quit && !app.show_plan
        && !app.show_help
}

/// The program is left only on a yes to the question whether to leave.
pub proof fn law_quit_is_confirmed(app: AppView, key: KeyCode)
    requires
        !app.should_quit,
        app.key_pressed(key).should_quit,
    ensures
        app.confirm_quit,
        says_yes(key),
{
    reveal(AppView::confirming_delete);
    reveal(AppView::confirming_quit);
    reveal(AppView::previewing);
    reveal(AppView::browsing);
}

/// A deletion is carried out only on a yes to the question whether to delete; for good only if
/// it was answered with yes before.
pub proof fn law_deletion_is_confirmed(app: AppView, key: KeyCode)
    requires
        !app.request_delete,
        app.key_pressed(key).request_delete,
    ensures
        app.confirm_delete,
        app.delete_result is None,
        says_yes(key),
        app.mode == DeleteMode::Permanent ==> app.permanent_armed,
{
    reveal(AppView::confirming_delete);
    reveal(AppView::confirming_quit);
    reveal(AppView::previewing);
    reveal(AppView::browsing);
}

/// The question whether to delete comes only from the preview, and then it has not been answered.
pub proof fn law_question_follows_preview(app: AppView, key: KeyCode)
    requires
        !app.confirm_delete,
        app.key_pressed(key).confirm_delete,
    ensures
        app.show_plan,
        key == KeyCode::Enter,
        !app.key_pressed(key).permanent_armed,
        app.key_pressed(key).request_delete == app.request_delete,
{
    reveal(AppView::confirming_delete);
    reveal(AppView::confirming_quit);
    reveal(AppView::previewing);
    reveal(AppView::browsing);
}

/// The first yes to a deletion for good does not delete: it only makes the second one count.
pub proof fn law_first_yes_only_arms(app: AppView, key: KeyCode)
    requires
        !app.permanent_armed,
        app.key_pressed(key).permanent_armed,
    ensures
        app.confirm_delete,
        says_yes(key),
        app.mode == DeleteMode::Permanent,
        app.key_pressed(key).request_delete == app.request_delete,
{
    reveal(AppView::confirming_delete);
    reveal(AppView::confirming_quit);
    reveal(AppView::previewing);
    reveal(AppView::browsing);
}

/// Once a deletion for good has been confirmed the first time, every key but a yes calls it off.
pub proof fn law_other_keys_disarm(app: AppView, key: KeyCode)
    requires
        app.delete_result is None,
        app.confirm_delete,
        app.permanent_armed,
        !says_yes(key),
    ensures
        !app.key_pressed(key).confirm_delete,
        !app.key_pressed(key).permanent_armed,
        app.key_pressed(key).request_delete == app.request_delete,
{
    reveal(AppView::confirming_delete);
}

/// No key changes what was scanned, the groups of duplicates or the way of deleting.
pub proof fn law_keys_change_no_data(app: AppView, key: KeyCode)
    ensures
        app.key_pressed(key).result == app.result,
        app.key_pressed(key).dups == app.dups,
        app.key_pressed(key).mode == app.mode,
{
    reveal(AppView::confirming_delete);
    reveal(AppView::confirming_quit);
    reveal(AppView::previewing);
    reveal(AppView::browsing);
}

/// Only the space key marks, and only where nothing covers the view.
pub proof fn law_only_space_marks(app: AppView, key: KeyCode)
    requires
        app.key_pressed(key).marked != app.marked,
    ensures
        key == KeyCode::Char(' '),
        uncovered(app),
        app.mark_target() is Some,
{
    reveal(AppView::confirming_delete);
    reveal(AppView::confirming_quit);
    reveal(AppView::previewing);
    reveal(AppView::browsing);
}

/// The space key twice leaves everything as it was.
pub proof fn law_space_twice(app: AppView)
    requires
        uncovered(app),
    ensures
        app.key_pressed(KeyCode::Char(' ')).key_pressed(KeyCode::Char(' ')) == app,
{
    reveal(AppView::browsing);
    let once = app.key_pressed(KeyCode::Char(' '));
    let twice = once.key_pressed(KeyCode::Char(' '));
    assert(once == app.mark_toggled());
    assert(once.mark_target() == app.mark_target());
    assert(twice.marked =~= app.marked);
}

/// The help swallows every key but those that close it or ask to leave.
pub proof fn law_help_swallows(app: AppView, key: KeyCode)
    requires
        app.show_help,
        app.delete_result is None && !app.confirm_delete && !app.confirm_quit && !app.show_plan,
        key != KeyCode::Char('?') && key != KeyCode::Esc && key != KeyCode::Char('q'),
    ensures
        app.key_pressed(key) == app,
{
    reveal(AppView::browsing);
}

/// The result of a deletion goes away on any key, which does nothing else.
pub proof fn law_result_is_dismissed(app: AppView, key: KeyCode)
    requires
        app.delete_result is Some,
    ensures
        app.key_pressed(key) == (AppView { delete_result: None, ..app }),
{
}

/// The directory that is shown never lies outside the root of the scan.
pub proof fn law_never_above_root(app: AppView, key: KeyCode)
    requires
        app.consistent(),
        app.list_len() <= usize::MAX,
    ensures
        within(app.key_pressed(key).cwd.id(), app.key_pressed(key).result.root.id()),
{
    law_key_keeps_consistent(app, key);
    reveal(AppView::consistent);
}

/// Moving up and down stays within the list of the view.
pub proof fn law_moves_stay_in_list(app: AppView)
    requires
        app.selected == 0 || app.selected < app.list_len(),
    ensures
        app.moved_up().selected == 0 || app.moved_up().selected < app.list_len(),
        app.moved_down().selected == 0 || app.moved_down().selected < app.list_len(),
        app.selected == 0 ==> app.moved_up() == app,
        app.selected + 1 >= app.list_len() ==> app.moved_down() == app,
{
}

/// Going into a directory and back shows the same list as before.
#[verifier::rlimit(30)]
pub proof fn law_enter_then_back(app: AppView)
    requires
        app.consistent(),
        uncovered(app),
        app.view == View::Sizes,
        app.selected < app.rows.len(),
        app.rows[app.selected as int].is_dir,
    ensures
        ({
            let back = app.key_pressed(KeyCode::Enter).key_pressed(KeyCode::Backspace);
            &&& back.cwd.id() == app.cwd.id()
            &&& back.rows == app.rows
            &&& back.selected == 0
        }),
{
    reveal(AppView::consistent);
    reveal(AppView::browsing);
    let root = app.result.root.id();
    let entry = lemma_row_from_entry(
        app.result.entries,
        root,
        app.cwd.id(),
        app.sort,
        app.selected as int,
    );
    let path = app.rows[app.selected as int].path;
    let inside = app.key_pressed(KeyCode::Enter);
    assert(inside == app.entered());
    assert(inside.cwd == path);
    assert(path.id() == entry.path.id());
    assert(root.len() <= app.cwd.id().len());
    assert(path.id().len() > root.len());
    assert(path.parent().id() =~= path.id().drop_last());
    let back = inside.key_pressed(KeyCode::Backspace);
    assert(back == inside.gone_up());
}

/// Going into a directory and up again shows the same list as before, whatever lies on top.
pub proof fn law_in_and_up(app: AppView)
    requires
        app.consistent(),
        app.selected < app.rows.len(),
        app.rows[app.selected as int].is_dir,
    ensures
        app.entered().gone_up().cwd.id() == app.cwd.id(),
        app.entered().gone_up().rows == app.rows,
        app.entered().gone_up().selected == 0,
{
    reveal(AppView::consistent);
    let root = app.result.root.id();
    let entry = lemma_row_from_entry(
        app.result.entries,
        root,
        app.cwd.id(),
        app.sort,
        app.selected as int,
    );
    let path = app.rows[app.selected as int].path;
    assert(app.entered().cwd == path);
    assert(path.id() == entry.path.id());
    assert(path.id().len() > root.len());
    assert(path.parent().id() =~= path.id().drop_last());
}

/// From the root of the scan there is no way up: nothing changes.
pub proof fn law_root_is_the_top(app: AppView)
    requires
        app.cwd.id() == app.result.root.id(),
    ensures
        app.gone_up() == app,
        uncovered(app) && app.view == View::Sizes ==> app.key_pressed(KeyCode::Backspace) == app,
{
    reveal(AppView::browsing);
}

/// Marking the file under the cursor adds it to the marked files, or takes it out; without a file
/// there nothing changes. Nothing else changes, and marking twice leaves everything as it was.
pub proof fn law_mark_toggles(app: AppView)
    ensures
        app.mark_toggled() == (AppView { marked: app.mark_toggled().marked, ..app }),
        match app.mark_target() {
            Some(id) => forall|q: PathId|
                app.mark_toggled().marked.contains(q) <==> (app.marked.contains(q) != (q == id)),
            None => app.mark_toggled() == app,
        },
        app.mark_toggled().mark_toggled() == app,
{
    let once = app.mark_toggled();
    assert(once.mark_target() == app.mark_target());
    assert(once.mark_toggled().marked =~= app.marked);
}

/// A deletion for good is carried out after two keys if and only if both say yes. Once the first
/// one does, the question is over with the second one, whatever it is.
pub proof fn law_two_keys_decide(app: AppView, first: KeyCode, second: KeyCode)
    requires
        app.mode == DeleteMode::Permanent,
        app.confirm_delete,
        app.delete_result is None,
        !app.permanent_armed,
        !app.request_delete,
    ensures
        ({
            let after = app.key_pressed(first).key_pressed(second);
            &&& after.request_delete <==> says_yes(first) && says_yes(second)
            &&& says_yes(first) ==> !after.confirm_delete && !after.permanent_armed
        }),
        ({
            let after = app.confirming_delete(first).confirming_delete(second);
            &&& after.request_delete <==> says_yes(first) && says_yes(second)
            &&& says_yes(first) ==> !after.confirm_delete && !after.permanent_armed
        }),
{
    reveal(AppView::confirming_delete);
    reveal(AppView::confirming_quit);
    reveal(AppView::previewing);
    reveal(AppView::browsing);
}

/// Switching the order twice shows the same list as before.
pub proof fn law_sort_twice(app: AppView)
    requires
        app.consistent(),
    ensures
        app.sort_toggled().sort_toggled().rows == app.rows,
        app.sort_toggled().sort_toggled().sort == app.sort,
{
    reveal(AppView::consistent);
}

/// Switching the view twice shows the same view as before.
pub proof fn law_view_twice(app: AppView)
    ensures
        app.view_toggled().view_toggled().view == app.view,
{
}

/// Entries that come in two batches are shown like all of them at once: only the highlight can
/// differ, and only where the first batch does not reach it.
pub proof fn law_batches_add_up(app: AppView, first: Seq<EntryView>, second: Seq<EntryView>)
    ensures
        app.added(first).added(second) == (AppView {
            selected: app.added(first).added(second).selected,
            ..app.added(first + second)
        }),
        app.selected < app.added(first).rows.len() ==> app.added(first).added(second) == app.added(
            first + second,
        ),
{
    assert(app.result.entries + first + second =~= app.result.entries + (first + second));
}

/// What was deleted is neither marked nor among the entries nor in a group, and a group that is
/// left has at least two copies.
pub proof fn law_deleted_are_gone(app: AppView, outcome: OutcomeView, path: PathView)
    requires
        outcome.deleted.contains(path),
    ensures
        !app.after_deletion(outcome).marked.contains(path.id()),
        forall|i: int|
            0 <= i < app.after_deletion(outcome).result.entries.len() ==> (
            #[trigger] app.after_deletion(outcome).result.entries[i]).path.id() != path.id(),
        forall|g: int|
            0 <= g < app.after_deletion(outcome).dups.len() ==> (#[trigger] app.after_deletion(
                outcome,
            ).dups[g]).paths.len() >= 2,
        forall|g: int, k: int|
            0 <= g < app.after_deletion(outcome).dups.len() && 0 <= k < app.after_deletion(
                outcome,
            ).dups[g].paths.len() ==> (#[trigger] app.after_deletion(
                outcome,
            ).dups[g].paths[k]).id() != path.id(),
{
    let gone = id_set(outcome.deleted);
    let next = app.after_deletion(outcome);
    let ids = outcome.deleted.map_values(|p: PathView| p.id());
    let d = choose|d: int| 0 <= d < outcome.deleted.len() && outcome.deleted[d] == path;
    assert(ids[d] == path.id());
    assert(gone.contains(path.id()));
    assert forall|i: int| 0 <= i < next.result.entries.len() implies (
    #[trigger] next.result.entries[i]).path.id() != path.id() by {
        app.result.entries.lemma_filter_pred(not_in(gone), i);
    }
    let cut = app.dups.map_values(|g: GroupView| group_without(g, gone));
    let several = |g: GroupView| g.paths.len() >= 2;
    let left = cut.filter(several);
    assert(left == groups_without(app.dups, gone));
    assert forall|g: int| 0 <= g < next.dups.len() implies (#[trigger] next.dups[g]).paths.len()
        >= 2 by {
        lemma_sorted_group(left, g);
        cut.lemma_filter_contains_rev(several, next.dups[g]);
        let f = choose|f: int| 0 <= f < left.len() && left[f] == next.dups[g];
        cut.lemma_filter_pred(several, f);
    }
    assert forall|g: int, k: int|
        0 <= g < next.dups.len() && 0 <= k < next.dups[g].paths.len() implies (
    #[trigger] next.dups[g].paths[k]).id() != path.id() by {
        lemma_sorted_group(left, g);
        cut.lemma_filter_contains_rev(several, next.dups[g]);
        let h = choose|h: int| 0 <= h < cut.len() && cut[h] == next.dups[g];
        let kept = |p: PathView| !gone.contains(p.id());
        assert(cut[h] == group_without(app.dups[h], gone));
        app.dups[h].paths.lemma_filter_pred(kept, k);
    }
}

/// The groups that free the most come first, and neither a key nor a deletion changes that.
pub proof fn law_groups_stay_in_order(app: AppView, key: KeyCode, outcome: OutcomeView)
    requires
        app.consistent(),
        app.list_len() <= usize::MAX,
    ensures
        most_freed_first(app.dups),
        most_freed_first(app.key_pressed(key).dups),
        most_freed_first(app.after_deletion(outcome).dups),
{
    law_key_keeps_consistent(app, key);
    law_deletion_keeps_consistent(app, outcome);
    reveal(AppView::consistent);
}

/// For a file below the root a directory counts its size if and only if it lies at or below the
/// root and above the file.
pub proof fn law_directories_above_count(file: PathId, root: PathId, dir: PathId)
    requires
        below_root(file, root),
    ensures
        counts_for(file, root, dir) <==> within(file, dir) && dir.len() < file.len() && within(
            dir,
            root,
        ),
    decreases file.len(),
{
    let parent = file.drop_last();
    assert(file.take(file.len() as int) =~= file);
    assert(has_parent(file));
    assert(root =~= parent.subrange(0, root.len() as int)) by {
        assert(root == file.subrange(0, root.len() as int));
    }
    assert(parent =~= file.subrange(0, parent.len() as int));
    if parent.len() == root.len() {
        assert(parent =~= root);
        if within(file, dir) && dir.len() < file.len() && within(dir, root) {
            assert(dir.len() == root.len());
            assert(dir =~= root);
        }
        assert(root.subrange(0, root.len() as int) =~= root);
    } else {
        assert(parent != root);
        assert forall|k: int| root.len() < k <= parent.len() implies has_parent(
            #[trigger] parent.take(k),
        ) by {
            assert(parent.take(k) =~= file.take(k));
            assert(has_parent(file.take(k)));
        }
        law_directories_above_count(parent, root, dir);
        if within(file, dir) && dir.len() < file.len() {
            if dir.len() == parent.len() {
                assert(dir =~= parent);
            } else {
                assert(dir =~= parent.subrange(0, dir.len() as int));
            }
        }
        if within(parent, dir) {
            assert(dir =~= file.subrange(0, dir.len() as int));
        }
    }
}

/// The size of a directory is the total size of all files in it, at any depth; that of the root
/// is the total size of all files.
pub proof fn law_directory_size_is_file_total(
    entries: Seq<EntryView>,
    root: PathId,
    dir: PathId,
)
    requires
        all_below_root(entries, root),
        within(dir, root),
    ensures
        dir_total(entries, root, dir) == file_total(entries.filter(inside(dir))),
        dir == root ==> dir_total(entries, root, dir) == file_total(entries),
    decreases entries.len(),
{
    reveal(dir_total);
    reveal(Seq::filter);
    if entries.len() > 0 {
        let rest = entries.drop_last();
        let file = entries.last().path.id();
        assert(all_below_root(rest, root)) by {
            assert forall|i: int| 0 <= i < rest.len() implies below_root(
                (#[trigger] rest[i]).path.id(),
                root,
            ) by {
                assert(entries[i] == rest[i]);
            }
        }
        law_directory_size_is_file_total(rest, root, dir);
        assert(below_root(entries[entries.len() - 1].path.id(), root));
        law_directories_above_count(file, root, dir);
        if within(file, dir) && file.len() == dir.len() {
            assert(file =~= file.subrange(0, dir.len() as int));
        }
        let kept = rest.filter(inside(dir));
        assert(kept.push(entries.last()).drop_last() =~= kept);
    }
}

/// The keys for up and down move the highlight by one, within the groups' files while those of a
/// group are browsed and within the list of the view otherwise. At either end it stays. In the list
/// a group is looked at from its first file again. Nothing else changes.
pub proof fn law_up_and_down(app: AppView)
    requires
        uncovered(app),
    ensures
        ({
            let up = app.key_pressed(KeyCode::Up);
            let down = app.key_pressed(KeyCode::Down);
            let files = app.view == View::Duplicates && app.dup_focus;
            let len = if app.view == View::Sizes {
                app.rows.len()
            } else {
                app.dups.len()
            };
            &&& up == (AppView { selected: up.selected, detail_cursor: up.detail_cursor, ..app })
            &&& down == (AppView {
                selected: down.selected,
                detail_cursor: down.detail_cursor,
                ..app
            })
            &&& !files ==> {
                &&& up.detail_cursor == 0 && down.detail_cursor == 0
                &&& app.selected > 0 ==> up.selected == app.selected - 1
                &&& app.selected == 0 ==> up.selected == 0
                &&& app.selected + 1 < len ==> down.selected == app.selected + 1
                &&& app.selected + 1 >= len ==> down.selected == app.selected
                &&& app.moved_up() == (AppView { selected: up.selected, ..app })
                &&& app.moved_down() == (AppView { selected: down.selected, ..app })
            }
            &&& files ==> {
                let n = if app.selected < app.dups.len() {
                    app.dups[app.selected as int].paths.len()
                } else {
                    0
                };
                &&& up.selected == app.selected && down.selected == app.selected
                &&& app.detail_cursor > 0 ==> up.detail_cursor == app.detail_cursor - 1
                &&& app.detail_cursor == 0 ==> up.detail_cursor == 0
                &&& app.detail_cursor + 1 < n ==> down.detail_cursor == app.detail_cursor + 1
                &&& app.detail_cursor + 1 >= n ==> down.detail_cursor == app.detail_cursor
            }
        }),
{
    reveal(AppView::browsing);
}

/// Moving the highlight of the list does the same in either view, whatever lies on top.
pub proof fn law_moves(app: AppView)
    ensures
        app.moved_up() == (AppView { selected: app.moved_up().selected, ..app }),
        app.moved_down() == (AppView { selected: app.moved_down().selected, ..app }),
        app.selected > 0 ==> app.moved_up().selected == app.selected - 1,
        app.selected == 0 ==> app.moved_up().selected == 0,
        app.view == View::Sizes ==> app.list_len() == app.rows.len(),
        app.view == View::Duplicates ==> app.list_len() == app.dups.len(),
        app.selected + 1 < app.list_len() ==> app.moved_down().selected == app.selected + 1,
        app.selected + 1 >= app.list_len() ==> app.moved_down().selected == app.selected,
{
}

/// What the keys do that act on the view as a whole: `?` shows the help, `q` asks whether to leave,
/// `d` shows the preview, tab shows the other view from its start, and escape leaves the files of a
/// group or, outside, asks whether to leave.
pub proof fn law_keys_of_the_view(app: AppView)
    requires
        uncovered(app),
    ensures
        app.key_pressed(KeyCode::Char('?')) == (AppView { show_help: true, ..app }),
        app.key_pressed(KeyCode::Char('q')) == (AppView { confirm_quit: true, ..app }),
        app.key_pressed(KeyCode::Char('d')) == (AppView { show_plan: true, ..app }),
        app.view == View::Sizes ==> app.key_pressed(KeyCode::Tab) == (AppView {
            view: View::Duplicates,
            selected: 0,
            dup_focus: false,
            detail_cursor: 0,
            ..app
        }),
        app.view == View::Duplicates ==> app.key_pressed(KeyCode::Tab) == (AppView {
            view: View::Sizes,
            selected: 0,
            dup_focus: false,
            detail_cursor: 0,
            ..app
        }),
        app.dup_focus ==> app.key_pressed(KeyCode::Esc) == (AppView { dup_focus: false, ..app }),
        !app.dup_focus ==> app.key_pressed(KeyCode::Esc) == (AppView {
            confirm_quit: true,
            ..app
        }),
{
    reveal(AppView::browsing);
}

/// Keys without a meaning change nothing in an uncovered view.
pub proof fn law_other_keys(app: AppView, key: KeyCode)
    requires
        uncovered(app),
        key is Char || key is Other,
        key != KeyCode::Char('q') && key != KeyCode::Char('?') && key != KeyCode::Char('d'),
        key != KeyCode::Char('s') && key != KeyCode::Char(' '),
    ensures
        app.key_pressed(key) == app,
{
    reveal(AppView::browsing);
}

/// The help is closed by `?` and by escape; `q` asks whether to leave.
pub proof fn law_help_is_closed(app: AppView)
    requires
        app.show_help,
        app.delete_result is None && !app.confirm_delete && !app.confirm_quit && !app.show_plan,
    ensures
        app.key_pressed(KeyCode::Char('?')) == (AppView { show_help: false, ..app }),
        app.key_pressed(KeyCode::Esc) == (AppView { show_help: false, ..app }),
        app.key_pressed(KeyCode::Char('q')) == (AppView { confirm_quit: true, ..app }),
{
    reveal(AppView::browsing);
}

/// The question whether to leave: a yes leaves, `n` and escape take it back, and any other key
/// leaves it open.
pub proof fn law_leaving(app: AppView, key: KeyCode)
    requires
        app.delete_result is None && !app.confirm_delete && app.confirm_quit,
    ensures
        key == KeyCode::Char('y') || key == KeyCode::Enter ==> app.key_pressed(key) == (AppView {
            should_quit: true,
            ..app
        }),
        key == KeyCode::Char('n') || key == KeyCode::Esc ==> app.key_pressed(key) == (AppView {
            confirm_quit: false,
            ..app
        }),
        key != KeyCode::Char('y') && key != KeyCode::Enter && key != KeyCode::Char('n') && key
            != KeyCode::Esc ==> app.key_pressed(key) == app,
{
    reveal(AppView::confirming_quit);
}

/// The preview: enter goes on to the question whether to delete, escape and `d` close it, and any
/// other key leaves it open.
pub proof fn law_previewing(app: AppView, key: KeyCode)
    requires
        app.delete_result is None && !app.confirm_delete && !app.confirm_quit && app.show_plan,
    ensures
        key == KeyCode::Enter ==> app.key_pressed(key) == (AppView {
            show_plan: false,
            confirm_delete: true,
            permanent_armed: false,
            ..app
        }),
        key == KeyCode::Esc || key == KeyCode::Char('d') ==> app.key_pressed(key) == (AppView {
            show_plan: false,
            ..app
        }),
        key != KeyCode::Enter && key != KeyCode::Esc && key != KeyCode::Char('d')
            ==> app.key_pressed(key) == app,
{
    reveal(AppView::previewing);
}

/// The question whether to delete: `n` and escape take it back. A yes asks for the deletion at once
/// where files go to the trash; for good it arms the deletion, and the second yes asks for it. Any
/// other key leaves the question open, unless the deletion was armed: then it is called off.
pub proof fn law_deleting(app: AppView, key: KeyCode)
    requires
        app.confirm_delete,
    ensures
        app.delete_result is None ==> app.key_pressed(key) == app.confirming_delete(key),
        key == KeyCode::Char('n') || key == KeyCode::Esc ==> app.confirming_delete(key) == (
        AppView { confirm_delete: false, permanent_armed: false, ..app }),
        says_yes(key) <==> key == KeyCode::Char('y') || key == KeyCode::Enter,
        says_yes(key) && app.mode == DeleteMode::Trash ==> app.confirming_delete(key) == (AppView {
            confirm_delete: false,
            request_delete: true,
            ..app
        }),
        says_yes(key) && app.mode == DeleteMode::Permanent && !app.permanent_armed
            ==> app.confirming_delete(key) == (AppView { permanent_armed: true, ..app }),
        says_yes(key) && app.mode == DeleteMode::Permanent && app.permanent_armed
            ==> app.confirming_delete(key) == (AppView {
            confirm_delete: false,
            permanent_armed: false,
            request_delete: true,
            ..app
        }),
        !says_yes(key) && key != KeyCode::Char('n') && key != KeyCode::Esc && !app.permanent_armed
            ==> app.confirming_delete(key) == app,
        !says_yes(key) && app.permanent_armed ==> app.confirming_delete(key) == (AppView {
            confirm_delete: false,
            permanent_armed: false,
            ..app
        }),
{
    reveal(AppView::confirming_delete);
}

/// The space key marks the highlighted file, or takes its mark away: in the list of sizes any item
/// but a directory, among the duplicates the highlighted file of the group that is browsed. Elsewhere
/// it does nothing.
pub proof fn law_space_marks(app: AppView, q: PathId)
    requires
        uncovered(app),
    ensures
        ({
            let next = app.key_pressed(KeyCode::Char(' '));
            let row = app.rows[app.selected as int];
            let group = app.dups[app.selected as int];
            let file = group.paths[app.detail_cursor as int];
            let in_list = app.view == View::Sizes && app.selected < app.rows.len() && !row.is_dir;
            let in_group = app.view == View::Duplicates && app.dup_focus && app.selected
                < app.dups.len() && app.detail_cursor < group.paths.len();
            &&& next == app.mark_toggled()
            &&& next == (AppView { marked: next.marked, ..app })
            &&& in_list ==> (next.marked.contains(q) <==> (app.marked.contains(q) != (q
                == row.path.id())))
            &&& in_group ==> (next.marked.contains(q) <==> (app.marked.contains(q) != (q
                == file.id())))
            &&& !in_list && !in_group ==> next == app
        }),
{
    reveal(AppView::browsing);
}

/// The enter key goes into the highlighted directory, whose list is shown from its start, and does
/// nothing on anything else. Among the duplicates it starts browsing the files of the highlighted
/// group.
pub proof fn law_enter(app: AppView)
    requires
        uncovered(app),
    ensures
        ({
            let next = app.key_pressed(KeyCode::Enter);
            let row = app.rows[app.selected as int];
            let on_dir = app.selected < app.rows.len() && row.is_dir;
            let on_group = app.selected < app.dups.len()
                && app.dups[app.selected as int].paths.len() > 0;
            &&& app.view == View::Sizes ==> next == app.entered()
            &&& on_dir ==> app.entered() == (AppView {
                cwd: row.path,
                selected: 0,
                rows: rows_of(
                    app.result.entries,
                    app.result.root.id(),
                    row.path.id(),
                    app.sort,
                ),
                ..app
            })
            &&& !on_dir ==> app.entered() == app
            &&& app.view == View::Duplicates && on_group ==> next == (AppView {
                dup_focus: true,
                detail_cursor: 0,
                ..app
            })
            &&& app.view == View::Duplicates && !on_group ==> next == app
        }),
{
    reveal(AppView::browsing);
}

/// The backspace key goes up to the directory that holds the one shown, whose list is shown from its
/// start, but not above the root of the scan. Among the duplicates it stops browsing the files of a
/// group.
pub proof fn law_backspace(app: AppView)
    requires
        uncovered(app),
    ensures
        ({
            let next = app.key_pressed(KeyCode::Backspace);
            let cwd = app.cwd.id();
            let named = cwd.len() > 0 && cwd.last().kind != PartKind::Prefix && cwd.last().kind
                != PartKind::RootDir;
            let up = app.gone_up();
            &&& app.view == View::Sizes ==> next == up
            &&& cwd == app.result.root.id() || !named ==> up == app
            &&& cwd != app.result.root.id() && named ==> {
                &&& up == (AppView { cwd: up.cwd, rows: up.rows, selected: 0, ..app })
                &&& up.cwd.id() == cwd.drop_last()
                &&& up.rows == rows_of(
                    app.result.entries,
                    app.result.root.id(),
                    cwd.drop_last(),
                    app.sort,
                )
            }
            &&& app.view == View::Duplicates ==> next == (AppView { dup_focus: false, ..app })
        }),
{
    reveal(AppView::browsing);
    assert(app.cwd.id().len() > 0 ==> app.cwd.parent().id() =~= app.cwd.id().drop_last());
}

/// The key `s` switches between the order by size and that by name; the list is shown from its start.
pub proof fn law_sort_key(app: AppView)
    requires
        uncovered(app),
    ensures
        ({
            let next = app.key_pressed(KeyCode::Char('s'));
            &&& next == (AppView { sort: next.sort, rows: next.rows, selected: 0, ..app })
            &&& next.sort != app.sort
            &&& next.rows == rows_of(
                app.result.entries,
                app.result.root.id(),
                app.cwd.id(),
                next.sort,
            )
        }),
{
    reveal(AppView::browsing);
}

/// Where the scan starts: the root is shown, by size, from the start of its empty list; the scan is
/// running, files go to the trash, nothing is marked, and nothing lies on top.
pub proof fn law_start(root: PathView)
    ensures
        ({
            let app = AppView::started(root);
            &&& uncovered(app) && !app.should_quit && !app.request_delete && !app.permanent_armed
            &&& app.cwd == root && app.result.root == root
            &&& app.result.entries.len() == 0 && app.result.total_size == 0
            &&& app.result.warnings.len() == 0
            &&& app.rows.len() == 0 && app.dups.len() == 0
            &&& app.view == View::Sizes && app.sort == SortKey::Size
            &&& app.selected == 0 && app.detail_cursor == 0 && !app.dup_focus
            &&& app.scanning && app.scanned_count == 0 && !app.dups_ready
            &&& app.mode == DeleteMode::Trash
            &&& forall|q: PathId| !app.marked.contains(q)
        }),
{
}

/// Whether an entry makes an item of the list of a directory: it lies directly in it, and the item
/// has its path, tells whether it is a directory, and gives its own size, or the size of all in it.
pub open spec fn is_row_of(
    row: RowView,
    entry: EntryView,
    entries: Seq<EntryView>,
    root: PathId,
    cwd: PathId,
) -> bool {
    &&& entry.path.id().len() == cwd.len() + 1
    &&& entry.path.id() == cwd.push(entry.path.id()[cwd.len() as int])
    &&& entry.path.id().last().kind != PartKind::Prefix
    &&& entry.path.id().last().kind != PartKind::RootDir
    &&& row.path == entry.path
    &&& entry.kind == EntryKind::Dir ==> row.is_dir && row.size == dir_total(
        entries,
        root,
        entry.path.id(),
    )
    &&& entry.kind != EntryKind::Dir ==> !row.is_dir && row.size == entry.size
}

/// Whether a list has an item for the entry.
pub open spec fn lists(
    rows: Seq<RowView>,
    entry: EntryView,
    entries: Seq<EntryView>,
    root: PathId,
    cwd: PathId,
) -> bool {
    exists|r: int| 0 <= r < rows.len() && is_row_of(#[trigger] rows[r], entry, entries, root, cwd)
}

/// Whether the item stems from one of the entries.
pub open spec fn is_listed(
    row: RowView,
    entries: Seq<EntryView>,
    root: PathId,
    cwd: PathId,
) -> bool {
    exists|i: int|
        0 <= i < entries.len() && is_row_of(row, #[trigger] entries[i], entries, root, cwd)
}

/// Whether two items stem from two entries of which the first came in first.
pub open spec fn came_before(a: RowView, b: RowView, entries: Seq<EntryView>) -> bool {
    exists|i: int, j: int|
        0 <= i < j < entries.len() && (#[trigger] entries[i]).path == a.path && (
        #[trigger] entries[j]).path == b.path
}

/// The list of a directory has an item for each entry that lies directly in it, and no other. The
/// items come by size, the largest first, or by path; those of which neither comes first stand as
/// their entries came in.
pub proof fn law_rows(entries: Seq<EntryView>, root: PathId, cwd: PathId, sort: SortKey)
    ensures
        ({
            let rows = rows_of(entries, root, cwd, sort);
            &&& forall|r: int|
                0 <= r < rows.len() ==> is_listed(#[trigger] rows[r], entries, root, cwd)
            &&& forall|i: int|
                0 <= i < entries.len() && (#[trigger] entries[i]).path.id().len() == cwd.len() + 1
                    && entries[i].path.id().take(cwd.len() as int) == cwd
                    && entries[i].path.id().last().kind != PartKind::Prefix
                    && entries[i].path.id().last().kind != PartKind::RootDir ==> lists(
                    rows,
                    entries[i],
                    entries,
                    root,
                    cwd,
                )
            &&& rows.len() == entries.filter(
                |e: EntryView|
                    e.path.id().len() > 0 && e.path.id().drop_last() == cwd
                        && e.path.id().last().kind != PartKind::Prefix
                        && e.path.id().last().kind != PartKind::RootDir,
            ).len()
            &&& sort == SortKey::Size ==> forall|a: int, b: int|
                0 <= a < b < rows.len() ==> (#[trigger] rows[a]).size >= (#[trigger] rows[b]).size
                    && (rows[a].size == rows[b].size ==> came_before(rows[a], rows[b], entries))
            &&& sort == SortKey::Name ==> forall|a: int, b: int|
                0 <= a < b < rows.len() ==> path_less(
                    (#[trigger] rows[a]).path.id(),
                    (#[trigger] rows[b]).path.id(),
                ) || (rows[a].path.id() == rows[b].path.id() && came_before(
                    rows[a],
                    rows[b],
                    entries,
                ))
        }),
{
    reveal(rows_of);
    lemma_path_order_total();
    let rows = rows_of(entries, root, cwd, sort);
    let inside = entries.filter(lies_in(cwd));
    let to_row = |e: EntryView| row_of(entries, root, e);
    let unsorted = inside.map_values(to_row);
    let before = row_order(sort);
    lemma_row_order_ranks(sort);
    law_stable_sort(unsorted, before);
    assert forall|r: int| 0 <= r < rows.len() implies is_listed(
        #[trigger] rows[r],
        entries,
        root,
        cwd,
    ) by {
        let entry = lemma_row_from_entry(entries, root, cwd, sort, r);
        let i = choose|i: int| 0 <= i < entries.len() && entries[i] == entry;
        assert(entry.path.id() =~= cwd.push(entry.path.id()[cwd.len() as int]));
        assert(is_row_of(rows[r], entries[i], entries, root, cwd));
    }
    assert forall|i: int|
        0 <= i < entries.len() && (#[trigger] entries[i]).path.id().len() == cwd.len() + 1
            && entries[i].path.id().take(cwd.len() as int) == cwd
            && entries[i].path.id().last().kind != PartKind::Prefix
            && entries[i].path.id().last().kind != PartKind::RootDir implies lists(
        rows,
        entries[i],
        entries,
        root,
        cwd,
    ) by {
        let entry = entries[i];
        let id = entry.path.id();
        assert(id.drop_last() =~= id.take(cwd.len() as int));
        assert(lies_in(cwd)(entry));
        entries.lemma_filter_contains(lies_in(cwd), i);
        let k = choose|k: int| 0 <= k < inside.len() && inside[k] == entry;
        assert(unsorted[k] == to_row(entry));
        law_sort_keeps_items(unsorted, before, to_row(entry));
        assert(unsorted.contains(to_row(entry)));
        let r = choose|r: int| 0 <= r < rows.len() && rows[r] == to_row(entry);
        assert(id =~= cwd.push(id[cwd.len() as int]));
        assert(is_row_of(rows[r], entry, entries, root, cwd));
    }
    let directly = |e: EntryView|
        e.path.id().len() > 0 && e.path.id().drop_last() == cwd && e.path.id().last().kind
            != PartKind::Prefix && e.path.id().last().kind != PartKind::RootDir;
    assert(directly =~= lies_in(cwd));
    law_sort_keeps_items(unsorted, before, arbitrary());
    assert forall|a: int, b: int|
        0 <= a < b < rows.len() && !before(rows[a], rows[b]) implies came_before(
        #[trigger] rows[a],
        #[trigger] rows[b],
        entries,
    ) by {
        assert(!before(rows[b], rows[a]));
        lemma_equals_in_order(entries, root, cwd, sort, a, b);
    }
    assert forall|a: int, b: int| 0 <= a < b < rows.len() implies !before(
        #[trigger] rows[b],
        #[trigger] rows[a],
    ) by {}
}

proof fn lemma_equals_in_order(
    entries: Seq<EntryView>,
    root: PathId,
    cwd: PathId,
    sort: SortKey,
    a: int,
    b: int,
)
    requires
        0 <= a < b < rows_of(entries, root, cwd, sort).len(),
        ({
            let rows = rows_of(entries, root, cwd, sort);
            !row_order(sort)(rows[a], rows[b]) && !row_order(sort)(rows[b], rows[a])
        }),
    ensures
        ({
            let rows = rows_of(entries, root, cwd, sort);
            came_before(rows[a], rows[b], entries)
        }),
{
    reveal(rows_of);
    let rows = rows_of(entries, root, cwd, sort);
    let inside = entries.filter(lies_in(cwd));
    let unsorted = inside.map_values(|e: EntryView| row_of(entries, root, e));
    let before = row_order(sort);
    lemma_row_order_ranks(sort);
    let x = rows[a];
    let like = |y: RowView| !before(x, y) && !before(y, x);
    law_sort_is_stable(unsorted, before, x);
    let (m, n) = lemma_filter_pair(rows, like, a, b);
    let (p, q) = lemma_filter_apart(unsorted, like, m, n);
    let (i, j) = lemma_filter_apart(entries, lies_in(cwd), p, q);
    assert(entries[i].path == rows[a].path && entries[j].path == rows[b].path);
}

/// Taking in entries puts them behind those that were there, counts all files, and makes the list
/// anew; the highlight stays where it was as far as the list reaches. Nothing else changes.
pub proof fn law_entries_are_taken_in(app: AppView, batch: Seq<EntryView>)
    requires
        file_total(app.result.entries + batch) <= u64::MAX,
    ensures
        ({
            let next = app.added(batch);
            let rows = rows_of(
                app.result.entries + batch,
                app.result.root.id(),
                app.cwd.id(),
                app.sort,
            );
            &&& next == (AppView {
                result: next.result,
                rows,
                selected: next.selected,
                ..app
            })
            &&& next.result.entries == app.result.entries + batch
            &&& next.result.total_size == file_total(app.result.entries + batch)
            &&& next.result.root == app.result.root
            &&& next.result.warnings == app.result.warnings
            &&& app.selected < rows.len() ==> next.selected == app.selected
            &&& app.selected >= rows.len() > 0 ==> next.selected == rows.len() - 1
            &&& rows.len() == 0 ==> next.selected == 0
        }),
{
}

/// Whether one of the deleted paths is this one.
pub open spec fn is_gone(deleted: Seq<PathView>, id: PathId) -> bool {
    exists|d: int| 0 <= d < deleted.len() && (#[trigger] deleted[d]).id() == id
}

/// The paths that a deletion leaves, in order.
pub open spec fn not_gone(paths: Seq<PathView>, deleted: Seq<PathView>) -> Seq<PathView> {
    paths.filter(|p: PathView| !is_gone(deleted, p.id()))
}

/// Whether a group is what a deletion leaves of one of the groups.
pub open spec fn is_left_of(
    group: GroupView,
    groups: Seq<GroupView>,
    deleted: Seq<PathView>,
) -> bool {
    exists|g: int|
        0 <= g < groups.len() && group == (GroupView {
            paths: not_gone((#[trigger] groups[g]).paths, deleted),
            ..groups[g]
        })
}

proof fn lemma_gone_set(deleted: Seq<PathView>)
    ensures
        forall|q: PathId| #[trigger] id_set(deleted).contains(q) <==> is_gone(deleted, q),
{
    let ids = deleted.map_values(|p: PathView| p.id());
    assert forall|q: PathId| #[trigger] id_set(deleted).contains(q) <==> is_gone(deleted, q) by {
        if is_gone(deleted, q) {
            let d = choose|d: int| 0 <= d < deleted.len() && (#[trigger] deleted[d]).id() == q;
            assert(ids[d] == q);
        }
        if id_set(deleted).contains(q) {
            let d = choose|d: int| 0 <= d < ids.len() && ids[d] == q;
            assert(deleted[d].id() == q);
        }
    }
}

/// A deletion takes the marks from what was deleted and from nothing else. It changes neither the
/// root, the warnings, the directory shown, the view, the order, the way of deleting nor how far the
/// scan is; the preview and the question are closed, and the list is that of the entries left.
pub proof fn law_deletion_leaves_the_rest(app: AppView, outcome: OutcomeView, q: PathId)
    ensures
        ({
            let next = app.after_deletion(outcome);
            let rows = rows_of(
                next.result.entries,
                app.result.root.id(),
                app.cwd.id(),
                app.sort,
            );
            &&& next.marked.contains(q) <==> app.marked.contains(q) && !is_gone(outcome.deleted, q)
            &&& next == (AppView {
                result: next.result,
                rows,
                dups: next.dups,
                marked: next.marked,
                selected: next.selected,
                detail_cursor: next.detail_cursor,
                delete_result: next.delete_result,
                show_plan: false,
                confirm_delete: false,
                permanent_armed: false,
                ..app
            })
            &&& next.result.root == app.result.root
            &&& next.result.warnings == app.result.warnings
            &&& app.selected < rows.len() ==> next.selected == app.selected
            &&& app.selected >= rows.len() > 0 ==> next.selected == rows.len() - 1
            &&& rows.len() == 0 ==> next.selected == 0
            &&& next.selected < next.dups.len() ==> {
                let len = next.dups[next.selected as int].paths.len();
                &&& app.detail_cursor < len ==> next.detail_cursor == app.detail_cursor
                &&& app.detail_cursor >= len > 0 ==> next.detail_cursor == len - 1
            }
            &&& next.selected >= next.dups.len() ==> next.detail_cursor == 0
        }),
{
    lemma_gone_set(outcome.deleted);
}

/// The entries that a deletion leaves are those that were not deleted, in order, and the total is
/// that of the files among them.
pub proof fn law_entries_left(app: AppView, outcome: OutcomeView)
    requires
        file_total(app.result.entries) <= u64::MAX,
    ensures
        app.after_deletion(outcome).result.entries == app.result.entries.filter(
            |e: EntryView| !is_gone(outcome.deleted, e.path.id()),
        ),
        app.after_deletion(outcome).result.total_size == file_total(
            app.after_deletion(outcome).result.entries,
        ),
{
    lemma_gone_set(outcome.deleted);
    let gone = id_set(outcome.deleted);
    assert((|e: EntryView| !is_gone(outcome.deleted, e.path.id())) =~= not_in(gone));
    lemma_filter_total(app.result.entries, not_in(gone));
}

/// A group stays without what was deleted, if two copies are left at least, and only such groups
/// stay; those that free the most come first.
pub proof fn law_groups_left(app: AppView, outcome: OutcomeView, g: int)
    requires
        0 <= g < app.dups.len(),
    ensures
        ({
            let next = app.after_deletion(outcome);
            let paths = not_gone(app.dups[g].paths, outcome.deleted);
            &&& paths.len() >= 2 ==> next.dups.contains((GroupView { paths, ..app.dups[g] }))
            &&& next.dups.len() == app.dups.filter(
                |group: GroupView| not_gone(group.paths, outcome.deleted).len() >= 2,
            ).len()
            &&& forall|h: int|
                0 <= h < next.dups.len() ==> (#[trigger] next.dups[h]).paths.len() >= 2
                    && is_left_of(next.dups[h], app.dups, outcome.deleted)
            &&& forall|h: int, k: int|
                0 <= h < k < next.dups.len() ==> (#[trigger] next.dups[h]).reclaimable() >= (
                #[trigger] next.dups[k]).reclaimable()
        }),
{
    lemma_gone_set(outcome.deleted);
    let gone = id_set(outcome.deleted);
    let deleted = outcome.deleted;
    let next = app.after_deletion(outcome);
    let cut_one = |group: GroupView| group_without(group, gone);
    let cut = app.dups.map_values(cut_one);
    let several = |group: GroupView| group.paths.len() >= 2;
    let left = cut.filter(several);
    assert((|p: PathView| !is_gone(deleted, p.id())) =~= (|p: PathView| !gone.contains(p.id())));
    assert(left == groups_without(app.dups, gone));
    law_stable_sort(left, frees_more());
    assert(cut[g] == group_without(app.dups[g], gone));
    if cut[g].paths.len() >= 2 {
        cut.lemma_filter_contains(several, g);
    }
    law_sort_keeps_items(left, frees_more(), cut[g]);
    lemma_filter_after_map(app.dups, cut_one, several);
    assert((|group: GroupView| several(cut_one(group))) =~= (|group: GroupView|
        not_gone(group.paths, deleted).len() >= 2));
    assert forall|h: int| 0 <= h < next.dups.len() implies (#[trigger] next.dups[h]).paths.len()
        >= 2 && is_left_of(next.dups[h], app.dups, deleted) by {
        lemma_sorted_group(left, h);
        let f = choose|f: int| 0 <= f < left.len() && left[f] == next.dups[h];
        cut.lemma_filter_pred(several, f);
        cut.lemma_filter_contains_rev(several, next.dups[h]);
        let k = choose|k: int| 0 <= k < cut.len() && cut[k] == next.dups[h];
        assert(cut[k] == group_without(app.dups[k], gone));
    }
}

/// A filter behind a mapping leaves as many items as one in front of it.
proof fn lemma_filter_after_map<A, B>(s: Seq<A>, f: spec_fn(A) -> B, p: spec_fn(B) -> bool)
    ensures
        s.map_values(f).filter(p).len() == s.filter(|x: A| p(f(x))).len(),
    decreases s.len(),
{
    reveal(Seq::filter);
    if s.len() > 0 {
        lemma_filter_after_map(s.drop_last(), f, p);
        assert(s.map_values(f).drop_last() =~= s.drop_last().map_values(f));
    }
}

/// What is said of a deletion: how many files were deleted and how much space that freed, and, only
/// where there are any, how many could not be deleted.
pub proof fn law_deletion_is_summed_up(app: AppView, outcome: OutcomeView)
    ensures
        ({
            let text = app.after_deletion(outcome).delete_result->Some_0;
            let done = "已删除 "@ + decimal(outcome.deleted.len()) + " 个文件，释放 "@ + size_text(
                outcome.freed,
            );
            &&& app.after_deletion(outcome).delete_result is Some
            &&& outcome.failed.len() == 0 ==> text == done
            &&& outcome.failed.len() > 0 ==> text == done + "；"@ + decimal(outcome.failed.len())
                + " 个失败（见界面）"@
        }),
{
    let text = summary(outcome);
    let done = "已删除 "@ + decimal(outcome.deleted.len()) + " 个文件，释放 "@ + size_text(
        outcome.freed,
    );
    if outcome.failed.len() == 0 {
        assert(text =~= done);
    } else {
        assert(text =~= done + "；"@ + decimal(outcome.failed.len()) + " 个失败（见界面）"@);
    }
}

} // verus!
