use reclaim::actions::{DeleteMode, DeleteOutcome};
use reclaim::error::ScanError;
use reclaim::model::{DuplicateGroup, EntryKind, FileEntry};
use reclaim::path::{FilePath, PartKind, PathPart};
use reclaim::tui::app::{App, KeyCode, SortKey, View};
use std::path::{Component, Path};

fn path(text: &str) -> FilePath {
    let mut parts: Vec<PathPart> = Vec::new();
    for part in Path::new(text).components() {
        let kind = match part {
            Component::Prefix(_) => PartKind::Prefix,
            Component::RootDir => PartKind::RootDir,
            Component::CurDir => PartKind::CurDir,
            Component::ParentDir => PartKind::ParentDir,
            Component::Normal(_) => PartKind::Normal,
        };
        let joined = parts.is_empty() || parts[parts.len() - 1].kind == PartKind::RootDir;
        let lead = if joined { Vec::new() } else { vec![b'/'] };
        let name = part.as_os_str().as_encoded_bytes().to_vec();
        parts.push(PathPart { kind, name, lead });
    }
    FilePath { parts, tail: Vec::new() }
}

fn file(text: &str, size: u64) -> FileEntry {
    FileEntry { path: path(text), size, kind: EntryKind::File }
}

fn dir(text: &str) -> FileEntry {
    FileEntry { path: path(text), size: 0, kind: EntryKind::Dir }
}

fn app(entries: Vec<FileEntry>) -> App {
    let mut app = App::new(path("/root"));
    app.add_entries(entries);
    app.finish_scan(Vec::new());
    app
}

fn deep() -> App {
    app(vec![
        dir("/root/x"),
        dir("/root/x/y"),
        file("/root/x/y/f", 7),
        file("/root/x/g", 5),
        file("/root/h", 3),
    ])
}

fn names(app: &App) -> Vec<String> {
    app.rows.iter().map(|r| r.path.display()).collect()
}

#[test]
fn directories_count_all_files_below_up_to_the_root() {
    let mut app = deep();
    assert_eq!(app.cwd_size(), 15);
    assert_eq!(app.rows[0].size, 12);
    app.handle_key(KeyCode::Enter);
    assert_eq!(app.cwd_size(), 12);
    assert_eq!(names(&app), ["/root/x/y", "/root/x/g"]);
    app.handle_key(KeyCode::Enter);
    assert_eq!(app.cwd_size(), 7);
    assert_eq!(names(&app), ["/root/x/y/f"]);
}

#[test]
fn entering_and_leaving_shows_the_same_list() {
    let mut app = deep();
    let before = names(&app);
    app.handle_key(KeyCode::Enter);
    app.handle_key(KeyCode::Backspace);
    assert_eq!(names(&app), before);
    assert_eq!(app.selected, 0);
}

#[test]
fn backspace_never_leaves_the_root() {
    let mut app = deep();
    for _ in 0..5 {
        app.handle_key(KeyCode::Backspace);
    }
    assert_eq!(app.cwd, path("/root"));
}

#[test]
fn sorting_twice_shows_the_same_list() {
    let mut app = deep();
    let before = names(&app);
    app.handle_key(KeyCode::Char('s'));
    assert_eq!(names(&app), ["/root/h", "/root/x"]);
    app.handle_key(KeyCode::Char('s'));
    assert_eq!(app.sort, SortKey::Size);
    assert_eq!(names(&app), before);
}

#[test]
fn equal_sizes_keep_the_order_of_the_scan() {
    let app = app(vec![file("/root/b", 4), file("/root/a", 4), file("/root/c", 4)]);
    assert_eq!(names(&app), ["/root/b", "/root/a", "/root/c"]);
}

#[test]
fn batches_add_up_to_the_whole() {
    let entries = vec![dir("/root/x"), file("/root/x/g", 5), file("/root/h", 3)];
    let whole = app(entries.clone());
    let mut parts = App::new(path("/root"));
    for entry in entries {
        parts.add_entries(vec![entry]);
    }
    assert_eq!(parts.result.total_size, whole.result.total_size);
    assert_eq!(names(&parts), names(&whole));
    assert_eq!(parts.rows[0].size, whole.rows[0].size);
}

#[test]
fn progress_and_warnings_are_noted() {
    let mut app = App::new(path("/root"));
    app.set_progress(42);
    assert_eq!(app.scanned_count, 42);
    app.finish_scan(vec![ScanError::Tui("late".to_string())]);
    assert_eq!(app.result.warnings.len(), 1);
    assert!(!app.scanning);
}

#[test]
fn new_entries_keep_the_highlight_on_an_item() {
    let mut app = App::new(path("/root"));
    app.add_entries(vec![file("/root/a", 1), file("/root/b", 2)]);
    app.move_down();
    assert_eq!(app.selected, 1);
    app.add_entries(vec![file("/root/c", 3)]);
    assert_eq!(app.selected, 1);
    assert_eq!(app.rows[1].path, path("/root/b"));
}

#[test]
fn space_twice_restores_the_marks() {
    let mut app = app(vec![file("/root/a", 1)]);
    app.handle_key(KeyCode::Char(' '));
    assert_eq!(app.marked.len(), 1);
    app.handle_key(KeyCode::Char(' '));
    assert!(app.marked.is_empty());
}

#[test]
fn only_a_yes_leaves() {
    let keys = [
        KeyCode::Char('x'),
        KeyCode::Tab,
        KeyCode::Up,
        KeyCode::Down,
        KeyCode::Backspace,
        KeyCode::Other,
        KeyCode::Char('n'),
    ];
    for key in keys {
        let mut app = deep();
        app.handle_key(KeyCode::Char('q'));
        app.handle_key(key);
        assert!(!app.should_quit);
    }
    let mut app = deep();
    app.handle_key(KeyCode::Char('q'));
    app.handle_key(KeyCode::Enter);
    assert!(app.should_quit);
}

#[test]
fn other_keys_call_an_armed_deletion_off() {
    let mut app = deep();
    app.mode = DeleteMode::Permanent;
    app.handle_key(KeyCode::Char('d'));
    app.handle_key(KeyCode::Enter);
    app.handle_key(KeyCode::Enter);
    assert!(app.permanent_armed);
    app.handle_key(KeyCode::Down);
    assert!(!app.permanent_armed);
    assert!(!app.confirm_delete);
    assert!(!app.request_delete);
}

#[test]
fn other_keys_leave_the_first_question_open() {
    let mut app = deep();
    app.handle_key(KeyCode::Char('d'));
    app.handle_key(KeyCode::Enter);
    app.handle_key(KeyCode::Char('x'));
    assert!(app.confirm_delete);
    assert!(!app.request_delete);
}

#[test]
fn a_second_preview_starts_unarmed() {
    let mut app = deep();
    app.permanent_armed = true;
    app.handle_key(KeyCode::Char('d'));
    app.handle_key(KeyCode::Enter);
    assert!(app.confirm_delete);
    assert!(!app.permanent_armed);
}

#[test]
fn deletion_shrinks_directories_groups_and_marks() {
    let mut app = deep();
    app.set_dups(vec![
        DuplicateGroup {
            hash: [1; 32],
            size: 5,
            paths: vec![path("/root/x/g"), path("/root/h"), path("/root/x/y/f")],
        },
        DuplicateGroup {
            hash: [2; 32],
            size: 1,
            paths: vec![path("/root/x/g"), path("/root/h")],
        },
    ]);
    app.marked.insert(path("/root/x/g"));
    app.marked.insert(path("/root/h"));
    app.detail_cursor = 2;
    app.request_delete = true;
    app.apply_delete_outcome(DeleteOutcome {
        deleted: vec![path("/root/x/g")],
        freed: 5,
        failed: vec![(path("/root/h"), "denied".to_string())],
    });
    assert_eq!(app.result.total_size, 10);
    assert_eq!(app.rows[0].size, 7);
    assert_eq!(app.dups.len(), 1);
    assert_eq!(app.dups[0].paths, [path("/root/h"), path("/root/x/y/f")]);
    assert_eq!(app.detail_cursor, 1);
    assert_eq!(app.marked.len(), 1);
    assert!(app.marked.contains(&path("/root/h")));
    assert_eq!(
        app.delete_result,
        Some("已删除 1 个文件，释放 5 B；1 个失败（见界面）".to_string())
    );
}

#[test]
fn groups_come_sorted_by_freed_space() {
    let mut app = deep();
    let group = |size: u64, n: usize| DuplicateGroup {
        hash: [0; 32],
        size,
        paths: (0..n).map(|i| path(&format!("p{i}"))).collect(),
    };
    app.set_dups(vec![group(10, 2), group(4, 5), group(1, 2), group(16, 2)]);
    let sizes: Vec<u64> = app.dups.iter().map(|g| g.size).collect();
    assert_eq!(sizes, [4, 16, 10, 1]);
}

#[test]
fn the_help_leaves_the_view_alone() {
    let mut app = deep();
    app.handle_key(KeyCode::Char('?'));
    for key in [KeyCode::Tab, KeyCode::Char('d'), KeyCode::Char(' '), KeyCode::Enter] {
        app.handle_key(key);
    }
    assert_eq!(app.view, View::Sizes);
    assert!(!app.show_plan);
    assert!(app.marked.is_empty());
    assert_eq!(app.cwd, path("/root"));
    app.handle_key(KeyCode::Esc);
    assert!(!app.show_help);
    assert!(!app.confirm_quit);
}

#[test]
fn groups_are_in_order_again_after_a_deletion() {
    let copies = ["/root/a1", "/root/a2", "/root/a3"];
    let others = ["/root/b1", "/root/b2"];
    let group = |size: u64, paths: &[&str]| DuplicateGroup {
        hash: [size as u8; 32],
        size,
        paths: paths.iter().map(|p| path(p)).collect(),
    };
    let mut entries: Vec<FileEntry> = copies.iter().map(|p| file(p, 10)).collect();
    entries.extend(others.iter().map(|p| file(p, 15)));
    let mut app = app(entries);
    app.set_dups(vec![group(15, &others), group(10, &copies)]);
    assert_eq!(app.dups.iter().map(|g| g.size).collect::<Vec<u64>>(), [10, 15]);

    app.apply_delete_outcome(DeleteOutcome {
        deleted: vec![path("/root/a3")],
        freed: 10,
        failed: Vec::new(),
    });

    assert_eq!(app.dups.iter().map(|g| g.size).collect::<Vec<u64>>(), [15, 10]);
    assert_eq!(app.dups[1].paths, [path("/root/a1"), path("/root/a2")]);
}

#[test]
fn two_keys_decide_a_deletion_for_good() {
    let keys = [
        KeyCode::Char('y'),
        KeyCode::Enter,
        KeyCode::Char('n'),
        KeyCode::Esc,
        KeyCode::Char('x'),
        KeyCode::Up,
    ];
    let yes = |key: KeyCode| key == KeyCode::Char('y') || key == KeyCode::Enter;
    for first in keys {
        for second in keys {
            let mut app = app(vec![file("/root/f", 1)]);
            app.mode = DeleteMode::Permanent;
            app.handle_key(KeyCode::Char(' '));
            app.handle_key(KeyCode::Char('d'));
            app.handle_key(KeyCode::Enter);
            app.handle_key(first);
            app.handle_key(second);
            assert_eq!(app.request_delete, yes(first) && yes(second));
            if yes(first) {
                assert!(!app.confirm_delete && !app.permanent_armed);
            }
        }
    }
}

#[test]
fn going_in_and_up_shows_the_same_list() {
    let mut app = deep();
    let before = names(&app);
    app.enter();
    assert_eq!(app.cwd, path("/root/x"));
    app.go_up();
    assert_eq!(app.cwd, path("/root"));
    assert_eq!(names(&app), before);
    app.move_down();
    app.go_up();
    assert_eq!(app.cwd, path("/root"));
    assert_eq!(app.selected, 1);
}

#[test]
fn marking_twice_restores_the_marks() {
    let mut app = deep();
    app.toggle_mark();
    assert!(app.marked.is_empty());
    app.move_down();
    app.toggle_mark();
    assert!(app.marked.contains(&path("/root/h")));
    app.toggle_mark();
    assert!(app.marked.is_empty());
}

#[test]
fn a_deletion_for_good_is_confirmed_twice() {
    let mut app = deep();
    app.mode = DeleteMode::Permanent;
    app.confirm_delete = true;
    app.handle_confirm_delete(KeyCode::Char('y'));
    assert!(app.permanent_armed && !app.request_delete);
    app.handle_confirm_delete(KeyCode::Enter);
    assert!(app.request_delete && !app.confirm_delete && !app.permanent_armed);
}

#[test]
fn the_root_has_the_total_size() {
    let app = deep();
    assert_eq!(app.cwd_size(), app.result.total_size);
    assert_eq!(app.cwd_size(), 15);
}
