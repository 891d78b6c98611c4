use reclaim::actions::{DeleteMode, DeleteOutcome};
use reclaim::model::{DuplicateGroup, EntryKind, FileEntry};
use reclaim::path::{FilePath, PartKind, PathPart};
use reclaim::tui::app::{App, KeyCode, SortKey, View};
use std::path::{Component, Path};

fn path(text: &str) -> FilePath {
    let mut parts: Vec<PathPart> = Vec::new();
    for part in Path::new(text).components() {
        let kind = match part {
            Component::Prefix(_) => PartKind::Prefix,
            Component::RootDir => PartKind::RootDir,
            Component::CurDir => PartKind::CurDir,
            Component::ParentDir => PartKind::ParentDir,
            Component::Normal(_) => PartKind::Normal,
        };
        let joined = parts.is_empty() || parts[parts.len() - 1].kind == PartKind::RootDir;
        let lead = if joined { Vec::new() } else { vec![b'/'] };
        let name = part.as_os_str().as_encoded_bytes().to_vec();
        parts.push(PathPart { kind, name, lead });
    }
    FilePath { parts, tail: Vec::new() }
}

fn file(text: &str, size: u64) -> FileEntry {
    FileEntry { path: path(text), size, kind: EntryKind::File }
}

fn dir(text: &str) -> FileEntry {
    FileEntry { path: path(text), size: 0, kind: EntryKind::Dir }
}

fn finished(root: &str, entries: Vec<FileEntry>) -> App {
    let mut app = App::new(path(root));
    app.add_entries(entries);
    app.finish_scan(Vec::new());
    app
}

fn app_with(sizes: &[u64]) -> App {
    let entries = sizes
        .iter()
        .enumerate()
        .map(|(i, &size)| file(&format!("/root/f{i}"), size))
        .collect();
    finished("/root", entries)
}

fn nested_app() -> App {
    finished(
        "/root",
        vec![
            file("/root/a.txt", 10),
            dir("/root/sub"),
            file("/root/sub/b.txt", 20),
            file("/root/sub/c.txt", 30),
        ],
    )
}

#[test]
fn starts_in_scanning_state() {
    let app = App::new(path("/root"));
    assert!(app.scanning);
    assert!(app.result.entries.is_empty());
    assert!(app.rows.is_empty());
    assert!(!app.dups_ready);
}

#[test]
fn streaming_accumulates_then_finishes() {
    let mut app = App::new(path("/root"));
    app.add_entries(vec![file("/root/a", 10), file("/root/b", 30)]);
    app.add_entries(vec![file("/root/c", 20)]);
    assert!(app.scanning);
    assert_eq!(app.result.entries.len(), 3);
    assert_eq!(app.result.total_size, 60);
    assert_eq!(app.rows.len(), 3);
    assert_eq!(app.rows[0].size, 30);

    app.finish_scan(Vec::new());
    assert!(!app.scanning);
}

#[test]
fn set_dups_marks_ready_and_sorts() {
    let mut app = app_with(&[1]);
    assert!(!app.dups_ready);
    let dups = vec![
        DuplicateGroup {
            hash: [0u8; 32],
            size: 10,
            paths: vec![path("a"), path("b")],
        },
        DuplicateGroup {
            hash: [1u8; 32],
            size: 100,
            paths: vec![path("c"), path("d")],
        },
    ];
    app.set_dups(dups);
    assert!(app.dups_ready);
    assert_eq!(app.dups[0].size, 100);
}

#[test]
fn rows_sorted_desc_and_start_at_top() {
    let app = app_with(&[10, 30, 20]);
    assert_eq!(app.selected, 0);
    assert_eq!(app.rows[0].size, 30);
    assert_eq!(app.rows[2].size, 10);
}

#[test]
fn navigation_clamps_at_both_ends() {
    let mut app = app_with(&[1, 2, 3]);
    app.move_up();
    assert_eq!(app.selected, 0);
    app.move_down();
    app.move_down();
    app.move_down();
    assert_eq!(app.selected, 2);
    app.move_up();
    assert_eq!(app.selected, 1);
}

#[test]
fn navigation_on_empty_is_safe() {
    let mut app = app_with(&[]);
    app.move_down();
    app.move_up();
    assert_eq!(app.selected, 0);
}

#[test]
fn tab_switches_view_and_resets_selected() {
    let mut app = app_with(&[1, 2, 3]);
    app.move_down();
    app.handle_key(KeyCode::Tab);
    assert_eq!(app.view, View::Duplicates);
    assert_eq!(app.selected, 0);
    app.handle_key(KeyCode::Tab);
    assert_eq!(app.view, View::Sizes);
}

#[test]
fn sort_toggle_orders_by_name() {
    let mut app = app_with(&[10, 30, 20]);
    app.handle_key(KeyCode::Char('s'));
    assert_eq!(app.sort, SortKey::Name);
    assert_eq!(app.rows[0].path, path("/root/f0"));
    assert_eq!(app.rows[1].path, path("/root/f1"));
    assert_eq!(app.selected, 0);
}

#[test]
fn help_overlay_toggles_and_blocks_nav() {
    let mut app = app_with(&[1, 2, 3]);
    app.handle_key(KeyCode::Char('?'));
    assert!(app.show_help);
    app.handle_key(KeyCode::Down);
    assert_eq!(app.selected, 0);
    app.handle_key(KeyCode::Char('?'));
    app.handle_key(KeyCode::Down);
    assert_eq!(app.selected, 1);
}

#[test]
fn enter_descends_into_selected_dir() {
    let mut app = nested_app();
    assert_eq!(app.rows.len(), 2);
    assert!(app.rows[0].is_dir);
    assert_eq!(app.rows[0].size, 50);

    app.handle_key(KeyCode::Enter);
    assert_eq!(app.cwd, path("/root/sub"));
    assert_eq!(app.selected, 0);
    assert_eq!(app.rows.len(), 2);
    assert_eq!(app.rows[0].size, 30);
}

#[test]
fn backspace_returns_to_parent_and_clamps_at_root() {
    let mut app = nested_app();
    app.handle_key(KeyCode::Enter);
    app.move_down();
    app.handle_key(KeyCode::Backspace);
    assert_eq!(app.cwd, path("/root"));
    assert_eq!(app.selected, 0);
    app.handle_key(KeyCode::Backspace);
    assert_eq!(app.cwd, path("/root"));
}

#[test]
fn enter_on_file_is_noop() {
    let mut app = nested_app();
    app.move_down();
    assert!(!app.rows[app.selected].is_dir);
    let before = app.cwd.clone();
    app.handle_key(KeyCode::Enter);
    assert_eq!(app.cwd, before);
}

#[test]
fn dir_aggregate_size_is_shown() {
    let app = nested_app();
    let sub = app.rows.iter().find(|r| r.is_dir).expect("找得到 sub 目录");
    assert_eq!(sub.size, 50);
}

#[test]
fn q_asks_confirmation_then_quits() {
    let mut app = app_with(&[1]);
    app.handle_key(KeyCode::Char('q'));
    assert!(app.confirm_quit);
    assert!(!app.should_quit);

    app.handle_key(KeyCode::Char('n'));
    assert!(!app.confirm_quit);
    assert!(!app.should_quit);

    app.handle_key(KeyCode::Char('q'));
    app.handle_key(KeyCode::Char('y'));
    assert!(app.should_quit);
}

#[test]
fn esc_asks_confirmation_and_can_cancel() {
    let mut app = app_with(&[1]);
    app.handle_key(KeyCode::Esc);
    assert!(app.confirm_quit);
    assert!(!app.should_quit);

    app.handle_key(KeyCode::Esc);
    assert!(!app.confirm_quit);
    assert!(!app.should_quit);
}

#[test]
fn confirm_overlay_swallows_other_keys() {
    let mut app = app_with(&[1, 2, 3]);
    app.move_down();
    app.handle_key(KeyCode::Char('q'));
    app.handle_key(KeyCode::Down);
    assert_eq!(app.selected, 1);
    assert!(app.confirm_quit);
}

#[test]
fn space_toggles_mark_on_file_in_sizes() {
    let mut app = app_with(&[10, 20, 30]);
    let path = app.rows[app.selected].path.clone();
    app.handle_key(KeyCode::Char(' '));
    assert!(app.marked.contains(&path));
    app.handle_key(KeyCode::Char(' '));
    assert!(!app.marked.contains(&path));
}

#[test]
fn space_ignores_directories() {
    let mut app = nested_app();
    assert!(app.rows[0].is_dir);
    app.handle_key(KeyCode::Char(' '));
    assert!(app.marked.is_empty());
}

#[test]
fn space_marks_current_copy_in_focused_duplicates() {
    let mut app = app_with(&[1]);
    app.set_dups(vec![group(10, &["a", "b", "c"])]);
    app.handle_key(KeyCode::Tab);
    app.handle_key(KeyCode::Enter);
    app.handle_key(KeyCode::Char(' '));
    assert!(app.marked.contains(&path("a")));
    app.handle_key(KeyCode::Down);
    app.handle_key(KeyCode::Char(' '));
    assert!(app.marked.contains(&path("b")));
    assert_eq!(app.marked.len(), 2);
}

#[test]
fn d_opens_plan_overlay_and_can_close() {
    let mut app = app_with(&[1]);
    app.handle_key(KeyCode::Char('d'));
    assert!(app.show_plan);
    app.handle_key(KeyCode::Down);
    assert!(app.show_plan);
    app.handle_key(KeyCode::Esc);
    assert!(!app.show_plan);
    assert!(!app.should_quit);
}

#[test]
fn trash_delete_requests_after_single_y() {
    let mut app = app_with(&[10]);
    app.handle_key(KeyCode::Char(' '));
    app.handle_key(KeyCode::Char('d'));
    assert!(app.show_plan);
    app.handle_key(KeyCode::Enter);
    assert!(app.confirm_delete);
    assert!(!app.show_plan);
    app.handle_key(KeyCode::Char('y'));
    assert!(app.request_delete);
    assert!(!app.confirm_delete);
}

#[test]
fn permanent_delete_needs_double_y() {
    let mut app = app_with(&[10]);
    app.mode = DeleteMode::Permanent;
    app.handle_key(KeyCode::Char(' '));
    app.handle_key(KeyCode::Char('d'));
    app.handle_key(KeyCode::Enter);
    app.handle_key(KeyCode::Char('y'));
    assert!(app.permanent_armed);
    assert!(!app.request_delete);
    app.handle_key(KeyCode::Char('y'));
    assert!(app.request_delete);
}

#[test]
fn delete_confirm_n_cancels() {
    let mut app = app_with(&[10]);
    app.handle_key(KeyCode::Char('d'));
    app.handle_key(KeyCode::Enter);
    app.handle_key(KeyCode::Char('n'));
    assert!(!app.confirm_delete);
    assert!(!app.request_delete);
}

#[test]
fn safe_deletion_keeps_one_copy_per_group() {
    let mut app = app_with(&[10, 10]);
    let p0 = app.rows[0].path.clone();
    let p1 = app.rows[1].path.clone();
    app.set_dups(vec![DuplicateGroup {
        hash: [0u8; 32],
        size: 10,
        paths: vec![p0.clone(), p1.clone()],
    }]);
    app.marked.insert(p0);
    app.marked.insert(p1);

    let safe = app.safe_deletion();
    assert_eq!(safe.targets.len(), 1, "整组标记仍须保留一份");
}

#[test]
fn apply_outcome_shrinks_state_and_summarizes() {
    let mut app = app_with(&[10, 20, 30]);
    let victim = app.rows[0].path.clone();
    let outcome = DeleteOutcome {
        deleted: vec![victim.clone()],
        freed: 30,
        failed: Vec::new(),
    };
    app.apply_delete_outcome(outcome);

    assert!(!app.result.entries.iter().any(|e| e.path == victim));
    assert_eq!(app.result.total_size, 30);
    assert!(app.delete_result.is_some());
}

#[test]
fn delete_result_overlay_dismissed_by_any_key() {
    let mut app = app_with(&[10]);
    app.delete_result = Some("done".to_string());
    app.handle_key(KeyCode::Down);
    assert!(app.delete_result.is_none());
}

#[test]
fn delete_plan_sums_marked_files() {
    let mut app = app_with(&[10, 20, 30]);

    let p0 = app.rows[0].path.clone();
    app.handle_key(KeyCode::Char(' '));
    app.move_down();
    let p1 = app.rows[1].path.clone();
    app.handle_key(KeyCode::Char(' '));

    let plan = app.delete_plan();
    assert_eq!(plan.targets.len(), 2);
    assert_eq!(plan.reclaimable, 50);
    assert!(plan.targets.iter().any(|e| e.path == p0));
    assert!(plan.targets.iter().any(|e| e.path == p1));
}

fn group(size: u64, paths: &[&str]) -> DuplicateGroup {
    DuplicateGroup {
        hash: [0u8; 32],
        size,
        paths: paths.iter().map(|p| path(p)).collect(),
    }
}

fn dup_app() -> App {
    let mut app = app_with(&[1]);
    app.set_dups(vec![group(10, &["a", "b", "c"])]);
    app.handle_key(KeyCode::Tab);
    app
}

#[test]
fn enter_focuses_detail_then_scrolls_and_clamps() {
    let mut app = dup_app();
    assert!(!app.dup_focus);
    app.handle_key(KeyCode::Enter);
    assert!(app.dup_focus);
    assert_eq!(app.detail_cursor, 0);

    app.handle_key(KeyCode::Down);
    assert_eq!(app.detail_cursor, 1);
    app.handle_key(KeyCode::Down);
    assert_eq!(app.detail_cursor, 2);
    app.handle_key(KeyCode::Down);
    assert_eq!(app.detail_cursor, 2);
    app.handle_key(KeyCode::Up);
    assert_eq!(app.detail_cursor, 1);

    app.handle_key(KeyCode::Backspace);
    assert!(!app.dup_focus);
}

#[test]
fn group_nav_resets_detail_cursor() {
    let mut app = app_with(&[1]);
    app.set_dups(vec![
        group(10, &["a", "b", "c"]),
        group(5, &["d", "e"]),
    ]);
    app.handle_key(KeyCode::Tab);
    app.handle_key(KeyCode::Enter);
    app.handle_key(KeyCode::Down);
    assert_eq!(app.detail_cursor, 1);
    app.handle_key(KeyCode::Backspace);
    app.handle_key(KeyCode::Down);
    assert_eq!(app.selected, 1);
    assert_eq!(app.detail_cursor, 0);
}

#[test]
fn switching_view_resets_dup_focus() {
    let mut app = dup_app();
    app.handle_key(KeyCode::Enter);
    assert!(app.dup_focus);
    app.handle_key(KeyCode::Tab);
    assert!(!app.dup_focus);
}

#[test]
fn esc_exits_focus_before_quitting() {
    let mut app = dup_app();
    app.handle_key(KeyCode::Enter);
    app.handle_key(KeyCode::Esc);
    assert!(!app.dup_focus);
    assert!(!app.confirm_quit);
    app.handle_key(KeyCode::Esc);
    assert!(app.confirm_quit);
    assert!(!app.should_quit);
    app.handle_key(KeyCode::Char('y'));
    assert!(app.should_quit);
}
