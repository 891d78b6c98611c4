use reclaim::actions::{DeleteMode, DeleteOutcome};
use reclaim::cli::{Args, Format};
use reclaim::error::ScanError;
use reclaim::model::{DuplicateGroup, EntryKind, FileEntry};
use reclaim::path::{FilePath, PartKind, PathPart};
use reclaim::scanner::ScanItem;
use reclaim::tui::app::{App, KeyCode};
use reclaim::tui::event::{start, update, AppEvent, Batcher, BATCH};
use std::path::{Component, Path};

fn path(text: &str) -> FilePath {
    let mut parts: Vec<PathPart> = Vec::new();
    for part in Path::new(text).components() {
        let kind = match part {
            Component::Prefix(_) => PartKind::Prefix,
            Component::RootDir => PartKind::RootDir,
            Component::CurDir => PartKind::CurDir,
            Component::ParentDir => PartKind::ParentDir,
            Component::Normal(_) => PartKind::Normal,
        };
        let joined = parts.is_empty() || parts[parts.len() - 1].kind == PartKind::RootDir;
        let lead = if joined { Vec::new() } else { vec![b'/'] };
        let name = part.as_os_str().as_encoded_bytes().to_vec();
        parts.push(PathPart { kind, name, lead });
    }
    FilePath { parts, tail: Vec::new() }
}

fn file(text: &str, size: u64) -> FileEntry {
    FileEntry { path: path(text), size, kind: EntryKind::File }
}

fn args(delete_mode: DeleteMode) -> Args {
    Args {
        path: path("/root"),
        top: 20,
        min_size: 0,
        dup: false,
        format: Format::Table,
        threads: None,
        hidden: false,
        tui: true,
        delete_mode,
    }
}

fn press(app: &mut App, key: KeyCode) -> bool {
    update(app, AppEvent::Input(key)).deletion.is_some()
}

#[test]
fn batches_are_handed_on_when_full() {
    let mut batcher = Batcher::new();
    let mut batches: Vec<usize> = Vec::new();
    let mut progress = Vec::new();
    let total = 2 * BATCH + 3;
    let mut events = Vec::new();
    for i in 0..total {
        events.extend(batcher.push(ScanItem::Entry(file(&format!("/root/f{i}"), 1))));
        if i == 10 {
            let warning = ScanError::Tui("odd".to_string());
            assert!(batcher.push(ScanItem::Warning(warning)).is_empty());
        }
    }
    events.extend(batcher.finish());
    let mut names = Vec::new();
    let mut done = 0;
    for event in events {
        match event {
            AppEvent::ScanBatch(entries) => {
                batches.push(entries.len());
                names.extend(entries.iter().map(|e| e.path.display()));
            }
            AppEvent::ScanProgress(n) => progress.push(n),
            AppEvent::ScanDone { warnings } => {
                assert_eq!(warnings.len(), 1);
                done += 1;
            }
            _ => panic!("another event"),
        }
    }
    assert_eq!(batches, [512, 512, 3]);
    assert_eq!(progress, [512, 1024, 1027]);
    assert_eq!(done, 1);
    let expected: Vec<String> = (0..total).map(|i| format!("/root/f{i}")).collect();
    assert_eq!(names, expected);
}

#[test]
fn an_empty_scan_only_reports_its_end() {
    let events = Batcher::new().finish();
    assert_eq!(events.len(), 2);
    assert!(matches!(events[0], AppEvent::ScanProgress(0)));
    assert!(matches!(events[1], AppEvent::ScanDone { .. }));
}

#[test]
fn the_interface_starts_in_the_given_mode() {
    let app = start(&args(DeleteMode::Permanent));
    assert_eq!(app.mode, DeleteMode::Permanent);
    assert_eq!(app.cwd, path("/root"));
    assert!(app.scanning);
}

#[test]
fn duplicates_are_looked_for_when_the_scan_has_ended() {
    let mut app = start(&args(DeleteMode::Trash));
    let batch = AppEvent::ScanBatch(vec![file("/root/a", 3)]);
    assert!(!update(&mut app, batch).look_for_duplicates);
    assert!(!update(&mut app, AppEvent::ScanProgress(1)).look_for_duplicates);
    assert!(!update(&mut app, AppEvent::Resize).look_for_duplicates);
    assert!(update(&mut app, AppEvent::ScanDone { warnings: Vec::new() }).look_for_duplicates);
    let group = DuplicateGroup { hash: [0; 32], size: 1, paths: vec![path("a"), path("b")] };
    assert!(!update(&mut app, AppEvent::DupsReady(vec![group])).look_for_duplicates);
    assert_eq!(app.scanned_count, 1);
    assert_eq!(app.result.total_size, 3);
    assert!(app.dups_ready);
    assert_eq!(app.dups.len(), 1);
}

#[test]
fn a_confirmed_deletion_is_handed_out_once() {
    let mut app = start(&args(DeleteMode::Trash));
    update(&mut app, AppEvent::ScanBatch(vec![file("/root/a", 3), file("/root/b", 2)]));
    update(&mut app, AppEvent::ScanDone { warnings: Vec::new() });
    assert!(!press(&mut app, KeyCode::Char(' ')));
    assert!(!press(&mut app, KeyCode::Char('d')));
    assert!(!press(&mut app, KeyCode::Enter));
    let followup = update(&mut app, AppEvent::Input(KeyCode::Char('y')));
    let safe = followup.deletion.expect("a deletion");
    assert_eq!(safe.targets.len(), 1);
    assert_eq!(safe.targets[0].path, path("/root/a"));
    assert!(!app.request_delete);
    assert!(update(&mut app, AppEvent::Resize).deletion.is_none());
    app.apply_delete_outcome(DeleteOutcome {
        deleted: vec![path("/root/a")],
        freed: 3,
        failed: Vec::new(),
    });
    assert_eq!(app.delete_result, Some("已删除 1 个文件，释放 3 B".to_string()));
}
