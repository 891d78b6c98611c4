use reclaim::actions::{
    audit_line, execute_deletion, log_path, plan_safe_deletion, unique_dest, DeleteAction,
    DeleteEvent, DeleteMode, DeleteOutcome, DeletePlan, DestStep,
};
use reclaim::index::PathSet;
use reclaim::model::{DuplicateGroup, EntryKind, FileEntry};
use reclaim::path::{FilePath, PartKind, PathPart};
use std::collections::BTreeMap;
use std::path::{Component, Path};

fn path(text: &str) -> FilePath {
    let mut parts: Vec<PathPart> = Vec::new();
    for part in Path::new(text).components() {
        let kind = match part {
            Component::Prefix(_) => PartKind::Prefix,
            Component::RootDir => PartKind::RootDir,
            Component::CurDir => PartKind::CurDir,
            Component::ParentDir => PartKind::ParentDir,
            Component::Normal(_) => PartKind::Normal,
        };
        let joined = parts.is_empty() || parts[parts.len() - 1].kind == PartKind::RootDir;
        let lead = if joined { Vec::new() } else { vec![b'/'] };
        let name = part.as_os_str().as_encoded_bytes().to_vec();
        parts.push(PathPart { kind, name, lead });
    }
    FilePath { parts, tail: Vec::new() }
}

fn file(text: &str, size: u64) -> FileEntry {
    FileEntry { path: path(text), size, kind: EntryKind::File }
}

fn group(paths: &[&str]) -> DuplicateGroup {
    DuplicateGroup { hash: [0u8; 32], size: 10, paths: paths.iter().map(|p| path(p)).collect() }
}

fn marks(paths: &[&str]) -> PathSet {
    let mut set = PathSet::new();
    for text in paths {
        set.insert(path(text));
    }
    set
}

fn texts(entries: &[FileEntry]) -> Vec<String> {
    entries.iter().map(|e| e.path.display()).collect()
}

#[test]
fn plan_includes_only_marked_and_sums_sizes() {
    let entries = vec![file("/r/a", 10), file("/r/b", 20), file("/r/c", 30)];
    let marked = marks(&["/r/a", "/r/c"]);

    let plan = DeletePlan::build(&marked, &entries);

    assert_eq!(plan.targets.len(), 2);
    assert_eq!(plan.reclaimable, 40);
}

#[test]
fn keeps_one_when_whole_group_marked() {
    let entries = vec![file("/r/a", 10), file("/r/b", 10)];
    let dups = vec![group(&["/r/a", "/r/b"])];
    let marked = marks(&["/r/a", "/r/b"]);

    let safe = plan_safe_deletion(&marked, &entries, &dups, &path("/r"));

    assert_eq!(safe.targets.len(), 1, "整组标记必须保留一份");
    assert_eq!(safe.kept_for_safety.len(), 1);
}

#[test]
fn rejects_paths_outside_root() {
    let entries = vec![file("/r/inside", 10), file("/other/outside", 20)];
    let marked = marks(&["/r/inside", "/other/outside"]);

    let safe = plan_safe_deletion(&marked, &entries, &Vec::new(), &path("/r"));

    assert_eq!(safe.targets.len(), 1);
    assert!(safe.targets.iter().all(|e| e.path.starts_with(&path("/r"))));
}

#[test]
fn directories_and_links_are_never_targets() {
    let entries = vec![
        FileEntry { path: path("/r/d"), size: 0, kind: EntryKind::Dir },
        FileEntry { path: path("/r/l"), size: 0, kind: EntryKind::Symlink },
        file("/r/f", 1),
    ];
    let marked = marks(&["/r/d", "/r/l", "/r/f"]);

    let safe = plan_safe_deletion(&marked, &entries, &Vec::new(), &path("/r"));

    assert_eq!(texts(&safe.targets), ["/r/f"]);
}

#[test]
fn groups_that_are_not_wholly_marked_lose_all_marked_copies() {
    let entries = vec![file("/r/a", 1), file("/r/b", 1), file("/r/c", 1)];
    let dups = vec![group(&["/r/a", "/r/b", "/r/c"])];
    let marked = marks(&["/r/a", "/r/b"]);

    let safe = plan_safe_deletion(&marked, &entries, &dups, &path("/r"));

    assert_eq!(texts(&safe.targets), ["/r/a", "/r/b"]);
    assert!(safe.kept_for_safety.is_empty());
}

#[test]
fn a_copy_spared_for_one_group_counts_for_the_next() {
    let entries = vec![file("/r/a", 1), file("/r/b", 1), file("/r/c", 1)];
    let dups = vec![group(&["/r/a", "/r/b"]), group(&["/r/a", "/r/c"]), group(&["/r/c"])];
    let marked = marks(&["/r/a", "/r/b", "/r/c"]);

    let safe = plan_safe_deletion(&marked, &entries, &dups, &path("/r"));

    assert_eq!(texts(&safe.targets), ["/r/b", "/r/c"]);
    assert_eq!(safe.kept_for_safety, [path("/r/a")]);
}

#[test]
fn every_group_keeps_a_copy_and_targets_are_in_the_preview() {
    let names: Vec<String> = (0..6).map(|i| format!("/r/f{i}")).collect();
    let entries: Vec<FileEntry> = names.iter().map(|n| file(n, 3)).collect();
    let dups = vec![
        group(&["/r/f0", "/r/f1"]),
        group(&["/r/f1", "/r/f2", "/r/f3"]),
        group(&["/r/f4", "/r/f5"]),
    ];
    for bits in 0..64u32 {
        let mut marked = PathSet::new();
        for i in 0..6 {
            if bits & (1 << i) != 0 {
                marked.insert(path(&names[i]));
            }
        }
        let safe = plan_safe_deletion(&marked, &entries, &dups, &path("/r"));
        let gone = texts(&safe.targets);
        let preview = texts(&DeletePlan::build(&marked, &entries).targets);
        assert!(gone.iter().all(|t| preview.contains(t)));
        for group in &dups {
            assert!(group.paths.iter().any(|p| !gone.contains(&p.display())));
        }
        assert_eq!(gone.len() + safe.kept_for_safety.len(), preview.len());
    }
}

fn delete(
    target: &FileEntry,
    mode: DeleteMode,
    root: &FilePath,
    examined: DeleteEvent,
    tried: DeleteEvent,
) -> (DeleteOutcome, Vec<DeleteAction>) {
    let mut outcome = DeleteOutcome::new();
    let mut actions = Vec::new();
    let mut events = vec![tried, examined, DeleteEvent::Begin];
    loop {
        let event = events.pop().expect("an event");
        let action = execute_deletion(&mut outcome, target, mode, root, event);
        let stop = matches!(action, DeleteAction::Log | DeleteAction::Next);
        actions.push(action);
        if stop {
            return (outcome, actions);
        }
    }
}

/// Regular files by path.
struct Disk {
    files: BTreeMap<String, Vec<u8>>,
}

impl Disk {
    fn new() -> Disk {
        Disk { files: BTreeMap::new() }
    }

    fn write(&mut self, at: &FilePath, contents: Vec<u8>) {
        self.files.insert(at.display(), contents);
    }

    /// Whether a file, or a directory with a file in it, stands at a path.
    fn holds(&self, at: &FilePath) -> bool {
        let inside = format!("{}/", at.display());
        let first = self.files.range(inside.clone()..).next();
        self.files.contains_key(&at.display())
            || first.is_some_and(|(name, _)| name.starts_with(&inside))
    }

    fn rename(&mut self, from: &FilePath, dest: &FilePath) {
        let mut step = unique_dest(dest, 0, self.holds(dest));
        loop {
            match step {
                DestStep::Use(free) => {
                    let contents = self.files.remove(&from.display()).expect("a file");
                    self.write(&free, contents);
                    return;
                }
                DestStep::Probe(name, n) => step = unique_dest(dest, n, self.holds(&name)),
                DestStep::NoFreeName => panic!("every name is taken"),
            }
        }
    }

    fn delete(&mut self, targets: &[FileEntry], mode: DeleteMode, root: &FilePath) -> DeleteOutcome {
        let mut outcome = DeleteOutcome::new();
        for target in targets {
            let mut event = DeleteEvent::Begin;
            loop {
                event = match execute_deletion(&mut outcome, target, mode, root, event) {
                    DeleteAction::Examine => {
                        if self.files.contains_key(&target.path.display()) {
                            DeleteEvent::Regular
                        } else {
                            DeleteEvent::Unreadable("No such file or directory".to_string())
                        }
                    }
                    DeleteAction::MoveTo(dest) => {
                        self.rename(&target.path, &dest);
                        DeleteEvent::Done
                    }
                    DeleteAction::Remove => {
                        self.files.remove(&target.path.display());
                        DeleteEvent::Done
                    }
                    DeleteAction::Log => {
                        let line = audit_line(7, &target.path, target.size);
                        let log = self.files.entry(log_path(root).display()).or_default();
                        log.extend(line.into_bytes());
                        break;
                    }
                    DeleteAction::Next => break,
                };
            }
        }
        outcome
    }
}

#[test]
fn trash_moves_file_into_isolation_dir() {
    let root = path("/tmp/t");
    let f = path("/tmp/t/big.bin");
    let mut disk = Disk::new();
    disk.write(&f, vec![0u8; 100]);

    let targets = vec![FileEntry { path: f.clone(), size: 100, kind: EntryKind::File }];
    let outcome = disk.delete(&targets, DeleteMode::Trash, &root);

    assert_eq!(outcome.deleted.len(), 1);
    assert_eq!(outcome.freed, 100);
    assert!(outcome.failed.is_empty());
    assert!(!disk.holds(&f), "the file has left its place");
    assert!(disk.holds(&path("/tmp/t/.reclaim-trash/big.bin")), "it is in the trash");
    assert!(disk.holds(&path("/tmp/t/reclaim-deleted.log")), "there is a log");
    assert_eq!(disk.files["/tmp/t/reclaim-deleted.log"], b"7\t100\t/tmp/t/big.bin\n");
}

#[test]
fn permanent_removes_file() {
    let root = path("/tmp/t");
    let f = path("/tmp/t/gone.bin");
    let mut disk = Disk::new();
    disk.write(&f, b"x".to_vec());

    let targets = vec![FileEntry { path: f.clone(), size: 1, kind: EntryKind::File }];
    let outcome = disk.delete(&targets, DeleteMode::Permanent, &root);

    assert_eq!(outcome.deleted.len(), 1);
    assert!(!disk.holds(&f));
    assert!(!disk.holds(&path("/tmp/t/.reclaim-trash")), "nothing goes into the trash");
}

#[test]
fn missing_target_is_recorded_as_failed() {
    let root = path("/tmp/t");
    let mut disk = Disk::new();
    let targets = vec![file("/tmp/t/nope.bin", 5)];

    let outcome = disk.delete(&targets, DeleteMode::Trash, &root);

    assert!(outcome.deleted.is_empty());
    assert_eq!(outcome.failed.len(), 1);
    assert_eq!(outcome.failed[0].1, "No such file or directory");
    assert!(!disk.holds(&log_path(&root)));
}

#[test]
fn a_file_of_the_same_name_gets_a_number_in_the_trash() {
    let root = path("/tmp/t");
    let f = path("/tmp/t/sub/a");
    let targets = vec![FileEntry { path: f.clone(), size: 1, kind: EntryKind::File }];
    let mut disk = Disk::new();
    for contents in [b"1", b"2", b"3"] {
        disk.write(&f, contents.to_vec());
        disk.delete(&targets, DeleteMode::Trash, &root);
    }
    assert_eq!(disk.files["/tmp/t/.reclaim-trash/sub/a"], b"1");
    assert_eq!(disk.files["/tmp/t/.reclaim-trash/sub/a.1"], b"2");
    assert_eq!(disk.files["/tmp/t/.reclaim-trash/sub/a.2"], b"3");
}

#[test]
fn trash_moves_a_file_to_its_place_in_the_trash() {
    let root = path("/tmp/t");
    let target = file("/tmp/t/sub/big.bin", 100);

    let (outcome, actions) =
        delete(&target, DeleteMode::Trash, &root, DeleteEvent::Regular, DeleteEvent::Done);

    assert!(matches!(actions[0], DeleteAction::Examine));
    match &actions[1] {
        DeleteAction::MoveTo(dest) => {
            assert_eq!(dest.display(), "/tmp/t/.reclaim-trash/sub/big.bin")
        }
        other => panic!("{other:?}"),
    }
    assert!(matches!(actions[2], DeleteAction::Log));
    assert_eq!(outcome.deleted, [path("/tmp/t/sub/big.bin")]);
    assert_eq!(outcome.freed, 100);
    assert!(outcome.failed.is_empty());
}

#[test]
fn permanent_removes_and_moves_nothing() {
    let root = path("/tmp/t");
    let target = file("/tmp/t/gone.bin", 1);

    let (outcome, actions) =
        delete(&target, DeleteMode::Permanent, &root, DeleteEvent::Regular, DeleteEvent::Done);

    assert!(matches!(actions[1], DeleteAction::Remove));
    assert_eq!(outcome.deleted.len(), 1);
}

#[test]
fn targets_outside_the_root_are_refused_unseen() {
    let target = file("/other/f", 1);

    let (outcome, actions) = delete(
        &target,
        DeleteMode::Permanent,
        &path("/tmp/t"),
        DeleteEvent::Regular,
        DeleteEvent::Done,
    );

    assert_eq!(actions.len(), 1);
    assert_eq!(outcome.failed[0].1, "拒绝：路径在扫描根之外");
    assert!(outcome.deleted.is_empty());
}

#[test]
fn what_is_no_regular_file_is_refused() {
    let target = file("/tmp/t/d", 1);

    let (outcome, _) = delete(
        &target,
        DeleteMode::Trash,
        &path("/tmp/t"),
        DeleteEvent::NotRegular,
        DeleteEvent::Done,
    );

    assert_eq!(outcome.failed[0].1, "拒绝：不是普通文件");
    assert_eq!(outcome.failed[0].0, path("/tmp/t/d"));
}

#[test]
fn a_failed_move_is_noted_and_frees_nothing() {
    let target = file("/tmp/t/f", 9);
    let refused = DeleteEvent::Refused("busy".to_string());

    let (outcome, actions) =
        delete(&target, DeleteMode::Trash, &path("/tmp/t"), DeleteEvent::Regular, refused);

    assert!(matches!(actions[2], DeleteAction::Next));
    assert_eq!(outcome.failed[0].1, "busy");
    assert_eq!(outcome.freed, 0);
}

#[test]
fn deletions_add_up() {
    let root = path("/r");
    let mut outcome = DeleteOutcome::new();
    for (name, size, ok) in [("/r/a", 3, true), ("/r/b", 5, false), ("/r/c", 7, true)] {
        let target = file(name, size);
        let event = if ok { DeleteEvent::Done } else { DeleteEvent::Refused("no".to_string()) };
        execute_deletion(&mut outcome, &target, DeleteMode::Trash, &root, event);
    }
    assert_eq!(outcome.freed, 10);
    assert_eq!(outcome.deleted.len() + outcome.failed.len(), 3);
}

#[test]
fn the_log_stands_in_the_root() {
    assert_eq!(log_path(&path("/r")).display(), "/r/reclaim-deleted.log");
    assert_eq!(audit_line(1700000000, &path("/r/a b"), 42), "1700000000\t42\t/r/a b\n");
}

fn settle(taken: &[&str]) -> String {
    let dest = path("/r/.reclaim-trash/f");
    let mut probe = dest.clone();
    let mut n = 0;
    loop {
        let occupied = taken.contains(&probe.display().as_str());
        match unique_dest(&dest, n, occupied) {
            DestStep::Use(path) => return path.display(),
            DestStep::Probe(path, next) => {
                probe = path;
                n = next;
            }
            DestStep::NoFreeName => panic!("every name is taken"),
        }
    }
}

#[test]
fn the_first_free_name_is_used() {
    assert_eq!(settle(&[]), "/r/.reclaim-trash/f");
    assert_eq!(settle(&["/r/.reclaim-trash/f"]), "/r/.reclaim-trash/f.1");
    assert_eq!(
        settle(&["/r/.reclaim-trash/f", "/r/.reclaim-trash/f.1", "/r/.reclaim-trash/f.3"]),
        "/r/.reclaim-trash/f.2"
    );
}

#[test]
fn a_taken_name_is_never_used() {
    let dest = path("/r/.reclaim-trash/f");
    let mut n = 0;
    while n < 12_000 {
        match unique_dest(&dest, n, true) {
            DestStep::Probe(path, next) => {
                assert_eq!(path.display(), format!("/r/.reclaim-trash/f.{next}"));
                assert_eq!(next, n + 1);
                n = next;
            }
            other => panic!("{other:?}"),
        }
    }
    match unique_dest(&dest, n, false) {
        DestStep::Use(path) => assert_eq!(path.display(), "/r/.reclaim-trash/f.12000"),
        other => panic!("{other:?}"),
    }
}

#[test]
fn without_a_number_left_there_is_no_name() {
    let dest = path("/r/.reclaim-trash/f");
    assert!(matches!(unique_dest(&dest, u32::MAX, true), DestStep::NoFreeName));
    match unique_dest(&dest, u32::MAX, false) {
        DestStep::Use(path) => assert_eq!(path.display(), "/r/.reclaim-trash/f.4294967295"),
        other => panic!("{other:?}"),
    }
}

#[test]
fn files_in_a_full_trash_are_kept() {
    let root = path("/tmp/t");
    let f = path("/tmp/t/a");
    let targets = vec![FileEntry { path: f.clone(), size: 1, kind: EntryKind::File }];
    let mut disk = Disk::new();
    disk.write(&path("/tmp/t/.reclaim-trash/a"), b"0".to_vec());
    for n in 1..10_000 {
        disk.write(&path(&format!("/tmp/t/.reclaim-trash/a.{n}")), vec![1]);
    }
    disk.write(&f, b"new".to_vec());

    let outcome = disk.delete(&targets, DeleteMode::Trash, &root);

    assert_eq!(outcome.deleted.len(), 1);
    assert_eq!(disk.files["/tmp/t/.reclaim-trash/a"], b"0");
    assert_eq!(disk.files["/tmp/t/.reclaim-trash/a.9999"], [1]);
    assert_eq!(disk.files["/tmp/t/.reclaim-trash/a.10000"], b"new");
}

#[test]
fn failures_are_listed_in_the_order_of_the_targets() {
    let root = path("/tmp/t");
    let targets: Vec<FileEntry> =
        ["/tmp/t/x", "/else/y", "/tmp/t/z", "/tmp/t/w"].iter().map(|t| file(t, 2)).collect();
    let mut disk = Disk::new();
    disk.write(&targets[2].path, vec![1]);

    let outcome = disk.delete(&targets, DeleteMode::Permanent, &root);

    assert_eq!(outcome.deleted, [path("/tmp/t/z")]);
    let failed: Vec<String> = outcome.failed.iter().map(|f| f.0.display()).collect();
    assert_eq!(failed, ["/tmp/t/x", "/else/y", "/tmp/t/w"]);
}
