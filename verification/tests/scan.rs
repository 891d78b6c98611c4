use reclaim::model::{EntryKind, ScanResult};
use reclaim::path::{FilePath, PartKind, PathPart};
use reclaim::scanner::{
    is_hidden, process_dir, scan, FoundType, Listed, Listing, ScanItem, ScanOptions, Task,
    WorkQueue, worker_count,
};
use std::collections::BTreeMap;
use std::path::{Component, Path};

fn path(text: &str) -> FilePath {
    let mut parts: Vec<PathPart> = Vec::new();
    for part in Path::new(text).components() {
        let kind = match part {
            Component::Prefix(_) => PartKind::Prefix,
            Component::RootDir => PartKind::RootDir,
            Component::CurDir => PartKind::CurDir,
            Component::ParentDir => PartKind::ParentDir,
            Component::Normal(_) => PartKind::Normal,
        };
        let joined = parts.is_empty() || parts[parts.len() - 1].kind == PartKind::RootDir;
        let lead = if joined { Vec::new() } else { vec![b'/'] };
        let name = part.as_os_str().as_encoded_bytes().to_vec();
        parts.push(PathPart { kind, name, lead });
    }
    FilePath { parts, tail: Vec::new() }
}

fn opts(threads: usize) -> ScanOptions {
    ScanOptions { threads, min_size: 0, include_hidden: false }
}

/// A file system: the listing of each directory, by its path.
struct Disk {
    dirs: BTreeMap<String, Vec<(String, Kind)>>,
}

#[derive(Clone)]
enum Kind {
    Dir,
    Link,
    File(u64),
    NoSize,
    NoType,
    Broken,
}

impl Disk {
    fn new(root: &str) -> Disk {
        let mut dirs = BTreeMap::new();
        dirs.insert(root.to_string(), Vec::new());
        Disk { dirs }
    }

    fn add(&mut self, dir: &str, name: &str, kind: Kind) {
        if let Kind::Dir = kind {
            self.dirs.insert(format!("{dir}/{name}"), Vec::new());
        }
        self.dirs.get_mut(dir).expect("a directory").push((name.to_string(), kind));
    }

    fn list(&self, dir: &FilePath) -> Listing {
        let text = dir.display();
        let Some(names) = self.dirs.get(&text) else {
            return Listing::Failed("No such file or directory".to_string());
        };
        let mut items = Vec::new();
        for (name, kind) in names {
            let found = match kind {
                Kind::Dir => FoundType::Dir,
                Kind::Link => FoundType::Symlink,
                Kind::File(size) => FoundType::File(*size),
                Kind::NoSize => FoundType::SizeUnknown("no size".to_string()),
                Kind::NoType => FoundType::Unknown("no type".to_string()),
                Kind::Broken => {
                    items.push(Listed::Failed("broken".to_string()));
                    continue;
                }
            };
            items.push(Listed::Found {
                path: path(&format!("{text}/{name}")),
                name: name.as_bytes().to_vec(),
                found,
            });
        }
        Listing::Items(items)
    }

    /// Scans with as many directories in work at a time as there are threads; the one that was
    /// taken last is through first.
    fn items(&self, root: &str, options: &ScanOptions) -> Vec<ScanItem> {
        let mut work = WorkQueue::new(path(root));
        let mut busy: Vec<FilePath> = Vec::new();
        let mut items = Vec::new();
        loop {
            let task = if busy.len() < options.threads.max(1) { work.take() } else { Task::Wait };
            match task {
                Task::Scan(dir) => busy.push(dir),
                Task::Wait => {
                    let dir = busy.pop().expect("a directory in work");
                    let found = process_dir(&dir, options, self.list(&dir));
                    items.extend(found.items);
                    for subdir in found.subdirs {
                        work.add(subdir);
                    }
                    work.finish();
                }
                Task::Stop => return items,
            }
        }
    }

    fn scan(&self, root: &str, options: &ScanOptions) -> ScanResult {
        scan(path(root), self.items(root, options))
    }
}

fn ends_with(result: &ScanResult, name: &str) -> bool {
    result.entries.iter().any(|e| {
        e.path.parts.last().map(|p| p.name.as_slice()) == Some(name.as_bytes())
    })
}

#[test]
fn scanning_nonexistent_path_collects_warning() {
    let result = Disk::new("/t").scan("this/path/does/not/exist", &opts(4));
    assert!(result.entries.is_empty());
    assert_eq!(result.total_size, 0);
    assert_eq!(result.warnings.len(), 1);
    assert_eq!(
        result.warnings[0].message(),
        "this/path/does/not/exist: No such file or directory"
    );
}

#[test]
fn skips_hidden_unless_requested() {
    let mut disk = Disk::new("/t");
    disk.add("/t", "visible.txt", Kind::File(5));
    disk.add("/t", ".secret", Kind::File(2));

    let default = disk.scan("/t", &opts(2));
    assert!(ends_with(&default, "visible.txt"));
    assert!(!ends_with(&default, ".secret"));

    let with_hidden = disk.scan("/t", &ScanOptions { include_hidden: true, ..opts(2) });
    assert!(ends_with(&with_hidden, ".secret"));
}

#[test]
fn scan_stream_matches_scan() {
    let mut disk = Disk::new("/t");
    disk.add("/t", "a.txt", Kind::File(5));
    disk.add("/t", "sub", Kind::Dir);
    disk.add("/t/sub", "b.txt", Kind::File(7));

    let aggregated = disk.scan("/t", &opts(4));

    let mut streamed_entries = 0;
    let mut streamed_total = 0u64;
    for item in disk.items("/t", &opts(4)) {
        if let ScanItem::Entry(e) = item {
            streamed_entries += 1;
            if e.kind == EntryKind::File {
                streamed_total += e.size;
            }
        }
    }

    assert_eq!(streamed_entries, aggregated.entries.len());
    assert_eq!(streamed_total, aggregated.total_size);
    assert_eq!(aggregated.total_size, 5 + 7);
}

#[test]
fn min_size_filters_small_files() {
    let mut disk = Disk::new("/t");
    disk.add("/t", "big.bin", Kind::File(2048));
    disk.add("/t", "small.bin", Kind::File(100));

    let result = disk.scan("/t", &ScanOptions { min_size: 1024, ..opts(2) });
    assert!(ends_with(&result, "big.bin"));
    assert!(!ends_with(&result, "small.bin"));
    assert_eq!(result.total_size, 2048);
}

#[test]
fn a_file_of_exactly_the_least_size_stays() {
    let mut disk = Disk::new("/t");
    disk.add("/t", "even.bin", Kind::File(1024));
    let result = disk.scan("/t", &ScanOptions { min_size: 1024, ..opts(1) });
    assert!(ends_with(&result, "even.bin"));
}

#[test]
fn scans_known_tree_and_sums_sizes() {
    let mut disk = Disk::new("/t");
    disk.add("/t", "a.txt", Kind::File(5));
    disk.add("/t", "b.txt", Kind::File(7));
    disk.add("/t", "sub", Kind::Dir);
    disk.add("/t/sub", "c.txt", Kind::File(3));

    let result = disk.scan("/t", &opts(4));

    assert!(result.warnings.is_empty(), "warnings: {:?}", result.warnings);
    assert_eq!(result.total_size, 5 + 7 + 3);

    let file_count = result.entries.iter().filter(|e| e.kind == EntryKind::File).count();
    assert_eq!(file_count, 3);

    let has_sub_dir = result
        .entries
        .iter()
        .any(|e| e.kind == EntryKind::Dir && e.path == path("/t/sub"));
    assert!(has_sub_dir, "未找到子目录 sub");
}

#[test]
fn concurrent_scan_is_consistent() {
    let mut disk = Disk::new("/t");
    let mut expected_total = 0u64;
    let mut expected_files = 0usize;
    for d in 0..4 {
        disk.add("/t", &format!("dir{d}"), Kind::Dir);
        let sub = format!("/t/dir{d}");
        for f in 0..10 {
            let content = format!("file-{d}-{f}-payload");
            disk.add(&sub, &format!("f{f}.txt"), Kind::File(content.len() as u64));
            expected_total += content.len() as u64;
            expected_files += 1;

            disk.add(&sub, &format!("deep{f}"), Kind::Dir);
            let deep_content = format!("deep-{d}-{f}");
            let deep = format!("{sub}/deep{f}");
            disk.add(&deep, "g.txt", Kind::File(deep_content.len() as u64));
            expected_total += deep_content.len() as u64;
            expected_files += 1;
        }
    }

    let count = |result: &ScanResult| {
        result.entries.iter().filter(|e| e.kind == EntryKind::File).count()
    };
    let single = disk.scan("/t", &opts(1));
    let multi = disk.scan("/t", &opts(8));

    assert!(single.warnings.is_empty(), "warnings: {:?}", single.warnings);
    assert_eq!(single.total_size, expected_total);
    assert_eq!(count(&single), expected_files);

    assert!(multi.warnings.is_empty(), "warnings: {:?}", multi.warnings);
    assert_eq!(multi.total_size, single.total_size);
    assert_eq!(count(&multi), expected_files);

    let mut one: Vec<String> = single.entries.iter().map(|e| e.path.display()).collect();
    let mut eight: Vec<String> = multi.entries.iter().map(|e| e.path.display()).collect();
    one.sort();
    eight.sort();
    assert_eq!(one, eight);
}

#[test]
fn errors_of_single_entries_do_not_stop_the_scan() {
    let mut disk = Disk::new("/t");
    disk.add("/t", "n", Kind::NoSize);
    disk.add("/t", "t", Kind::NoType);
    disk.add("/t", "b", Kind::Broken);
    disk.add("/t", "l", Kind::Link);
    disk.add("/t", "f", Kind::File(1));

    let result = disk.scan("/t", &opts(1));

    let warnings: Vec<String> = result.warnings.iter().map(|w| w.message()).collect();
    assert_eq!(warnings, ["/t/n: no size", "/t/t: no type", "/t: broken"]);
    assert_eq!(result.entries.len(), 2);
    assert_eq!(result.entries[0].kind, EntryKind::Symlink);
    assert_eq!(result.entries[0].size, 0);
    assert_eq!(result.total_size, 1);
}

#[test]
fn hidden_directories_are_not_entered() {
    let mut disk = Disk::new("/t");
    disk.add("/t", ".reclaim-trash", Kind::Dir);
    disk.add("/t/.reclaim-trash", "f", Kind::File(9));

    assert!(disk.scan("/t", &opts(1)).entries.is_empty());
    let options = ScanOptions { include_hidden: true, ..opts(1) };
    assert_eq!(disk.scan("/t", &options).total_size, 9);
}

#[test]
fn the_trash_is_not_scanned_unless_hidden_entries_are_wanted() {
    let mut disk = Disk::new("/t");
    disk.add("/t", ".reclaim-trash", Kind::Dir);
    disk.add("/t/.reclaim-trash", "big.bin", Kind::File(100));

    assert!(disk.scan("/t", &opts(1)).entries.is_empty());
    let all = disk.scan("/t", &ScanOptions { include_hidden: true, ..opts(1) });
    assert_eq!(all.total_size, 100);
}

#[test]
fn links_are_not_followed_and_dirs_are_always_listed() {
    let mut disk = Disk::new("/t");
    disk.add("/t", "d", Kind::Dir);
    disk.add("/t", "l", Kind::Link);
    let result = disk.scan("/t", &ScanOptions { min_size: 1000, ..opts(1) });
    assert_eq!(result.entries.len(), 2);
}

#[test]
fn hidden_names_start_with_a_dot() {
    assert!(is_hidden(&b".x".to_vec()));
    assert!(!is_hidden(&b"x.".to_vec()));
    assert!(!is_hidden(&Vec::new()));
}

#[test]
fn workers_wait_while_others_may_find_more() {
    let mut work = WorkQueue::new(path("/t"));
    assert!(matches!(work.take(), Task::Scan(_)));
    assert!(matches!(work.take(), Task::Wait));
    work.add(path("/t/a"));
    assert!(!work.finish());
    assert!(matches!(work.take(), Task::Scan(_)));
    assert!(matches!(work.take(), Task::Wait));
    assert!(work.finish());
    assert!(matches!(work.take(), Task::Stop));
}

#[test]
fn at_least_one_worker_runs() {
    assert_eq!(worker_count(0), 1);
    assert_eq!(worker_count(1), 1);
    assert_eq!(worker_count(8), 8);
}
