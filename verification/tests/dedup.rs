use reclaim::dedup::{
    find_duplicates, hash_file, DedupEvent, DedupTask, HashStep, Hashed, HEAD_BYTES,
};
use reclaim::error::ScanError;
use reclaim::model::{DuplicateGroup, EntryKind, FileEntry};
use reclaim::path::{FilePath, PartKind, PathPart};
use std::collections::BTreeMap;
use std::path::{Component, Path};

fn path(text: &str) -> FilePath {
    let mut parts: Vec<PathPart> = Vec::new();
    for part in Path::new(text).components() {
        let kind = match part {
            Component::Prefix(_) => PartKind::Prefix,
            Component::RootDir => PartKind::RootDir,
            Component::CurDir => PartKind::CurDir,
            Component::ParentDir => PartKind::ParentDir,
            Component::Normal(_) => PartKind::Normal,
        };
        let joined = parts.is_empty() || parts[parts.len() - 1].kind == PartKind::RootDir;
        let lead = if joined { Vec::new() } else { vec![b'/'] };
        let name = part.as_os_str().as_encoded_bytes().to_vec();
        parts.push(PathPart { kind, name, lead });
    }
    FilePath { parts, tail: Vec::new() }
}

/// Hashes bytes, handing over at most `cut` of them at a time.
fn hash_bytes(content: &[u8], limit: u64, cut: usize) -> [u8; 32] {
    let mut step = hash_file(limit);
    let mut at = 0;
    loop {
        match step {
            HashStep::Done(hash) => return hash,
            HashStep::Read(job) => {
                let n = job.wanted().min(cut).min(content.len() - at);
                step = job.absorb(&content[at..at + n]);
                at += n;
            }
        }
    }
}

type Contents = BTreeMap<String, Vec<u8>>;

fn hash_all(paths: &[FilePath], limit: u64, contents: &Contents) -> Vec<Hashed> {
    paths
        .iter()
        .map(|p| match contents.get(&p.display()) {
            Some(content) => Hashed::Hash(p.clone(), hash_bytes(content, limit, 4096)),
            None => Hashed::Failed(ScanError::Io { path: p.clone(), source: "gone".to_string() }),
        })
        .collect()
}

fn dedup(entries: &Vec<FileEntry>, contents: &Contents) -> (Vec<DuplicateGroup>, Vec<ScanError>) {
    let mut event = DedupEvent::Begin;
    loop {
        let task = find_duplicates(entries, event);
        let limit = task.limit();
        event = match task {
            DedupTask::HashHeads(paths) => {
                DedupEvent::HeadsHashed(hash_all(&paths, limit, contents))
            }
            DedupTask::HashFulls(paths, warnings) => {
                DedupEvent::FullsHashed(hash_all(&paths, limit, contents), warnings)
            }
            DedupTask::Done(groups, warnings) => return (groups, warnings),
        };
    }
}

fn entries_of(contents: &Contents) -> Vec<FileEntry> {
    contents
        .iter()
        .map(|(name, content)| FileEntry {
            path: path(name),
            size: content.len() as u64,
            kind: EntryKind::File,
        })
        .collect()
}

#[test]
fn finds_identical_and_ignores_others() {
    let mut contents = Contents::new();
    contents.insert("/t/x1.bin".to_string(), vec![b'A'; 1000]);
    contents.insert("/t/x2.bin".to_string(), vec![b'A'; 1000]);
    contents.insert("/t/y.bin".to_string(), vec![b'B'; 1000]);
    contents.insert("/t/z.bin".to_string(), vec![b'C'; 7]);

    let (groups, warnings) = dedup(&entries_of(&contents), &contents);

    assert!(warnings.is_empty(), "warnings: {warnings:?}");
    assert_eq!(groups.len(), 1);
    assert_eq!(groups[0].paths.len(), 2);
    assert_eq!(groups[0].size, 1000);
}

#[test]
fn same_head_different_tail_not_duplicate() {
    let mut a = vec![b'X'; 5000];
    let mut b = a.clone();
    *a.last_mut().expect("non-empty") = b'1';
    *b.last_mut().expect("non-empty") = b'2';
    let mut contents = Contents::new();
    contents.insert("/t/a.bin".to_string(), a);
    contents.insert("/t/b.bin".to_string(), b);

    let (groups, warnings) = dedup(&entries_of(&contents), &contents);

    assert!(warnings.is_empty(), "warnings: {warnings:?}");
    assert!(groups.is_empty(), "全量哈希不同不应判为重复: {groups:?}");
}

#[test]
fn hash_file_is_consistent() {
    let p = hash_bytes(b"same payload", u64::MAX, 100);
    let q = hash_bytes(b"same payload", u64::MAX, 100);
    let r = hash_bytes(b"diff payload", u64::MAX, 100);

    assert_eq!(p, q);
    assert_ne!(p, r);
}

#[test]
fn finds_the_known_duplicate_pair() {
    let payload = b"reclaim duplicate detection payload";
    let other: Vec<u8> = (0..payload.len()).map(|i| (i % 251) as u8).collect();
    assert_eq!(other.len(), payload.len());
    let mut contents = Contents::new();
    contents.insert("/t/copy1.txt".to_string(), payload.to_vec());
    contents.insert("/t/nested_copy.txt".to_string(), payload.to_vec());
    contents.insert("/t/different.txt".to_string(), other);
    contents.insert("/t/unique.txt".to_string(), b"x".to_vec());

    let (groups, warnings) = dedup(&entries_of(&contents), &contents);

    assert!(warnings.is_empty(), "warnings: {warnings:?}");
    assert_eq!(groups.len(), 1, "应恰好一组重复, 实际: {groups:?}");

    let group = &groups[0];
    assert_eq!(group.size, payload.len() as u64);
    assert_eq!(group.paths.len(), 2);
    assert!(group.paths.iter().any(|p| *p == path("/t/copy1.txt")));
    assert!(group.paths.iter().any(|p| *p == path("/t/nested_copy.txt")));
    assert_eq!(group.hash, *blake3::hash(payload).as_bytes());
}

#[test]
fn hashes_are_those_of_blake3_however_the_reads_cut() {
    let content: Vec<u8> = (0..20_000usize).map(|i| (i * 7 % 253) as u8).collect();
    for cut in [1, 64, 1000, 4096, 8192, 100_000] {
        for limit in [0, 1, 4096, 8192, 8193, 20_000, u64::MAX] {
            let n = (limit.min(content.len() as u64)) as usize;
            assert_eq!(
                hash_bytes(&content, limit, cut),
                *blake3::hash(&content[..n]).as_bytes(),
                "{cut} {limit}"
            );
        }
    }
    assert_eq!(hash_bytes(b"", u64::MAX, 1), *blake3::hash(b"").as_bytes());
}

#[test]
fn reads_ask_for_at_most_a_buffer() {
    let HashStep::Read(job) = hash_file(u64::MAX) else { panic!("done") };
    assert_eq!(job.wanted(), 8192);
    let HashStep::Read(job) = hash_file(HEAD_BYTES) else { panic!("done") };
    assert_eq!(job.wanted(), 4096);
    let HashStep::Read(job) = job.absorb(&[0u8; 4000]) else { panic!("done") };
    assert_eq!(job.wanted(), 96);
}

#[test]
fn only_files_of_one_size_are_read() {
    let mut contents = Contents::new();
    contents.insert("/t/a".to_string(), vec![1; 10]);
    contents.insert("/t/b".to_string(), vec![2; 10]);
    contents.insert("/t/c".to_string(), vec![3; 11]);
    let mut entries = entries_of(&contents);
    entries.push(FileEntry { path: path("/t/d"), size: 11, kind: EntryKind::Dir });
    entries.push(FileEntry { path: path("/t/l"), size: 11, kind: EntryKind::Symlink });

    let task = find_duplicates(&entries, DedupEvent::Begin);

    assert_eq!(task.limit(), HEAD_BYTES);
    match task {
        DedupTask::HashHeads(paths) => assert_eq!(paths, [path("/t/a"), path("/t/b")]),
        _ => panic!("no heads"),
    }
}

#[test]
fn only_files_of_one_size_and_head_are_read_as_a_whole() {
    let entries: Vec<FileEntry> = [("/t/a", 9), ("/t/b", 9), ("/t/c", 9), ("/t/d", 8), ("/t/e", 8)]
        .iter()
        .map(|(name, size)| FileEntry { path: path(name), size: *size, kind: EntryKind::File })
        .collect();
    let replies = vec![
        Hashed::Hash(path("/t/d"), [1; 32]),
        Hashed::Hash(path("/t/a"), [1; 32]),
        Hashed::Failed(ScanError::Io { path: path("/t/e"), source: "denied".to_string() }),
        Hashed::Hash(path("/t/b"), [2; 32]),
        Hashed::Hash(path("/t/c"), [1; 32]),
    ];

    let task = find_duplicates(&entries, DedupEvent::HeadsHashed(replies));

    assert_eq!(task.limit(), u64::MAX);
    match task {
        DedupTask::HashFulls(paths, warnings) => {
            assert_eq!(paths, [path("/t/a"), path("/t/c")]);
            assert_eq!(warnings.len(), 1);
            assert_eq!(warnings[0].message(), "/t/e: denied");
        }
        _ => panic!("no fulls"),
    }
}

#[test]
fn unreadable_files_become_warnings_and_the_rest_is_grouped() {
    let mut contents = Contents::new();
    for name in ["/t/a", "/t/b", "/t/c"] {
        contents.insert(name.to_string(), vec![5; 100]);
    }
    let entries = entries_of(&contents);
    contents.remove("/t/b");

    let (groups, warnings) = dedup(&entries, &contents);

    assert_eq!(groups.len(), 1);
    assert_eq!(groups[0].paths, [path("/t/a"), path("/t/c")]);
    assert_eq!(warnings.len(), 1);
    assert_eq!(warnings[0].message(), "/t/b: gone");
}

#[test]
fn warnings_of_both_readings_are_kept_in_order() {
    let failed = |name: &str| ScanError::Io { path: path(name), source: "e".to_string() };
    let replies = vec![
        Hashed::Failed(failed("two")),
        Hashed::Hash(path("x"), [9; 32]),
        Hashed::Failed(failed("three")),
    ];

    let task =
        find_duplicates(&Vec::new(), DedupEvent::FullsHashed(replies, vec![failed("one")]));

    match task {
        DedupTask::Done(groups, warnings) => {
            assert!(groups.is_empty());
            let texts: Vec<String> = warnings.iter().map(|w| w.message()).collect();
            assert_eq!(texts, ["one: e", "two: e", "three: e"]);
        }
        _ => panic!("not done"),
    }
}

#[test]
fn every_pair_of_equal_files_is_found() {
    let mut contents = Contents::new();
    for i in 0..60u8 {
        let mut content = vec![i % 7; 6000 + (i % 3) as usize];
        content[5000] = i % 2;
        contents.insert(format!("/t/f{i:02}"), content);
    }
    let (groups, warnings) = dedup(&entries_of(&contents), &contents);
    assert!(warnings.is_empty());
    let group_of = |name: &String| {
        groups.iter().position(|g| g.paths.iter().any(|p| p.display() == *name))
    };
    for (x, a) in &contents {
        for (y, b) in &contents {
            if x != y {
                let together = group_of(x).is_some() && group_of(x) == group_of(y);
                assert_eq!(together, a == b, "{x} {y}");
            }
        }
    }
}

#[test]
fn warnings_are_about_candidates_once_each() {
    let mut contents = Contents::new();
    for name in ["/t/a", "/t/b", "/t/c", "/t/d"] {
        contents.insert(name.to_string(), vec![b'A'; 10]);
    }
    contents.insert("/t/alone".to_string(), vec![b'A'; 11]);
    let entries = entries_of(&contents);
    contents.remove("/t/alone");
    contents.remove("/t/b");
    let DedupTask::HashHeads(paths) = find_duplicates(&entries, DedupEvent::Begin) else {
        panic!("heads come first");
    };
    let heads = hash_all(&paths, HEAD_BYTES, &contents);
    contents.remove("/t/d");
    let DedupTask::HashFulls(paths, warnings) =
        find_duplicates(&entries, DedupEvent::HeadsHashed(heads))
    else {
        panic!("whole files come second");
    };
    let fulls = hash_all(&paths, u64::MAX, &contents);
    let DedupTask::Done(groups, warnings) =
        find_duplicates(&entries, DedupEvent::FullsHashed(fulls, warnings))
    else {
        panic!("then it is done");
    };

    let warned: Vec<String> = warnings.iter().map(|w| w.message()).collect();
    assert_eq!(warned, ["/t/b: gone", "/t/d: gone"]);
    assert_eq!(groups.len(), 1);
    assert_eq!(groups[0].paths, [path("/t/a"), path("/t/c")]);
}
