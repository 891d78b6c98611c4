use reclaim::error::ScanError;
use reclaim::model::{DuplicateGroup, EntryKind, FileEntry, ScanResult};
use reclaim::path::{FilePath, PartKind, PathPart};
use reclaim::report::{
    human_size, render_json, top_entries, JsonReport, JsonReporter, Output, Rendered, Reporter,
    TableReporter, TreeReporter,
};
use serde_json::Value;
use std::path::{Component, Path};

fn path(text: &str) -> FilePath {
    let mut parts: Vec<PathPart> = Vec::new();
    for part in Path::new(text).components() {
        let kind = match part {
            Component::Prefix(_) => PartKind::Prefix,
            Component::RootDir => PartKind::RootDir,
            Component::CurDir => PartKind::CurDir,
            Component::ParentDir => PartKind::ParentDir,
            Component::Normal(_) => PartKind::Normal,
        };
        let joined = parts.is_empty() || parts[parts.len() - 1].kind == PartKind::RootDir;
        let lead = if joined { Vec::new() } else { vec![b'/'] };
        let name = part.as_os_str().as_encoded_bytes().to_vec();
        parts.push(PathPart { kind, name, lead });
    }
    FilePath { parts, tail: Vec::new() }
}

fn file(text: &str, size: u64) -> FileEntry {
    FileEntry { path: path(text), size, kind: EntryKind::File }
}

fn dir(text: &str) -> FileEntry {
    FileEntry { path: path(text), size: 0, kind: EntryKind::Dir }
}

fn result(entries: Vec<FileEntry>, total_size: u64) -> ScanResult {
    ScanResult { root: path("/root"), entries, total_size, warnings: Vec::new() }
}

fn lines(rendered: Rendered) -> Output {
    match rendered {
        Rendered::Lines(output) => output,
        Rendered::Document(_) => panic!("a document"),
    }
}

#[test]
fn human_size_formats_units() {
    assert_eq!(human_size(0), "0 B");
    assert_eq!(human_size(500), "500 B");
    assert_eq!(human_size(1023), "1023 B");
    assert_eq!(human_size(1024), "1.0 KB");
    assert_eq!(human_size(1536), "1.5 KB");
    assert_eq!(human_size(1024 * 1024), "1.0 MB");
}

fn by_floating_point(bytes: u64) -> String {
    let units = ["B", "KB", "MB", "GB", "TB"];
    if bytes < 1024 {
        return format!("{bytes} B");
    }
    let mut size = bytes as f64;
    let mut unit = 0;
    while size >= 1024.0 && unit < units.len() - 1 {
        size /= 1024.0;
        unit += 1;
    }
    format!("{size:.1} {}", units[unit])
}

#[test]
fn human_size_rounds_like_floating_point() {
    for n in 0..200_000u64 {
        assert_eq!(human_size(n), by_floating_point(n));
    }
    let mut n: u64 = 1;
    for _ in 0..200_000 {
        n = n.wrapping_mul(6364136223846793005).wrapping_add(1442695040888963407);
        for shift in [0, 7, 13, 22, 31, 40, 51] {
            assert_eq!(human_size(n >> shift), by_floating_point(n >> shift));
        }
    }
    for k in 0..64u32 {
        let n = 1u64 << k;
        assert_eq!(human_size(n), by_floating_point(n));
        assert_eq!(human_size(n - 1), by_floating_point(n - 1));
        assert_eq!(human_size(n + 1), by_floating_point(n + 1));
    }
    // Ties: a quarter and three quarters of a tenth of a power of two.
    for k in 0..40u64 {
        let n = (1u64 << 40) * 5 * (2 * k + 1);
        for n in [n / 4, n / 20, n / 100, n / 20 * 3] {
            assert_eq!(human_size(n), by_floating_point(n));
        }
    }
    assert_eq!(human_size(u64::MAX), by_floating_point(u64::MAX));
}

#[test]
fn top_entries_sorts_desc_and_truncates() {
    let entries = vec![file("a", 10), file("b", 30), file("c", 20)];

    let top = top_entries(&entries, 2);

    assert_eq!(top.len(), 2);
    assert_eq!(top[0].size, 30);
    assert_eq!(top[1].size, 20);
}

#[test]
fn top_entries_keeps_the_order_of_equals() {
    let entries = vec![file("a", 5), file("b", 9), file("c", 5), file("d", 9), file("e", 7)];

    let names: Vec<String> = top_entries(&entries, 10).iter().map(|e| e.path.display()).collect();

    assert_eq!(names, ["b", "d", "e", "a", "c"]);
    assert_eq!(top_entries(&entries, 0).len(), 0);
}

#[test]
fn table_lists_the_largest_and_the_total() {
    let mut result = result(vec![file("/root/a", 10), dir("/root/s"), file("/root/b", 2048)], 2058);
    result.warnings.push(ScanError::Io { path: path("/root/x"), source: "denied".to_string() });

    let output = lines(TableReporter.report(&result, None, 2));

    assert_eq!(output.out, ["    2.0 KB  /root/b", "      10 B  /root/a", "total: 2.0 KB"]);
    assert_eq!(output.err, ["warning: /root/x: denied"]);
}

fn group(size: u64, paths: &[&str]) -> DuplicateGroup {
    DuplicateGroup { hash: [7u8; 32], size, paths: paths.iter().map(|p| path(p)).collect() }
}

#[test]
fn table_adds_duplicates_by_freed_space() {
    let dups = vec![group(21, &["a", "b", "c"]), group(100, &["d", "e"])];

    let output = lines(TableReporter.report(&result(Vec::new(), 0), Some(&dups), 5));

    assert_eq!(
        output.out,
        [
            "total: 0 B",
            "100 B × 2 份（可回收 100 B）",
            "  d",
            "  e",
            "21 B × 3 份（可回收 42 B）",
            "  a",
            "  b",
            "  c",
            "总计可回收: 142 B",
        ]
    );
}

#[test]
fn table_says_when_there_are_no_duplicates() {
    let output = lines(TableReporter.report(&result(Vec::new(), 0), Some(&Vec::new()), 5));

    assert_eq!(output.out, ["total: 0 B", "未发现重复文件"]);
}

#[test]
fn tree_sums_directories_and_sorts_by_size() {
    let entries = vec![
        file("/root/a.txt", 10),
        dir("/root/sub"),
        file("/root/sub/b.txt", 20),
        file("/root/sub/c.txt", 30),
        dir("/root/empty"),
    ];

    let output = lines(TreeReporter.report(&result(entries, 60), None, 20));

    assert_eq!(
        output.out,
        [
            "60 B  /root/",
            "  50 B  sub/",
            "    30 B  c.txt",
            "    20 B  b.txt",
            "  10 B  a.txt",
            "  0 B  empty/",
        ]
    );
}

#[test]
fn tree_shows_the_largest_of_each_level() {
    let entries = vec![
        file("/root/x/1", 1),
        file("/root/x/2", 2),
        file("/root/y/3", 3),
        file("/root/z", 9),
    ];

    let output = lines(TreeReporter.report(&result(entries, 15), None, 1));

    assert_eq!(output.out, ["15 B  /root/", "  9 B  z"]);
}

#[test]
fn tree_orders_equals_by_name() {
    let entries = vec![file("/root/b", 1), file("/root/a", 1), file("/root/c", 1)];

    let output = lines(TreeReporter.report(&result(entries, 3), None, 9));

    assert_eq!(output.out, ["3 B  /root/", "  1 B  a", "  1 B  b", "  1 B  c"]);
}

#[test]
fn tree_places_strangers_by_their_whole_path() {
    let entries = vec![file("/other/f", 4), file("/root/a", 1)];

    let output = lines(TreeReporter.report(&result(entries, 5), None, 9));

    assert_eq!(
        output.out,
        ["5 B  /root/", "  4 B  //", "    4 B  other/", "      4 B  f", "  1 B  a"]
    );
}

#[test]
fn tree_does_not_sum_below_a_file() {
    let mut entries = vec![file("/root/a", 3), file("/root/a/b/c", 5)];
    let output = lines(TreeReporter.report(&result(entries.clone(), 8), None, 9));
    assert_eq!(output.out, ["3 B  /root/", "  3 B  a", "    0 B  b/", "      5 B  c"]);

    entries.push(dir("/root/a"));
    let output = lines(TreeReporter.report(&result(entries, 8), None, 9));
    assert_eq!(output.out, ["5 B  /root/", "  5 B  a/", "    5 B  b/", "      5 B  c"]);
}

#[test]
fn tree_counts_no_links() {
    let link = FileEntry { path: path("/root/l"), size: 77, kind: EntryKind::Symlink };

    let output = lines(TreeReporter.report(&result(vec![link, file("/root/f", 1)], 1), None, 9));

    assert_eq!(output.out, ["1 B  /root/", "  1 B  f", "  0 B  l"]);
}

fn strings(texts: &[String]) -> Value {
    Value::Array(texts.iter().map(|t| Value::String(t.clone())).collect())
}

fn to_value(report: &JsonReport) -> Value {
    let mut map = serde_json::Map::new();
    map.insert("root".to_string(), Value::String(report.root.clone()));
    map.insert("total_size".to_string(), Value::from(report.total_size));
    let mut entries = Vec::new();
    for entry in &report.entries {
        let mut item = serde_json::Map::new();
        item.insert("path".to_string(), Value::String(entry.path.clone()));
        item.insert("size".to_string(), Value::from(entry.size));
        item.insert("kind".to_string(), Value::String(entry.kind.to_string()));
        entries.push(Value::Object(item));
    }
    map.insert("entries".to_string(), Value::Array(entries));
    if let Some(dups) = &report.duplicates {
        let mut groups = Vec::new();
        for dup in dups {
            let mut item = serde_json::Map::new();
            item.insert("hash".to_string(), Value::String(dup.hash.clone()));
            item.insert("size".to_string(), Value::from(dup.size));
            item.insert("paths".to_string(), strings(&dup.paths));
            groups.push(Value::Object(item));
        }
        map.insert("duplicates".to_string(), Value::Array(groups));
    }
    map.insert("warnings".to_string(), strings(&report.warnings));
    Value::Object(map)
}

#[test]
fn render_json_is_valid_and_has_fields() {
    let result = result(vec![file("/root/a", 30), file("/root/b", 10)], 40);
    let dups = vec![DuplicateGroup {
        hash: [0xab; 32],
        size: 30,
        paths: vec![path("/root/a"), path("/root/c")],
    }];

    let report = render_json(&result, Some(&dups), 20);
    let json = serde_json::to_string_pretty(&to_value(&report)).expect("serialize json");
    let parsed: Value = serde_json::from_str(&json).expect("parse json");

    assert_eq!(parsed["total_size"].as_u64().unwrap(), 40);
    assert_eq!(parsed["entries"][0]["size"].as_u64().unwrap(), 30);
    assert_eq!(parsed["entries"][0]["kind"].as_str().unwrap(), "file");
    assert_eq!(parsed["duplicates"][0]["paths"].as_array().unwrap().len(), 2);
    assert_eq!(parsed["duplicates"][0]["hash"].as_str().unwrap().len(), 64);
    assert_eq!(report.root, "/root");
    assert_eq!(report.entries[1].path, "/root/b");
}

#[test]
fn json_hash_is_lower_case_hexadecimal() {
    let mut hash = [0u8; 32];
    hash[0] = 0x0f;
    hash[31] = 0xe1;
    let dups = vec![DuplicateGroup { hash, size: 1, paths: Vec::new() }];

    let report = render_json(&result(Vec::new(), 0), Some(&dups), 20);

    let text = &report.duplicates.expect("duplicates")[0].hash;
    assert_eq!(text, &format!("0f{}e1", "00".repeat(30)));
}

#[test]
fn json_leaves_duplicates_out_unless_asked() {
    let link = FileEntry { path: path("l"), size: 0, kind: EntryKind::Symlink };
    let mut result = result(vec![dir("d"), link], 0);
    result.warnings.push(ScanError::Tui("gone".to_string()));

    let report = match JsonReporter.report(&result, None, 20) {
        Rendered::Document(report) => report,
        Rendered::Lines(_) => panic!("lines"),
    };

    assert!(report.duplicates.is_none());
    assert_eq!(report.entries[0].kind, "dir");
    assert_eq!(report.entries[1].kind, "symlink");
    assert_eq!(report.warnings, ["终端错误: gone"]);
}

#[test]
fn warnings_of_a_search_are_added_to_those_of_the_scan() {
    let mut result = result(Vec::new(), 0);
    result.warnings.push(ScanError::Tui("first".to_string()));
    result.add_warnings(vec![ScanError::Tui("second".to_string())]);

    let texts: Vec<String> = result.warnings.iter().map(|w| w.message()).collect();
    assert_eq!(texts, ["终端错误: first", "终端错误: second"]);
}

#[test]
fn tree_is_the_same_in_any_order_of_the_entries() {
    let entries = [
        dir("/root/x"),
        file("/root/x/1", 4),
        file("/root/x/y/2", 6),
        dir("/root/x/y"),
        FileEntry { path: path("/root/l"), size: 9, kind: EntryKind::Symlink },
        file("/root/3", 10),
    ];
    let n = entries.len();
    for start in 0..n {
        for step in [1, n - 1] {
            let turned = (0..n).map(|k| entries[(start + k * step) % n].clone()).collect();
            let output = lines(TreeReporter.report(&result(turned, 20), None, 9));
            assert_eq!(
                output.out,
                [
                    "20 B  /root/",
                    "  10 B  3",
                    "  10 B  x/",
                    "    6 B  y/",
                    "      6 B  2",
                    "    4 B  1",
                    "  0 B  l",
                ]
            );
        }
    }
}
