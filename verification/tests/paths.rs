use reclaim::error::ScanError;
use reclaim::index::{PathSet, PathSizes};
use reclaim::path::{FilePath, PartKind, PathPart};
use std::path::{Component, Path};

fn path(text: &str) -> FilePath {
    let mut parts: Vec<PathPart> = Vec::new();
    for part in Path::new(text).components() {
        let kind = match part {
            Component::Prefix(_) => PartKind::Prefix,
            Component::RootDir => PartKind::RootDir,
            Component::CurDir => PartKind::CurDir,
            Component::ParentDir => PartKind::ParentDir,
            Component::Normal(_) => PartKind::Normal,
        };
        let joined = parts.is_empty() || parts[parts.len() - 1].kind == PartKind::RootDir;
        let lead = if joined { Vec::new() } else { vec![b'/'] };
        let name = part.as_os_str().as_encoded_bytes().to_vec();
        parts.push(PathPart { kind, name, lead });
    }
    FilePath { parts, tail: Vec::new() }
}

#[test]
fn set_holds_each_path_once() {
    let mut set = PathSet::new();
    assert!(set.is_empty());
    assert!(set.insert(path("/a/b")));
    assert!(!set.insert(path("/a/b")));
    assert!(set.insert(path("/a")));
    assert_eq!(set.len(), 2);
    assert!(set.contains(&path("/a")));
    assert!(!set.contains(&path("/a/c")));
    assert!(set.remove(&path("/a")));
    assert!(!set.remove(&path("/a")));
    assert_eq!(set.len(), 1);
}

#[test]
fn set_toggles() {
    let mut set = PathSet::new();
    set.toggle(path("x"));
    assert!(set.contains(&path("x")));
    set.toggle(path("x"));
    assert!(set.is_empty());
}

#[test]
fn sizes_are_zero_until_set() {
    let mut sizes = PathSizes::new();
    assert_eq!(sizes.get(&path("/a")), 0);
    sizes.set(&path("/a"), 5);
    sizes.set(&path("/b"), 7);
    sizes.set(&path("/a"), 6);
    assert_eq!(sizes.get(&path("/a")), 6);
    assert_eq!(sizes.get(&path("/b")), 7);
    assert_eq!(sizes.get(&path("/a/b")), 0);
}

#[test]
fn paths_are_ordered_like_those_of_the_standard_library() {
    let texts = [
        "", "/", "a", "a/b", "a/b/c", "a-b", "a.b", "ab", "b", "./a", "../a", "/a", "/a/b", "/a-b",
        "A", "é", "a/../b", "..", "/b/..",
    ];
    for x in texts {
        for y in texts {
            let less = Path::new(x) < Path::new(y);
            assert_eq!(path(x).precedes(&path(y)), less, "{x} {y}");
            assert_eq!(path(x) == path(y), Path::new(x) == Path::new(y), "{x} {y}");
            let inside = Path::new(x).starts_with(Path::new(y));
            assert_eq!(path(x).starts_with(&path(y)), inside, "{x} {y}");
        }
        let parent = Path::new(x).parent();
        assert_eq!(path(x).parent(), parent.map(|p| path(p.to_str().expect("text"))), "{x}");
    }
}

#[test]
fn paths_are_displayed_as_they_are_spelled() {
    let spelled = FilePath {
        parts: vec![
            PathPart { kind: PartKind::RootDir, name: b"/".to_vec(), lead: Vec::new() },
            PathPart { kind: PartKind::Normal, name: b"a".to_vec(), lead: Vec::new() },
            PathPart { kind: PartKind::Normal, name: "é".as_bytes().to_vec(), lead: b"//".to_vec() },
        ],
        tail: b"/".to_vec(),
    };
    assert_eq!(spelled.display(), "/a//é/");
    assert_eq!(spelled, path("/a/é"));
}

#[test]
fn names_that_are_no_text_are_displayed_with_replacements() {
    let odd = FilePath {
        parts: vec![PathPart {
            kind: PartKind::Normal,
            name: vec![b'x', 0xff, b'y'],
            lead: Vec::new(),
        }],
        tail: Vec::new(),
    };
    assert_eq!(odd.display(), "x\u{fffd}y");
}

#[test]
fn children_lie_directly_in_a_directory() {
    assert!(path("/r/a").is_child_of(&path("/r")));
    assert!(!path("/r/a/b").is_child_of(&path("/r")));
    assert!(!path("/r").is_child_of(&path("/r")));
    assert!(!path("/").is_child_of(&path("/")));
}

#[test]
fn errors_say_what_and_where() {
    let io = ScanError::Io { path: path("/r/f"), source: "denied".to_string() };
    assert_eq!(io.message(), "/r/f: denied");
    assert_eq!(io.source(), "denied");
    let tui = ScanError::from("no terminal".to_string());
    assert_eq!(tui.message(), "终端错误: no terminal");
    assert_eq!(tui.source(), "no terminal");
}
