use reclaim::actions::DeleteMode;
use reclaim::model::{DuplicateGroup, EntryKind, FileEntry};
use reclaim::path::{FilePath, PartKind, PathPart};
use reclaim::tui::app::{App, KeyCode};
use reclaim::tui::ui::{draw, Content, Overlay};
use std::path::{Component, Path};

fn path(text: &str) -> FilePath {
    let mut parts: Vec<PathPart> = Vec::new();
    for part in Path::new(text).components() {
        let kind = match part {
            Component::Prefix(_) => PartKind::Prefix,
            Component::RootDir => PartKind::RootDir,
            Component::CurDir => PartKind::CurDir,
            Component::ParentDir => PartKind::ParentDir,
            Component::Normal(_) => PartKind::Normal,
        };
        let joined = parts.is_empty() || parts[parts.len() - 1].kind == PartKind::RootDir;
        let lead = if joined { Vec::new() } else { vec![b'/'] };
        let name = part.as_os_str().as_encoded_bytes().to_vec();
        parts.push(PathPart { kind, name, lead });
    }
    FilePath { parts, tail: Vec::new() }
}

fn file(text: &str, size: u64) -> FileEntry {
    FileEntry { path: path(text), size, kind: EntryKind::File }
}

fn dir(text: &str) -> FileEntry {
    FileEntry { path: path(text), size: 0, kind: EntryKind::Dir }
}

fn app() -> App {
    let mut app = App::new(path("/root"));
    app.add_entries(vec![dir("/root/sub"), file("/root/sub/f", 2048), file("/root/a b", 10)]);
    app.finish_scan(Vec::new());
    app
}

fn texts(overlay: &Overlay) -> Vec<&str> {
    overlay.lines.iter().map(|l| l.text.as_str()).collect()
}

#[test]
fn sizes_are_listed_with_marks() {
    let mut app = app();
    app.handle_key(KeyCode::Down);
    app.handle_key(KeyCode::Char(' '));
    let screen = draw(&app);
    let Content::List(pane) = screen.content else { panic!("no list") };
    assert_eq!(pane.title, " Sizes [大小↓] — /root (2.0 KB) ");
    assert_eq!(pane.items, ["        2.0 KB  sub/", "[x]       10 B  a b"]);
    assert_eq!(pane.selected, Some(1));
    assert_eq!(
        screen.footer,
        " [Sizes]  Enter 进入 · Space 标记 · d 预览 · Tab 视图 · s 排序 · ? 帮助 · q 退出 · 已标记 1 "
    );
    assert!(screen.overlays.is_empty());
}

#[test]
fn a_running_scan_shows_in_the_title() {
    let mut app = App::new(path("/root"));
    app.set_progress(12);
    app.handle_key(KeyCode::Char('s'));
    let Content::List(pane) = draw(&app).content else { panic!("no list") };
    assert_eq!(pane.title, " Sizes [名称] — /root (0 B) [扫描中 12] ");
    assert_eq!(pane.selected, None);
}

fn with_groups() -> App {
    let mut app = app();
    app.set_dups(vec![DuplicateGroup {
        hash: [0; 32],
        size: 10,
        paths: vec![path("/root/a b"), path("/root/c"), path("/root/d")],
    }]);
    app.handle_key(KeyCode::Tab);
    app
}

#[test]
fn groups_are_listed_above_their_files() {
    let mut app = with_groups();
    let screen = draw(&app);
    assert_eq!(
        screen.footer,
        " [Duplicates]  Enter 看文件 · Tab 视图 · ↑/↓ 选组 · ? 帮助 · q 退出 "
    );
    let Content::Groups { groups, files, browsing } = screen.content else { panic!("no groups") };
    assert!(!browsing);
    assert_eq!(groups.title, " Duplicates — 1 组 (可回收 20 B) ");
    assert_eq!(groups.items, ["10 B × 3 份（可回收 20 B）"]);
    assert_eq!(groups.selected, Some(0));
    assert_eq!(files.title, " 选中组的文件 [Enter 浏览] ");
    assert_eq!(files.items, ["[ ] /root/a b", "[ ] /root/c", "[ ] /root/d"]);
    assert_eq!(files.selected, None);

    app.handle_key(KeyCode::Enter);
    app.handle_key(KeyCode::Down);
    app.handle_key(KeyCode::Char(' '));
    let screen = draw(&app);
    assert_eq!(
        screen.footer,
        " [Duplicates·浏览]  ↑/↓ 移动 · Space 标记 · d 预览 · Esc 返回 · q 退出 · 已标记 1 "
    );
    let Content::Groups { files, browsing, .. } = screen.content else { panic!("no groups") };
    assert!(browsing);
    assert_eq!(files.title, " 选中组的文件 [↑/↓ 移动 · Space 标记 · Esc 返回] ");
    assert_eq!(files.items[1], "[x] /root/c");
    assert_eq!(files.selected, Some(1));
}

fn message(app: &App) -> &'static str {
    match draw(app).content {
        Content::Message { title, text } => {
            assert_eq!(title, " Duplicates — 0 组 (可回收 0 B) ");
            text
        }
        other => panic!("{other:?}"),
    }
}

#[test]
fn a_message_stands_in_for_groups() {
    let mut app = App::new(path("/root"));
    app.handle_key(KeyCode::Tab);
    assert_eq!(message(&app), "扫描进行中，稍候检测重复…");
    app.finish_scan(Vec::new());
    assert_eq!(message(&app), "正在检测重复文件…");
    app.set_dups(Vec::new());
    assert_eq!(message(&app), "未发现重复文件");
}

#[test]
fn the_preview_lists_what_is_marked() {
    let mut app = app();
    app.handle_key(KeyCode::Char('d'));
    let overlays = draw(&app).overlays;
    assert_eq!(overlays.len(), 1);
    assert_eq!(overlays[0].title, " 删除预览 ");
    assert_eq!(
        texts(&overlays[0]),
        [
            "",
            "  尚未标记任何文件（在列表里用 Space 标记）",
            "",
            "  Enter 进入删除确认 · Esc/d 取消  "
        ]
    );
    app.handle_key(KeyCode::Esc);
    app.handle_key(KeyCode::Down);
    app.handle_key(KeyCode::Char(' '));
    app.handle_key(KeyCode::Char('d'));
    assert_eq!(
        texts(&draw(&app).overlays[0]),
        [
            "        10 B  /root/a b",
            "",
            "  将删除 1 个文件，合计可释放 10 B",
            "",
            "  Enter 进入删除确认 · Esc/d 取消  "
        ]
    );
}

#[test]
fn the_question_warns_in_red_the_second_time() {
    let mut app = with_groups();
    app.add_entries(vec![file("/root/c", 10), file("/root/d", 10)]);
    for name in ["/root/a b", "/root/c", "/root/d"] {
        app.marked.insert(path(name));
    }
    app.handle_key(KeyCode::Char('d'));
    app.handle_key(KeyCode::Enter);
    let kept = "  （重复组保护：保留 1 份未删）";
    assert_eq!(
        texts(&draw(&app).overlays[0]),
        [
            "",
            "  将把 2 个文件移入回收区（可恢复）",
            "",
            "  y / Enter 确认      n / Esc 取消",
            "",
            kept
        ]
    );
    app.mode = DeleteMode::Permanent;
    assert_eq!(
        texts(&draw(&app).overlays[0]),
        [
            "",
            "  将永久删除 2 个文件，不可恢复！",
            "",
            "  y / Enter 继续（需再确认一次）   n / Esc 取消",
            "",
            kept
        ]
    );
    app.handle_key(KeyCode::Char('y'));
    let overlay = &draw(&app).overlays[0];
    assert_eq!(
        texts(overlay),
        [
            "",
            "  ⚠ 永久删除不可恢复！",
            "  再次按 y / Enter 永久删除这 2 个文件",
            "",
            "  按其它键取消",
            "",
            kept
        ]
    );
    let red: Vec<bool> = overlay.lines.iter().map(|l| l.red).collect();
    assert_eq!(red, [false, true, true, false, false, false, false]);
}

#[test]
fn overlays_lie_in_order() {
    let mut app = app();
    app.handle_key(KeyCode::Char('?'));
    app.handle_key(KeyCode::Char('q'));
    app.delete_result = Some("完".to_string());
    let overlays = draw(&app).overlays;
    let titles: Vec<&str> = overlays.iter().map(|o| o.title.as_str()).collect();
    assert_eq!(titles, [" 帮助 ", " 退出确认 ", " 删除结果 "]);
    assert_eq!(overlays[0].lines.len(), 13);
    assert_eq!((overlays[0].width, overlays[0].height), (60, 50));
    assert_eq!(texts(&overlays[1])[1], "  确认退出 reclaim？");
    assert_eq!(texts(&overlays[2]), ["", "  完", "", "  按任意键继续"]);
}
