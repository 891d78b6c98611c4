//! What the interactive interface shows.

use crate::actions::{deletable, listed_in, path_ids, safe_targets, spared, DeleteMode};
use crate::index::PathSet;
use crate::model::{
    entries_view, groups_view, size_total, DuplicateGroup, EntryView, GroupView,
};
use crate::path::{FilePath, PartKind, PathId, PathView};
use crate::report::{
    freed_by_each, group_line, group_summary, groups_countable, human_size,
    lemma_reclaimable_part, lines_view, reclaimable_total, size_text,
};
use crate::text::{decimal, lossy, lossy_text, padded, push_decimal, push_padded};
use crate::tui::app::{dir_total, App, AppView, Row, RowView, SortKey, View};
use vstd::prelude::*;
use vstd::string::*;
use vstd::view::View as _;

verus! {

/// A line of an overlay.
#[derive(Debug)]
pub struct TextLine {
    pub text: String,
    /// Whether it is shown in red.
    pub red: bool,
}

/// What a line of an overlay is.
pub struct LineView {
    pub text: Seq<char>,
    pub red: bool,
}

impl vstd::view::View for TextLine {
    type V = LineView;

    open spec fn view(&self) -> LineView {
        LineView { text: self.text@, red: self.red }
    }
}

/// What lines of an overlay are.
pub open spec fn text_lines(lines: Seq<TextLine>) -> Seq<LineView> {
    lines.map_values(|l: TextLine| l@)
}

/// A box in the middle of the screen.
#[derive(Debug)]
pub struct Overlay {
    pub title: String,
    /// How much of the screen it takes, in hundredths.
    pub width: u16,
    pub height: u16,
    pub lines: Vec<TextLine>,
}

/// What a box is.
pub struct OverlayView {
    pub title: Seq<char>,
    pub width: u16,
    pub height: u16,
    pub lines: Seq<LineView>,
}

impl vstd::view::View for Overlay {
    type V = OverlayView;

    open spec fn view(&self) -> OverlayView {
        OverlayView {
            title: self.title@,
            width: self.width,
            height: self.height,
            lines: text_lines(self.lines@),
        }
    }
}

/// A list with a title.
#[derive(Debug)]
pub struct ListPane {
    pub title: String,
    pub items: Vec<String>,
    /// The highlighted item.
    pub selected: Option<usize>,
}

/// What a list is.
pub struct PaneView {
    pub title: Seq<char>,
    pub items: Seq<Seq<char>>,
    pub selected: Option<usize>,
}

impl vstd::view::View for ListPane {
    type V = PaneView;

    open spec fn view(&self) -> PaneView {
        PaneView { title: self.title@, items: lines_view(self.items@), selected: self.selected }
    }
}

/// What fills the screen above the last line.
#[derive(Debug)]
pub enum Content {
    /// One list.
    List(ListPane),
    /// A text under a title.
    Message { title: String, text: &'static str },
    /// The groups above the files of the selected one. While the files are being browsed they
    /// get most of the room.
    Groups { groups: ListPane, files: ListPane, browsing: bool },
}

/// What fills the screen.
pub enum ContentView {
    List(PaneView),
    Message { title: Seq<char>, text: Seq<char> },
    Groups { groups: PaneView, files: PaneView, browsing: bool },
}

impl vstd::view::View for Content {
    type V = ContentView;

    open spec fn view(&self) -> ContentView {
        match self {
            Content::List(pane) => ContentView::List(pane@),
            Content::Message { title, text } => ContentView::Message {
                title: title@,
                text: text@,
            },
            Content::Groups { groups, files, browsing } => ContentView::Groups {
                groups: groups@,
                files: files@,
                browsing: *browsing,
            },
        }
    }
}

/// All that is shown. The overlays are drawn in order, each on top of the ones before.
#[derive(Debug)]
pub struct Screen {
    pub content: Content,
    pub footer: String,
    pub overlays: Vec<Overlay>,
}

/// All that is shown.
pub struct ScreenView {
    pub content: ContentView,
    pub footer: Seq<char>,
    pub overlays: Seq<OverlayView>,
}

/// What boxes are.
pub open spec fn overlays_view(overlays: Seq<Overlay>) -> Seq<OverlayView> {
    overlays.map_values(|o: Overlay| o@)
}

impl vstd::view::View for Screen {
    type V = ScreenView;

    open spec fn view(&self) -> ScreenView {
        ScreenView {
            content: self.content@,
            footer: self.footer@,
            overlays: overlays_view(self.overlays@),
        }
    }
}

/// The name of a file: that of the last component, if it is a name.
pub open spec fn file_name(path: PathView) -> Seq<char> {
    if path.parts.len() > 0 && path.parts.last().id.kind == PartKind::Normal {
        lossy(path.parts.last().id.name)
    } else {
        Seq::empty()
    }
}

/// The box that shows whether a file is marked.
pub open spec fn mark_box(marked: bool) -> Seq<char> {
    if marked {
        "[x]"@
    } else {
        "[ ]"@
    }
}

/// The line of an item of a directory.
pub open spec fn row_line(row: RowView, marked: Set<PathId>) -> Seq<char> {
    (if row.is_dir {
        "   "@
    } else {
        mark_box(marked.contains(row.path.id()))
    }) + " "@ + padded(size_text(row.size), 10) + "  "@ + file_name(row.path) + if row.is_dir {
        "/"@
    } else {
        ""@
    }
}

/// The title of the list of sizes.
pub open spec fn sizes_title(app: AppView) -> Seq<char> {
    " Sizes ["@ + (match app.sort {
        SortKey::Size => "大小↓"@,
        SortKey::Name => "名称"@,
    }) + "] — "@ + app.cwd.text() + " ("@ + size_text(
        dir_total(app.result.entries, app.result.root.id(), app.cwd.id()),
    ) + ")"@ + (if app.scanning {
        " [扫描中 "@ + decimal(app.scanned_count) + "]"@
    } else {
        Seq::empty()
    }) + " "@
}

/// The list of sizes.
pub open spec fn sizes_pane(app: AppView) -> PaneView {
    PaneView {
        title: sizes_title(app),
        items: app.rows.map_values(|r: RowView| row_line(r, app.marked)),
        selected: if app.rows.len() > 0 {
            Some(app.selected as usize)
        } else {
            None
        },
    }
}

/// The title of the groups of duplicates.
pub open spec fn groups_title(groups: Seq<GroupView>) -> Seq<char> {
    " Duplicates — "@ + decimal(groups.len()) + " 组 (可回收 "@ + size_text(
        reclaimable_total(groups) as nat,
    ) + ") "@
}

/// What is said in place of groups.
pub open spec fn groups_message(app: AppView) -> Option<Seq<char>> {
    if app.scanning {
        Some("扫描进行中，稍候检测重复…"@)
    } else if !app.dups_ready {
        Some("正在检测重复文件…"@)
    } else if app.dups.len() == 0 {
        Some("未发现重复文件"@)
    } else {
        None
    }
}

/// The line of a file of the selected group.
pub open spec fn file_line(path: PathView, marked: Set<PathId>) -> Seq<char> {
    mark_box(marked.contains(path.id())) + " "@ + path.text()
}

/// The files of the selected group.
pub open spec fn files_pane(app: AppView) -> PaneView {
    PaneView {
        title: if app.dup_focus {
            " 选中组的文件 [↑/↓ 移动 · Space 标记 · Esc 返回] "@
        } else {
            " 选中组的文件 [Enter 浏览] "@
        },
        items: if app.selected < app.dups.len() {
            app.dups[app.selected as int].paths.map_values(|p: PathView| file_line(p, app.marked))
        } else {
            Seq::empty()
        },
        selected: if app.dup_focus {
            Some(app.detail_cursor as usize)
        } else {
            None
        },
    }
}

/// What fills the screen.
pub open spec fn content_of(app: AppView) -> ContentView {
    match app.view {
        View::Sizes => ContentView::List(sizes_pane(app)),
        View::Duplicates => match groups_message(app) {
            Some(text) => ContentView::Message { title: groups_title(app.dups), text },
            None => ContentView::Groups {
                groups: PaneView {
                    title: groups_title(app.dups),
                    items: app.dups.map_values(|g: GroupView| group_line(g)),
                    selected: Some(app.selected as usize),
                },
                files: files_pane(app),
                browsing: app.dup_focus,
            },
        },
    }
}

/// The hint in the last line, with the number of files that are marked.
pub open spec fn footer_of(app: AppView) -> Seq<char> {
    (match app.view {
        View::Sizes => " [Sizes]  Enter 进入 · Space 标记 · d 预览 · Tab 视图 · s 排序 · ? 帮助 · q 退出 "@,
        View::Duplicates => if app.dup_focus {
            " [Duplicates·浏览]  ↑/↓ 移动 · Space 标记 · d 预览 · Esc 返回 · q 退出 "@
        } else {
            " [Duplicates]  Enter 看文件 · Tab 视图 · ↑/↓ 选组 · ? 帮助 · q 退出 "@
        },
    }) + if app.marked.len() == 0 {
        Seq::empty()
    } else {
        "· 已标记 "@ + decimal(app.marked.len()) + " "@
    }
}

/// A line in the usual colour.
pub open spec fn plain(text: Seq<char>) -> LineView {
    LineView { text, red: false }
}

/// A line in red.
pub open spec fn red(text: Seq<char>) -> LineView {
    LineView { text, red: true }
}

/// The help.
pub open spec fn help_overlay() -> OverlayView {
    OverlayView {
        title: " 帮助 "@,
        width: 60,
        height: 50,
        lines: seq![
            plain("reclaim — 帮助"@),
            plain(""@),
            plain("  ↑/↓          上下移动"@),
            plain("  Enter        Sizes: 进入目录 / Duplicates: 浏览该组文件"@),
            plain("  Backspace    Sizes: 返回上级 / Duplicates: 退出浏览"@),
            plain("  Tab          切换 Sizes / Duplicates"@),
            plain("  s            切换排序（大小 / 名称）"@),
            plain("  Space        标记 / 取消标记待删（仅文件）"@),
            plain("  d            删除预览 →Enter 确认 →y 执行（默认入回收区）"@),
            plain("  ?            显示 / 隐藏帮助"@),
            plain("  q / Esc      退出（需确认）"@),
            plain(""@),
            plain("按 ? 或 Esc 关闭帮助"@),
        ],
    }
}

/// The question whether to leave.
pub open spec fn quit_overlay() -> OverlayView {
    OverlayView {
        title: " 退出确认 "@,
        width: 40,
        height: 25,
        lines: seq![
            plain(""@),
            plain("  确认退出 reclaim？"@),
            plain(""@),
            plain("  y / Enter  退出     n / Esc  取消"@),
        ],
    }
}

/// The line of the preview for a file.
pub open spec fn target_line(entry: EntryView) -> LineView {
    plain("  "@ + padded(size_text(entry.size as nat), 10) + "  "@ + entry.path.text())
}

/// The preview of a deletion.
pub open spec fn plan_overlay(targets: Seq<EntryView>) -> OverlayView {
    OverlayView {
        title: " 删除预览 "@,
        width: 70,
        height: 60,
        lines: (if targets.len() == 0 {
            seq![plain(""@), plain("  尚未标记任何文件（在列表里用 Space 标记）"@)]
        } else {
            targets.map_values(|e: EntryView| target_line(e)) + seq![
                plain(""@),
                plain(
                    "  将删除 "@ + decimal(targets.len()) + " 个文件，合计可释放 "@ + size_text(
                        size_total(targets),
                    ),
                ),
            ]
        }) + seq![plain(""@), plain("  Enter 进入删除确认 · Esc/d 取消  "@)],
    }
}

/// The question whether to delete `n` files, of which `kept` copies are spared.
pub open spec fn confirm_overlay(mode: DeleteMode, armed: bool, n: nat, kept: nat) -> OverlayView {
    OverlayView {
        title: " 删除确认 "@,
        width: 60,
        height: 35,
        lines: seq![plain(""@)] + (match mode {
            DeleteMode::Trash => seq![
                plain("  将把 "@ + decimal(n) + " 个文件移入回收区（可恢复）"@),
                plain(""@),
                plain("  y / Enter 确认      n / Esc 取消"@),
            ],
            DeleteMode::Permanent => if armed {
                seq![
                    red("  ⚠ 永久删除不可恢复！"@),
                    red("  再次按 y / Enter 永久删除这 "@ + decimal(n) + " 个文件"@),
                    plain(""@),
                    plain("  按其它键取消"@),
                ]
            } else {
                seq![
                    plain("  将永久删除 "@ + decimal(n) + " 个文件，不可恢复！"@),
                    plain(""@),
                    plain("  y / Enter 继续（需再确认一次）   n / Esc 取消"@),
                ]
            },
        }) + if kept > 0 {
            seq![plain(""@), plain("  （重复组保护：保留 "@ + decimal(kept) + " 份未删）"@)]
        } else {
            Seq::empty()
        },
    }
}

/// The result of a deletion.
pub open spec fn result_overlay(message: Seq<char>) -> OverlayView {
    OverlayView {
        title: " 删除结果 "@,
        width: 50,
        height: 22,
        lines: seq![plain(""@), plain("  "@ + message), plain(""@), plain("  按任意键继续"@)],
    }
}

/// One box, if it is shown.
pub open spec fn shown_if(shown: bool, overlay: OverlayView) -> Seq<OverlayView> {
    if shown {
        seq![overlay]
    } else {
        Seq::empty()
    }
}

/// The files that would be deleted.
pub open spec fn app_targets(app: AppView) -> Seq<EntryView> {
    safe_targets(app.marked, app.result.entries, app.dups, app.result.root.id())
}

/// The copies that would be spared.
pub open spec fn app_spared(app: AppView) -> Seq<PathView> {
    spared(
        path_ids(app.result.entries.filter(deletable(app.marked, app.result.root.id()))),
        app.dups,
    )
}

/// The boxes on top of the view, in the order in which they are drawn.
pub open spec fn overlays_of(app: AppView) -> Seq<OverlayView> {
    shown_if(app.show_help, help_overlay()) + shown_if(
        app.show_plan,
        plan_overlay(app.result.entries.filter(listed_in(app.marked))),
    ) + shown_if(
        app.confirm_delete,
        confirm_overlay(
            app.mode,
            app.permanent_armed,
            app_targets(app).len(),
            app_spared(app).len(),
        ),
    ) + shown_if(app.confirm_quit, quit_overlay()) + match app.delete_result {
        Some(message) => seq![result_overlay(message)],
        None => Seq::empty(),
    }
}

/// All that is shown.
pub open spec fn screen_of(app: AppView) -> ScreenView {
    ScreenView {
        content: content_of(app),
        footer: footer_of(app),
        overlays: overlays_of(app),
    }
}

fn push_plain(lines: &mut Vec<TextLine>, text: &str)
    ensures
        text_lines(final(lines)@) == text_lines(old(lines)@).push(plain(text@)),
{
    lines.push(TextLine { text: text.to_string(), red: false });
    assert(text_lines(lines@) =~= text_lines(old(lines)@).push(plain(text@)));
}

fn push_red(lines: &mut Vec<TextLine>, text: &str)
    ensures
        text_lines(final(lines)@) == text_lines(old(lines)@).push(red(text@)),
{
    lines.push(TextLine { text: text.to_string(), red: true });
    assert(text_lines(lines@) =~= text_lines(old(lines)@).push(red(text@)));
}

fn counted_text(before: &str, n: usize, after: &str) -> (text: String)
    ensures
        text@ == before@ + decimal(n as nat) + after@,
{
    let mut text = before.to_string();
    push_decimal(&mut text, n as u64);
    text.append(after);
    text
}

fn draw_help() -> (overlay: Overlay)
    ensures
        overlay@ == help_overlay(),
{
    let mut lines: Vec<TextLine> = Vec::new();
    push_plain(&mut lines, "reclaim — 帮助");
    push_plain(&mut lines, "");
    push_plain(&mut lines, "  ↑/↓          上下移动");
    push_plain(&mut lines, "  Enter        Sizes: 进入目录 / Duplicates: 浏览该组文件");
    push_plain(&mut lines, "  Backspace    Sizes: 返回上级 / Duplicates: 退出浏览");
    push_plain(&mut lines, "  Tab          切换 Sizes / Duplicates");
    push_plain(&mut lines, "  s            切换排序（大小 / 名称）");
    push_plain(&mut lines, "  Space        标记 / 取消标记待删（仅文件）");
    push_plain(&mut lines, "  d            删除预览 →Enter 确认 →y 执行（默认入回收区）");
    push_plain(&mut lines, "  ?            显示 / 隐藏帮助");
    push_plain(&mut lines, "  q / Esc      退出（需确认）");
    push_plain(&mut lines, "");
    push_plain(&mut lines, "按 ? 或 Esc 关闭帮助");
    assert(text_lines(lines@) =~= help_overlay().lines);
    Overlay { title: " 帮助 ".to_string(), width: 60, height: 50, lines }
}

fn draw_quit_confirm() -> (overlay: Overlay)
    ensures
        overlay@ == quit_overlay(),
{
    let mut lines: Vec<TextLine> = Vec::new();
    push_plain(&mut lines, "");
    push_plain(&mut lines, "  确认退出 reclaim？");
    push_plain(&mut lines, "");
    push_plain(&mut lines, "  y / Enter  退出     n / Esc  取消");
    assert(text_lines(lines@) =~= quit_overlay().lines);
    Overlay { title: " 退出确认 ".to_string(), width: 40, height: 25, lines }
}

fn draw_delete_plan(app: &App) -> (overlay: Overlay)
    requires
        size_total(app@.result.entries.filter(listed_in(app@.marked))) <= u64::MAX,
    ensures
        overlay@ == plan_overlay(app@.result.entries.filter(listed_in(app@.marked))),
{
    let plan = app.delete_plan();
    let ghost targets = entries_view(plan.targets@);
    let ghost listed = targets.map_values(|e: EntryView| target_line(e));
    let mut lines: Vec<TextLine> = Vec::new();
    if plan.targets.len() == 0 {
        push_plain(&mut lines, "");
        push_plain(&mut lines, "  尚未标记任何文件（在列表里用 Space 标记）");
    } else {
        assert(text_lines(lines@) =~= listed.take(0));
        for i in 0..plan.targets.len()
            invariant
                targets == entries_view(plan.targets@),
                listed == targets.map_values(|e: EntryView| target_line(e)),
                text_lines(lines@) == listed.take(i as int),
        {
            let target = &plan.targets[i];
            let mut text = "  ".to_string();
            push_padded(&mut text, human_size(target.size).as_str(), 10);
            text.append("  ");
            text.append(target.path.display().as_str());
            push_plain(&mut lines, text.as_str());
            proof {
                assert(targets[i as int] == target@);
                assert(plain(text@) == target_line(target@));
                assert(listed.take(i + 1) =~= listed.take(i as int).push(listed[i as int]));
            }
        }
        assert(listed.take(listed.len() as int) =~= listed);
        push_plain(&mut lines, "");
        let mut text = counted_text("  将删除 ", plan.targets.len(), " 个文件，合计可释放 ");
        text.append(human_size(plan.reclaimable).as_str());
        push_plain(&mut lines, text.as_str());
    }
    push_plain(&mut lines, "");
    push_plain(&mut lines, "  Enter 进入删除确认 · Esc/d 取消  ");
    assert(text_lines(lines@) =~= plan_overlay(targets).lines);
    Overlay { title: " 删除预览 ".to_string(), width: 70, height: 60, lines }
}

fn draw_delete_confirm(app: &App) -> (overlay: Overlay)
    ensures
        overlay@ == confirm_overlay(
            app.mode,
            app.permanent_armed,
            app_targets(app@).len(),
            app_spared(app@).len(),
        ),
{
    let safe = app.safe_deletion();
    let n = safe.targets.len();
    let kept = safe.kept_for_safety.len();
    proof {
        assert(entries_view(safe.targets@).len() == n);
        assert(crate::model::paths_view(safe.kept_for_safety@).len() == kept);
    }
    let mut lines: Vec<TextLine> = Vec::new();
    push_plain(&mut lines, "");
    match app.mode {
        DeleteMode::Trash => {
            let text = counted_text("  将把 ", n, " 个文件移入回收区（可恢复）");
            push_plain(&mut lines, text.as_str());
            push_plain(&mut lines, "");
            push_plain(&mut lines, "  y / Enter 确认      n / Esc 取消");
        },
        DeleteMode::Permanent => {
            if app.permanent_armed {
                push_red(&mut lines, "  ⚠ 永久删除不可恢复！");
                let text = counted_text("  再次按 y / Enter 永久删除这 ", n, " 个文件");
                push_red(&mut lines, text.as_str());
                push_plain(&mut lines, "");
                push_plain(&mut lines, "  按其它键取消");
            } else {
                let text = counted_text("  将永久删除 ", n, " 个文件，不可恢复！");
                push_plain(&mut lines, text.as_str());
                push_plain(&mut lines, "");
                push_plain(&mut lines, "  y / Enter 继续（需再确认一次）   n / Esc 取消");
            }
        },
    }
    if kept > 0 {
        push_plain(&mut lines, "");
        let text = counted_text("  （重复组保护：保留 ", kept, " 份未删）");
        push_plain(&mut lines, text.as_str());
    }
    assert(text_lines(lines@) =~= confirm_overlay(
        app.mode,
        app.permanent_armed,
        n as nat,
        kept as nat,
    ).lines);
    Overlay { title: " 删除确认 ".to_string(), width: 60, height: 35, lines }
}

fn draw_delete_result(message: &String) -> (overlay: Overlay)
    ensures
        overlay@ == result_overlay(message@),
{
    let mut lines: Vec<TextLine> = Vec::new();
    push_plain(&mut lines, "");
    let mut text = "  ".to_string();
    text.append(message.as_str());
    push_plain(&mut lines, text.as_str());
    push_plain(&mut lines, "");
    push_plain(&mut lines, "  按任意键继续");
    assert(text_lines(lines@) =~= result_overlay(message@).lines);
    Overlay { title: " 删除结果 ".to_string(), width: 50, height: 22, lines }
}

fn name_of(path: &FilePath) -> (name: String)
    ensures
        name@ == file_name(path@),
{
    let n = path.parts.len();
    if n > 0 && path.parts[n - 1].kind == PartKind::Normal {
        assert(path@.parts.last() == path.parts@[n - 1]@);
        lossy_text(&path.parts[n - 1].name)
    } else {
        let name = String::new();
        assert(name@ =~= Seq::<char>::empty());
        if n > 0 {
            assert(path@.parts.last() == path.parts@[n - 1]@);
        }
        name
    }
}

fn mark_text(marked: bool) -> (text: &'static str)
    ensures
        text@ == mark_box(marked),
{
    if marked {
        "[x]"
    } else {
        "[ ]"
    }
}

fn row_text(row: &Row, marked: &PathSet) -> (text: String)
    ensures
        text@ == row_line(row@, marked@),
{
    let mark = if row.is_dir {
        "   "
    } else {
        mark_text(marked.contains(&row.path))
    };
    let mut text = mark.to_string();
    text.append(" ");
    push_padded(&mut text, human_size(row.size).as_str(), 10);
    text.append("  ");
    text.append(name_of(&row.path).as_str());
    text.append(
        if row.is_dir {
            "/"
        } else {
            ""
        },
    );
    assert(text@ =~= row_line(row@, marked@));
    text
}

/// The list of sizes.
fn draw_sizes(app: &App) -> (pane: ListPane)
    requires
        app.wf(),
    ensures
        pane@ == sizes_pane(app@),
{
    let mut items: Vec<String> = Vec::new();
    for i in 0..app.rows.len()
        invariant
            items@.len() == i,
            forall|j: int|
                0 <= j < i ==> (#[trigger] items@[j])@ == row_line(app@.rows[j], app@.marked),
    {
        items.push(row_text(&app.rows[i], &app.marked));
    }
    assert(lines_view(items@) =~= sizes_pane(app@).items);
    let mut title = " Sizes [".to_string();
    title.append(
        match app.sort {
            SortKey::Size => "大小↓",
            SortKey::Name => "名称",
        },
    );
    title.append("] — ");
    title.append(app.cwd.display().as_str());
    title.append(" (");
    title.append(human_size(app.cwd_size()).as_str());
    title.append(")");
    if app.scanning {
        title.append(counted_text(" [扫描中 ", app.scanned_count, "]").as_str());
    }
    title.append(" ");
    assert(title@ =~= sizes_title(app@));
    let selected = if app.rows.len() > 0 {
        Some(app.selected)
    } else {
        None
    };
    ListPane { title, items, selected }
}

/// The space that groups free together.
fn sum_reclaimable(groups: &Vec<DuplicateGroup>) -> (total: u64)
    requires
        groups_countable(groups_view(groups@)),
    ensures
        total == reclaimable_total(groups_view(groups@)),
{
    let ghost all = groups_view(groups@);
    proof {
        lemma_reclaimable_part(all, 0);
        assert forall|i: int| 0 <= i < groups@.len() implies (#[trigger] groups@[i])@.paths.len()
            > 0 && groups@[i]@.reclaimable() <= u64::MAX by {
            assert(all[i] == groups@[i]@);
        }
    }
    let freed = freed_by_each(groups);
    let mut total: u64 = 0;
    for i in 0..freed.len()
        invariant
            all == groups_view(groups@),
            groups_countable(all),
            freed@.len() == groups@.len(),
            forall|i: int|
                0 <= i < freed@.len() ==> #[trigger] freed@[i] == groups@[i]@.reclaimable(),
            total == reclaimable_total(all.take(i as int)),
    {
        proof {
            lemma_reclaimable_part(all, i + 1);
            assert(all.take(i + 1).drop_last() =~= all.take(i as int));
        }
        total = total + freed[i];
    }
    assert(all.take(all.len() as int) =~= all);
    total
}

/// The files of the selected group.
fn draw_files(app: &App) -> (pane: ListPane)
    ensures
        pane@ == files_pane(app@),
{
    let mut items: Vec<String> = Vec::new();
    if app.selected < app.dups.len() {
        let group = &app.dups[app.selected];
        for i in 0..group.paths.len()
            invariant
                items@.len() == i,
                forall|j: int|
                    0 <= j < i ==> (#[trigger] items@[j])@ == file_line(
                        group@.paths[j],
                        app@.marked,
                    ),
        {
            let path = &group.paths[i];
            let mut text = mark_text(app.marked.contains(path)).to_string();
            text.append(" ");
            text.append(path.display().as_str());
            items.push(text);
        }
        assert(app@.dups[app.selected as int] == group@);
    }
    assert(lines_view(items@) =~= files_pane(app@).items);
    let title = if app.dup_focus {
        " 选中组的文件 [↑/↓ 移动 · Space 标记 · Esc 返回] "
    } else {
        " 选中组的文件 [Enter 浏览] "
    };
    let selected = if app.dup_focus {
        Some(app.detail_cursor)
    } else {
        None
    };
    ListPane { title: title.to_string(), items, selected }
}

/// The groups of duplicates, or what is said in their place.
fn draw_duplicates(app: &App) -> (content: Content)
    requires
        app.view == View::Duplicates,
        groups_countable(app@.dups),
    ensures
        content@ == content_of(app@),
{
    let total = sum_reclaimable(&app.dups);
    let mut title = counted_text(" Duplicates — ", app.dups.len(), " 组 (可回收 ");
    title.append(human_size(total).as_str());
    title.append(") ");
    assert(title@ =~= groups_title(app@.dups));
    if app.scanning {
        return Content::Message { title, text: "扫描进行中，稍候检测重复…" };
    }
    if !app.dups_ready {
        return Content::Message { title, text: "正在检测重复文件…" };
    }
    if app.dups.len() == 0 {
        return Content::Message { title, text: "未发现重复文件" };
    }
    proof {
        lemma_reclaimable_part(app@.dups, 0);
    }
    let mut items: Vec<String> = Vec::new();
    for i in 0..app.dups.len()
        invariant
            groups_countable(app@.dups),
            forall|i: int|
                0 <= i < app@.dups.len() ==> 0 <= (#[trigger] app@.dups[i]).reclaimable()
                    <= reclaimable_total(app@.dups),
            items@.len() == i,
            forall|j: int| 0 <= j < i ==> (#[trigger] items@[j])@ == group_line(app@.dups[j]),
    {
        assert(app@.dups[i as int] == app.dups@[i as int]@);
        items.push(group_summary(&app.dups[i]));
    }
    assert(lines_view(items@) =~= app@.dups.map_values(|g: GroupView| group_line(g)));
    Content::Groups {
        groups: ListPane { title, items, selected: Some(app.selected) },
        files: draw_files(app),
        browsing: app.dup_focus,
    }
}

/// The hint in the last line.
fn draw_footer(app: &App) -> (text: String)
    ensures
        text@ == footer_of(app@),
{
    let base = match app.view {
        View::Sizes => " [Sizes]  Enter 进入 · Space 标记 · d 预览 · Tab 视图 · s 排序 · ? 帮助 · q 退出 ",
        View::Duplicates => if app.dup_focus {
            " [Duplicates·浏览]  ↑/↓ 移动 · Space 标记 · d 预览 · Esc 返回 · q 退出 "
        } else {
            " [Duplicates]  Enter 看文件 · Tab 视图 · ↑/↓ 选组 · ? 帮助 · q 退出 "
        },
    };
    let mut text = base.to_string();
    let marks = app.marked.len();
    if marks > 0 {
        text.append(counted_text("· 已标记 ", marks, " ").as_str());
    }
    assert(text@ =~= footer_of(app@));
    text
}

fn push_overlay(overlays: &mut Vec<Overlay>, overlay: Overlay)
    ensures
        overlays_view(final(overlays)@) == overlays_view(old(overlays)@) + seq![overlay@],
{
    overlays.push(overlay);
    assert(overlays_view(overlays@) =~= overlays_view(old(overlays)@) + seq![overlay@]);
}

/// The questions and the result on top of the view.
fn push_questions(overlays: &mut Vec<Overlay>, app: &App)
    ensures
        overlays_view(final(overlays)@) == overlays_view(old(overlays)@) + shown_if(
            app.confirm_quit,
            quit_overlay(),
        ) + match app@.delete_result {
            Some(message) => seq![result_overlay(message)],
            None => Seq::empty(),
        },
{
    let ghost start = overlays_view(overlays@);
    if app.confirm_quit {
        push_overlay(overlays, draw_quit_confirm());
    }
    assert(overlays_view(overlays@) =~= start + shown_if(app.confirm_quit, quit_overlay()));
    let ghost asked = overlays_view(overlays@);
    if let Some(message) = &app.delete_result {
        push_overlay(overlays, draw_delete_result(message));
    } else {
        assert(asked =~= asked + Seq::<OverlayView>::empty());
    }
}

/// The boxes on top of the view.
fn draw_overlays(app: &App) -> (overlays: Vec<Overlay>)
    requires
        app.show_plan ==> size_total(app@.result.entries.filter(listed_in(app@.marked)))
            <= u64::MAX,
    ensures
        overlays_view(overlays@) == overlays_of(app@),
{
    let mut overlays: Vec<Overlay> = Vec::new();
    if app.show_help {
        push_overlay(&mut overlays, draw_help());
    }
    let ghost help = shown_if(app.show_help, help_overlay());
    assert(overlays_view(overlays@) =~= help);
    let ghost plan = shown_if(
        app.show_plan,
        plan_overlay(app@.result.entries.filter(listed_in(app@.marked))),
    );
    if app.show_plan {
        push_overlay(&mut overlays, draw_delete_plan(app));
    }
    assert(overlays_view(overlays@) =~= help + plan);
    if app.confirm_delete {
        push_overlay(&mut overlays, draw_delete_confirm(app));
    }
    assert(overlays_view(overlays@) =~= help + plan + shown_if(
        app.confirm_delete,
        confirm_overlay(
            app.mode,
            app.permanent_armed,
            app_targets(app@).len(),
            app_spared(app@).len(),
        ),
    ));
    push_questions(&mut overlays, app);
    overlays
}

/// All that is to be shown of a state.
pub fn draw(app: &App) -> (screen: Screen)
    requires
        app.wf(),
        app.view == View::Duplicates ==> groups_countable(app@.dups),
        app.show_plan ==> size_total(app@.result.entries.filter(listed_in(app@.marked)))
            <= u64::MAX,
    ensures
        screen@ == screen_of(app@),
{
    let content = match app.view {
        View::Sizes => Content::List(draw_sizes(app)),
        View::Duplicates => draw_duplicates(app),
    };
    Screen { content, footer: draw_footer(app), overlays: draw_overlays(app) }
}

/// In the view of sizes the list has a line for each item of the directory: whether it is marked, its
/// size, its name, and a slash behind a directory, which has no box for a mark. The highlighted line
/// is that of the highlighted item.
pub proof fn law_items_are_listed(app: AppView, i: int)
    requires
        app.view == View::Sizes,
        app.selected <= usize::MAX,
        0 <= i < app.rows.len(),
    ensures
        ({
            let content = screen_of(app).content;
            let pane = content->List_0;
            let row = app.rows[i];
            let size = padded(size_text(row.size), 10);
            let named = row.path.parts.len() > 0 && row.path.parts.last().id.kind
                == PartKind::Normal;
            let name = lossy(row.path.parts.last().id.name);
            &&& content is List
            &&& pane.items.len() == app.rows.len()
            &&& pane.selected is Some && pane.selected->Some_0 == app.selected
            &&& row.is_dir && named ==> pane.items[i] == "    "@ + size + "  "@ + name + "/"@
            &&& !row.is_dir && named && app.marked.contains(row.path.id()) ==> pane.items[i]
                == "[x] "@ + size + "  "@ + name
            &&& !row.is_dir && named && !app.marked.contains(row.path.id()) ==> pane.items[i]
                == "[ ] "@ + size + "  "@ + name
            &&& row.is_dir && !named ==> pane.items[i] == "    "@ + size + "  /"@
        }),
{
    reveal_strlit("   ");
    reveal_strlit("    ");
    reveal_strlit(" ");
    reveal_strlit("  ");
    reveal_strlit("  /");
    reveal_strlit("");
    reveal_strlit("/");
    reveal_strlit("[x]");
    reveal_strlit("[x] ");
    reveal_strlit("[ ]");
    reveal_strlit("[ ] ");
    let row = app.rows[i];
    let line = row_line(row, app.marked);
    let size = padded(size_text(row.size), 10);
    let name = lossy(row.path.parts.last().id.name);
    assert("   "@ + " "@ =~= "    "@);
    assert("[x]"@ + " "@ =~= "[x] "@);
    assert("[ ]"@ + " "@ =~= "[ ] "@);
    if row.is_dir {
        assert(line =~= "    "@ + size + "  "@ + file_name(row.path) + "/"@);
        assert("  "@ + Seq::<char>::empty() + "/"@ =~= "  /"@);
        assert("    "@ + size + "  "@ + Seq::<char>::empty() + "/"@ =~= "    "@ + size + "  /"@);
    } else if app.marked.contains(row.path.id()) {
        assert(line =~= "[x] "@ + size + "  "@ + file_name(row.path));
    } else {
        assert(line =~= "[ ] "@ + size + "  "@ + file_name(row.path));
    }
}

/// The title of the list of sizes tells the order, the directory and the size of all in it, and, only
/// while the scan is running, how many entries have been scanned. An empty list has no highlight.
pub proof fn law_title_of_sizes(app: AppView)
    requires
        app.view == View::Sizes,
    ensures
        ({
            let pane = screen_of(app).content->List_0;
            let order = if app.sort == SortKey::Size {
                "大小↓"@
            } else {
                "名称"@
            };
            let title = " Sizes ["@ + order + "] — "@ + app.cwd.text() + " ("@ + size_text(
                dir_total(app.result.entries, app.result.root.id(), app.cwd.id()),
            ) + ")"@;
            &&& app.scanning ==> pane.title == title + " [扫描中 "@ + decimal(app.scanned_count)
                + "]"@ + " "@
            &&& !app.scanning ==> pane.title == title + " "@
            &&& app.rows.len() == 0 ==> pane.items.len() == 0 && pane.selected is None
        }),
{
    let title = sizes_title(app);
    let order = if app.sort == SortKey::Size {
        "大小↓"@
    } else {
        "名称"@
    };
    let front = " Sizes ["@ + order + "] — "@ + app.cwd.text() + " ("@ + size_text(
        dir_total(app.result.entries, app.result.root.id(), app.cwd.id()),
    ) + ")"@;
    if app.scanning {
        assert(title =~= front + " [扫描中 "@ + decimal(app.scanned_count) + "]"@ + " "@);
    } else {
        assert(title =~= front + " "@);
    }
}

/// In the view of duplicates a text tells why there is nothing to show: the scan is running, the
/// search for duplicates is, or none were found. The title counts the groups and what they free.
pub proof fn law_duplicates_are_awaited(app: AppView)
    requires
        app.view == View::Duplicates,
    ensures
        ({
            let content = screen_of(app).content;
            let title = " Duplicates — "@ + decimal(app.dups.len()) + " 组 (可回收 "@ + size_text(
                reclaimable_total(app.dups) as nat,
            ) + ") "@;
            &&& app.scanning ==> content == (ContentView::Message {
                title,
                text: "扫描进行中，稍候检测重复…"@,
            })
            &&& !app.scanning && !app.dups_ready ==> content == (ContentView::Message {
                title,
                text: "正在检测重复文件…"@,
            })
            &&& !app.scanning && app.dups_ready && app.dups.len() == 0 ==> content == (
            ContentView::Message { title, text: "未发现重复文件"@ })
            &&& !app.scanning && app.dups_ready && app.dups.len() > 0 ==> content is Groups
                && content->groups.title == title
        }),
{
}

/// Once there are groups, each has a line, and the selected group's files are listed below: whether
/// each is marked, and its path. While they are browsed, the cursor is on one of them.
pub proof fn law_groups_are_shown(app: AppView, g: int, k: int)
    requires
        app.view == View::Duplicates,
        !app.scanning && app.dups_ready,
        app.selected <= usize::MAX && app.detail_cursor <= usize::MAX,
        0 <= g < app.dups.len(),
    ensures
        ({
            let content = screen_of(app).content;
            let files = content->files;
            let paths = app.dups[app.selected as int].paths;
            &&& content is Groups
            &&& content->browsing == app.dup_focus
            &&& content->groups.items.len() == app.dups.len()
            &&& content->groups.items[g] == group_line(app.dups[g])
            &&& content->groups.selected is Some
            &&& content->groups.selected->Some_0 == app.selected
            &&& app.selected >= app.dups.len() ==> files.items.len() == 0
            &&& app.selected < app.dups.len() ==> {
                &&& files.items.len() == paths.len()
                &&& 0 <= k < paths.len() && app.marked.contains(paths[k].id()) ==> files.items[k]
                    == "[x] "@ + paths[k].text()
                &&& 0 <= k < paths.len() && !app.marked.contains(paths[k].id()) ==> files.items[k]
                    == "[ ] "@ + paths[k].text()
            }
            &&& app.dup_focus ==> files.selected is Some && files.selected->Some_0
                == app.detail_cursor && files.title
                == " 选中组的文件 [↑/↓ 移动 · Space 标记 · Esc 返回] "@
            &&& !app.dup_focus ==> files.selected is None && files.title
                == " 选中组的文件 [Enter 浏览] "@
        }),
{
    reveal_strlit(" ");
    reveal_strlit("[x]");
    reveal_strlit("[x] ");
    reveal_strlit("[ ]");
    reveal_strlit("[ ] ");
    assert("[x]"@ + " "@ =~= "[x] "@);
    assert("[ ]"@ + " "@ =~= "[ ] "@);
}

/// The last line gives the keys of the view, and, only where files are marked, how many.
pub proof fn law_last_line(app: AppView)
    ensures
        ({
            let keys = if app.view == View::Sizes {
                " [Sizes]  Enter 进入 · Space 标记 · d 预览 · Tab 视图 · s 排序 · ? 帮助 · q 退出 "@
            } else if app.dup_focus {
                " [Duplicates·浏览]  ↑/↓ 移动 · Space 标记 · d 预览 · Esc 返回 · q 退出 "@
            } else {
                " [Duplicates]  Enter 看文件 · Tab 视图 · ↑/↓ 选组 · ? 帮助 · q 退出 "@
            };
            &&& app.marked.len() == 0 ==> screen_of(app).footer == keys
            &&& app.marked.len() > 0 ==> screen_of(app).footer == keys + "· 已标记 "@ + decimal(
                app.marked.len(),
            ) + " "@
        }),
{
    let keys = if app.view == View::Sizes {
        " [Sizes]  Enter 进入 · Space 标记 · d 预览 · Tab 视图 · s 排序 · ? 帮助 · q 退出 "@
    } else if app.dup_focus {
        " [Duplicates·浏览]  ↑/↓ 移动 · Space 标记 · d 预览 · Esc 返回 · q 退出 "@
    } else {
        " [Duplicates]  Enter 看文件 · Tab 视图 · ↑/↓ 选组 · ? 帮助 · q 退出 "@
    };
    if app.marked.len() == 0 {
        assert(footer_of(app) =~= keys);
    } else {
        assert(footer_of(app) =~= keys + "· 已标记 "@ + decimal(app.marked.len()) + " "@);
    }
}

/// How many boxes a question that is on, or off, adds.
pub open spec fn one_if(on: bool) -> int {
    if on {
        1
    } else {
        0
    }
}

/// On top of the view there is a box for each thing that is on, and no other: the help, the preview
/// of the deletion, the question whether to delete, the question whether to leave, and the result of
/// a deletion, each of them on top of those before it.
pub proof fn law_boxes(app: AppView)
    ensures
        ({
            let boxes = screen_of(app).overlays;
            let plan_at = one_if(app.show_help);
            let delete_at = plan_at + one_if(app.show_plan);
            let quit_at = delete_at + one_if(app.confirm_delete);
            let result_at = quit_at + one_if(app.confirm_quit);
            &&& boxes.len() == result_at + one_if(app.delete_result is Some)
            &&& app.show_help ==> boxes[0].title == " 帮助 "@ && boxes[0].lines.len() == 13
                && boxes[0].width == 60 && boxes[0].height == 50
            &&& app.show_plan ==> boxes[plan_at].title == " 删除预览 "@ && boxes[plan_at].width == 70
                && boxes[plan_at].height == 60
            &&& app.confirm_delete ==> boxes[delete_at].title == " 删除确认 "@
                && boxes[delete_at].width == 60 && boxes[delete_at].height == 35
            &&& app.confirm_quit ==> boxes[quit_at].title == " 退出确认 "@ && boxes[quit_at].width
                == 40 && boxes[quit_at].height == 25
                && boxes[quit_at].lines.len() == 4 && boxes[quit_at].lines[1].text
                == "  确认退出 reclaim？"@ && boxes[quit_at].lines[3].text
                == "  y / Enter  退出     n / Esc  取消"@
            &&& app.delete_result is Some ==> {
                &&& boxes[result_at].width == 50 && boxes[result_at].height == 22
                &&& boxes[result_at].title == " 删除结果 "@
                &&& boxes[result_at].lines.len() == 4
                &&& boxes[result_at].lines[1].text == "  "@ + app.delete_result->Some_0
                &&& boxes[result_at].lines[3].text == "  按任意键继续"@
            }
        }),
{
}

/// The preview has a line for each file that would be deleted, with its size and its path, and tells
/// how many there are and how much that frees; where nothing is marked, it says so.
pub proof fn law_preview_is_shown(app: AppView, i: int)
    requires
        app.show_plan,
    ensures
        ({
            let lines = screen_of(app).overlays[one_if(app.show_help)].lines;
            let targets = app.result.entries.filter(
                |e: EntryView| app.marked.contains(e.path.id()),
            );
            let n = targets.len() as int;
            &&& n == 0 ==> lines.len() == 4 && lines[1].text
                == "  尚未标记任何文件（在列表里用 Space 标记）"@
            &&& n > 0 ==> lines.len() == n + 4 && lines[n + 1].text == "  将删除 "@ + decimal(
                targets.len(),
            ) + " 个文件，合计可释放 "@ + size_text(size_total(targets))
            &&& 0 <= i < n ==> lines[i].text == "  "@ + padded(
                size_text(targets[i].size as nat),
                10,
            ) + "  "@ + targets[i].path.text()
            &&& lines.last().text == "  Enter 进入删除确认 · Esc/d 取消  "@
            &&& forall|l: int| 0 <= l < lines.len() ==> !(#[trigger] lines[l]).red
        }),
{
    assert(listed_in(app.marked) =~= (|e: EntryView| app.marked.contains(e.path.id())));
}

/// The question whether to delete tells how many files it is about, and whether they go to the trash
/// or for good; the second question on a deletion for good is in red, and nothing else is. Copies that
/// are spared are counted in a line of their own, which is there only where there are any.
pub proof fn law_deletion_question_is_shown(app: AppView)
    requires
        app.confirm_delete,
    ensures
        ({
            let at = one_if(app.show_help) + one_if(app.show_plan);
            let lines = screen_of(app).overlays[at].lines;
            let n = decimal(app_targets(app).len());
            let kept = app_spared(app).len();
            let armed = app.mode == DeleteMode::Permanent && app.permanent_armed;
            let own: int = if armed {
                5
            } else {
                4
            };
            &&& kept == 0 ==> lines.len() == own
            &&& kept > 0 ==> lines.len() == own + 2 && lines.last().text == "  （重复组保护：保留 "@
                + decimal(kept) + " 份未删）"@
            &&& app.mode == DeleteMode::Trash ==> lines[3].text == "  y / Enter 确认      n / Esc 取消"@
            &&& app.mode == DeleteMode::Permanent && !app.permanent_armed ==> lines[3].text
                == "  y / Enter 继续（需再确认一次）   n / Esc 取消"@
            &&& armed ==> lines[4].text == "  按其它键取消"@
            &&& app.mode == DeleteMode::Trash ==> lines[1].text == "  将把 "@ + n
                + " 个文件移入回收区（可恢复）"@
            &&& app.mode == DeleteMode::Permanent && !app.permanent_armed ==> lines[1].text
                == "  将永久删除 "@ + n + " 个文件，不可恢复！"@
            &&& armed ==> lines[1].text == "  ⚠ 永久删除不可恢复！"@ && lines[2].text
                == "  再次按 y / Enter 永久删除这 "@ + n + " 个文件"@
            &&& forall|l: int|
                0 <= l < lines.len() ==> ((#[trigger] lines[l]).red <==> armed && (l == 1 || l
                    == 2))
        }),
{
    let at = one_if(app.show_help) + one_if(app.show_plan);
    let n = app_targets(app).len();
    let kept = app_spared(app).len();
    let front = shown_if(app.show_help, help_overlay()) + shown_if(
        app.show_plan,
        plan_overlay(app.result.entries.filter(listed_in(app.marked))),
    );
    assert(front.len() == at);
    assert(overlays_of(app)[at] == confirm_overlay(app.mode, app.permanent_armed, n, kept));
    lemma_question(app.mode, app.permanent_armed, n, kept);
}

proof fn lemma_question(mode: DeleteMode, permanent_armed: bool, n: nat, kept: nat)
    ensures
        ({
            let lines = confirm_overlay(mode, permanent_armed, n, kept).lines;
            let armed = mode == DeleteMode::Permanent && permanent_armed;
            let own: int = if armed {
                5
            } else {
                4
            };
            &&& kept == 0 ==> lines.len() == own
            &&& kept > 0 ==> lines.len() == own + 2 && lines.last().text == "  （重复组保护：保留 "@
                + decimal(kept) + " 份未删）"@
            &&& mode == DeleteMode::Trash ==> lines[3].text == "  y / Enter 确认      n / Esc 取消"@
            &&& mode == DeleteMode::Permanent && !permanent_armed ==> lines[3].text
                == "  y / Enter 继续（需再确认一次）   n / Esc 取消"@
            &&& armed ==> lines[4].text == "  按其它键取消"@
            &&& mode == DeleteMode::Trash ==> lines[1].text == "  将把 "@ + decimal(n)
                + " 个文件移入回收区（可恢复）"@
            &&& mode == DeleteMode::Permanent && !permanent_armed ==> lines[1].text
                == "  将永久删除 "@ + decimal(n) + " 个文件，不可恢复！"@
            &&& armed ==> lines[1].text == "  ⚠ 永久删除不可恢复！"@ && lines[2].text
                == "  再次按 y / Enter 永久删除这 "@ + decimal(n) + " 个文件"@
            &&& forall|l: int|
                0 <= l < lines.len() ==> ((#[trigger] lines[l]).red <==> armed && (l == 1 || l
                    == 2))
        }),
{
}

} // verus!
