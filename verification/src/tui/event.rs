//! The events of the interactive interface, and what follows from them.

use crate::actions::{deletable, path_ids, safe_targets, spared, SafeDeletion};
use crate::cli::Args;
use crate::error::{errors_view, ErrorView, ScanError};
use crate::model::{
    entries_view, file_total, groups_view, paths_view, DuplicateGroup, EntryView, FileEntry,
    GroupView, ResultView,
};
use crate::order::{law_sort_is_stable, law_sort_keeps_items, law_stable_sort, stable_sort};
use crate::report::frees_more;
use crate::scanner::{entries_of, warnings_of, ItemView, ScanItem};
use crate::seqs::{lemma_filter_apart, lemma_filter_pair};
use crate::tui::app::{App, AppView, KeyCode};
use vstd::prelude::*;

verus! {

/// What reaches the interface: keys, the scan and the search for duplicates.
pub enum AppEvent {
    Input(KeyCode),
    Resize,
    ScanBatch(Vec<FileEntry>),
    ScanProgress(usize),
    ScanDone { warnings: Vec<ScanError> },
    DupsReady(Vec<DuplicateGroup>),
}

/// What an event is.
pub enum AppEventView {
    Input(KeyCode),
    Resize,
    ScanBatch(Seq<EntryView>),
    ScanProgress(nat),
    ScanDone(Seq<ErrorView>),
    DupsReady(Seq<GroupView>),
}

impl View for AppEvent {
    type V = AppEventView;

    open spec fn view(&self) -> AppEventView {
        match self {
            AppEvent::Input(key) => AppEventView::Input(*key),
            AppEvent::Resize => AppEventView::Resize,
            AppEvent::ScanBatch(entries) => AppEventView::ScanBatch(entries_view(entries@)),
            AppEvent::ScanProgress(n) => AppEventView::ScanProgress(*n as nat),
            AppEvent::ScanDone { warnings } => AppEventView::ScanDone(errors_view(warnings@)),
            AppEvent::DupsReady(groups) => AppEventView::DupsReady(groups_view(groups@)),
        }
    }
}

/// What a list of events is.
pub open spec fn events_view(events: Seq<AppEvent>) -> Seq<AppEventView> {
    events.map_values(|e: AppEvent| e@)
}

/// How many entries a batch has.
pub const BATCH: usize = 512;

/// Gathers what a scan finds into batches for the interface.
pub struct Batcher {
    pub batch: Vec<FileEntry>,
    pub warnings: Vec<ScanError>,
    pub count: usize,
}

/// What has been gathered.
pub struct BatcherView {
    /// The entries that have not been handed on.
    pub batch: Seq<EntryView>,
    pub warnings: Seq<ErrorView>,
    /// How many entries there were.
    pub count: nat,
}

impl View for Batcher {
    type V = BatcherView;

    open spec fn view(&self) -> BatcherView {
        BatcherView {
            batch: entries_view(self.batch@),
            warnings: errors_view(self.warnings@),
            count: self.count as nat,
        }
    }
}

impl BatcherView {
    /// Nothing.
    pub open spec fn empty() -> BatcherView {
        BatcherView { batch: Seq::empty(), warnings: Seq::empty(), count: 0 }
    }

    /// What is gathered once an item came, and the events that it gives: an entry that fills the
    /// batch sends it on, with the number of entries so far.
    pub open spec fn pushed(self, item: ItemView) -> (BatcherView, Seq<AppEventView>) {
        match item {
            ItemView::Warning(warning) => (
                BatcherView { warnings: self.warnings.push(warning), ..self },
                Seq::empty(),
            ),
            ItemView::Entry(entry) => {
                let batch = self.batch.push(entry);
                if batch.len() >= BATCH {
                    (
                        BatcherView { batch: Seq::empty(), count: self.count + 1, ..self },
                        seq![
                            AppEventView::ScanBatch(batch),
                            AppEventView::ScanProgress(self.count + 1),
                        ],
                    )
                } else {
                    (BatcherView { batch, count: self.count + 1, ..self }, Seq::empty())
                }
            },
        }
    }

    /// The events at the end of the scan: the entries that are left, if any, their number, and
    /// the warnings.
    pub open spec fn finished(self) -> Seq<AppEventView> {
        let end = seq![
            AppEventView::ScanProgress(self.count),
            AppEventView::ScanDone(self.warnings),
        ];
        if self.batch.len() > 0 {
            seq![AppEventView::ScanBatch(self.batch)] + end
        } else {
            end
        }
    }
}

impl Batcher {
    /// Nothing gathered.
    pub fn new() -> (batcher: Batcher)
        ensures
            batcher@ == BatcherView::empty(),
    {
        let batcher = Batcher { batch: Vec::new(), warnings: Vec::new(), count: 0 };
        assert(batcher@.batch =~= BatcherView::empty().batch);
        assert(batcher@.warnings =~= BatcherView::empty().warnings);
        batcher
    }

    /// Takes in an item and gives the events to send.
    pub fn push(&mut self, item: ScanItem) -> (events: Vec<AppEvent>)
        requires
            old(self).count < usize::MAX,
        ensures
            (final(self)@, events_view(events@)) == old(self)@.pushed(item@),
    {
        let ghost start = self@;
        let mut events: Vec<AppEvent> = Vec::new();
        match item {
            ScanItem::Warning(warning) => {
                self.warnings.push(warning);
                proof {
                    assert(self@.warnings =~= start.warnings.push(warning@));
                    assert(events_view(events@) =~= Seq::<AppEventView>::empty());
                }
            },
            ScanItem::Entry(entry) => {
                self.count = self.count + 1;
                self.batch.push(entry);
                let ghost full = self@.batch;
                assert(full =~= start.batch.push(entry@));
                if self.batch.len() >= BATCH {
                    let mut batch: Vec<FileEntry> = Vec::new();
                    std::mem::swap(&mut batch, &mut self.batch);
                    events.push(AppEvent::ScanBatch(batch));
                    events.push(AppEvent::ScanProgress(self.count));
                    proof {
                        assert(self@.batch =~= Seq::<EntryView>::empty());
                        assert(events_view(events@) =~= seq![
                            AppEventView::ScanBatch(full),
                            AppEventView::ScanProgress(start.count + 1),
                        ]);
                    }
                } else {
                    assert(events_view(events@) =~= Seq::<AppEventView>::empty());
                }
            },
        }
        events
    }

    /// The events to send at the end of the scan.
    pub fn finish(self) -> (events: Vec<AppEvent>)
        ensures
            events_view(events@) == self@.finished(),
    {
        let Batcher { batch, warnings, count } = self;
        let mut events: Vec<AppEvent> = Vec::new();
        if batch.len() > 0 {
            events.push(AppEvent::ScanBatch(batch));
        }
        events.push(AppEvent::ScanProgress(count));
        events.push(AppEvent::ScanDone { warnings });
        assert(events_view(events@) =~= self@.finished());
        events
    }
}

/// What is gathered from items, and the events on the way.
pub open spec fn gathered(items: Seq<ItemView>) -> (BatcherView, Seq<AppEventView>)
    decreases items.len(),
{
    if items.len() == 0 {
        (BatcherView::empty(), Seq::empty())
    } else {
        let (before, events) = gathered(items.drop_last());
        let (after, more) = before.pushed(items.last());
        (after, events + more)
    }
}

/// All events of a scan that finds these items.
pub open spec fn scan_events(items: Seq<ItemView>) -> Seq<AppEventView> {
    gathered(items).1 + gathered(items).0.finished()
}

/// The entries that events bring.
pub open spec fn brought(events: Seq<AppEventView>) -> Seq<EntryView>
    decreases events.len(),
{
    if events.len() == 0 {
        Seq::empty()
    } else {
        brought(events.drop_last()) + match events.last() {
            AppEventView::ScanBatch(entries) => entries,
            _ => Seq::empty(),
        }
    }
}

/// The batches of a scan bring every entry, in order. At the end come their number and the
/// warnings, in order.
pub proof fn law_scan_events_complete(items: Seq<ItemView>)
    ensures
        brought(scan_events(items)) == entries_of(items),
        scan_events(items).len() >= 2,
        scan_events(items)[scan_events(items).len() - 2] == AppEventView::ScanProgress(
            entries_of(items).len(),
        ),
        scan_events(items).last() == AppEventView::ScanDone(warnings_of(items)),
{
    let (state, events) = gathered(items);
    lemma_gathered(items);
    let end = state.finished();
    let all = scan_events(items);
    lemma_brought_add(events, end);
    reveal_with_fuel(brought, 4);
    let tail = seq![
        AppEventView::ScanProgress(state.count),
        AppEventView::ScanDone(state.warnings),
    ];
    assert(tail.drop_last() =~= seq![AppEventView::ScanProgress(state.count)]);
    assert(tail.drop_last().drop_last() =~= Seq::<AppEventView>::empty());
    assert(brought(tail) =~= Seq::<EntryView>::empty());
    if state.batch.len() > 0 {
        let first = seq![AppEventView::ScanBatch(state.batch)];
        assert(first.drop_last() =~= Seq::<AppEventView>::empty());
        assert(brought(first) =~= state.batch);
        lemma_brought_add(first, tail);
        assert(brought(end) =~= state.batch);
    } else {
        assert(state.batch =~= Seq::<EntryView>::empty());
        assert(brought(end) =~= state.batch);
    }
    assert(all[all.len() - 1] == end[end.len() - 1]);
    assert(all[all.len() - 2] == end[end.len() - 2]);
}

proof fn lemma_brought_add(a: Seq<AppEventView>, b: Seq<AppEventView>)
    ensures
        brought(a + b) == brought(a) + brought(b),
    decreases b.len(),
{
    if b.len() == 0 {
        assert(a + b =~= a);
        assert(brought(a) + brought(b) =~= brought(a));
    } else {
        lemma_brought_add(a, b.drop_last());
        assert((a + b).drop_last() =~= a + b.drop_last());
        assert(brought(a + b) =~= brought(a) + brought(b));
    }
}

proof fn lemma_gathered(items: Seq<ItemView>)
    ensures
        brought(gathered(items).1) + gathered(items).0.batch == entries_of(items),
        gathered(items).0.warnings == warnings_of(items),
        gathered(items).0.count == entries_of(items).len(),
        gathered(items).0.batch.len() < BATCH,
    decreases items.len(),
{
    reveal(Seq::filter_map);
    if items.len() > 0 {
        let rest = items.drop_last();
        let item = items.last();
        let (before, events) = gathered(rest);
        let (after, more) = before.pushed(item);
        lemma_gathered(rest);
        lemma_brought_add(events, more);
        reveal_with_fuel(brought, 3);
        match item {
            ItemView::Entry(entry) => {
                assert(entries_of(items) == entries_of(rest).push(entry));
                assert(warnings_of(items) == warnings_of(rest));
                if before.batch.len() + 1 >= BATCH {
                    assert(more.drop_last() =~= seq![
                        AppEventView::ScanBatch(before.batch.push(entry)),
                    ]);
                    assert(more.drop_last().drop_last() =~= Seq::<AppEventView>::empty());
                    assert(brought(more) =~= before.batch.push(entry));
                } else {
                    assert(brought(more) =~= Seq::<EntryView>::empty());
                }
            },
            ItemView::Warning(warning) => {
                assert(entries_of(items) == entries_of(rest));
                assert(warnings_of(items) == warnings_of(rest).push(warning));
                assert(brought(more) =~= Seq::<EntryView>::empty());
            },
        }
        assert(brought(gathered(items).1) + after.batch =~= entries_of(items));
    }
}

/// The state once an event came.
pub open spec fn after_event(app: AppView, event: AppEventView) -> AppView {
    match event {
        AppEventView::Input(key) => app.key_pressed(key),
        AppEventView::Resize => app,
        AppEventView::ScanBatch(entries) => app.added(entries),
        AppEventView::ScanProgress(n) => AppView { scanned_count: n, ..app },
        AppEventView::ScanDone(warnings) => AppView {
            result: ResultView { warnings, ..app.result },
            scanning: false,
            ..app
        }.rebuilt(),
        AppEventView::DupsReady(groups) => AppView {
            dups: stable_sort(groups, frees_more()),
            dups_ready: true,
            ..app
        },
    }
}

/// Whether the sizes that an event brings can be counted.
pub open spec fn event_countable(app: AppView, event: AppEventView) -> bool {
    match event {
        AppEventView::ScanBatch(entries) => {
            file_total(app.result.entries + entries) <= u64::MAX
        },
        AppEventView::DupsReady(groups) => forall|i: int|
            0 <= i < groups.len() ==> (#[trigger] groups[i]).paths.len() > 0
                && groups[i].reclaimable() <= u64::MAX,
        _ => true,
    }
}

/// What follows from an event.
pub struct Followup {
    /// What is to be deleted now, if a deletion was confirmed.
    pub deletion: Option<SafeDeletion>,
    /// Whether duplicates are to be looked for among the entries.
    pub look_for_duplicates: bool,
}

/// The interface at the start, as the options have it.
pub fn start(args: &Args) -> (app: App)
    ensures
        app.wf(),
        app@ == (AppView { mode: args.delete_mode, ..AppView::started(args.path@) }),
{
    let mut app = App::new(args.path.clone());
    proof {
        reveal(AppView::consistent);
    }
    app.mode = args.delete_mode;
    app
}

/// Takes in the event, whatever it is.
fn take_event(app: &mut App, event: AppEvent)
    requires
        old(app).wf(),
        event_countable(old(app)@, event@),
    ensures
        final(app).wf(),
        final(app)@ == after_event(old(app)@, event@),
{
    match event {
        AppEvent::Input(key) => app.handle_key(key),
        AppEvent::Resize => {},
        AppEvent::ScanBatch(entries) => app.add_entries(entries),
        AppEvent::ScanProgress(n) => app.set_progress(n),
        AppEvent::ScanDone { warnings } => app.finish_scan(warnings),
        AppEvent::DupsReady(groups) => {
            proof {
                let all = groups_view(groups@);
                assert forall|i: int| 0 <= i < groups@.len() implies (
                #[trigger] groups@[i])@.paths.len() > 0 && groups@[i]@.reclaimable()
                    <= u64::MAX by {
                    assert(all[i] == groups@[i]@);
                    assert(all[i].paths.len() > 0);
                }
            }
            app.set_dups(groups)
        },
    }
}

/// Takes in an event and says what follows from it: a deletion that was confirmed is handed out
/// once, and duplicates are looked for when the scan has ended.
pub fn update(app: &mut App, event: AppEvent) -> (followup: Followup)
    requires
        old(app).wf(),
        event_countable(old(app)@, event@),
    ensures
        final(app).wf(),
        final(app)@ == (AppView { request_delete: false, ..after_event(old(app)@, event@) }),
        followup.look_for_duplicates == event is ScanDone,
        followup.deletion is Some <==> after_event(old(app)@, event@).request_delete,
        followup.deletion matches Some(safe) ==> {
            let next = after_event(old(app)@, event@);
            let root = next.result.root.id();
            &&& entries_view(safe.targets@) == safe_targets(
                next.marked,
                next.result.entries,
                next.dups,
                root,
            )
            &&& paths_view(safe.kept_for_safety@) == spared(
                path_ids(next.result.entries.filter(deletable(next.marked, root))),
                next.dups,
            )
        },
{
    let look_for_duplicates = match &event {
        AppEvent::ScanDone { warnings: _ } => true,
        _ => false,
    };
    take_event(app, event);
    let deletion = if app.request_delete {
        Some(app.safe_deletion())
    } else {
        None
    };
    proof {
        reveal(AppView::consistent);
    }
    app.request_delete = false;
    Followup { deletion, look_for_duplicates }
}

/// A warning is kept for the end. An entry joins the batch; the one that makes it 512 sends the batch
/// on, with the number of entries so far, and the next batch starts empty.
pub proof fn law_batches_fill(state: BatcherView, entry: EntryView, warning: ErrorView)
    ensures
        state.pushed(ItemView::Warning(warning)) == (
            (BatcherView { warnings: state.warnings.push(warning), ..state }),
            Seq::<AppEventView>::empty(),
        ),
        state.batch.len() + 1 < 512 ==> state.pushed(ItemView::Entry(entry)) == (
            (BatcherView { batch: state.batch.push(entry), count: state.count + 1, ..state }),
            Seq::<AppEventView>::empty(),
        ),
        state.batch.len() + 1 == 512 ==> state.pushed(ItemView::Entry(entry)) == (
            (BatcherView { batch: Seq::empty(), count: state.count + 1, ..state }),
            seq![
                AppEventView::ScanBatch(state.batch.push(entry)),
                AppEventView::ScanProgress(state.count + 1),
            ],
        ),
{
}

/// The batches that a scan sends on its way have 512 entries each; behind each of them comes the
/// number of entries so far, and nothing else is sent before the end. What is left at the end is sent
/// as one more batch, if it is anything.
pub proof fn law_batch_sizes(items: Seq<ItemView>)
    ensures
        ({
            let events = gathered(items).1;
            let left = gathered(items).0.batch;
            let n = entries_of(items).len();
            &&& events.len() == 2 * (n / 512)
            &&& forall|i: int|
                0 <= i < n / 512 ==> {
                    &&& #[trigger] events[2 * i] is ScanBatch
                    &&& events[2 * i]->ScanBatch_0.len() == 512
                    &&& events[2 * i + 1] == AppEventView::ScanProgress((512 * (i + 1)) as nat)
                }
            &&& left.len() == n % 512
            &&& left.len() > 0 ==> scan_events(items) == events + seq![
                AppEventView::ScanBatch(left),
                AppEventView::ScanProgress(n),
                AppEventView::ScanDone(warnings_of(items)),
            ]
            &&& left.len() == 0 ==> scan_events(items) == events + seq![
                AppEventView::ScanProgress(n),
                AppEventView::ScanDone(warnings_of(items)),
            ]
        }),
    decreases items.len(),
{
    reveal(Seq::filter_map);
    lemma_gathered(items);
    let (state, events) = gathered(items);
    let n = entries_of(items).len();
    if items.len() > 0 {
        let rest = items.drop_last();
        law_batch_sizes(rest);
        lemma_gathered(rest);
        let (before, earlier) = gathered(rest);
        let m = entries_of(rest).len();
        match items.last() {
            ItemView::Entry(entry) => {
                assert(n == m + 1);
                assert forall|i: int| 0 <= i < n / 512 implies {
                    &&& #[trigger] events[2 * i] is ScanBatch
                    &&& events[2 * i]->ScanBatch_0.len() == 512
                    &&& events[2 * i + 1] == AppEventView::ScanProgress((512 * (i + 1)) as nat)
                } by {
                    if i < m / 512 {
                        assert(earlier[2 * i] is ScanBatch);
                        assert(events[2 * i] == earlier[2 * i]);
                    }
                }
            },
            ItemView::Warning(warning) => {
                assert(n == m);
                assert(events =~= earlier);
            },
        }
    }
    if state.batch.len() > 0 {
        assert(state.finished() =~= seq![
            AppEventView::ScanBatch(state.batch),
            AppEventView::ScanProgress(n),
            AppEventView::ScanDone(warnings_of(items)),
        ]);
    }
}

/// The number of scanned entries is what was last reported; the end of the scan brings the warnings
/// and ends it, and leaves what is shown as it was. A new size of the window changes nothing.
pub proof fn law_scan_events(app: AppView, n: nat, warnings: Seq<ErrorView>)
    requires
        app.consistent(),
    ensures
        after_event(app, AppEventView::Resize) == app,
        after_event(app, AppEventView::ScanProgress(n)) == (AppView { scanned_count: n, ..app }),
        ({
            let next = after_event(app, AppEventView::ScanDone(warnings));
            &&& next == (AppView {
                result: ResultView { warnings, ..app.result },
                scanning: false,
                selected: next.selected,
                ..app
            })
            &&& app.view == crate::tui::app::View::Sizes ==> next.selected == app.selected
            &&& app.selected < app.rows.len() ==> next.selected == app.selected
            &&& app.selected >= app.rows.len() > 0 ==> next.selected == app.rows.len() - 1
            &&& app.rows.len() == 0 ==> next.selected == 0
        }),
{
    reveal(AppView::consistent);
}

/// Whether two groups stand in this order among the groups.
pub open spec fn stand_in_order(a: GroupView, b: GroupView, groups: Seq<GroupView>) -> bool {
    exists|i: int, j: int|
        0 <= i < j < groups.len() && #[trigger] groups[i] == a && #[trigger] groups[j] == b
}

/// Once duplicates have been looked for, the groups that were found are shown, all of them and no
/// others: those that free the most first, and those that free the same as they were found. Nothing
/// else changes.
pub proof fn law_found_groups_are_shown(app: AppView, groups: Seq<GroupView>, group: GroupView)
    ensures
        ({
            let next = after_event(app, AppEventView::DupsReady(groups));
            &&& next == (AppView { dups: next.dups, dups_ready: true, ..app })
            &&& next.dups.len() == groups.len()
            &&& next.dups.contains(group) <==> groups.contains(group)
            &&& forall|i: int, j: int|
                0 <= i < j < next.dups.len() ==> (#[trigger] next.dups[i]).reclaimable() > (
                #[trigger] next.dups[j]).reclaimable() || (next.dups[i].reclaimable()
                    == next.dups[j].reclaimable() && stand_in_order(
                    next.dups[i],
                    next.dups[j],
                    groups,
                ))
        }),
{
    let next = after_event(app, AppEventView::DupsReady(groups));
    law_stable_sort(groups, frees_more());
    law_sort_keeps_items(groups, frees_more(), group);
    assert forall|i: int, j: int| 0 <= i < j < next.dups.len() implies (
    #[trigger] next.dups[i]).reclaimable() > (#[trigger] next.dups[j]).reclaimable() || (
    next.dups[i].reclaimable() == next.dups[j].reclaimable() && stand_in_order(
        next.dups[i],
        next.dups[j],
        groups,
    )) by {
        assert(!frees_more()(next.dups[j], next.dups[i]));
        if next.dups[i].reclaimable() == next.dups[j].reclaimable() {
            let x = next.dups[i];
            let like = |y: GroupView| !frees_more()(x, y) && !frees_more()(y, x);
            law_sort_is_stable(groups, frees_more(), x);
            let (a, b) = lemma_filter_pair(next.dups, like, i, j);
            let (c, d) = lemma_filter_apart(groups, like, a, b);
            assert(groups[c] == next.dups[i] && groups[d] == next.dups[j]);
        }
    }
}

} // verus!
