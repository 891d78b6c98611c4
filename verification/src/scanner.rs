//! Scanning a directory tree: what each listed entry becomes, how the work is shared out, and how
//! the pieces are put together.

use crate::error::{errors_view, ErrorView, ScanError};
use crate::model::{
    counted, entries_view, file_total, EntryKind, EntryView, FileEntry, ScanResult,
};
use crate::path::{FilePath, PathView};
use crate::seqs::{
    lemma_filter_map_add, lemma_filter_map_holds, lemma_filter_map_rearranged,
    lemma_rearranged_last, lemma_split_around,
};
use std::collections::VecDeque;
use vstd::multiset::Multiset;
use vstd::prelude::*;
use vstd::seq_lib::to_multiset_len;

verus! {

/// Which entries a scan keeps, and how many threads it runs on.
#[derive(Clone, Copy)]
pub struct ScanOptions {
    /// The number of worker threads.
    pub threads: usize,
    /// Files smaller than this are ignored.
    pub min_size: u64,
    /// Whether hidden files and directories are scanned.
    pub include_hidden: bool,
}

/// How many workers run where this many threads are asked for: at least one.
pub fn worker_count(threads: usize) -> (workers: usize)
    ensures
        workers == if threads == 0 {
            1
        } else {
            threads
        },
{
    if threads == 0 {
        1
    } else {
        threads
    }
}

/// One product of a scan: an entry or an error.
#[derive(Debug)]
pub enum ScanItem {
    Entry(FileEntry),
    Warning(ScanError),
}

/// What a product of a scan is.
pub enum ItemView {
    Entry(EntryView),
    Warning(ErrorView),
}

impl View for ScanItem {
    type V = ItemView;

    open spec fn view(&self) -> ItemView {
        match self {
            ScanItem::Entry(entry) => ItemView::Entry(entry@),
            ScanItem::Warning(warning) => ItemView::Warning(warning@),
        }
    }
}

/// What products of a scan are.
pub open spec fn items_view(items: Seq<ScanItem>) -> Seq<ItemView> {
    items.map_values(|i: ScanItem| i@)
}

/// What the operating system says a listed entry is.
pub enum FoundType {
    Dir,
    Symlink,
    /// Anything else, with its size in bytes.
    File(u64),
    /// Neither a directory nor a link, but its size could not be read, for this reason.
    SizeUnknown(String),
    /// Its type could not be read, for this reason.
    Unknown(String),
}

/// One entry of a directory listing.
pub enum Listed {
    /// An entry: its path, its file name, and what it is.
    Found { path: FilePath, name: Vec<u8>, found: FoundType },
    /// The entry could not be read, for this reason.
    Failed(String),
}

/// The listing of a directory.
pub enum Listing {
    Items(Vec<Listed>),
    /// The directory could not be listed, for this reason.
    Failed(String),
}

pub enum FoundView {
    Dir,
    Symlink,
    File(u64),
    SizeUnknown(Seq<char>),
    Unknown(Seq<char>),
}

pub enum ListedView {
    Found { path: PathView, name: Seq<u8>, found: FoundView },
    Failed(Seq<char>),
}

pub enum ListingView {
    Items(Seq<ListedView>),
    Failed(Seq<char>),
}

impl View for FoundType {
    type V = FoundView;

    open spec fn view(&self) -> FoundView {
        match self {
            FoundType::Dir => FoundView::Dir,
            FoundType::Symlink => FoundView::Symlink,
            FoundType::File(size) => FoundView::File(*size),
            FoundType::SizeUnknown(reason) => FoundView::SizeUnknown(reason@),
            FoundType::Unknown(reason) => FoundView::Unknown(reason@),
        }
    }
}

impl View for Listed {
    type V = ListedView;

    open spec fn view(&self) -> ListedView {
        match self {
            Listed::Found { path, name, found } => ListedView::Found {
                path: path@,
                name: name@,
                found: found@,
            },
            Listed::Failed(reason) => ListedView::Failed(reason@),
        }
    }
}

impl View for Listing {
    type V = ListingView;

    open spec fn view(&self) -> ListingView {
        match self {
            Listing::Items(items) => ListingView::Items(items@.map_values(|l: Listed| l@)),
            Listing::Failed(reason) => ListingView::Failed(reason@),
        }
    }
}

/// Whether a file name is hidden: it starts with a dot, on every platform.
pub open spec fn hidden(name: Seq<u8>) -> bool {
    name.len() > 0 && name[0] == 46
}

/// Whether a scan passes over an entry of this name.
pub open spec fn passed_over(options: ScanOptions, name: Seq<u8>) -> bool {
    !options.include_hidden && hidden(name)
}

/// What a listed entry of `dir` gives: nothing if it is hidden and hidden entries are not wanted,
/// or if it is a file below the least size; an entry of its type; or a warning.
pub open spec fn product(dir: PathView, options: ScanOptions, listed: ListedView) -> Option<
    ItemView,
> {
    match listed {
        ListedView::Failed(reason) => Some(
            ItemView::Warning(ErrorView::Io { path: dir, source: reason }),
        ),
        ListedView::Found { path, name, found } => if passed_over(options, name) {
            None
        } else {
            match found {
                FoundView::Unknown(reason) | FoundView::SizeUnknown(reason) => Some(
                    ItemView::Warning(ErrorView::Io { path, source: reason }),
                ),
                FoundView::Dir => Some(
                    ItemView::Entry(EntryView { path, size: 0, kind: EntryKind::Dir }),
                ),
                FoundView::Symlink => Some(
                    ItemView::Entry(EntryView { path, size: 0, kind: EntryKind::Symlink }),
                ),
                FoundView::File(size) => if size < options.min_size {
                    None
                } else {
                    Some(ItemView::Entry(EntryView { path, size, kind: EntryKind::File }))
                },
            }
        },
    }
}

/// The directory to scan next that a listed entry gives: itself, if it is one and not passed over.
pub open spec fn descent(options: ScanOptions, listed: ListedView) -> Option<PathView> {
    match listed {
        ListedView::Found { path, name, found: FoundView::Dir } => if passed_over(options, name) {
            None
        } else {
            Some(path)
        },
        _ => None,
    }
}

/// What a directory with this listing gives. A listing that fails gives one warning.
pub open spec fn dir_items(dir: PathView, options: ScanOptions, listing: ListingView) -> Seq<
    ItemView,
> {
    match listing {
        ListingView::Failed(reason) => seq![
            ItemView::Warning(ErrorView::Io { path: dir, source: reason }),
        ],
        ListingView::Items(items) => items.filter_map(
            |l: ListedView| product(dir, options, l),
        ),
    }
}

/// The directories to scan next that a directory with this listing gives.
pub open spec fn dir_descents(options: ScanOptions, listing: ListingView) -> Seq<PathView> {
    match listing {
        ListingView::Failed(reason) => Seq::empty(),
        ListingView::Items(items) => items.filter_map(|l: ListedView| descent(options, l)),
    }
}

/// What scanning one directory gives.
pub struct DirScan {
    pub items: Vec<ScanItem>,
    /// The directories to scan next.
    pub subdirs: Vec<FilePath>,
}

/// Whether a file name is hidden: it starts with a dot, on every platform.
pub fn is_hidden(name: &Vec<u8>) -> (r: bool)
    ensures
        r == hidden(name@),
{
    name.len() > 0 && name[0] == 46
}

fn visit(dir: &FilePath, options: &ScanOptions, listed: Listed) -> (r: (
    Option<ScanItem>,
    Option<FilePath>,
))
    ensures
        match r.0 {
            Some(item) => product(dir@, *options, listed@) == Some(item@),
            None => product(dir@, *options, listed@) is None,
        },
        match r.1 {
            Some(path) => descent(*options, listed@) == Some(path@),
            None => descent(*options, listed@) is None,
        },
{
    match listed {
        Listed::Failed(source) => (
            Some(ScanItem::Warning(ScanError::Io { path: dir.clone(), source })),
            None,
        ),
        Listed::Found { path, name, found } => {
            if !options.include_hidden && is_hidden(&name) {
                return (None, None);
            }
            match found {
                FoundType::Unknown(source) => (
                    Some(ScanItem::Warning(ScanError::Io { path, source })),
                    None,
                ),
                FoundType::SizeUnknown(source) => (
                    Some(ScanItem::Warning(ScanError::Io { path, source })),
                    None,
                ),
                FoundType::Dir => (
                    Some(
                        ScanItem::Entry(
                            FileEntry { path: path.clone(), size: 0, kind: EntryKind::Dir },
                        ),
                    ),
                    Some(path),
                ),
                FoundType::Symlink => (
                    Some(ScanItem::Entry(FileEntry { path, size: 0, kind: EntryKind::Symlink })),
                    None,
                ),
                FoundType::File(size) => {
                    if size < options.min_size {
                        (None, None)
                    } else {
                        (
                            Some(ScanItem::Entry(FileEntry { path, size, kind: EntryKind::File })),
                            None,
                        )
                    }
                },
            }
        },
    }
}

/// Turns the listing of a directory into entries, warnings and directories to scan next.
pub fn process_dir(dir: &FilePath, options: &ScanOptions, listing: Listing) -> (scan: DirScan)
    ensures
        items_view(scan.items@) == dir_items(dir@, *options, listing@),
        scan.subdirs@.map_values(|p: FilePath| p@) == dir_descents(*options, listing@),
{
    let ghost seen = listing@;
    let mut items: Vec<ScanItem> = Vec::new();
    let mut subdirs: Vec<FilePath> = Vec::new();
    match listing {
        Listing::Failed(source) => {
            items.push(ScanItem::Warning(ScanError::Io { path: dir.clone(), source }));
            assert(items_view(items@) =~= dir_items(dir@, *options, seen));
            assert(subdirs@.map_values(|p: FilePath| p@) =~= dir_descents(*options, seen));
        },
        Listing::Items(list) => {
            let ghost all = list@.map_values(|l: Listed| l@);
            let ghost make = |l: ListedView| product(dir@, *options, l);
            let ghost next = |l: ListedView| descent(*options, l);
            proof {
                reveal(Seq::filter_map);
                assert(items_view(items@) =~= all.take(0).filter_map(make));
                assert(subdirs@.map_values(|p: FilePath| p@) =~= all.take(0).filter_map(next));
            }
            for listed in it: list
                invariant
                    all == list@.map_values(|l: Listed| l@),
                    it.seq() == list@,
                    make == (|l: ListedView| product(dir@, *options, l)),
                    next == (|l: ListedView| descent(*options, l)),
                    items_view(items@) == all.take(it.index() as int).filter_map(make),
                    subdirs@.map_values(|p: FilePath| p@) == all.take(
                        it.index() as int,
                    ).filter_map(next),
            {
                let ghost i = it.index() as int;
                assert(listed@ == all[i]);
                let ghost old_items = items@;
                let ghost old_subdirs = subdirs@;
                let (item, subdir) = visit(dir, options, listed);
                if let Some(item) = item {
                    items.push(item);
                }
                if let Some(subdir) = subdir {
                    subdirs.push(subdir);
                }
                proof {
                    reveal(Seq::filter_map);
                    assert(all.take(i + 1).drop_last() =~= all.take(i));
                    assert(items_view(items@) =~= all.take(i + 1).filter_map(make));
                    assert(subdirs@.map_values(|p: FilePath| p@) =~= all.take(i + 1).filter_map(
                        next,
                    ));
                }
            }
            assert(all.take(all.len() as int) =~= all);
        },
    }
    DirScan { items, subdirs }
}

/// The state that the workers of a scan share.
pub struct WorkQueue {
    /// The directories that wait for a worker.
    queue: VecDeque<FilePath>,
    /// The directories that wait or are being scanned.
    pending: usize,
}

/// What a worker does next.
pub enum Task {
    /// Scan this directory.
    Scan(FilePath),
    /// Wait: others may still find directories.
    Wait,
    /// Stop: the whole tree is scanned.
    Stop,
}

/// The directories that wait, in order, and the number of those that wait or are being scanned.
pub struct QueueView {
    pub queue: Seq<PathView>,
    pub pending: nat,
}

impl View for WorkQueue {
    type V = QueueView;

    closed spec fn view(&self) -> QueueView {
        QueueView {
            queue: self.queue@.map_values(|p: FilePath| p@),
            pending: self.pending as nat,
        }
    }
}

impl QueueView {
    /// The number of directories that are being scanned.
    pub open spec fn working(self) -> int {
        self.pending - self.queue.len()
    }
}

impl WorkQueue {
    /// Whether every waiting directory is counted.
    pub open spec fn wf(&self) -> bool {
        self@.working() >= 0
    }

    /// One directory waits: the root.
    pub fn new(root: FilePath) -> (work: WorkQueue)
        ensures
            work.wf(),
            work@ == (QueueView { queue: seq![root@], pending: 1 }),
    {
        let mut queue: VecDeque<FilePath> = VecDeque::new();
        queue.push_back(root);
        let work = WorkQueue { queue, pending: 1 };
        assert(work@.queue =~= seq![root@]);
        work
    }

    /// Gives a worker what to do next: the directory that waited longest. With none waiting, the
    /// worker stops if none is being scanned either.
    pub fn take(&mut self) -> (task: Task)
        requires
            old(self).wf(),
        ensures
            final(self).wf(),
            final(self)@.pending == old(self)@.pending,
            match task {
                Task::Scan(dir) => {
                    &&& old(self)@.queue.len() > 0
                    &&& dir@ == old(self)@.queue[0]
                    &&& final(self)@.queue == old(self)@.queue.drop_first()
                },
                Task::Wait => {
                    &&& old(self)@.queue.len() == 0
                    &&& old(self)@.working() > 0
                    &&& final(self)@ == old(self)@
                },
                Task::Stop => {
                    &&& old(self)@.queue.len() == 0
                    &&& old(self)@.working() == 0
                    &&& final(self)@ == old(self)@
                },
            },
    {
        match self.queue.pop_front() {
            Some(dir) => {
                assert(self@.queue =~= old(self)@.queue.drop_first());
                Task::Scan(dir)
            },
            None => {
                assert(self@.queue =~= old(self)@.queue);
                if self.pending == 0 {
                    Task::Stop
                } else {
                    Task::Wait
                }
            },
        }
    }

    /// The number of directories that wait or are being scanned.
    pub fn pending(&self) -> (n: usize)
        ensures
            n == self@.pending,
    {
        self.pending
    }

    /// Adds a directory that a worker has found.
    pub fn add(&mut self, dir: FilePath)
        requires
            old(self).wf(),
            old(self)@.pending < usize::MAX,
        ensures
            final(self).wf(),
            final(self)@ == (QueueView {
                queue: old(self)@.queue.push(dir@),
                pending: old(self)@.pending + 1,
            }),
    {
        self.queue.push_back(dir);
        self.pending = self.pending + 1;
        assert(self@.queue =~= old(self)@.queue.push(dir@));
    }

    /// Notes that a worker is through with a directory; tells whether the whole tree is scanned.
    pub fn finish(&mut self) -> (done: bool)
        requires
            old(self).wf(),
            old(self)@.working() > 0,
        ensures
            final(self).wf(),
            final(self)@ == (QueueView {
                queue: old(self)@.queue,
                pending: (old(self)@.pending - 1) as nat,
            }),
            done == (final(self)@.queue.len() == 0 && final(self)@.working() == 0),
    {
        self.pending = self.pending - 1;
        self.pending == 0
    }
}

/// The entries among the products of a scan.
pub open spec fn entries_of(items: Seq<ItemView>) -> Seq<EntryView> {
    items.filter_map(
        |i: ItemView|
            match i {
                ItemView::Entry(entry) => Some(entry),
                ItemView::Warning(_) => None,
            },
    )
}

/// The warnings among the products of a scan.
pub open spec fn warnings_of(items: Seq<ItemView>) -> Seq<ErrorView> {
    items.filter_map(
        |i: ItemView|
            match i {
                ItemView::Entry(_) => None,
                ItemView::Warning(warning) => Some(warning),
            },
    )
}

proof fn lemma_file_total_grows(items: Seq<ItemView>, i: int)
    requires
        0 <= i <= items.len(),
    ensures
        file_total(entries_of(items.take(i))) <= file_total(entries_of(items)),
    decreases items.len(),
{
    if i < items.len() {
        let short = items.drop_last();
        lemma_file_total_grows(short, i);
        assert(short.take(i) =~= items.take(i));
        lemma_entries_step(items);
    } else {
        assert(items.take(i) =~= items);
    }
}

proof fn lemma_entries_step(items: Seq<ItemView>)
    requires
        items.len() > 0,
    ensures
        match items.last() {
            ItemView::Entry(entry) => {
                &&& entries_of(items) == entries_of(items.drop_last()).push(entry)
                &&& warnings_of(items) == warnings_of(items.drop_last())
                &&& file_total(entries_of(items)) == file_total(entries_of(items.drop_last()))
                    + counted(entry)
            },
            ItemView::Warning(warning) => {
                &&& entries_of(items) == entries_of(items.drop_last())
                &&& warnings_of(items) == warnings_of(items.drop_last()).push(warning)
            },
        },
{
    let short = items.drop_last();
    match items.last() {
        ItemView::Entry(entry) => {
            assert(entries_of(items) =~= entries_of(short).push(entry));
            assert(entries_of(items).drop_last() =~= entries_of(short));
        },
        ItemView::Warning(warning) => {
            assert(warnings_of(items) =~= warnings_of(short).push(warning));
        },
    }
}

/// Puts the products of a scan of `root` together. Errors are collected, in order, and stop
/// nothing.
pub fn scan(root: FilePath, items: Vec<ScanItem>) -> (result: ScanResult)
    requires
        file_total(entries_of(items_view(items@))) <= u64::MAX,
    ensures
        result.root@ == root@,
        entries_view(result.entries@) == entries_of(items_view(items@)),
        errors_view(result.warnings@) == warnings_of(items_view(items@)),
        result.total_size == file_total(entries_view(result.entries@)),
{
    let ghost all = items_view(items@);
    let mut entries: Vec<FileEntry> = Vec::new();
    let mut warnings: Vec<ScanError> = Vec::new();
    let mut total_size: u64 = 0;
    assert(entries_view(entries@) =~= entries_of(all.take(0)));
    assert(errors_view(warnings@) =~= warnings_of(all.take(0)));
    for item in it: items
        invariant
            all == items_view(items@),
            it.seq() == items@,
            file_total(entries_of(all)) <= u64::MAX,
            entries_view(entries@) == entries_of(all.take(it.index() as int)),
            errors_view(warnings@) == warnings_of(all.take(it.index() as int)),
            total_size == file_total(entries_of(all.take(it.index() as int))),
    {
        let ghost i = it.index() as int;
        let ghost upto = all.take(i + 1);
        proof {
            assert(item@ == all[i]);
            assert(upto.drop_last() =~= all.take(i));
            lemma_entries_step(upto);
            lemma_file_total_grows(all, i + 1);
        }
        match item {
            ScanItem::Entry(entry) => {
                if entry.kind == EntryKind::File {
                    total_size = total_size + entry.size;
                }
                entries.push(entry);
                assert(entries_view(entries@) =~= entries_of(upto));
            },
            ScanItem::Warning(warning) => {
                warnings.push(warning);
                assert(errors_view(warnings@) =~= warnings_of(upto));
            },
        }
    }
    assert(all.take(all.len() as int) =~= all);
    ScanResult { root, entries, total_size, warnings }
}

proof fn lemma_file_total_add(a: Seq<EntryView>, b: Seq<EntryView>)
    ensures
        file_total(a + b) == file_total(a) + file_total(b),
    decreases b.len(),
{
    if b.len() == 0 {
        assert(a + b =~= a);
    } else {
        assert((a + b).drop_last() =~= a + b.drop_last());
        lemma_file_total_add(a, b.drop_last());
    }
}

proof fn lemma_file_total_rearranged(a: Seq<EntryView>, b: Seq<EntryView>)
    requires
        a.to_multiset() == b.to_multiset(),
    ensures
        file_total(a) == file_total(b),
    decreases a.len(),
{
    if a.len() == 0 {
        to_multiset_len(a);
        to_multiset_len(b);
        assert(a =~= b);
    } else {
        let j = lemma_rearranged_last(a, b);
        lemma_file_total_rearranged(a.drop_last(), b.remove(j));
        lemma_split_around(b, j);
        lemma_file_total_add(b.take(j) + seq![b[j]], b.skip(j + 1));
        lemma_file_total_add(b.take(j), seq![b[j]]);
        lemma_file_total_add(b.take(j), b.skip(j + 1));
        let one = seq![b[j]];
        assert(one.drop_last() =~= Seq::<EntryView>::empty());
        reveal_with_fuel(file_total, 2);
        assert(file_total(one) == counted(b[j]));
    }
}

/// Every entry that a directory gives was listed there, is not one to be passed over, and is no
/// file below the least size. What is no file counts for nothing.
pub proof fn law_entries_keep_to_options(
    dir: PathView,
    options: ScanOptions,
    listing: ListingView,
    entry: EntryView,
)
    requires
        dir_items(dir, options, listing).contains(ItemView::Entry(entry)),
    ensures
        listing is Items,
        exists|name: Seq<u8>, found: FoundView|
            !passed_over(options, name) && #[trigger] listing->Items_0.contains(
                ListedView::Found { path: entry.path, name, found },
            ),
        entry.kind == EntryKind::File ==> entry.size >= options.min_size,
        entry.kind != EntryKind::File ==> entry.size == 0,
{
    if listing is Items {
        let make = |l: ListedView| product(dir, options, l);
        listing->Items_0.lemma_filter_map_contains(make, ItemView::Entry(entry));
        let listed = choose|l: ListedView| #[trigger]
            listing->Items_0.contains(l) && make(l) == Some(ItemView::Entry(entry));
        assert(listed == ListedView::Found {
            path: entry.path,
            name: listed->name,
            found: listed->found,
        });
    } else {
        let only = dir_items(dir, options, listing);
        let k = choose|k: int| 0 <= k < only.len() && only[k] == ItemView::Entry(entry);
        assert(only[0] is Warning);
    }
}

/// Where hidden entries are not wanted, one gives no entry, no warning and no directory to scan.
pub proof fn law_hidden_are_passed_over(
    dir: PathView,
    options: ScanOptions,
    path: PathView,
    name: Seq<u8>,
    found: FoundView,
)
    requires
        !options.include_hidden,
        hidden(name),
    ensures
        product(dir, options, ListedView::Found { path, name, found }) is None,
        descent(options, ListedView::Found { path, name, found }) is None,
{
}

/// The order in which workers hand in their products does not matter: the same entries, the same
/// warnings and the same total come out.
pub proof fn law_scan_any_order(a: Seq<ItemView>, b: Seq<ItemView>)
    requires
        a.to_multiset() == b.to_multiset(),
    ensures
        entries_of(a).to_multiset() == entries_of(b).to_multiset(),
        warnings_of(a).to_multiset() == warnings_of(b).to_multiset(),
        file_total(entries_of(a)) == file_total(entries_of(b)),
{
    lemma_filter_map_rearranged(
        a,
        b,
        |i: ItemView|
            match i {
                ItemView::Entry(entry) => Some(entry),
                ItemView::Warning(_) => None,
            },
    );
    lemma_filter_map_rearranged(
        a,
        b,
        |i: ItemView|
            match i {
                ItemView::Entry(_) => None,
                ItemView::Warning(warning) => Some(warning),
            },
    );
    lemma_file_total_rearranged(entries_of(a), entries_of(b));
}

/// A file system: the listing of each directory.
pub type Tree = spec_fn(PathView) -> ListingView;

/// Whether the directories that a scan finds below `dir` are nested less than `depth` deep.
pub open spec fn shallow(tree: Tree, options: ScanOptions, depth: nat, dir: PathView) -> bool
    decreases depth,
{
    depth > 0 && forall|k: int|
        0 <= k < dir_descents(options, tree(dir)).len() ==> shallow(
            tree,
            options,
            (depth - 1) as nat,
            #[trigger] dir_descents(options, tree(dir))[k],
        )
}

/// Everything that a scan finds in and below `dirs`, down to `depth` levels.
pub open spec fn owed(tree: Tree, options: ScanOptions, depth: nat, dirs: Seq<PathView>) -> Multiset<
    ItemView,
>
    decreases depth, dirs.len(),
{
    if depth == 0 || dirs.len() == 0 {
        Multiset::empty()
    } else {
        owed(tree, options, depth, dirs.drop_last()).add(
            dir_items(dirs.last(), options, tree(dirs.last())).to_multiset(),
        ).add(
            owed(
                tree,
                options,
                (depth - 1) as nat,
                dir_descents(options, tree(dirs.last())),
            ),
        )
    }
}

/// The directories that wait or are being scanned, and what has been handed in so far.
pub struct Progress {
    pub dirs: Seq<PathView>,
    pub found: Multiset<ItemView>,
}

/// A worker is through with the directory at `i`: it has handed in what it found there and put
/// the directories below in line.
pub open spec fn advance(tree: Tree, options: ScanOptions, p: Progress, i: int) -> Progress {
    Progress {
        dirs: p.dirs.remove(i) + dir_descents(options, tree(p.dirs[i])),
        found: p.found.add(dir_items(p.dirs[i], options, tree(p.dirs[i])).to_multiset()),
    }
}

/// Workers are through with directories in the order that `picks` gives.
pub open spec fn run(tree: Tree, options: ScanOptions, p: Progress, picks: Seq<int>) -> Progress
    decreases picks.len(),
{
    if picks.len() == 0 {
        p
    } else {
        advance(tree, options, run(tree, options, p, picks.drop_last()), picks.last())
    }
}

/// Whether each pick names a directory that waits or is being scanned.
pub open spec fn picks_valid(
    tree: Tree,
    options: ScanOptions,
    p: Progress,
    picks: Seq<int>,
) -> bool
    decreases picks.len(),
{
    picks.len() == 0 || {
        &&& picks_valid(tree, options, p, picks.drop_last())
        &&& 0 <= picks.last() < run(tree, options, p, picks.drop_last()).dirs.len()
    }
}

proof fn lemma_owed_add(
    tree: Tree,
    options: ScanOptions,
    depth: nat,
    a: Seq<PathView>,
    b: Seq<PathView>,
)
    ensures
        owed(tree, options, depth, a + b) == owed(tree, options, depth, a).add(
            owed(tree, options, depth, b),
        ),
    decreases b.len(),
{
    if depth == 0 || b.len() == 0 {
        assert(b.len() == 0 ==> a + b =~= a);
        assert(owed(tree, options, depth, a + b) =~= owed(tree, options, depth, a).add(
            owed(tree, options, depth, b),
        ));
    } else {
        assert((a + b).drop_last() =~= a + b.drop_last());
        lemma_owed_add(tree, options, depth, a, b.drop_last());
        assert(owed(tree, options, depth, a + b) =~= owed(tree, options, depth, a).add(
            owed(tree, options, depth, b),
        ));
    }
}

proof fn lemma_owed_deeper(tree: Tree, options: ScanOptions, depth: nat, dirs: Seq<PathView>)
    requires
        forall|k: int| 0 <= k < dirs.len() ==> shallow(tree, options, depth, #[trigger] dirs[k]),
    ensures
        owed(tree, options, depth, dirs) == owed(tree, options, depth + 1, dirs),
        forall|k: int| 0 <= k < dirs.len() ==> shallow(tree, options, depth + 1, #[trigger] dirs[k]),
    decreases depth, dirs.len(),
{
    if dirs.len() > 0 {
        let last = dirs.last();
        let below = dir_descents(options, tree(last));
        assert(shallow(tree, options, depth, dirs[dirs.len() - 1]));
        lemma_owed_deeper(tree, options, depth, dirs.drop_last());
        lemma_owed_deeper(tree, options, (depth - 1) as nat, below);
        assert(shallow(tree, options, depth + 1, last));
        assert forall|k: int| 0 <= k < dirs.len() implies shallow(
            tree,
            options,
            depth + 1,
            #[trigger] dirs[k],
        ) by {
            if k < dirs.len() - 1 {
                assert(dirs.drop_last()[k] == dirs[k]);
            }
        }
    }
}

proof fn lemma_advance_keeps(tree: Tree, options: ScanOptions, depth: nat, p: Progress, i: int)
    requires
        0 <= i < p.dirs.len(),
        forall|k: int| 0 <= k < p.dirs.len() ==> shallow(tree, options, depth, #[trigger] p.dirs[k]),
    ensures
        forall|k: int|
            0 <= k < advance(tree, options, p, i).dirs.len() ==> shallow(
                tree,
                options,
                depth,
                #[trigger] advance(tree, options, p, i).dirs[k],
            ),
        owed(tree, options, depth, p.dirs).add(p.found) == owed(
            tree,
            options,
            depth,
            advance(tree, options, p, i).dirs,
        ).add(advance(tree, options, p, i).found),
{
    let dir = p.dirs[i];
    let below = dir_descents(options, tree(dir));
    let next = advance(tree, options, p, i);
    assert(shallow(tree, options, depth, dir));
    lemma_owed_deeper(tree, options, (depth - 1) as nat, below);
    let (left, right) = (p.dirs.take(i), p.dirs.skip(i + 1));
    lemma_split_around(p.dirs, i);
    lemma_owed_add(tree, options, depth, left + seq![dir], right);
    lemma_owed_add(tree, options, depth, left, seq![dir]);
    lemma_owed_add(tree, options, depth, left, right);
    lemma_owed_add(tree, options, depth, p.dirs.remove(i), below);
    assert(seq![dir].drop_last() =~= Seq::<PathView>::empty());
    assert(owed(tree, options, depth, seq![dir].drop_last()) =~= Multiset::empty());
    assert(owed(tree, options, depth, seq![dir]) =~= dir_items(
        dir,
        options,
        tree(dir),
    ).to_multiset().add(owed(tree, options, (depth - 1) as nat, below)));
    assert(owed(tree, options, depth, p.dirs).add(p.found) =~= owed(
        tree,
        options,
        depth,
        next.dirs,
    ).add(next.found));
    assert forall|k: int| 0 <= k < next.dirs.len() implies shallow(
        tree,
        options,
        depth,
        #[trigger] next.dirs[k],
    ) by {
        if k < i {
            assert(next.dirs[k] == p.dirs[k]);
        } else if k < p.dirs.len() - 1 {
            assert(next.dirs[k] == p.dirs[k + 1]);
        } else {
            assert(next.dirs[k] == below[k - (p.dirs.len() - 1)]);
        }
    }
}

proof fn lemma_run_keeps(
    tree: Tree,
    options: ScanOptions,
    depth: nat,
    p: Progress,
    picks: Seq<int>,
)
    requires
        picks_valid(tree, options, p, picks),
        forall|k: int| 0 <= k < p.dirs.len() ==> shallow(tree, options, depth, #[trigger] p.dirs[k]),
    ensures
        forall|k: int|
            0 <= k < run(tree, options, p, picks).dirs.len() ==> shallow(
                tree,
                options,
                depth,
                #[trigger] run(tree, options, p, picks).dirs[k],
            ),
        owed(tree, options, depth, p.dirs).add(p.found) == owed(
            tree,
            options,
            depth,
            run(tree, options, p, picks).dirs,
        ).add(run(tree, options, p, picks).found),
    decreases picks.len(),
{
    if picks.len() > 0 {
        let short = picks.drop_last();
        lemma_run_keeps(tree, options, depth, p, short);
        lemma_advance_keeps(tree, options, depth, run(tree, options, p, short), picks.last());
    }
}

/// A scan loses nothing and finds nothing twice, however its workers interleave: when no
/// directory waits or is being scanned, what was handed in is everything in and below the root.
pub proof fn law_scan_complete(
    tree: Tree,
    options: ScanOptions,
    depth: nat,
    root: PathView,
    picks: Seq<int>,
)
    requires
        shallow(tree, options, depth, root),
        picks_valid(
            tree,
            options,
            Progress { dirs: seq![root], found: Multiset::empty() },
            picks,
        ),
        run(
            tree,
            options,
            Progress { dirs: seq![root], found: Multiset::empty() },
            picks,
        ).dirs.len() == 0,
    ensures
        run(
            tree,
            options,
            Progress { dirs: seq![root], found: Multiset::empty() },
            picks,
        ).found == owed(tree, options, depth, seq![root]),
{
    let start = Progress { dirs: seq![root], found: Multiset::<ItemView>::empty() };
    lemma_run_keeps(tree, options, depth, start, picks);
    let end = run(tree, options, start, picks);
    assert(owed(tree, options, depth, end.dirs).add(end.found) =~= end.found);
    assert(owed(tree, options, depth, start.dirs).add(start.found) =~= owed(
        tree,
        options,
        depth,
        start.dirs,
    ));
}

/// A scan that is under way: the shared queue, the directories that workers are busy with, and
/// how far the scan has come.
pub struct ScanState {
    pub work: QueueView,
    pub busy: Multiset<PathView>,
    pub progress: Progress,
}

/// What a worker does with the shared queue.
pub enum ScanStep {
    /// It takes the directory that waited longest.
    Take,
    /// It is through with a directory, the one at this position of those that are left: it has
    /// handed in what it found there, adds the directories below and says that it is finished.
    HandIn(int),
}

impl ScanState {
    /// The start of a scan of `root`.
    pub open spec fn started(root: PathView) -> ScanState {
        ScanState {
            work: QueueView { queue: seq![root], pending: 1 },
            busy: Multiset::empty(),
            progress: Progress { dirs: seq![root], found: Multiset::empty() },
        }
    }

    /// Whether a worker can do this step.
    pub open spec fn allows(self, step: ScanStep) -> bool {
        match step {
            ScanStep::Take => self.work.queue.len() > 0,
            ScanStep::HandIn(i) => 0 <= i < self.progress.dirs.len() && self.busy.count(
                self.progress.dirs[i],
            ) > 0,
        }
    }

    /// The state after a step.
    pub open spec fn after(self, tree: Tree, options: ScanOptions, step: ScanStep) -> ScanState {
        match step {
            ScanStep::Take => ScanState {
                work: QueueView { queue: self.work.queue.drop_first(), ..self.work },
                busy: self.busy.insert(self.work.queue[0]),
                ..self
            },
            ScanStep::HandIn(i) => {
                let dir = self.progress.dirs[i];
                let below = dir_descents(options, tree(dir));
                ScanState {
                    work: QueueView {
                        queue: self.work.queue + below,
                        pending: (self.work.pending + below.len() - 1) as nat,
                    },
                    busy: self.busy.remove(dir),
                    progress: advance(tree, options, self.progress, i),
                }
            },
        }
    }

    /// Whether the queue says that the whole tree is scanned: a worker that asks is told to stop.
    pub open spec fn stopped(self) -> bool {
        self.work.queue.len() == 0 && self.work.working() == 0
    }

    /// Whether the queue counts the directories that are left: those that wait and those that
    /// workers are busy with.
    pub open spec fn counted(self) -> bool {
        &&& self.progress.dirs.to_multiset() == self.work.queue.to_multiset().add(self.busy)
        &&& self.busy.len() == self.work.working()
    }
}

/// The state after steps, in order.
pub open spec fn after_steps(
    tree: Tree,
    options: ScanOptions,
    state: ScanState,
    steps: Seq<ScanStep>,
) -> ScanState
    decreases steps.len(),
{
    if steps.len() == 0 {
        state
    } else {
        after_steps(tree, options, state, steps.drop_last()).after(tree, options, steps.last())
    }
}

/// Whether workers can do these steps, in order.
pub open spec fn steps_allowed(
    tree: Tree,
    options: ScanOptions,
    state: ScanState,
    steps: Seq<ScanStep>,
) -> bool
    decreases steps.len(),
{
    steps.len() == 0 || {
        &&& steps_allowed(tree, options, state, steps.drop_last())
        &&& after_steps(tree, options, state, steps.drop_last()).allows(steps.last())
    }
}

/// The queue keeps count of the directories that are left, whatever workers do.
pub proof fn law_queue_counts(tree: Tree, options: ScanOptions, state: ScanState, step: ScanStep)
    requires
        state.counted(),
        state.allows(step),
    ensures
        state.after(tree, options, step).counted(),
{
    broadcast use vstd::seq_lib::group_to_multiset_ensures;

    let next = state.after(tree, options, step);
    match step {
        ScanStep::Take => {
            let queue = state.work.queue;
            assert(queue.drop_first() =~= queue.remove(0));
            assert(queue.contains(queue[0]));
            assert(next.progress.dirs.to_multiset() =~= next.work.queue.to_multiset().add(
                next.busy,
            ));
        },
        ScanStep::HandIn(i) => {
            let dirs = state.progress.dirs;
            let below = dir_descents(options, tree(dirs[i]));
            vstd::seq_lib::lemma_multiset_commutative(dirs.remove(i), below);
            vstd::seq_lib::lemma_multiset_commutative(state.work.queue, below);
            assert(next.progress.dirs.to_multiset() =~= next.work.queue.to_multiset().add(
                next.busy,
            ));
        },
    }
}

/// A worker is told to stop, or that the whole tree is scanned, only when no directory is left.
pub proof fn law_stop_means_none_left(state: ScanState)
    requires
        state.counted(),
    ensures
        state.stopped() <==> state.progress.dirs.len() == 0,
{
    broadcast use vstd::seq_lib::group_to_multiset_ensures;

    let dirs = state.progress.dirs;
    to_multiset_len(dirs);
    to_multiset_len(state.work.queue);
    assert(dirs.to_multiset().len() == state.work.queue.to_multiset().len() + state.busy.len());
}

/// A scan that stops has lost nothing and found nothing twice: what was handed in is everything
/// in and below the root.
pub proof fn law_stop_means_complete(
    tree: Tree,
    options: ScanOptions,
    depth: nat,
    root: PathView,
    steps: Seq<ScanStep>,
)
    requires
        shallow(tree, options, depth, root),
        steps_allowed(tree, options, ScanState::started(root), steps),
        after_steps(tree, options, ScanState::started(root), steps).stopped(),
    ensures
        after_steps(tree, options, ScanState::started(root), steps).progress.found == owed(
            tree,
            options,
            depth,
            seq![root],
        ),
{
    let end = after_steps(tree, options, ScanState::started(root), steps);
    lemma_steps_keep(tree, options, depth, root, steps);
    law_stop_means_none_left(end);
    assert(owed(tree, options, depth, end.progress.dirs).add(end.progress.found)
        =~= end.progress.found);
}

proof fn lemma_steps_keep(
    tree: Tree,
    options: ScanOptions,
    depth: nat,
    root: PathView,
    steps: Seq<ScanStep>,
)
    requires
        shallow(tree, options, depth, root),
        steps_allowed(tree, options, ScanState::started(root), steps),
    ensures
        ({
            let state = after_steps(tree, options, ScanState::started(root), steps);
            &&& state.counted()
            &&& forall|k: int|
                0 <= k < state.progress.dirs.len() ==> shallow(
                    tree,
                    options,
                    depth,
                    #[trigger] state.progress.dirs[k],
                )
            &&& owed(tree, options, depth, state.progress.dirs).add(state.progress.found) == owed(
                tree,
                options,
                depth,
                seq![root],
            )
        }),
    decreases steps.len(),
{
    broadcast use vstd::seq_lib::group_to_multiset_ensures;

    let start = ScanState::started(root);
    if steps.len() == 0 {
        assert(start.progress.dirs.to_multiset() =~= start.work.queue.to_multiset().add(
            start.busy,
        ));
        assert(owed(tree, options, depth, seq![root]).add(start.progress.found) =~= owed(
            tree,
            options,
            depth,
            seq![root],
        ));
    } else {
        let state = after_steps(tree, options, start, steps.drop_last());
        lemma_steps_keep(tree, options, depth, root, steps.drop_last());
        law_queue_counts(tree, options, state, steps.last());
        if let ScanStep::HandIn(i) = steps.last() {
            lemma_advance_keeps(tree, options, depth, state.progress, i);
        }
    }
}

/// Whether two scans keep the same entries: only the number of threads may differ.
pub open spec fn same_filters(a: ScanOptions, b: ScanOptions) -> bool {
    a.min_size == b.min_size && a.include_hidden == b.include_hidden
}

proof fn lemma_same_filters(dir: PathView, a: ScanOptions, b: ScanOptions, listing: ListingView)
    requires
        same_filters(a, b),
    ensures
        dir_items(dir, a, listing) == dir_items(dir, b, listing),
        dir_descents(a, listing) == dir_descents(b, listing),
{
    assert((|l: ListedView| product(dir, a, l)) =~= (|l: ListedView| product(dir, b, l)));
    assert((|l: ListedView| descent(a, l)) =~= (|l: ListedView| descent(b, l)));
}

proof fn lemma_same_shallow(
    tree: Tree,
    a: ScanOptions,
    b: ScanOptions,
    depth: nat,
    dir: PathView,
)
    requires
        same_filters(a, b),
        shallow(tree, a, depth, dir),
    ensures
        shallow(tree, b, depth, dir),
    decreases depth,
{
    lemma_same_filters(dir, a, b, tree(dir));
    assert forall|k: int| 0 <= k < dir_descents(b, tree(dir)).len() implies shallow(
        tree,
        b,
        (depth - 1) as nat,
        #[trigger] dir_descents(b, tree(dir))[k],
    ) by {
        let below = dir_descents(a, tree(dir))[k];
        assert(shallow(tree, a, (depth - 1) as nat, below));
        lemma_same_shallow(tree, a, b, (depth - 1) as nat, below);
    }
}

proof fn lemma_same_owed(
    tree: Tree,
    a: ScanOptions,
    b: ScanOptions,
    depth: nat,
    dirs: Seq<PathView>,
)
    requires
        same_filters(a, b),
    ensures
        owed(tree, a, depth, dirs) == owed(tree, b, depth, dirs),
    decreases depth, dirs.len(),
{
    if depth > 0 && dirs.len() > 0 {
        lemma_same_owed(tree, a, b, depth, dirs.drop_last());
        lemma_same_filters(dirs.last(), a, b, tree(dirs.last()));
        lemma_same_owed(tree, a, b, (depth - 1) as nat, dir_descents(a, tree(dirs.last())));
    }
}

/// Two scans of a tree give the same entries, the same total and as many warnings, however many
/// threads they run on and however these interleave.
pub proof fn law_scans_agree(
    tree: Tree,
    a: ScanOptions,
    b: ScanOptions,
    depth: nat,
    root: PathView,
    a_steps: Seq<ScanStep>,
    b_steps: Seq<ScanStep>,
    a_items: Seq<ItemView>,
    b_items: Seq<ItemView>,
)
    requires
        same_filters(a, b),
        shallow(tree, a, depth, root),
        steps_allowed(tree, a, ScanState::started(root), a_steps),
        steps_allowed(tree, b, ScanState::started(root), b_steps),
        after_steps(tree, a, ScanState::started(root), a_steps).stopped(),
        after_steps(tree, b, ScanState::started(root), b_steps).stopped(),
        a_items.to_multiset() == after_steps(
            tree,
            a,
            ScanState::started(root),
            a_steps,
        ).progress.found,
        b_items.to_multiset() == after_steps(
            tree,
            b,
            ScanState::started(root),
            b_steps,
        ).progress.found,
    ensures
        entries_of(a_items).to_multiset() == entries_of(b_items).to_multiset(),
        warnings_of(a_items).to_multiset() == warnings_of(b_items).to_multiset(),
        warnings_of(a_items).len() == warnings_of(b_items).len(),
        file_total(entries_of(a_items)) == file_total(entries_of(b_items)),
{
    law_stop_means_complete(tree, a, depth, root, a_steps);
    lemma_same_shallow(tree, a, b, depth, root);
    law_stop_means_complete(tree, b, depth, root, b_steps);
    lemma_same_owed(tree, a, b, depth, seq![root]);
    law_scan_any_order(a_items, b_items);
    to_multiset_len(warnings_of(a_items));
    to_multiset_len(warnings_of(b_items));
}

/// Whether an entry of this name is wanted: hidden ones, whose name starts with a dot, only where
/// they are asked for.
pub open spec fn name_wanted(options: ScanOptions, name: Seq<u8>) -> bool {
    options.include_hidden || name.len() == 0 || name[0] != '.' as u8
}

/// The listing of a directory is taken entry by entry, in order.
pub proof fn law_listing_parts(
    dir: PathView,
    options: ScanOptions,
    a: Seq<ListedView>,
    b: Seq<ListedView>,
)
    ensures
        dir_items(dir, options, ListingView::Items(a + b)) == dir_items(
            dir,
            options,
            ListingView::Items(a),
        ) + dir_items(dir, options, ListingView::Items(b)),
        dir_descents(options, ListingView::Items(a + b)) == dir_descents(
            options,
            ListingView::Items(a),
        ) + dir_descents(options, ListingView::Items(b)),
{
    lemma_filter_map_add(a, b, |l: ListedView| product(dir, options, l));
    lemma_filter_map_add(a, b, |l: ListedView| descent(options, l));
}

/// What one listed entry of a directory gives. One that is wanted gives an entry with its own path:
/// a file with its size, unless it is smaller than asked for; a directory, whatever size is asked
/// for, which is scanned next; a link, which is not followed. What cannot be read gives a warning
/// with the path that could not be read. Of one that is not wanted nothing comes.
pub proof fn law_one_listed(dir: PathView, options: ScanOptions, listed: ListedView)
    ensures
        ({
            let items = dir_items(dir, options, ListingView::Items(seq![listed]));
            let next = dir_descents(options, ListingView::Items(seq![listed]));
            match listed {
                ListedView::Failed(reason) => items == seq![
                    ItemView::Warning(ErrorView::Io { path: dir, source: reason }),
                ] && next.len() == 0,
                ListedView::Found { path, name, found } => if !name_wanted(options, name) {
                    items.len() == 0 && next.len() == 0
                } else {
                    match found {
                        FoundView::Dir => items == seq![
                            ItemView::Entry(EntryView { path, size: 0, kind: EntryKind::Dir }),
                        ] && next == seq![path],
                        FoundView::Symlink => items == seq![
                            ItemView::Entry(EntryView { path, size: 0, kind: EntryKind::Symlink }),
                        ] && next.len() == 0,
                        FoundView::File(size) => next.len() == 0 && if size >= options.min_size {
                            items == seq![
                                ItemView::Entry(EntryView { path, size, kind: EntryKind::File }),
                            ]
                        } else {
                            items.len() == 0
                        },
                        FoundView::SizeUnknown(reason) | FoundView::Unknown(reason) => items
                            == seq![
                            ItemView::Warning(ErrorView::Io { path, source: reason }),
                        ] && next.len() == 0,
                    }
                },
            }
        }),
{
    Seq::<ListedView>::lemma_filter_map_singleton(
        listed,
        |l: ListedView| product(dir, options, l),
    );
    Seq::<ListedView>::lemma_filter_map_singleton(listed, |l: ListedView| descent(options, l));
}

/// A directory that cannot be listed gives one warning with its path, and nothing else.
pub proof fn law_unlisted_directory(dir: PathView, options: ScanOptions, reason: Seq<char>)
    ensures
        dir_items(dir, options, ListingView::Failed(reason)) == seq![
            ItemView::Warning(ErrorView::Io { path: dir, source: reason }),
        ],
        dir_descents(options, ListingView::Failed(reason)).len() == 0,
{
}

/// Every listed directory that is not hidden is scanned next, and any listed directory where hidden
/// entries are wanted, whatever size is asked for. Nothing but listed directories is.
pub proof fn law_listed_directories_are_scanned(
    options: ScanOptions,
    items: Seq<ListedView>,
    path: PathView,
)
    ensures
        dir_descents(options, ListingView::Items(items)).contains(path) <==> exists|name: Seq<u8>|
            name_wanted(options, name) && #[trigger] items.contains(
                ListedView::Found { path, name, found: FoundView::Dir },
            ),
{
    let next = |l: ListedView| descent(options, l);
    let all = dir_descents(options, ListingView::Items(items));
    if all.contains(path) {
        items.lemma_filter_map_contains(next, path);
        let l = choose|l: ListedView| #[trigger] items.contains(l) && next(l) == Some(path);
        assert(l == ListedView::Found { path, name: l->name, found: FoundView::Dir });
    }
    if exists|name: Seq<u8>|
        name_wanted(options, name) && #[trigger] items.contains(
            ListedView::Found { path, name, found: FoundView::Dir },
        ) {
        let name = choose|name: Seq<u8>|
            name_wanted(options, name) && #[trigger] items.contains(
                ListedView::Found { path, name, found: FoundView::Dir },
            );
        let l = ListedView::Found { path, name, found: FoundView::Dir };
        let k = choose|k: int| 0 <= k < items.len() && items[k] == l;
        lemma_filter_map_holds(items, next, k);
    }
}

/// Every listed file that is not hidden, or any where hidden entries are wanted, is an entry with
/// the size it was listed with if it is at least as large as asked for. Nothing else is one.
pub proof fn law_listed_files_are_entries(
    dir: PathView,
    options: ScanOptions,
    items: Seq<ListedView>,
    path: PathView,
    size: u64,
)
    ensures
        dir_items(dir, options, ListingView::Items(items)).contains(
            ItemView::Entry(EntryView { path, size, kind: EntryKind::File }),
        ) <==> size >= options.min_size && exists|name: Seq<u8>|
            name_wanted(options, name) && #[trigger] items.contains(
                ListedView::Found { path, name, found: FoundView::File(size) },
            ),
{
    let make = |l: ListedView| product(dir, options, l);
    let item = ItemView::Entry(EntryView { path, size, kind: EntryKind::File });
    let all = dir_items(dir, options, ListingView::Items(items));
    if all.contains(item) {
        items.lemma_filter_map_contains(make, item);
        let l = choose|l: ListedView| #[trigger] items.contains(l) && make(l) == Some(item);
        assert(l == ListedView::Found { path, name: l->name, found: FoundView::File(size) });
    }
    if size >= options.min_size && exists|name: Seq<u8>|
        name_wanted(options, name) && #[trigger] items.contains(
            ListedView::Found { path, name, found: FoundView::File(size) },
        ) {
        let name = choose|name: Seq<u8>|
            name_wanted(options, name) && #[trigger] items.contains(
                ListedView::Found { path, name, found: FoundView::File(size) },
            );
        let l = ListedView::Found { path, name, found: FoundView::File(size) };
        let k = choose|k: int| 0 <= k < items.len() && items[k] == l;
        lemma_filter_map_holds(items, make, k);
    }
}

/// Whether a directory is listed in another one, as a directory that is wanted.
pub open spec fn leads_into(
    tree: Tree,
    options: ScanOptions,
    dir: PathView,
    below: PathView,
) -> bool {
    tree(dir) is Items && exists|name: Seq<u8>|
        name_wanted(options, name) && #[trigger] tree(dir)->Items_0.contains(
            ListedView::Found { path: below, name, found: FoundView::Dir },
        )
}

/// Whether directories are each listed in the one before, as directories that are wanted.
pub open spec fn is_way(tree: Tree, options: ScanOptions, way: Seq<PathView>) -> bool {
    way.len() > 0 && forall|k: int|
        0 < k < way.len() ==> leads_into(tree, options, way[k - 1], #[trigger] way[k])
}

/// A scan that stops has found what each directory gives to which a way leads from the root, at any
/// depth.
pub proof fn law_scan_finds_all(
    tree: Tree,
    options: ScanOptions,
    depth: nat,
    root: PathView,
    steps: Seq<ScanStep>,
    way: Seq<PathView>,
    item: ItemView,
)
    requires
        shallow(tree, options, depth, root),
        steps_allowed(tree, options, ScanState::started(root), steps),
        after_steps(tree, options, ScanState::started(root), steps).stopped(),
        is_way(tree, options, way),
        way[0] == root,
        dir_items(way.last(), options, tree(way.last())).contains(item),
    ensures
        after_steps(tree, options, ScanState::started(root), steps).progress.found.count(item) > 0,
{
    law_stop_means_complete(tree, options, depth, root, steps);
    lemma_way_owed(tree, options, depth, way, item);
}

/// A scan that stops has an entry for every file, at any depth below directories that are wanted,
/// with the size it was listed with, if it is wanted and at least as large as asked for.
pub proof fn law_scan_finds_every_file(
    tree: Tree,
    options: ScanOptions,
    depth: nat,
    root: PathView,
    steps: Seq<ScanStep>,
    items: Seq<ItemView>,
    way: Seq<PathView>,
    path: PathView,
    name: Seq<u8>,
    size: u64,
)
    requires
        shallow(tree, options, depth, root),
        steps_allowed(tree, options, ScanState::started(root), steps),
        after_steps(tree, options, ScanState::started(root), steps).stopped(),
        items.to_multiset() == after_steps(
            tree,
            options,
            ScanState::started(root),
            steps,
        ).progress.found,
        is_way(tree, options, way),
        way[0] == root,
        tree(way.last()) is Items,
        tree(way.last())->Items_0.contains(
            (ListedView::Found { path, name, found: FoundView::File(size) }),
        ),
        name_wanted(options, name),
        size >= options.min_size,
    ensures
        entries_of(items).contains((EntryView { path, size, kind: EntryKind::File })),
{
    broadcast use vstd::seq_lib::group_to_multiset_ensures;

    let entry = EntryView { path, size, kind: EntryKind::File };
    let listed = tree(way.last())->Items_0;
    law_listed_files_are_entries(way.last(), options, listed, path, size);
    assert(tree(way.last()) == ListingView::Items(listed));
    law_scan_finds_all(tree, options, depth, root, steps, way, ItemView::Entry(entry));
    assert(items.contains(ItemView::Entry(entry)));
    law_entries_are_taken_apart(items, entry);
}

/// The entries of a result are those that were found, each as often and in order; the warnings are
/// the rest.
pub proof fn law_entries_are_taken_apart(items: Seq<ItemView>, entry: EntryView)
    ensures
        entries_of(items).contains(entry) <==> items.contains(ItemView::Entry(entry)),
        entries_of(items).len() + warnings_of(items).len() == items.len(),
        entries_of(items.push(ItemView::Entry(entry))) == entries_of(items).push(entry),
        warnings_of(items.push(ItemView::Entry(entry))) == warnings_of(items),
    decreases items.len(),
{
    let more = items.push(ItemView::Entry(entry));
    assert(more.drop_last() =~= items);
    lemma_entries_step(more);
    if items.len() > 0 {
        let rest = items.drop_last();
        law_entries_are_taken_apart(rest, entry);
        lemma_entries_step(items);
        let (a, b) = (entries_of(rest), entries_of(items));
        if items.contains(ItemView::Entry(entry)) {
            let k = choose|k: int| 0 <= k < items.len() && items[k] == ItemView::Entry(entry);
            if k < rest.len() {
                assert(rest[k] == items[k]);
                let j = choose|j: int| 0 <= j < a.len() && a[j] == entry;
                assert(b[j] == entry);
            } else {
                assert(b.last() == entry);
            }
        }
        if b.contains(entry) {
            let j = choose|j: int| 0 <= j < b.len() && b[j] == entry;
            if j < a.len() {
                assert(a[j] == entry);
                let k = choose|k: int| 0 <= k < rest.len() && rest[k] == ItemView::Entry(entry);
                assert(items[k] == rest[k]);
            } else {
                assert(items[items.len() - 1] == ItemView::Entry(entry));
            }
        }
    } else {
        assert(entries_of(items) =~= Seq::<EntryView>::empty());
        assert(warnings_of(items) =~= Seq::<ErrorView>::empty());
    }
}

/// A warning that was found is a warning of the result, in order.
pub proof fn law_warnings_are_taken_apart(items: Seq<ItemView>, warning: ErrorView)
    ensures
        warnings_of(items.push(ItemView::Warning(warning))) == warnings_of(items).push(warning),
        entries_of(items.push(ItemView::Warning(warning))) == entries_of(items),
        warnings_of(Seq::empty()).len() == 0,
        entries_of(Seq::empty()).len() == 0,
{
    let more = items.push(ItemView::Warning(warning));
    assert(more.drop_last() =~= items);
    lemma_entries_step(more);
}

/// A scan finds nothing but what directories give to which a way leads from the root.
pub proof fn law_scan_finds_only(
    tree: Tree,
    options: ScanOptions,
    depth: nat,
    root: PathView,
    steps: Seq<ScanStep>,
    item: ItemView,
)
    requires
        shallow(tree, options, depth, root),
        steps_allowed(tree, options, ScanState::started(root), steps),
        after_steps(tree, options, ScanState::started(root), steps).stopped(),
        after_steps(tree, options, ScanState::started(root), steps).progress.found.count(item) > 0,
    ensures
        exists|way: Seq<PathView>| #[trigger]
            is_way(tree, options, way) && way[0] == root && dir_items(
                way.last(),
                options,
                tree(way.last()),
            ).contains(item),
{
    law_stop_means_complete(tree, options, depth, root, steps);
    let k = lemma_owed_from(tree, options, depth, seq![root], item);
}

/// A directory that is owed comes from one of the directories, on some way.
proof fn lemma_owed_from(
    tree: Tree,
    options: ScanOptions,
    depth: nat,
    dirs: Seq<PathView>,
    item: ItemView,
) -> (k: int)
    requires
        owed(tree, options, depth, dirs).count(item) > 0,
    ensures
        0 <= k < dirs.len(),
        exists|way: Seq<PathView>| #[trigger]
            is_way(tree, options, way) && way[0] == dirs[k] && dir_items(
                way.last(),
                options,
                tree(way.last()),
            ).contains(item),
    decreases depth, dirs.len(),
{
    broadcast use vstd::seq_lib::group_to_multiset_ensures;

    let last = dirs.last();
    let below = dir_descents(options, tree(last));
    if owed(tree, options, depth, dirs.drop_last()).count(item) > 0 {
        let k = lemma_owed_from(tree, options, depth, dirs.drop_last(), item);
        assert(dirs.drop_last()[k] == dirs[k]);
        k
    } else if dir_items(last, options, tree(last)).to_multiset().count(item) > 0 {
        let way = seq![last];
        assert(is_way(tree, options, way));
        assert(dir_items(way.last(), options, tree(way.last())).contains(item));
        dirs.len() - 1
    } else {
        let j = lemma_owed_from(tree, options, (depth - 1) as nat, below, item);
        let rest = choose|way: Seq<PathView>| #[trigger]
            is_way(tree, options, way) && way[0] == below[j] && dir_items(
                way.last(),
                options,
                tree(way.last()),
            ).contains(item);
        let way = seq![last] + rest;
        assert(below.contains(below[j]));
        law_listed_directories_are_scanned(options, tree(last)->Items_0, below[j]);
        assert(leads_into(tree, options, last, below[j]));
        assert forall|k: int| 0 < k < way.len() implies leads_into(
            tree,
            options,
            way[k - 1],
            #[trigger] way[k],
        ) by {
            if k == 1 {
                assert(way[1] == rest[0]);
            } else {
                assert(way[k] == rest[k - 1] && way[k - 1] == rest[k - 2]);
            }
        }
        assert(is_way(tree, options, way));
        assert(way.last() == rest.last());
        dirs.len() - 1
    }
}

/// What each directory gives is owed, if it is one of the directories, and so is what is owed of
/// those below it.
proof fn lemma_owed_holds(
    tree: Tree,
    options: ScanOptions,
    depth: nat,
    dirs: Seq<PathView>,
    k: int,
    item: ItemView,
)
    requires
        depth > 0,
        0 <= k < dirs.len(),
        dir_items(dirs[k], options, tree(dirs[k])).to_multiset().count(item) > 0 || owed(
            tree,
            options,
            (depth - 1) as nat,
            dir_descents(options, tree(dirs[k])),
        ).count(item) > 0,
    ensures
        owed(tree, options, depth, dirs).count(item) > 0,
    decreases dirs.len(),
{
    if k < dirs.len() - 1 {
        assert(dirs.drop_last()[k] == dirs[k]);
        lemma_owed_holds(tree, options, depth, dirs.drop_last(), k, item);
    }
}

proof fn lemma_way_owed(
    tree: Tree,
    options: ScanOptions,
    depth: nat,
    way: Seq<PathView>,
    item: ItemView,
)
    requires
        is_way(tree, options, way),
        shallow(tree, options, depth, way[0]),
        dir_items(way.last(), options, tree(way.last())).contains(item),
    ensures
        owed(tree, options, depth, seq![way[0]]).count(item) > 0,
    decreases way.len(),
{
    broadcast use vstd::seq_lib::group_to_multiset_ensures;

    let dirs = seq![way[0]];
    if way.len() == 1 {
        lemma_owed_holds(tree, options, depth, dirs, 0, item);
    } else {
        let rest = way.drop_first();
        let below = dir_descents(options, tree(way[0]));
        assert(leads_into(tree, options, way[0], way[1]));
        let listed = tree(way[0])->Items_0;
        law_listed_directories_are_scanned(options, listed, way[1]);
        assert(tree(way[0]) == ListingView::Items(listed));
        let j = choose|j: int| 0 <= j < below.len() && below[j] == way[1];
        assert(shallow(tree, options, (depth - 1) as nat, below[j]));
        assert forall|k: int| 0 < k < rest.len() implies leads_into(
            tree,
            options,
            rest[k - 1],
            #[trigger] rest[k],
        ) by {
            assert(rest[k] == way[k + 1] && rest[k - 1] == way[k]);
        }
        assert(rest.last() == way.last());
        lemma_way_owed(tree, options, (depth - 1) as nat, rest, item);
        lemma_owed_one_of(tree, options, (depth - 1) as nat, below, j, item);
        lemma_owed_holds(tree, options, depth, dirs, 0, item);
    }
}

/// What is owed of one directory is owed of all.
proof fn lemma_owed_one_of(
    tree: Tree,
    options: ScanOptions,
    depth: nat,
    dirs: Seq<PathView>,
    k: int,
    item: ItemView,
)
    requires
        0 <= k < dirs.len(),
        owed(tree, options, depth, seq![dirs[k]]).count(item) > 0,
    ensures
        owed(tree, options, depth, dirs).count(item) > 0,
{
    let one = seq![dirs[k]];
    assert(one.drop_last() =~= Seq::<PathView>::empty());
    assert(owed(tree, options, depth, one.drop_last()) =~= Multiset::empty());
    lemma_owed_holds(tree, options, depth, dirs, k, item);
}

} // verus!
