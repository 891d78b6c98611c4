//! The data of a scan.

use crate::error::{errors_view, ErrorView, ScanError};
use crate::path::{FilePath, PathView};
use vstd::prelude::*;

verus! {

/// The type of a directory entry.
#[derive(Clone, Copy, Debug, PartialEq, Eq, Structural)]
pub enum EntryKind {
    File,
    Dir,
    Symlink,
}

/// One scanned entry.
#[derive(Debug)]
pub struct FileEntry {
    pub path: FilePath,
    pub size: u64,
    pub kind: EntryKind,
}

/// What a scanned entry is.
pub struct EntryView {
    pub path: PathView,
    pub size: u64,
    pub kind: EntryKind,
}

impl View for FileEntry {
    type V = EntryView;

    open spec fn view(&self) -> EntryView {
        EntryView { path: self.path@, size: self.size, kind: self.kind }
    }
}

impl Clone for FileEntry {
    fn clone(&self) -> (copy: Self)
        ensures
            copy@ == self@,
    {
        FileEntry { path: self.path.clone(), size: self.size, kind: self.kind }
    }
}

/// The result of a scan.
#[derive(Debug)]
pub struct ScanResult {
    pub root: FilePath,
    pub entries: Vec<FileEntry>,
    pub total_size: u64,
    /// Errors of single files, which did not stop the scan.
    pub warnings: Vec<ScanError>,
}

/// What the result of a scan says.
pub struct ResultView {
    pub root: PathView,
    pub entries: Seq<EntryView>,
    pub total_size: u64,
    pub warnings: Seq<ErrorView>,
}

impl View for ScanResult {
    type V = ResultView;

    open spec fn view(&self) -> ResultView {
        ResultView {
            root: self.root@,
            entries: entries_view(self.entries@),
            total_size: self.total_size,
            warnings: errors_view(self.warnings@),
        }
    }
}

/// A group of files with the same content.
#[derive(Debug)]
pub struct DuplicateGroup {
    /// The blake3 hash of the content.
    pub hash: [u8; 32],
    pub size: u64,
    pub paths: Vec<FilePath>,
}

/// What a group of duplicates is.
pub struct GroupView {
    pub hash: Seq<u8>,
    pub size: u64,
    pub paths: Seq<PathView>,
}

impl View for DuplicateGroup {
    type V = GroupView;

    open spec fn view(&self) -> GroupView {
        GroupView { hash: self.hash@, size: self.size, paths: paths_view(self.paths@) }
    }
}

impl GroupView {
    /// The space that deleting all copies but one frees.
    pub open spec fn reclaimable(self) -> int {
        self.size * (self.paths.len() - 1)
    }
}

impl DuplicateGroup {
    /// The space that deleting all copies but one frees.
    pub fn reclaimable(&self) -> (space: u64)
        requires
            self@.paths.len() > 0,
            self@.reclaimable() <= u64::MAX,
        ensures
            space == self@.reclaimable(),
    {
        let others = self.paths.len() as u64 - 1;
        assert(self.size * others == self@.reclaimable());
        self.size * others
    }
}

impl Clone for DuplicateGroup {
    fn clone(&self) -> (copy: Self)
        ensures
            copy@ == self@,
    {
        let mut paths: Vec<FilePath> = Vec::new();
        for i in 0..self.paths.len()
            invariant
                paths@.len() == i,
                forall|j: int| 0 <= j < i ==> (#[trigger] paths@[j])@ == self.paths@[j]@,
        {
            paths.push(self.paths[i].clone());
        }
        assert(paths_view(paths@) =~= paths_view(self.paths@));
        DuplicateGroup { hash: self.hash, size: self.size, paths }
    }
}

impl ScanResult {
    /// Adds warnings behind those that are there.
    pub fn add_warnings(&mut self, warnings: Vec<ScanError>)
        ensures
            final(self)@ == (ResultView {
                warnings: old(self)@.warnings + errors_view(warnings@),
                ..old(self)@
            }),
    {
        let mut more = warnings;
        self.warnings.append(&mut more);
        assert(errors_view(self.warnings@) =~= old(self)@.warnings + errors_view(warnings@));
    }
}

/// What a list of paths is.
pub open spec fn paths_view(paths: Seq<FilePath>) -> Seq<PathView> {
    paths.map_values(|p: FilePath| p@)
}

/// What a list of entries is.
pub open spec fn entries_view(entries: Seq<FileEntry>) -> Seq<EntryView> {
    entries.map_values(|e: FileEntry| e@)
}

/// What a list of groups is.
pub open spec fn groups_view(groups: Seq<DuplicateGroup>) -> Seq<GroupView> {
    groups.map_values(|g: DuplicateGroup| g@)
}

/// The size that an entry adds to a total: only files count.
pub open spec fn counted(entry: EntryView) -> nat {
    if entry.kind == EntryKind::File {
        entry.size as nat
    } else {
        0
    }
}

/// The total size of the files among entries.
pub open spec fn file_total(entries: Seq<EntryView>) -> nat
    decreases entries.len(),
{
    if entries.len() == 0 {
        0
    } else {
        file_total(entries.drop_last()) + counted(entries.last())
    }
}

/// The total size of entries, whatever their type.
pub open spec fn size_total(entries: Seq<EntryView>) -> nat
    decreases entries.len(),
{
    if entries.len() == 0 {
        0
    } else {
        size_total(entries.drop_last()) + entries.last().size as nat
    }
}

/// One more entry adds its size to a total of sizes, and to a total of files if it is a file.
pub proof fn law_one_more_entry(entries: Seq<EntryView>, entry: EntryView)
    ensures
        file_total(Seq::empty()) == 0,
        size_total(Seq::empty()) == 0,
        entry.kind == EntryKind::File ==> file_total(entries.push(entry)) == file_total(entries)
            + entry.size,
        entry.kind != EntryKind::File ==> file_total(entries.push(entry)) == file_total(entries),
        size_total(entries.push(entry)) == size_total(entries) + entry.size,
{
    assert(entries.push(entry).drop_last() =~= entries);
}

/// What a group frees and one of its copies take as much space as all copies.
pub proof fn law_all_copies_but_one(group: GroupView)
    ensures
        group.reclaimable() + group.size == group.size * group.paths.len(),
{
    let (n, s) = (group.paths.len() as int, group.size as int);
    assert(s * (n - 1) + s == s * n) by (nonlinear_arith);
}

} // verus!
