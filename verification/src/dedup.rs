//! Finding files with the same content.
//!
//! Three filters narrow the candidates down: files that share their size, then files that also
//! share the hash of their first bytes, then files that share the hash of their whole content.
//! The files are read outside: each stage takes what the reads of the stage before gave.

use crate::error::{errors_view, ErrorView, ScanError};
use crate::grouping::{
    first_seen, grouped, groups_of_positions, keys_view, lemma_first_seen, lemma_positions,
    positions, shared, shared_positions, ContentKey, KeyView,
};
use crate::index::PathSizes;
use crate::model::{
    entries_view, groups_view, paths_view, DuplicateGroup, EntryKind, EntryView, FileEntry,
    GroupView,
};
use crate::path::{FilePath, PathId, PathView};
use crate::seqs::{
    lemma_filter_map_apart, lemma_filter_map_pair, lemma_filter_pair, lemma_rearranged_holds,
};
use vstd::prelude::*;

verus! {

/// How many bytes the hash of a file's head covers.
pub const HEAD_BYTES: u64 = 4096;

/// How many bytes of a file are read at a time.
pub const READ_BYTES: usize = 8192;

/// The hasher of the `blake3` crate.
#[verifier::external_type_specification]
#[verifier::external_body]
pub struct ExHasher(blake3::Hasher);

/// The bytes that a hasher has taken in.
pub uninterp spec fn absorbed(hasher: blake3::Hasher) -> Seq<u8>;

/// Whether a hasher is for the plain hash, with no key, no context and no input offset.
pub uninterp spec fn plain(hasher: blake3::Hasher) -> bool;

/// The 32 bytes of the plain blake3 hash of some bytes.
pub uninterp spec fn blake3_digest(bytes: Seq<u8>) -> Seq<u8>;

/// Calls `blake3::Hasher::new`: a hasher for the plain hash that has taken in nothing.
#[verifier::external_body]
fn new_hasher() -> (hasher: blake3::Hasher)
    ensures
        plain(hasher),
        absorbed(hasher) == Seq::<u8>::empty(),
{
    blake3::Hasher::new()
}

/// Calls `blake3::Hasher::update`, which takes in more bytes behind those taken in before. It
/// counts them in 64 bits.
#[verifier::external_body]
fn update_hasher(hasher: &mut blake3::Hasher, bytes: &[u8])
    requires
        plain(*old(hasher)),
        absorbed(*old(hasher)).len() + bytes@.len() <= u64::MAX,
    ensures
        plain(*final(hasher)),
        absorbed(*final(hasher)) == absorbed(*old(hasher)) + bytes@,
{
    hasher.update(bytes);
}

/// Calls `blake3::Hasher::finalize` and takes the 32 bytes of the hash. It depends only on the
/// bytes that were taken in, not on how they were cut.
#[verifier::external_body]
fn finalize_hasher(hasher: &blake3::Hasher) -> (hash: [u8; 32])
    requires
        plain(*hasher),
    ensures
        hash@ == blake3_digest(absorbed(*hasher)),
{
    *hasher.finalize().as_bytes()
}

/// The hash of a file that is being read.
pub struct HashJob {
    hasher: blake3::Hasher,
    remaining: u64,
}

/// How far the hash of a file has come.
pub struct JobView {
    /// The bytes that have been read.
    pub absorbed: Seq<u8>,
    /// How many more bytes are wanted.
    pub remaining: nat,
}

impl View for HashJob {
    type V = JobView;

    closed spec fn view(&self) -> JobView {
        JobView { absorbed: absorbed(self.hasher), remaining: self.remaining as nat }
    }
}

/// What follows in the hash of a file.
pub enum HashStep {
    /// More has to be read.
    Read(HashJob),
    /// This is the hash.
    Done([u8; 32]),
}

/// What follows in the hash of a file.
pub enum StepView {
    Read(JobView),
    Done(Seq<u8>),
}

impl View for HashStep {
    type V = StepView;

    open spec fn view(&self) -> StepView {
        match self {
            HashStep::Read(job) => StepView::Read(job@),
            HashStep::Done(hash) => StepView::Done(hash@),
        }
    }
}

impl JobView {
    /// How many bytes are asked for next.
    pub open spec fn wanted(self) -> nat {
        if self.remaining < READ_BYTES {
            self.remaining
        } else {
            READ_BYTES as nat
        }
    }

    /// What follows once these bytes were read. No bytes mean the end of the file.
    pub open spec fn after(self, chunk: Seq<u8>) -> StepView {
        if chunk.len() == 0 || chunk.len() == self.remaining {
            StepView::Done(blake3_digest(self.absorbed + chunk))
        } else {
            StepView::Read(
                JobView {
                    absorbed: self.absorbed + chunk,
                    remaining: (self.remaining - chunk.len()) as nat,
                },
            )
        }
    }
}

/// The start of the hash of a file's first `limit` bytes.
pub open spec fn hash_start(limit: nat) -> StepView {
    if limit == 0 {
        StepView::Done(blake3_digest(Seq::empty()))
    } else {
        StepView::Read(JobView { absorbed: Seq::empty(), remaining: limit })
    }
}

/// Starts the hash of a file. At most `limit` bytes are covered.
pub fn hash_file(limit: u64) -> (step: HashStep)
    ensures
        step@ == hash_start(limit as nat),
{
    let hasher = new_hasher();
    if limit == 0 {
        HashStep::Done(finalize_hasher(&hasher))
    } else {
        HashStep::Read(HashJob { hasher, remaining: limit })
    }
}

impl HashJob {
    #[verifier::type_invariant]
    spec fn counts(self) -> bool {
        plain(self.hasher) && absorbed(self.hasher).len() + self.remaining <= u64::MAX
    }

    /// How many bytes to ask the file for next.
    pub fn wanted(&self) -> (n: usize)
        ensures
            n == self@.wanted(),
    {
        if self.remaining < READ_BYTES as u64 {
            self.remaining as usize
        } else {
            READ_BYTES
        }
    }

    /// Takes in what was read; no bytes mean the end of the file.
    pub fn absorb(self, chunk: &[u8]) -> (step: HashStep)
        requires
            chunk@.len() <= self@.remaining,
        ensures
            step@ == self@.after(chunk@),
    {
        proof {
            use_type_invariant(&self);
        }
        let HashJob { mut hasher, remaining } = self;
        let n = chunk.len();
        if n == 0 {
            assert(absorbed(hasher) + chunk@ =~= absorbed(hasher));
            return HashStep::Done(finalize_hasher(&hasher));
        }
        update_hasher(&mut hasher, chunk);
        let remaining = remaining - n as u64;
        if remaining == 0 {
            HashStep::Done(finalize_hasher(&hasher))
        } else {
            HashStep::Read(HashJob { hasher, remaining })
        }
    }
}

/// The hash of a file with this content, when reads at each offset give as many bytes as `cut`
/// says and the reading has come this far.
pub open spec fn hash_run(content: Seq<u8>, cut: spec_fn(nat) -> nat, step: StepView) -> Seq<u8>
    decreases (if step is Read {
        step->Read_0.remaining + 1
    } else {
        0
    }),
{
    match step {
        StepView::Done(hash) => hash,
        StepView::Read(job) => {
            let at = job.absorbed.len();
            let n = cut(at);
            if n <= job.remaining && at + n <= content.len() {
                hash_run(content, cut, job.after(content.subrange(at as int, (at + n) as int)))
            } else {
                Seq::empty()
            }
        },
    }
}

/// Whether reads behave: each gives some of the bytes that are left and no more than was asked
/// for, and none only at the end.
pub open spec fn reads_well(content: Seq<u8>, limit: nat, cut: spec_fn(nat) -> nat) -> bool {
    forall|at: nat|
        at <= content.len() && at < limit ==> {
            let n = #[trigger] cut(at);
            &&& n <= READ_BYTES
            &&& n <= limit - at
            &&& at + n <= content.len()
            &&& n == 0 <==> at == content.len()
        }
}

/// The hash of a file is the blake3 hash of its first `limit` bytes, however the reads cut it up.
pub proof fn law_hash_ignores_cuts(content: Seq<u8>, limit: nat, cut: spec_fn(nat) -> nat)
    requires
        reads_well(content, limit, cut),
    ensures
        hash_run(content, cut, hash_start(limit)) == blake3_digest(
            content.take(if limit < content.len() {
                limit as int
            } else {
                content.len() as int
            }),
        ),
{
    assert(content.take(0) =~= Seq::<u8>::empty());
    if limit > 0 {
        lemma_hash_run(content, limit, cut, JobView { absorbed: Seq::empty(), remaining: limit });
    }
}

proof fn lemma_hash_run(content: Seq<u8>, limit: nat, cut: spec_fn(nat) -> nat, job: JobView)
    requires
        reads_well(content, limit, cut),
        0 < job.remaining <= limit,
        limit - job.remaining <= content.len(),
        job.absorbed == content.take(limit - job.remaining),
    ensures
        hash_run(content, cut, StepView::Read(job)) == blake3_digest(
            content.take(if limit < content.len() {
                limit as int
            } else {
                content.len() as int
            }),
        ),
    decreases job.remaining,
{
    reveal_with_fuel(hash_run, 2);
    let at = job.absorbed.len();
    let n = cut(at);
    let chunk = content.subrange(at as int, (at + n) as int);
    assert(job.absorbed + chunk =~= content.take((at + n) as int));
    if n == 0 {
        assert(content.take((at + n) as int) == content.take(content.len() as int));
    } else if n < job.remaining {
        lemma_hash_run(
            content,
            limit,
            cut,
            JobView { absorbed: job.absorbed + chunk, remaining: (job.remaining - n) as nat },
        );
    }
}

/// What came of hashing a file.
#[derive(Debug)]
pub enum Hashed {
    Hash(FilePath, [u8; 32]),
    /// The file could not be read.
    Failed(ScanError),
}

/// What came of hashing a file.
pub enum HashedView {
    Hash(PathView, Seq<u8>),
    Failed(ErrorView),
}

impl View for Hashed {
    type V = HashedView;

    open spec fn view(&self) -> HashedView {
        match self {
            Hashed::Hash(path, hash) => HashedView::Hash(path@, hash@),
            Hashed::Failed(error) => HashedView::Failed(error@),
        }
    }
}

/// What came of hashing several files.
pub open spec fn replies_view(replies: Seq<Hashed>) -> Seq<HashedView> {
    replies.map_values(|r: Hashed| r@)
}

/// A file and its hash.
pub struct FileHash {
    pub path: FilePath,
    pub hash: [u8; 32],
}

/// A file and its hash.
pub struct HashView {
    pub path: PathView,
    pub hash: Seq<u8>,
}

impl View for FileHash {
    type V = HashView;

    open spec fn view(&self) -> HashView {
        HashView { path: self.path@, hash: self.hash@ }
    }
}

/// Several files and their hashes.
pub open spec fn hashes_view(hashes: Seq<FileHash>) -> Seq<HashView> {
    hashes.map_values(|h: FileHash| h@)
}

/// The hash in a reply, if there is one.
pub open spec fn hash_in(reply: HashedView) -> Option<HashView> {
    match reply {
        HashedView::Hash(path, hash) => Some(HashView { path, hash }),
        HashedView::Failed(error) => None,
    }
}

/// The error in a reply, if there is one.
pub open spec fn failure_in(reply: HashedView) -> Option<ErrorView> {
    match reply {
        HashedView::Hash(path, hash) => None,
        HashedView::Failed(error) => Some(error),
    }
}

/// The hashes among replies.
pub open spec fn hashes_of(replies: Seq<HashedView>) -> Seq<HashView> {
    replies.filter_map(|r: HashedView| hash_in(r))
}

/// The errors among replies.
pub open spec fn failures_of(replies: Seq<HashedView>) -> Seq<ErrorView> {
    replies.filter_map(|r: HashedView| failure_in(r))
}

/// Parts the hashes among replies from the errors.
pub fn split_replies(replies: Vec<Hashed>) -> (parts: (Vec<FileHash>, Vec<ScanError>))
    ensures
        hashes_view(parts.0@) == hashes_of(replies_view(replies@)),
        errors_view(parts.1@) == failures_of(replies_view(replies@)),
{
    let ghost given = replies@;
    let ghost all = replies_view(replies@);
    let ghost good = |r: HashedView| hash_in(r);
    let ghost bad = |r: HashedView| failure_in(r);
    let mut hashes: Vec<FileHash> = Vec::new();
    let mut failures: Vec<ScanError> = Vec::new();
    proof {
        reveal(Seq::filter_map);
        assert(hashes_view(hashes@) =~= all.take(0).filter_map(good));
        assert(errors_view(failures@) =~= all.take(0).filter_map(bad));
    }
    for reply in it: replies
        invariant
            it.seq() == given,
            all == replies_view(given),
            good == (|r: HashedView| hash_in(r)),
            bad == (|r: HashedView| failure_in(r)),
            hashes_view(hashes@) == all.take(it.index() as int).filter_map(good),
            errors_view(failures@) == all.take(it.index() as int).filter_map(bad),
    {
        let ghost i = it.index() as int;
        proof {
            assert(reply@ == all[i]);
            reveal(Seq::filter_map);
            assert(all.take(i + 1).drop_last() =~= all.take(i));
        }
        match reply {
            Hashed::Hash(path, hash) => {
                hashes.push(FileHash { path, hash });
                assert(hashes_view(hashes@) =~= all.take(i + 1).filter_map(good));
            },
            Hashed::Failed(error) => {
                failures.push(error);
                assert(errors_view(failures@) =~= all.take(i + 1).filter_map(bad));
            },
        }
    }
    assert(all.take(all.len() as int) =~= all);
    (hashes, failures)
}

/// The files among entries.
pub open spec fn files_of(entries: Seq<EntryView>) -> Seq<EntryView> {
    entries.filter(|e: EntryView| e.kind == EntryKind::File)
}

/// The size of a file by its path: that of the last file among the entries with this path.
pub open spec fn recorded_size(entries: Seq<EntryView>, id: PathId) -> u64
    decreases entries.len(),
{
    if entries.len() == 0 {
        0
    } else if entries.last().kind == EntryKind::File && entries.last().path.id() == id {
        entries.last().size
    } else {
        recorded_size(entries.drop_last(), id)
    }
}

/// A key that holds a size only.
pub open spec fn size_key(size: u64) -> KeyView {
    KeyView { size, hash: Seq::new(32, |i: int| 0u8) }
}

/// The sizes of files, as keys.
pub open spec fn size_keys(files: Seq<EntryView>) -> Seq<KeyView> {
    files.map_values(|e: EntryView| size_key(e.size))
}

/// Sizes and hashes, as keys.
pub open spec fn head_keys(entries: Seq<EntryView>, hashes: Seq<HashView>) -> Seq<KeyView> {
    hashes.map_values(
        |h: HashView| KeyView { size: recorded_size(entries, h.path.id()), hash: h.hash },
    )
}

/// Hashes, as keys.
pub open spec fn full_keys(hashes: Seq<HashView>) -> Seq<KeyView> {
    hashes.map_values(|h: HashView| KeyView { size: 0, hash: h.hash })
}

/// The paths at some positions.
pub open spec fn paths_at(paths: Seq<PathView>, at: Seq<int>) -> Seq<PathView> {
    at.map_values(|i: int| paths[i])
}

/// The paths of entries.
pub open spec fn entry_paths(entries: Seq<EntryView>) -> Seq<PathView> {
    entries.map_values(|e: EntryView| e.path)
}

/// The paths of hashed files.
pub open spec fn hash_paths(hashes: Seq<HashView>) -> Seq<PathView> {
    hashes.map_values(|h: HashView| h.path)
}

/// The files that share their size with another one.
pub open spec fn same_size(entries: Seq<EntryView>) -> Seq<PathView> {
    paths_at(entry_paths(files_of(entries)), shared(size_keys(files_of(entries))).flatten())
}

/// The files that share their size and the hash of their head with another one.
pub open spec fn same_head(entries: Seq<EntryView>, hashes: Seq<HashView>) -> Seq<PathView> {
    paths_at(hash_paths(hashes), shared(head_keys(entries, hashes)).flatten())
}

/// The group that some positions of hashed files make.
pub open spec fn group_at(
    entries: Seq<EntryView>,
    hashes: Seq<HashView>,
    at: Seq<int>,
) -> GroupView {
    GroupView {
        hash: hashes[at[0]].hash,
        size: recorded_size(entries, hashes[at[0]].path.id()),
        paths: paths_at(hash_paths(hashes), at),
    }
}

/// The groups of files that share the hash of their content.
pub open spec fn same_content(entries: Seq<EntryView>, hashes: Seq<HashView>) -> Seq<GroupView> {
    shared(full_keys(hashes)).map_values(|at: Seq<int>| group_at(entries, hashes, at))
}

fn record_sizes(entries: &Vec<FileEntry>) -> (sizes: PathSizes)
    ensures
        forall|q: PathId| #[trigger]
            sizes.size_of(q) == recorded_size(entries_view(entries@), q),
{
    let ghost all = entries_view(entries@);
    let mut sizes = PathSizes::new();
    for i in 0..entries.len()
        invariant
            all == entries_view(entries@),
            forall|q: PathId| #[trigger]
                sizes.size_of(q) == recorded_size(all.take(i as int), q),
    {
        assert(all.take(i + 1).drop_last() =~= all.take(i as int));
        if entries[i].kind == EntryKind::File {
            sizes.set(&entries[i].path, entries[i].size);
        }
    }
    assert(all.take(all.len() as int) =~= all);
    sizes
}

/// Copies the paths at the positions of each group, one group after the other.
fn pick_paths(paths: &Vec<&FilePath>, groups: &Vec<Vec<usize>>) -> (picked: Vec<FilePath>)
    requires
        forall|g: int, k: int|
            0 <= g < groups@.len() && 0 <= k < groups@[g]@.len() ==> #[trigger] groups@[g]@[k]
                < paths@.len(),
    ensures
        paths_view(picked@) == paths_at(
            paths@.map_values(|p: &FilePath| p@),
            groups_of_positions(groups@).flatten(),
        ),
{
    let ghost from = paths@.map_values(|p: &FilePath| p@);
    let ghost all = groups_of_positions(groups@);
    let mut picked: Vec<FilePath> = Vec::new();
    assert(paths_view(picked@) =~= paths_at(from, all.take(0).flatten()));
    for g in 0..groups.len()
        invariant
            from == paths@.map_values(|p: &FilePath| p@),
            all == groups_of_positions(groups@),
            forall|g: int, k: int|
                0 <= g < groups@.len() && 0 <= k < groups@[g]@.len() ==> #[trigger] groups@[g]@[k]
                    < paths@.len(),
            paths_view(picked@) == paths_at(from, all.take(g as int).flatten()),
    {
        let group = &groups[g];
        let ghost before = picked@;
        for k in 0..group.len()
            invariant
                from == paths@.map_values(|p: &FilePath| p@),
                forall|k: int| 0 <= k < group@.len() ==> #[trigger] group@[k] < paths@.len(),
                paths_view(picked@) == paths_view(before) + paths_at(
                    from,
                    group@.map_values(|i: usize| i as int).take(k as int),
                ),
        {
            let at = group[k];
            let path: FilePath = paths[at].clone();
            assert(path@ == from[at as int]);
            let ghost so_far = paths_view(picked@);
            picked.push(path);
            proof {
                assert(paths_view(picked@) =~= so_far.push(from[at as int]));
                let now = group@.map_values(|i: usize| i as int);
                assert(now.take(k + 1) =~= now.take(k as int).push(at as int));
                assert(paths_at(from, now.take(k + 1)) =~= paths_at(from, now.take(k as int)).push(
                    from[at as int],
                ));
                assert(paths_view(picked@) =~= paths_view(before) + paths_at(
                    from,
                    now.take(k + 1),
                ));
            }
        }
        proof {
            let now = group@.map_values(|i: usize| i as int);
            assert(now.take(now.len() as int) =~= now);
            assert(all.take(g + 1) =~= all.take(g as int).push(all[g as int]));
            all.take(g as int).lemma_flatten_push(all[g as int]);
            assert(paths_at(from, all.take(g + 1).flatten()) =~= paths_at(
                from,
                all.take(g as int).flatten(),
            ) + paths_at(from, now));
        }
    }
    assert(all.take(all.len() as int) =~= all);
    picked
}

/// The positions of shared groups are positions of the list.
proof fn lemma_shared_within(keys: Seq<KeyView>, g: int)
    requires
        0 <= g < shared(keys).len(),
    ensures
        shared(keys)[g].len() >= 2,
        exists|k: int|
            0 <= k < first_seen(keys).len() && shared(keys)[g] == #[trigger] positions(
                keys,
                first_seen(keys)[k],
            ),
        forall|i: int|
            0 <= i < shared(keys)[g].len() ==> 0 <= #[trigger] shared(keys)[g][i] < keys.len(),
        forall|i: int, j: int|
            0 <= i < shared(keys)[g].len() && 0 <= j < shared(keys)[g].len()
                ==> keys[#[trigger] shared(keys)[g][i]] == keys[#[trigger] shared(keys)[g][j]],
{
    let several = |g: Seq<int>| g.len() >= 2;
    grouped(keys).lemma_filter_pred(several, g);
    assert(shared(keys).contains(shared(keys)[g]));
    grouped(keys).lemma_filter_contains_rev(several, shared(keys)[g]);
    let k = choose|k: int| 0 <= k < grouped(keys).len() && grouped(keys)[k] == shared(keys)[g];
    assert(grouped(keys)[k] == positions(keys, first_seen(keys)[k]));
    lemma_positions(keys, first_seen(keys)[k]);
}

/// The groups of positions that were found are positions of the list.
proof fn lemma_groups_within(keys: Seq<KeyView>, groups: Seq<Vec<usize>>)
    requires
        groups_of_positions(groups) == shared(keys),
    ensures
        forall|g: int, k: int|
            0 <= g < groups.len() && 0 <= k < groups[g]@.len() ==> #[trigger] groups[g]@[k]
                < keys.len(),
{
    assert forall|g: int, k: int|
        0 <= g < groups.len() && 0 <= k < groups[g]@.len() implies #[trigger] groups[g]@[k]
        < keys.len() by {
        assert(groups_of_positions(groups).len() == groups.len());
        lemma_shared_within(keys, g);
        assert(groups_of_positions(groups)[g] == groups[g]@.map_values(|i: usize| i as int));
        assert(shared(keys)[g][k] == groups[g]@[k]);
    }
}

/// The files to hash the heads of: those that share their size with another one.
pub fn size_candidates(entries: &Vec<FileEntry>) -> (candidates: Vec<FilePath>)
    ensures
        paths_view(candidates@) == same_size(entries_view(entries@)),
{
    let ghost all = entries_view(entries@);
    let ghost is_file = |e: EntryView| e.kind == EntryKind::File;
    let mut paths: Vec<&FilePath> = Vec::new();
    let mut keys: Vec<ContentKey> = Vec::new();
    proof {
        reveal(Seq::filter);
        assert(paths@.map_values(|p: &FilePath| p@) =~= entry_paths(all.take(0).filter(is_file)));
        assert(keys_view(keys@) =~= size_keys(all.take(0).filter(is_file)));
    }
    for i in 0..entries.len()
        invariant
            all == entries_view(entries@),
            is_file == (|e: EntryView| e.kind == EntryKind::File),
            paths@.map_values(|p: &FilePath| p@) == entry_paths(
                all.take(i as int).filter(is_file),
            ),
            keys_view(keys@) == size_keys(all.take(i as int).filter(is_file)),
    {
        let entry = &entries[i];
        let ghost before = all.take(i as int).filter(is_file);
        proof {
            reveal(Seq::filter);
            assert(all.take(i + 1).drop_last() =~= all.take(i as int));
        }
        if entry.kind == EntryKind::File {
            let key = ContentKey { size: entry.size, hash: [0u8; 32] };
            assert(key@.hash =~= size_key(entry.size).hash);
            let ghost old_paths = paths@.map_values(|p: &FilePath| p@);
            let ghost old_keys = keys_view(keys@);
            paths.push(&entry.path);
            keys.push(key);
            proof {
                let now = all.take(i + 1).filter(is_file);
                assert(now == before.push(entry@));
                assert(paths@.map_values(|p: &FilePath| p@) =~= old_paths.push(entry@.path));
                assert(entry_paths(now) =~= entry_paths(before).push(entry@.path));
                assert(keys_view(keys@) =~= old_keys.push(key@));
                assert(size_keys(now) =~= size_keys(before).push(key@));
            }
        }
    }
    assert(all.take(all.len() as int) =~= all);
    let groups = shared_positions(&keys);
    proof {
        lemma_groups_within(keys_view(keys@), groups@);
        assert(keys_view(keys@).len() == paths@.map_values(|p: &FilePath| p@).len());
    }
    pick_paths(&paths, &groups)
}

/// The files to hash as a whole: those that share their size and the hash of their head with
/// another one.
pub fn head_candidates(entries: &Vec<FileEntry>, heads: &Vec<FileHash>) -> (candidates: Vec<
    FilePath,
>)
    ensures
        paths_view(candidates@) == same_head(entries_view(entries@), hashes_view(heads@)),
{
    let ghost all = entries_view(entries@);
    let ghost hashes = hashes_view(heads@);
    let sizes = record_sizes(entries);
    let mut paths: Vec<&FilePath> = Vec::new();
    let mut keys: Vec<ContentKey> = Vec::new();
    assert(paths@.map_values(|p: &FilePath| p@) =~= hash_paths(hashes.take(0)));
    assert(keys_view(keys@) =~= head_keys(all, hashes.take(0)));
    for i in 0..heads.len()
        invariant
            hashes == hashes_view(heads@),
            forall|q: PathId| #[trigger] sizes.size_of(q) == recorded_size(all, q),
            paths@.map_values(|p: &FilePath| p@) == hash_paths(hashes.take(i as int)),
            keys_view(keys@) == head_keys(all, hashes.take(i as int)),
    {
        let head = &heads[i];
        let key = ContentKey { size: sizes.get(&head.path), hash: head.hash };
        let ghost old_paths = paths@.map_values(|p: &FilePath| p@);
        let ghost old_keys = keys_view(keys@);
        paths.push(&head.path);
        keys.push(key);
        proof {
            let before = hashes.take(i as int);
            assert(hashes.take(i + 1) =~= before.push(head@));
            assert(paths@.map_values(|p: &FilePath| p@) =~= old_paths.push(head@.path));
            assert(hash_paths(hashes.take(i + 1)) =~= hash_paths(before).push(head@.path));
            assert(keys_view(keys@) =~= old_keys.push(key@));
            assert(head_keys(all, hashes.take(i + 1)) =~= head_keys(all, before).push(key@));
        }
    }
    assert(hashes.take(hashes.len() as int) =~= hashes);
    let groups = shared_positions(&keys);
    proof {
        lemma_groups_within(keys_view(keys@), groups@);
        assert(keys_view(keys@).len() == paths@.map_values(|p: &FilePath| p@).len());
    }
    pick_paths(&paths, &groups)
}

/// Groups files by the hash of their content.
pub fn content_groups(entries: &Vec<FileEntry>, fulls: &Vec<FileHash>) -> (groups: Vec<
    DuplicateGroup,
>)
    ensures
        groups_view(groups@) == same_content(entries_view(entries@), hashes_view(fulls@)),
{
    let ghost all = entries_view(entries@);
    let ghost hashes = hashes_view(fulls@);
    let sizes = record_sizes(entries);
    let mut keys: Vec<ContentKey> = Vec::new();
    assert(keys_view(keys@) =~= full_keys(hashes.take(0)));
    for i in 0..fulls.len()
        invariant
            hashes == hashes_view(fulls@),
            keys_view(keys@) == full_keys(hashes.take(i as int)),
    {
        let key = ContentKey { size: 0, hash: fulls[i].hash };
        let ghost old_keys = keys_view(keys@);
        keys.push(key);
        proof {
            let before = hashes.take(i as int);
            assert(hashes.take(i + 1) =~= before.push(fulls@[i as int]@));
            assert(keys_view(keys@) =~= old_keys.push(key@));
            assert(full_keys(hashes.take(i + 1)) =~= full_keys(before).push(key@));
        }
    }
    assert(hashes.take(hashes.len() as int) =~= hashes);
    let found = shared_positions(&keys);
    let ghost at = shared(full_keys(hashes));
    proof {
        lemma_groups_within(keys_view(keys@), found@);
    }
    let mut groups: Vec<DuplicateGroup> = Vec::new();
    for g in 0..found.len()
        invariant
            hashes == hashes_view(fulls@),
            at == shared(full_keys(hashes)),
            at == groups_of_positions(found@),
            forall|q: PathId| #[trigger] sizes.size_of(q) == recorded_size(all, q),
            forall|g: int, k: int|
                0 <= g < found@.len() && 0 <= k < found@[g]@.len() ==> #[trigger] found@[g]@[k]
                    < fulls@.len(),
            groups@.len() == g,
            forall|j: int|
                0 <= j < g ==> (#[trigger] groups@[j])@ == group_at(all, hashes, at[j]),
    {
        let list = &found[g];
        proof {
            assert(at.len() == found@.len());
            lemma_shared_within(full_keys(hashes), g as int);
            assert(at[g as int] == list@.map_values(|i: usize| i as int));
        }
        let mut paths: Vec<FilePath> = Vec::new();
        for k in 0..list.len()
            invariant
                hashes == hashes_view(fulls@),
                forall|k: int| 0 <= k < list@.len() ==> #[trigger] list@[k] < fulls@.len(),
                paths@.len() == k,
                forall|j: int|
                    0 <= j < k ==> (#[trigger] paths@[j])@ == hashes[list@[j] as int].path,
        {
            paths.push(fulls[list[k]].path.clone());
        }
        let first = list[0];
        let group = DuplicateGroup {
            hash: fulls[first].hash,
            size: sizes.get(&fulls[first].path),
            paths,
        };
        proof {
            assert(group@.paths =~= group_at(all, hashes, at[g as int]).paths);
            assert(at[g as int][0] == first as int);
            assert(hashes[first as int] == fulls@[first as int]@);
        }
        groups.push(group);
    }
    assert(groups_view(groups@) =~= same_content(all, hashes));
    groups
}

/// How far the search for duplicates has come.
pub enum DedupEvent {
    /// It has not begun.
    Begin,
    /// The heads of the candidates have been hashed.
    HeadsHashed(Vec<Hashed>),
    /// The candidates that were left have been hashed as a whole. The warnings are those that the
    /// task to hash them came with.
    FullsHashed(Vec<Hashed>, Vec<ScanError>),
}

/// How far the search for duplicates has come.
pub enum DedupEventView {
    Begin,
    HeadsHashed(Seq<HashedView>),
    FullsHashed(Seq<HashedView>, Seq<ErrorView>),
}

impl View for DedupEvent {
    type V = DedupEventView;

    open spec fn view(&self) -> DedupEventView {
        match self {
            DedupEvent::Begin => DedupEventView::Begin,
            DedupEvent::HeadsHashed(replies) => {
                DedupEventView::HeadsHashed(replies_view(replies@))
            },
            DedupEvent::FullsHashed(replies, warnings) => {
                DedupEventView::FullsHashed(replies_view(replies@), errors_view(warnings@))
            },
        }
    }
}

/// What the search for duplicates needs next.
pub enum DedupTask {
    /// Hash the heads of these files, at most `HEAD_BYTES` of each.
    HashHeads(Vec<FilePath>),
    /// Hash these files as a whole. The warnings so far are handed back with the hashes.
    HashFulls(Vec<FilePath>, Vec<ScanError>),
    /// Nothing: these are the groups, and the warnings.
    Done(Vec<DuplicateGroup>, Vec<ScanError>),
}

/// What the search for duplicates needs next.
pub enum DedupTaskView {
    HashHeads(Seq<PathView>),
    HashFulls(Seq<PathView>, Seq<ErrorView>),
    Done(Seq<GroupView>, Seq<ErrorView>),
}

impl View for DedupTask {
    type V = DedupTaskView;

    open spec fn view(&self) -> DedupTaskView {
        match self {
            DedupTask::HashHeads(paths) => DedupTaskView::HashHeads(paths_view(paths@)),
            DedupTask::HashFulls(paths, warnings) => {
                DedupTaskView::HashFulls(paths_view(paths@), errors_view(warnings@))
            },
            DedupTask::Done(groups, warnings) => {
                DedupTaskView::Done(groups_view(groups@), errors_view(warnings@))
            },
        }
    }
}

/// How many bytes are asked for next: all that are left where these are fewer than fit in a buffer
/// of 8192, else as many as fit.
pub proof fn law_reads_fill_a_buffer(job: JobView)
    ensures
        job.wanted() <= job.remaining,
        job.wanted() <= 8192,
        job.wanted() < 8192 ==> job.wanted() == job.remaining,
{
}

impl DedupTask {
    /// How many bytes of each file a task is to hash at most.
    pub fn limit(&self) -> (limit: u64)
        ensures
            limit == self@.limit(),
    {
        match self {
            DedupTask::HashHeads(_) => HEAD_BYTES,
            DedupTask::HashFulls(_, _) => u64::MAX,
            DedupTask::Done(_, _) => 0,
        }
    }
}

impl DedupTaskView {
    /// How many bytes of each file a task is to hash at most.
    pub open spec fn limit(self) -> u64 {
        match self {
            DedupTaskView::HashHeads(paths) => HEAD_BYTES,
            DedupTaskView::HashFulls(paths, warnings) => u64::MAX,
            DedupTaskView::Done(groups, warnings) => 0,
        }
    }
}

/// What the search for duplicates among entries needs next.
pub open spec fn dedup_step(entries: Seq<EntryView>, event: DedupEventView) -> DedupTaskView {
    match event {
        DedupEventView::Begin => DedupTaskView::HashHeads(same_size(entries)),
        DedupEventView::HeadsHashed(replies) => DedupTaskView::HashFulls(
            same_head(entries, hashes_of(replies)),
            failures_of(replies),
        ),
        DedupEventView::FullsHashed(replies, warnings) => DedupTaskView::Done(
            same_content(entries, hashes_of(replies)),
            warnings + failures_of(replies),
        ),
    }
}

/// Takes the search for files with the same content a step further.
///
/// The files of a task are hashed outside, at most `limit` bytes of each, and what came of it is
/// handed in next. Files that could not be read become warnings.
pub fn find_duplicates(entries: &Vec<FileEntry>, event: DedupEvent) -> (task: DedupTask)
    ensures
        task@ == dedup_step(entries_view(entries@), event@),
{
    match event {
        DedupEvent::Begin => DedupTask::HashHeads(size_candidates(entries)),
        DedupEvent::HeadsHashed(replies) => {
            let (hashes, warnings) = split_replies(replies);
            DedupTask::HashFulls(head_candidates(entries, &hashes), warnings)
        },
        DedupEvent::FullsHashed(replies, warnings) => {
            let (hashes, mut more) = split_replies(replies);
            let mut warnings = warnings;
            let ghost first = warnings@;
            let ghost second = more@;
            warnings.append(&mut more);
            assert(errors_view(warnings@) =~= errors_view(first) + errors_view(second));
            DedupTask::Done(content_groups(entries, &hashes), warnings)
        },
    }
}

/// The files of a group were hashed with the group's hash, there are several of them, and no two
/// groups have the same hash.
pub proof fn law_groups_share_a_hash(entries: Seq<EntryView>, hashes: Seq<HashView>, g: int)
    requires
        0 <= g < same_content(entries, hashes).len(),
    ensures
        same_content(entries, hashes)[g].paths.len() >= 2,
        forall|i: int|
            #![trigger same_content(entries, hashes)[g].paths[i]]
            0 <= i < same_content(entries, hashes)[g].paths.len() ==> hashes.contains(
                HashView {
                    path: same_content(entries, hashes)[g].paths[i],
                    hash: same_content(entries, hashes)[g].hash,
                },
            ),
        forall|h: int|
            #![trigger same_content(entries, hashes)[h]]
            0 <= h < same_content(entries, hashes).len() && h != g ==> same_content(
                entries,
                hashes,
            )[h].hash != same_content(entries, hashes)[g].hash,
{
    let keys = full_keys(hashes);
    let groups = same_content(entries, hashes);
    lemma_shared_within(keys, g);
    let at = shared(keys)[g];
    assert(groups[g] == group_at(entries, hashes, at));
    assert forall|i: int| #![trigger groups[g].paths[i]] 0 <= i < groups[g].paths.len() implies
        hashes.contains(HashView { path: groups[g].paths[i], hash: groups[g].hash }) by {
        assert(keys[at[i]] == keys[at[0]]);
        assert(hashes[at[i]] == HashView { path: groups[g].paths[i], hash: groups[g].hash });
    }
    assert forall|h: int|
        #![trigger groups[h]]
        0 <= h < groups.len() && h != g implies groups[h].hash != groups[g].hash by {
        lemma_shared_within(keys, h);
        if groups[h].hash == groups[g].hash {
            assert(keys[shared(keys)[h][0]] == keys[at[0]]);
            lemma_shared_apart(keys, g, h);
        }
    }
}

/// The files of a group have content with the group's hash, where the hashes are right.
pub proof fn law_group_contents_agree(
    entries: Seq<EntryView>,
    hashes: Seq<HashView>,
    content: spec_fn(PathId) -> Seq<u8>,
    g: int,
    i: int,
)
    requires
        forall|k: int|
            0 <= k < hashes.len() ==> (#[trigger] hashes[k]).hash == blake3_digest(
                head(content(hashes[k].path.id()), u64::MAX as nat),
            ),
        0 <= g < same_content(entries, hashes).len(),
        0 <= i < same_content(entries, hashes)[g].paths.len(),
    ensures
        blake3_digest(
            head(content(same_content(entries, hashes)[g].paths[i].id()), u64::MAX as nat),
        ) == same_content(entries, hashes)[g].hash,
{
    law_groups_share_a_hash(entries, hashes, g);
    let group = same_content(entries, hashes)[g];
    let pair = HashView { path: group.paths[i], hash: group.hash };
    assert(hashes.contains(pair));
    let k = choose|k: int| 0 <= k < hashes.len() && hashes[k] == pair;
    assert(hashes[k].hash == group.hash);
}

/// A file is read only if another one has the same size.
pub proof fn law_only_same_size_is_read(entries: Seq<EntryView>, path: PathView)
    requires
        same_size(entries).contains(path),
    ensures
        exists|i: int, j: int|
            0 <= i < files_of(entries).len() && 0 <= j < files_of(entries).len() && i != j
                && #[trigger] files_of(entries)[i].path == path && files_of(entries)[i].size == (
            #[trigger] files_of(entries)[j]).size,
{
    let files = files_of(entries);
    let keys = size_keys(files);
    let (i, j) = lemma_picked_from(entry_paths(files), keys, path);
    assert(keys[i] == size_key(files[i].size) && keys[j] == size_key(files[j].size));
    assert(files[i].path == path && files[i].size == files[j].size);
}

/// A file is read as a whole only if another one has the same size and the same hash of its head.
pub proof fn law_only_same_head_is_read(
    entries: Seq<EntryView>,
    hashes: Seq<HashView>,
    path: PathView,
)
    requires
        same_head(entries, hashes).contains(path),
    ensures
        exists|i: int, j: int|
            0 <= i < hashes.len() && 0 <= j < hashes.len() && i != j && #[trigger] hashes[i].path
                == path && hashes[i].hash == (#[trigger] hashes[j]).hash && recorded_size(
                entries,
                hashes[i].path.id(),
            ) == recorded_size(entries, hashes[j].path.id()),
{
    let keys = head_keys(entries, hashes);
    let (i, j) = lemma_picked_from(hash_paths(hashes), keys, path);
    assert(keys[i] == keys[j]);
    assert(hashes[i].path == path && hashes[i].hash == hashes[j].hash);
}

/// Where a path that was picked stands, and another position with the same key.
proof fn lemma_picked_from(paths: Seq<PathView>, keys: Seq<KeyView>, path: PathView) -> (at: (
    int,
    int,
))
    requires
        keys.len() == paths.len(),
        paths_at(paths, shared(keys).flatten()).contains(path),
    ensures
        0 <= at.0 < keys.len(),
        0 <= at.1 < keys.len(),
        at.0 != at.1,
        paths[at.0] == path,
        keys[at.0] == keys[at.1],
{
    let flat = shared(keys).flatten();
    let picked = paths_at(paths, flat);
    let k = choose|k: int| 0 <= k < picked.len() && picked[k] == path;
    let i = flat[k];
    assert(flat.contains(i));
    let g = lemma_flatten_from(shared(keys), i);
    lemma_shared_within(keys, g);
    let group = shared(keys)[g];
    let m = choose|m: int| 0 <= m < group.len() && group[m] == i;
    let n = if m == 0 { 1int } else { 0int };
    let k2 = choose|k2: int|
        0 <= k2 < first_seen(keys).len() && group == #[trigger] positions(
            keys,
            first_seen(keys)[k2],
        );
    lemma_positions(keys, first_seen(keys)[k2]);
    assert(keys[group[m]] == keys[group[n]]);
    assert(group[0] < group[1]) by {
        assert(positions(keys, first_seen(keys)[k2])[0] < positions(keys, first_seen(keys)[k2])[1]);
    }
    (i, group[n])
}

proof fn lemma_flatten_from<A>(s: Seq<Seq<A>>, x: A) -> (g: int)
    requires
        s.flatten().contains(x),
    ensures
        0 <= g < s.len(),
        s[g].contains(x),
    decreases s.len(),
{
    let flat = s.flatten();
    let k = choose|k: int| 0 <= k < flat.len() && flat[k] == x;
    if k < s[0].len() {
        assert(s[0][k] == x);
        0
    } else {
        let rest = s.drop_first();
        assert(rest.flatten()[k - s[0].len()] == x);
        let g = lemma_flatten_from(rest, x);
        assert(rest[g] == s[g + 1]);
        g + 1
    }
}

/// Two groups of positions do not hold the same key.
proof fn lemma_shared_apart(keys: Seq<KeyView>, g: int, h: int)
    requires
        0 <= g < shared(keys).len(),
        0 <= h < shared(keys).len(),
        g != h,
    ensures
        keys[shared(keys)[g][0]] != keys[shared(keys)[h][0]],
{
    let several = |g: Seq<int>| g.len() >= 2;
    lemma_shared_within(keys, g);
    lemma_shared_within(keys, h);
    let seen = first_seen(keys);
    lemma_first_seen(keys);
    if g < h {
        lemma_filter_positions(grouped(keys), several, g, h);
    } else {
        lemma_filter_positions(grouped(keys), several, h, g);
    }
    let (a, b) = choose|a: int, b: int|
        0 <= a < grouped(keys).len() && 0 <= b < grouped(keys).len() && a != b && grouped(keys)[a]
            == shared(keys)[g] && grouped(keys)[b] == shared(keys)[h];
    assert(grouped(keys)[a] == positions(keys, seen[a]));
    assert(grouped(keys)[b] == positions(keys, seen[b]));
    lemma_positions(keys, seen[a]);
    lemma_positions(keys, seen[b]);
    assert(keys[positions(keys, seen[a])[0]] == seen[a]);
    assert(keys[positions(keys, seen[b])[0]] == seen[b]);
    assert(seen[a] != seen[b]);
}

/// Two items of a filtered sequence stand at different places of the sequence.
proof fn lemma_filter_positions<A>(s: Seq<A>, pred: spec_fn(A) -> bool, i: int, j: int)
    requires
        0 <= i < j < s.filter(pred).len(),
    ensures
        exists|a: int, b: int|
            0 <= a < b < s.len() && #[trigger] s[a] == s.filter(pred)[i] && #[trigger] s[b]
                == s.filter(pred)[j],
    decreases s.len(),
{
    reveal(Seq::filter);
    let rest = s.drop_last();
    if s.len() == 0 {
    } else if pred(s.last()) && j == s.filter(pred).len() - 1 {
        assert(rest.filter(pred).contains(rest.filter(pred)[i]));
        rest.lemma_filter_contains_rev(pred, rest.filter(pred)[i]);
        let a = choose|a: int| 0 <= a < rest.len() && rest[a] == rest.filter(pred)[i];
        assert(s[a] == s.filter(pred)[i] && s[s.len() - 1] == s.filter(pred)[j]);
    } else {
        lemma_filter_positions(rest, pred, i, j);
        let (a, b) = choose|a: int, b: int|
            0 <= a < b < rest.len() && #[trigger] rest[a] == rest.filter(pred)[i]
                && #[trigger] rest[b] == rest.filter(pred)[j];
        assert(s[a] == s.filter(pred)[i] && s[b] == s.filter(pred)[j]);
    }
}

/// The first `limit` bytes of a content.
pub open spec fn head(content: Seq<u8>, limit: nat) -> Seq<u8> {
    content.take(if limit < content.len() {
        limit as int
    } else {
        content.len() as int
    })
}

/// Whether a file, if it is a candidate, was hashed: the replies hold the hash of its first
/// `limit` bytes.
pub open spec fn answered(
    replies: Seq<HashedView>,
    candidates: Seq<PathView>,
    content: spec_fn(PathId) -> Seq<u8>,
    limit: nat,
    path: PathView,
) -> bool {
    candidates.contains(path) ==> replies.contains(
        HashedView::Hash(path, blake3_digest(head(content(path.id()), limit))),
    )
}

/// Whether no path comes up twice among the files.
pub open spec fn distinct_files(entries: Seq<EntryView>) -> bool {
    forall|i: int, j: int|
        0 <= i < j < entries.len() && #[trigger] entries[i].kind == EntryKind::File
            && #[trigger] entries[j].kind == EntryKind::File ==> entries[i].path.id()
            != entries[j].path.id()
}

/// Two files with the same content end up in the same group if they could be read, whatever came
/// of the others.
pub proof fn law_duplicates_found(
    entries: Seq<EntryView>,
    content: spec_fn(PathId) -> Seq<u8>,
    heads: Seq<HashedView>,
    fulls: Seq<HashedView>,
    a: EntryView,
    b: EntryView,
)
    requires
        distinct_files(entries),
        entries.contains(a),
        entries.contains(b),
        a.kind == EntryKind::File,
        b.kind == EntryKind::File,
        a.path.id() != b.path.id(),
        a.size == content(a.path.id()).len(),
        b.size == content(b.path.id()).len(),
        content(a.path.id()) == content(b.path.id()),
        forall|path: PathView|
            path == a.path || path == b.path ==> #[trigger] answered(
                heads,
                same_size(entries),
                content,
                HEAD_BYTES as nat,
                path,
            ),
        forall|path: PathView|
            path == a.path || path == b.path ==> #[trigger] answered(
                fulls,
                same_head(entries, hashes_of(heads)),
                content,
                u64::MAX as nat,
                path,
            ),
    ensures
        exists|g: int|
            0 <= g < same_content(entries, hashes_of(fulls)).len() && (#[trigger] same_content(
                entries,
                hashes_of(fulls),
            )[g]).paths.contains(a.path) && same_content(
                entries,
                hashes_of(fulls),
            )[g].paths.contains(b.path),
{
    let files = files_of(entries);
    let is_file = |e: EntryView| e.kind == EntryKind::File;
    let i = choose|i: int| 0 <= i < entries.len() && entries[i] == a;
    let j = choose|j: int| 0 <= j < entries.len() && entries[j] == b;
    entries.lemma_filter_contains(is_file, i);
    entries.lemma_filter_contains(is_file, j);
    let fa = choose|k: int| 0 <= k < files.len() && files[k] == a;
    let fb = choose|k: int| 0 <= k < files.len() && files[k] == b;
    let keys = size_keys(files);
    assert(keys[fa] == keys[fb]);
    lemma_shared_holds(keys, fa, fb);
    lemma_picked(entry_paths(files), keys, fa);
    lemma_picked(entry_paths(files), keys, fb);

    let heads_in = hashes_of(heads);
    assert(answered(heads, same_size(entries), content, HEAD_BYTES as nat, a.path));
    assert(answered(heads, same_size(entries), content, HEAD_BYTES as nat, b.path));
    let ha = HashView { path: a.path, hash: blake3_digest(head(content(a.path.id()), HEAD_BYTES as nat)) };
    let hb = HashView { path: b.path, hash: blake3_digest(head(content(b.path.id()), HEAD_BYTES as nat)) };
    lemma_reply_counts(heads, HashedView::Hash(ha.path, ha.hash));
    lemma_reply_counts(heads, HashedView::Hash(hb.path, hb.hash));
    let pa = choose|k: int| 0 <= k < heads_in.len() && heads_in[k] == ha;
    let pb = choose|k: int| 0 <= k < heads_in.len() && heads_in[k] == hb;
    lemma_recorded_size(entries, i);
    lemma_recorded_size(entries, j);
    let keys = head_keys(entries, heads_in);
    assert(keys[pa] == keys[pb]);
    lemma_shared_holds(keys, pa, pb);
    lemma_picked(hash_paths(heads_in), keys, pa);
    lemma_picked(hash_paths(heads_in), keys, pb);

    let fulls_in = hashes_of(fulls);
    assert(answered(fulls, same_head(entries, heads_in), content, u64::MAX as nat, a.path));
    assert(answered(fulls, same_head(entries, heads_in), content, u64::MAX as nat, b.path));
    let wa = HashView { path: a.path, hash: blake3_digest(head(content(a.path.id()), u64::MAX as nat)) };
    let wb = HashView { path: b.path, hash: blake3_digest(head(content(b.path.id()), u64::MAX as nat)) };
    lemma_reply_counts(fulls, HashedView::Hash(wa.path, wa.hash));
    lemma_reply_counts(fulls, HashedView::Hash(wb.path, wb.hash));
    let qa = choose|k: int| 0 <= k < fulls_in.len() && fulls_in[k] == wa;
    let qb = choose|k: int| 0 <= k < fulls_in.len() && fulls_in[k] == wb;
    let keys = full_keys(fulls_in);
    assert(keys[qa] == keys[qb]);
    lemma_shared_holds(keys, qa, qb);
    let g = choose|g: int|
        0 <= g < shared(keys).len() && (#[trigger] shared(keys)[g]).contains(qa)
            && shared(keys)[g].contains(qb);
    let at = shared(keys)[g];
    let group = same_content(entries, fulls_in)[g];
    assert(group == group_at(entries, fulls_in, at));
    let ka = choose|k: int| 0 <= k < at.len() && at[k] == qa;
    let kb = choose|k: int| 0 <= k < at.len() && at[k] == qb;
    assert(group.paths[ka] == a.path);
    assert(group.paths[kb] == b.path);
}

proof fn lemma_shared_holds(keys: Seq<KeyView>, i: int, j: int)
    requires
        0 <= i < keys.len(),
        0 <= j < keys.len(),
        i != j,
        keys[i] == keys[j],
    ensures
        exists|g: int|
            0 <= g < shared(keys).len() && (#[trigger] shared(keys)[g]).contains(i)
                && shared(keys)[g].contains(j),
{
    let key = keys[i];
    let several = |g: Seq<int>| g.len() >= 2;
    lemma_first_seen(keys);
    lemma_positions(keys, key);
    assert(keys.contains(key));
    let seen = first_seen(keys);
    assert(seen.contains(key));
    let m = choose|m: int| 0 <= m < seen.len() && seen[m] == key;
    let at = positions(keys, key);
    assert(grouped(keys)[m] == at);
    assert(at.contains(i) && at.contains(j));
    let x = choose|x: int| 0 <= x < at.len() && at[x] == i;
    let y = choose|y: int| 0 <= y < at.len() && at[y] == j;
    assert(x != y);
    grouped(keys).lemma_filter_contains(several, m);
    let g = choose|g: int| 0 <= g < shared(keys).len() && shared(keys)[g] == at;
    assert(shared(keys)[g].contains(i));
}

/// A path at a position of a shared group is picked.
proof fn lemma_picked(paths: Seq<PathView>, keys: Seq<KeyView>, i: int)
    requires
        0 <= i < paths.len(),
        exists|g: int|
            0 <= g < shared(keys).len() && (#[trigger] shared(keys)[g]).contains(i),
    ensures
        paths_at(paths, shared(keys).flatten()).contains(paths[i]),
{
    let g = choose|g: int|
        0 <= g < shared(keys).len() && (#[trigger] shared(keys)[g]).contains(i);
    lemma_flatten_holds(shared(keys), g, i);
    let flat = shared(keys).flatten();
    let k = choose|k: int| 0 <= k < flat.len() && flat[k] == i;
    assert(paths_at(paths, flat)[k] == paths[i]);
}

proof fn lemma_flatten_holds<A>(s: Seq<Seq<A>>, g: int, x: A)
    requires
        0 <= g < s.len(),
        s[g].contains(x),
    ensures
        s.flatten().contains(x),
    decreases s.len(),
{
    let rest = s.drop_first().flatten();
    if g == 0 {
        let k = choose|k: int| 0 <= k < s[0].len() && s[0][k] == x;
        assert(s.flatten()[k] == x);
    } else {
        assert(s.drop_first()[g - 1] == s[g]);
        lemma_flatten_holds(s.drop_first(), g - 1, x);
        let k = choose|k: int| 0 <= k < rest.len() && rest[k] == x;
        assert(s.flatten()[s[0].len() + k] == x);
    }
}

proof fn lemma_reply_counts(replies: Seq<HashedView>, reply: HashedView)
    requires
        replies.contains(reply),
        reply is Hash,
    ensures
        hashes_of(replies).contains(HashView { path: reply->Hash_0, hash: reply->Hash_1 }),
    decreases replies.len(),
{
    reveal(Seq::filter_map);
    let good = |r: HashedView| hash_in(r);
    let wanted = HashView { path: reply->Hash_0, hash: reply->Hash_1 };
    let i = choose|i: int| 0 <= i < replies.len() && replies[i] == reply;
    let rest = replies.drop_last();
    if i < rest.len() {
        assert(rest[i] == reply);
        lemma_reply_counts(rest, reply);
        let k = choose|k: int| 0 <= k < hashes_of(rest).len() && hashes_of(rest)[k] == wanted;
        assert(hashes_of(replies)[k] == wanted);
    } else {
        assert(hashes_of(replies).last() == wanted);
    }
}

proof fn lemma_recorded_size(entries: Seq<EntryView>, i: int)
    requires
        distinct_files(entries),
        0 <= i < entries.len(),
        entries[i].kind == EntryKind::File,
    ensures
        recorded_size(entries, entries[i].path.id()) == entries[i].size,
    decreases entries.len(),
{
    let rest = entries.drop_last();
    if i < rest.len() {
        assert(distinct_files(rest)) by {
            assert forall|x: int, y: int|
                0 <= x < y < rest.len() && #[trigger] rest[x].kind == EntryKind::File
                    && #[trigger] rest[y].kind == EntryKind::File implies rest[x].path.id()
                != rest[y].path.id() by {
                assert(entries[x].kind == EntryKind::File && entries[y].kind == EntryKind::File);
            }
        }
        assert(rest[i] == entries[i]);
        if entries.last().kind == EntryKind::File {
            assert(entries[i].path.id() != entries[entries.len() - 1].path.id());
        }
        lemma_recorded_size(rest, i);
    }
}

/// The file that a warning is about.
pub open spec fn warned_path(warning: ErrorView) -> Option<PathView> {
    match warning {
        ErrorView::Io { path, source } => Some(path),
        ErrorView::Tui(source) => None,
    }
}

/// The file that a reply is about.
pub open spec fn reply_path(reply: HashedView) -> Option<PathView> {
    match reply {
        HashedView::Hash(path, hash) => Some(path),
        HashedView::Failed(error) => warned_path(error),
    }
}

/// Whether replies answer for each file that was asked for once, in any order.
pub open spec fn answers_each(replies: Seq<HashedView>, asked: Seq<PathView>) -> bool {
    replies.map_values(|r: HashedView| reply_path(r)).to_multiset() == asked.map_values(
        |p: PathView| Some(p),
    ).to_multiset()
}

/// Where each file that was asked for is answered for once, every warning is about a file that
/// shares its size with another one, no file is warned of twice, and none that is warned of
/// stands in a group.
pub proof fn law_warnings_are_about_candidates(
    entries: Seq<EntryView>,
    heads: Seq<HashedView>,
    fulls: Seq<HashedView>,
)
    requires
        distinct_files(entries),
        answers_each(heads, same_size(entries)),
        answers_each(fulls, same_head(entries, hashes_of(heads))),
    ensures
        ({
            let warnings = failures_of(heads) + failures_of(fulls);
            let groups = same_content(entries, hashes_of(fulls));
            &&& dedup_step(entries, DedupEventView::FullsHashed(fulls, failures_of(heads)))
                == DedupTaskView::Done(groups, warnings)
            &&& forall|w: int|
                0 <= w < warnings.len() ==> warned_path(#[trigger] warnings[w]) is Some
                    && same_size(entries).contains(warned_path(warnings[w])->0) && exists|
                    i: int,
                    j: int,
                |
                    0 <= i < files_of(entries).len() && 0 <= j < files_of(entries).len() && i != j
                        && #[trigger] files_of(entries)[i].path == warned_path(warnings[w])->0
                        && files_of(entries)[i].size == (#[trigger] files_of(entries)[j]).size
            &&& forall|v: int, w: int|
                0 <= v < w < warnings.len() ==> warned_path(#[trigger] warnings[v])->0.id()
                    != warned_path(#[trigger] warnings[w])->0.id()
            &&& forall|w: int, g: int, k: int|
                0 <= w < warnings.len() && 0 <= g < groups.len() && 0 <= k
                    < groups[g].paths.len() ==> #[trigger] groups[g].paths[k].id() != warned_path(
                    #[trigger] warnings[w],
                )->0.id()
        }),
{
    let hashes = hashes_of(heads);
    let early = failures_of(heads);
    let late = failures_of(fulls);
    let warnings = early + late;
    let groups = same_content(entries, hashes_of(fulls));
    let first = same_size(entries);
    let second = same_head(entries, hashes);
    lemma_same_size_differ(entries);
    lemma_replies_differ(heads, first);
    lemma_same_head_differ(entries, hashes);
    lemma_replies_differ(fulls, second);
    assert forall|p: PathView| #[trigger] second.contains(p) implies hash_paths(hashes).contains(
        p,
    ) by {
        let (i, j) = lemma_picked_from(hash_paths(hashes), head_keys(entries, hashes), p);
    }
    assert forall|w: int| 0 <= w < warnings.len() implies warned_path(#[trigger] warnings[w]) is Some
        && first.contains(warned_path(warnings[w])->0) by {
        if w < early.len() {
            assert(warnings[w] == early[w]);
        } else {
            assert(warnings[w] == late[w - early.len()]);
            let p = warned_path(warnings[w])->0;
            assert(second.contains(p));
            let k = choose|k: int| 0 <= k < hash_paths(hashes).len() && hash_paths(hashes)[k] == p;
            assert(hashes[k].path == p);
        }
    }
    assert forall|w: int| 0 <= w < warnings.len() implies exists|i: int, j: int|
        0 <= i < files_of(entries).len() && 0 <= j < files_of(entries).len() && i != j
            && #[trigger] files_of(entries)[i].path == warned_path(#[trigger] warnings[w])->0
            && files_of(entries)[i].size == (#[trigger] files_of(entries)[j]).size by {
        law_only_same_size_is_read(entries, warned_path(warnings[w])->0);
    }
    assert forall|v: int, w: int| 0 <= v < w < warnings.len() implies warned_path(
        #[trigger] warnings[v],
    )->0.id() != warned_path(#[trigger] warnings[w])->0.id() by {
        if w < early.len() {
            assert(warnings[v] == early[v] && warnings[w] == early[w]);
        } else if v >= early.len() {
            assert(warnings[v] == late[v - early.len()] && warnings[w] == late[w - early.len()]);
        } else {
            assert(warnings[v] == early[v] && warnings[w] == late[w - early.len()]);
            let p = warned_path(warnings[w])->0;
            assert(second.contains(p));
            let k = choose|k: int| 0 <= k < hash_paths(hashes).len() && hash_paths(hashes)[k] == p;
            assert(hashes[k].path == p);
        }
    }
    assert forall|w: int, g: int, k: int|
        0 <= w < warnings.len() && 0 <= g < groups.len() && 0 <= k
            < groups[g].paths.len() implies #[trigger] groups[g].paths[k].id() != warned_path(
        #[trigger] warnings[w],
    )->0.id() by {
        let whole = hashes_of(fulls);
        law_groups_share_a_hash(entries, whole, g);
        let pair = HashView { path: groups[g].paths[k], hash: groups[g].hash };
        assert(same_content(entries, whole)[g].paths[k] == pair.path);
        assert(whole.contains(pair));
        let m = choose|m: int| 0 <= m < whole.len() && whole[m] == pair;
        assert(whole[m].path == pair.path);
        if w < early.len() {
            assert(warnings[w] == early[w]);
            assert(second.contains(pair.path));
            let h = choose|h: int|
                0 <= h < hash_paths(hashes).len() && hash_paths(hashes)[h] == pair.path;
            assert(hashes[h].path == pair.path);
        } else {
            assert(warnings[w] == late[w - early.len()]);
        }
    }
}

/// Where each file that was asked for is answered for once, no file stands in two groups or twice
/// in one, and no two groups have the same hash.
pub proof fn law_groups_are_apart(
    entries: Seq<EntryView>,
    heads: Seq<HashedView>,
    fulls: Seq<HashedView>,
)
    requires
        distinct_files(entries),
        answers_each(heads, same_size(entries)),
        answers_each(fulls, same_head(entries, hashes_of(heads))),
    ensures
        ({
            let groups = same_content(entries, hashes_of(fulls));
            &&& forall|g: int, h: int, i: int, j: int|
                0 <= g < groups.len() && 0 <= h < groups.len() && 0 <= i < groups[g].paths.len()
                    && 0 <= j < groups[h].paths.len() && (g != h || i != j)
                    ==> #[trigger] groups[g].paths[i].id() != #[trigger] groups[h].paths[j].id()
            &&& forall|g: int, h: int|
                0 <= g < h < groups.len() ==> (#[trigger] groups[g]).hash != (
                #[trigger] groups[h]).hash
        }),
{
    let hashes = hashes_of(fulls);
    let keys = full_keys(hashes);
    let paths = hash_paths(hashes);
    let groups = same_content(entries, hashes);
    lemma_same_size_differ(entries);
    lemma_replies_differ(heads, same_size(entries));
    lemma_same_head_differ(entries, hashes_of(heads));
    lemma_replies_differ(fulls, same_head(entries, hashes_of(heads)));
    lemma_shared_positions(keys);
    assert forall|g: int, h: int, i: int, j: int|
        0 <= g < groups.len() && 0 <= h < groups.len() && 0 <= i < groups[g].paths.len() && 0 <= j
            < groups[h].paths.len() && (g != h || i != j) implies #[trigger] groups[g].paths[i].id()
        != #[trigger] groups[h].paths[j].id() by {
        lemma_shared_within(keys, g);
        lemma_shared_within(keys, h);
        let a = shared(keys)[g][i];
        let b = shared(keys)[h][j];
        assert(groups[g] == group_at(entries, hashes, shared(keys)[g]));
        assert(groups[h] == group_at(entries, hashes, shared(keys)[h]));
        assert(groups[g].paths[i] == paths[a] && groups[h].paths[j] == paths[b]);
        assert(shared(keys)[g].contains(a) && shared(keys)[h].contains(b));
        assert(a != b);
        if a < b {
            assert(paths[a].id() != paths[b].id());
        } else {
            assert(paths[b].id() != paths[a].id());
        }
    }
    assert forall|g: int, h: int| 0 <= g < h < groups.len() implies (#[trigger] groups[g]).hash != (
    #[trigger] groups[h]).hash by {
        law_groups_share_a_hash(entries, hashes, g);
    }
}

/// The size of a group is that of each of its files, where files of one hash have one size.
pub proof fn law_group_size_is_that_of_each_file(
    entries: Seq<EntryView>,
    hashes: Seq<HashView>,
    g: int,
    i: int,
)
    requires
        forall|a: int, b: int|
            0 <= a < hashes.len() && 0 <= b < hashes.len() && (#[trigger] hashes[a]).hash == (
            #[trigger] hashes[b]).hash ==> recorded_size(entries, hashes[a].path.id())
                == recorded_size(entries, hashes[b].path.id()),
        0 <= g < same_content(entries, hashes).len(),
        0 <= i < same_content(entries, hashes)[g].paths.len(),
    ensures
        same_content(entries, hashes)[g].size == recorded_size(
            entries,
            same_content(entries, hashes)[g].paths[i].id(),
        ),
{
    let keys = full_keys(hashes);
    lemma_shared_within(keys, g);
    let at = shared(keys)[g];
    assert(same_content(entries, hashes)[g] == group_at(entries, hashes, at));
    assert(keys[at[0]] == keys[at[i]]);
    assert(hashes[at[0]].hash == hashes[at[i]].hash);
}

/// Whether no two paths are the same.
spec fn paths_differ(paths: Seq<PathView>) -> bool {
    forall|i: int, j: int|
        0 <= i < j < paths.len() ==> (#[trigger] paths[i]).id() != (#[trigger] paths[j]).id()
}

/// The hashes and the warnings among replies that answer for different files once each.
proof fn lemma_replies_differ(replies: Seq<HashedView>, asked: Seq<PathView>)
    requires
        answers_each(replies, asked),
        paths_differ(asked),
    ensures
        forall|i: int|
            0 <= i < hashes_of(replies).len() ==> asked.contains(
                (#[trigger] hashes_of(replies)[i]).path,
            ),
        forall|i: int|
            0 <= i < failures_of(replies).len() ==> warned_path(
                #[trigger] failures_of(replies)[i],
            ) is Some && asked.contains(warned_path(failures_of(replies)[i])->0),
        paths_differ(hash_paths(hashes_of(replies))),
        forall|i: int, j: int|
            0 <= i < j < failures_of(replies).len() ==> warned_path(
                #[trigger] failures_of(replies)[i],
            )->0.id() != warned_path(#[trigger] failures_of(replies)[j])->0.id(),
        forall|i: int, j: int|
            0 <= i < hashes_of(replies).len() && 0 <= j < failures_of(replies).len() ==> (
            #[trigger] hashes_of(replies)[i]).path.id() != warned_path(
                #[trigger] failures_of(replies)[j],
            )->0.id(),
{
    let good = |r: HashedView| hash_in(r);
    let bad = |r: HashedView| failure_in(r);
    let hashes = hashes_of(replies);
    let failures = failures_of(replies);
    lemma_answers_differ(replies, asked);
    assert forall|i: int| 0 <= i < hashes.len() implies asked.contains(
        (#[trigger] hashes[i]).path,
    ) by {
        let a = lemma_reply_of(replies, good, i);
        assert(reply_path(replies[a]) == Some(hashes[i].path));
    }
    assert forall|i: int| 0 <= i < failures.len() implies warned_path(
        #[trigger] failures[i],
    ) is Some && asked.contains(warned_path(failures[i])->0) by {
        let a = lemma_reply_of(replies, bad, i);
        assert(reply_path(replies[a]) == warned_path(failures[i]));
    }
    assert forall|i: int, j: int| 0 <= i < j < hash_paths(hashes).len() implies (
    #[trigger] hash_paths(hashes)[i]).id() != (#[trigger] hash_paths(hashes)[j]).id() by {
        let (a, b) = lemma_filter_map_apart(replies, good, i, j);
        assert(reply_path(replies[a]) == Some(hashes[i].path));
        assert(reply_path(replies[b]) == Some(hashes[j].path));
    }
    assert forall|i: int, j: int| 0 <= i < j < failures.len() implies warned_path(
        #[trigger] failures[i],
    )->0.id() != warned_path(#[trigger] failures[j])->0.id() by {
        let (a, b) = lemma_filter_map_apart(replies, bad, i, j);
        assert(reply_path(replies[a]) == warned_path(failures[i]));
        assert(reply_path(replies[b]) == warned_path(failures[j]));
    }
    assert forall|i: int, j: int| 0 <= i < hashes.len() && 0 <= j < failures.len() implies (
    #[trigger] hashes[i]).path.id() != warned_path(#[trigger] failures[j])->0.id() by {
        let a = lemma_reply_of(replies, good, i);
        let b = lemma_reply_of(replies, bad, j);
        assert(reply_path(replies[a]) == Some(hashes[i].path));
        assert(reply_path(replies[b]) == warned_path(failures[j]));
        assert(a != b);
    }
}

/// The reply that a hash or a warning comes from.
proof fn lemma_reply_of<B>(
    replies: Seq<HashedView>,
    f: spec_fn(HashedView) -> Option<B>,
    i: int,
) -> (a: int)
    requires
        0 <= i < replies.filter_map(f).len(),
    ensures
        0 <= a < replies.len(),
        f(replies[a]) == Some(replies.filter_map(f)[i]),
{
    let all = replies.filter_map(f);
    assert(all.contains(all[i]));
    replies.lemma_filter_map_contains(f, all[i]);
    let r = choose|r: HashedView| #[trigger] replies.contains(r) && f(r) == Some(all[i]);
    choose|a: int| 0 <= a < replies.len() && replies[a] == r
}

/// Replies that answer for different files once each are about different files.
proof fn lemma_answers_differ(replies: Seq<HashedView>, asked: Seq<PathView>)
    requires
        answers_each(replies, asked),
        paths_differ(asked),
    ensures
        forall|i: int|
            0 <= i < replies.len() ==> reply_path(#[trigger] replies[i]) is Some && asked.contains(
                reply_path(replies[i])->0,
            ),
        forall|i: int, j: int|
            0 <= i < replies.len() && 0 <= j < replies.len() && i != j ==> reply_path(
                #[trigger] replies[i],
            )->0.id() != reply_path(#[trigger] replies[j])->0.id(),
{
    let given = replies.map_values(|r: HashedView| reply_path(r));
    let wanted = asked.map_values(|p: PathView| Some(p));
    assert(wanted.no_duplicates()) by {
        assert forall|i: int, j: int| 0 <= i < j < wanted.len() implies wanted[i] != wanted[j] by {
            assert(asked[i].id() != asked[j].id());
        }
    }
    wanted.lemma_multiset_has_no_duplicates();
    given.lemma_multiset_has_no_duplicates_conv();
    assert forall|i: int| 0 <= i < replies.len() implies reply_path(#[trigger] replies[i]) is Some
        && asked.contains(reply_path(replies[i])->0) by {
        lemma_rearranged_holds(given, wanted, i);
        let a = choose|a: int| 0 <= a < wanted.len() && wanted[a] == given[i];
        assert(asked[a] == reply_path(replies[i])->0);
    }
    assert forall|i: int, j: int|
        0 <= i < replies.len() && 0 <= j < replies.len() && i != j implies reply_path(
        #[trigger] replies[i],
    )->0.id() != reply_path(#[trigger] replies[j])->0.id() by {
        lemma_rearranged_holds(given, wanted, i);
        lemma_rearranged_holds(given, wanted, j);
        let a = choose|a: int| 0 <= a < wanted.len() && wanted[a] == given[i];
        let b = choose|b: int| 0 <= b < wanted.len() && wanted[b] == given[j];
        assert(given[i] != given[j]);
        assert(asked[a] == reply_path(replies[i])->0 && asked[b] == reply_path(replies[j])->0);
        if a < b {
            assert(asked[a].id() != asked[b].id());
        } else {
            assert(asked[b].id() != asked[a].id());
        }
    }
}

/// Groups of positions hold each position once.
proof fn lemma_shared_positions(keys: Seq<KeyView>)
    ensures
        forall|g: int| 0 <= g < shared(keys).len() ==> (#[trigger] shared(keys)[g]).no_duplicates(),
        forall|g: int, h: int, x: int|
            0 <= g < shared(keys).len() && 0 <= h < shared(keys).len() && g != h
                && #[trigger] shared(keys)[g].contains(x) ==> !#[trigger] shared(keys)[h].contains(
                x,
            ),
{
    let groups = shared(keys);
    assert forall|g: int| 0 <= g < groups.len() implies (#[trigger] groups[g]).no_duplicates() by {
        lemma_shared_within(keys, g);
        let k = choose|k: int|
            0 <= k < first_seen(keys).len() && groups[g] == #[trigger] positions(
                keys,
                first_seen(keys)[k],
            );
        lemma_positions(keys, first_seen(keys)[k]);
        assert forall|i: int, j: int| 0 <= i < j < groups[g].len() implies groups[g][i]
            != groups[g][j] by {
            assert(positions(keys, first_seen(keys)[k])[i] < positions(
                keys,
                first_seen(keys)[k],
            )[j]);
        }
    }
    assert forall|g: int, h: int, x: int|
        0 <= g < groups.len() && 0 <= h < groups.len() && g != h && #[trigger] groups[g].contains(
            x,
        ) implies !#[trigger] groups[h].contains(x) by {
        if groups[h].contains(x) {
            lemma_shared_within(keys, g);
            lemma_shared_within(keys, h);
            let a = choose|a: int| 0 <= a < groups[g].len() && groups[g][a] == x;
            let b = choose|b: int| 0 <= b < groups[h].len() && groups[h][b] == x;
            assert(keys[groups[g][a]] == keys[groups[g][0]]);
            assert(keys[groups[h][b]] == keys[groups[h][0]]);
            lemma_shared_apart(keys, g, h);
        }
    }
}

/// Picking from different paths gives different paths.
proof fn lemma_picked_differ(paths: Seq<PathView>, keys: Seq<KeyView>)
    requires
        keys.len() == paths.len(),
        paths_differ(paths),
    ensures
        paths_differ(paths_at(paths, shared(keys).flatten())),
{
    let groups = shared(keys);
    let flat = groups.flatten();
    lemma_shared_positions(keys);
    lemma_flatten_distinct(groups);
    let picked = paths_at(paths, flat);
    assert forall|i: int| 0 <= i < flat.len() implies 0 <= #[trigger] flat[i] < paths.len() by {
        assert(flat.contains(flat[i]));
        let g = lemma_flatten_from(groups, flat[i]);
        lemma_shared_within(keys, g);
        let m = choose|m: int| 0 <= m < groups[g].len() && groups[g][m] == flat[i];
        assert(0 <= groups[g][m] < keys.len());
    }
    assert forall|i: int, j: int| 0 <= i < j < picked.len() implies (#[trigger] picked[i]).id() != (
    #[trigger] picked[j]).id() by {
        let a = flat[i];
        let b = flat[j];
        assert(a != b);
        if a < b {
            assert(paths[a].id() != paths[b].id());
        } else {
            assert(paths[b].id() != paths[a].id());
        }
    }
}

proof fn lemma_flatten_distinct<A>(s: Seq<Seq<A>>)
    requires
        forall|g: int| 0 <= g < s.len() ==> (#[trigger] s[g]).no_duplicates(),
        forall|g: int, h: int, x: A|
            0 <= g < s.len() && 0 <= h < s.len() && g != h && #[trigger] s[g].contains(x)
                ==> !#[trigger] s[h].contains(x),
    ensures
        s.flatten().no_duplicates(),
    decreases s.len(),
{
    if s.len() > 0 {
        let rest = s.drop_first();
        assert forall|g: int| 0 <= g < rest.len() implies (#[trigger] rest[g]).no_duplicates() by {
            assert(rest[g] == s[g + 1]);
        }
        assert forall|g: int, h: int, x: A|
            0 <= g < rest.len() && 0 <= h < rest.len() && g != h && #[trigger] rest[g].contains(
                x,
            ) implies !#[trigger] rest[h].contains(x) by {
            assert(s[g + 1].contains(x));
            assert(rest[h] == s[h + 1]);
        }
        lemma_flatten_distinct(rest);
        let head = s[0];
        let tail = rest.flatten();
        let all = s.flatten();
        assert(all == head + tail);
        assert forall|i: int, j: int| 0 <= i < j < all.len() implies all[i] != all[j] by {
            if j < head.len() {
                assert(s[0].no_duplicates());
                assert(head[i] != head[j]);
            } else if i >= head.len() {
                assert(tail[i - head.len()] != tail[j - head.len()]);
            } else {
                let x = all[j];
                assert(tail[j - head.len()] == x);
                assert(tail.contains(x));
                let g = lemma_flatten_from(rest, x);
                assert(s[g + 1].contains(x));
                if all[i] == x {
                    assert(head[i] == x);
                    assert(s[0].contains(x));
                }
            }
        }
    }
}

proof fn lemma_same_size_differ(entries: Seq<EntryView>)
    requires
        distinct_files(entries),
    ensures
        paths_differ(same_size(entries)),
{
    let files = files_of(entries);
    let is_file = |e: EntryView| e.kind == EntryKind::File;
    let paths = entry_paths(files);
    assert forall|i: int, j: int| 0 <= i < j < paths.len() implies (#[trigger] paths[i]).id() != (
    #[trigger] paths[j]).id() by {
        lemma_filter_positions(entries, is_file, i, j);
        let (a, b) = choose|a: int, b: int|
            0 <= a < b < entries.len() && #[trigger] entries[a] == files[i]
                && #[trigger] entries[b] == files[j];
        entries.lemma_filter_pred(is_file, i);
        entries.lemma_filter_pred(is_file, j);
        assert(entries[a].kind == EntryKind::File && entries[b].kind == EntryKind::File);
    }
    lemma_picked_differ(paths, size_keys(files));
}

proof fn lemma_same_head_differ(entries: Seq<EntryView>, hashes: Seq<HashView>)
    requires
        paths_differ(hash_paths(hashes)),
    ensures
        paths_differ(same_head(entries, hashes)),
{
    lemma_picked_differ(hash_paths(hashes), head_keys(entries, hashes));
}

/// The search begins with the files that share their size: the first 4096 bytes of a file are asked
/// for if and only if there is another file of the same size. No file is asked for twice.
pub proof fn law_first_task(entries: Seq<EntryView>, path: PathView)
    ensures
        ({
            let task = dedup_step(entries, DedupEventView::Begin);
            &&& task is HashHeads
            &&& task.limit() == 4096
            &&& task->HashHeads_0.contains(path) <==> exists|i: int, j: int|
                0 <= i < entries.len() && 0 <= j < entries.len() && i != j
                    && #[trigger] entries[i].kind == EntryKind::File
                    && #[trigger] entries[j].kind == EntryKind::File && entries[i].size
                    == entries[j].size && entries[i].path == path
            &&& distinct_files(entries) ==> forall|i: int, j: int|
                0 <= i < j < task->HashHeads_0.len() ==> (#[trigger] task->HashHeads_0[i]).id() != (
                #[trigger] task->HashHeads_0[j]).id()
        }),
{
    let files = files_of(entries);
    let is_file = |e: EntryView| e.kind == EntryKind::File;
    let keys = size_keys(files);
    if same_size(entries).contains(path) {
        law_only_same_size_is_read(entries, path);
        let (a, b) = choose|a: int, b: int|
            0 <= a < files.len() && 0 <= b < files.len() && a != b && #[trigger] files[a].path
                == path && files[a].size == (#[trigger] files[b]).size;
        entries.lemma_filter_pred(is_file, a);
        entries.lemma_filter_pred(is_file, b);
        if a < b {
            lemma_filter_positions(entries, is_file, a, b);
        } else {
            lemma_filter_positions(entries, is_file, b, a);
        }
        let (i, j) = choose|i: int, j: int|
            0 <= i < entries.len() && 0 <= j < entries.len() && i != j && #[trigger] entries[i]
                == files[a] && #[trigger] entries[j] == files[b];
        assert(entries[i].kind == EntryKind::File && entries[j].kind == EntryKind::File);
    }
    if exists|i: int, j: int|
        0 <= i < entries.len() && 0 <= j < entries.len() && i != j && #[trigger] entries[i].kind
            == EntryKind::File && #[trigger] entries[j].kind == EntryKind::File && entries[i].size
            == entries[j].size && entries[i].path == path {
        let (i, j) = choose|i: int, j: int|
            0 <= i < entries.len() && 0 <= j < entries.len() && i != j && #[trigger] entries[i].kind
                == EntryKind::File && #[trigger] entries[j].kind == EntryKind::File
                && entries[i].size == entries[j].size && entries[i].path == path;
        let (a, b) = if i < j {
            lemma_filter_pair(entries, is_file, i, j)
        } else {
            let at = lemma_filter_pair(entries, is_file, j, i);
            (at.1, at.0)
        };
        assert(keys[a] == keys[b]);
        lemma_shared_holds(keys, a, b);
        lemma_picked(entry_paths(files), keys, a);
        assert(entry_paths(files)[a] == path);
    }
    if distinct_files(entries) {
        lemma_same_size_differ(entries);
    }
}

/// Then the files that also share the hash of their head are asked for as a whole: a file for which
/// a hash came back, if and only if another one of the same size came back with the same hash. What
/// could not be read is passed on as a warning.
pub proof fn law_second_task(entries: Seq<EntryView>, replies: Seq<HashedView>)
    requires
        distinct_files(entries),
    ensures
        ({
            let task = dedup_step(entries, DedupEventView::HeadsHashed(replies));
            &&& task is HashFulls
            &&& task.limit() == u64::MAX
            &&& forall|i: int, j: int, a: EntryView, b: EntryView|
                0 <= i < replies.len() && 0 <= j < replies.len() && i != j && #[trigger] alike(
                    replies[i],
                    a,
                    replies[j],
                    b,
                ) && entries.contains(a) && entries.contains(b)
                    ==> task->HashFulls_0.contains(replies[i]->Hash_0)
                    && task->HashFulls_0.contains(replies[j]->Hash_0)
            &&& forall|path: PathView| #[trigger]
                task->HashFulls_0.contains(path) ==> exists|i: int, j: int|
                    0 <= i < replies.len() && 0 <= j < replies.len() && i != j
                        && (#[trigger] replies[i]) is Hash && replies[i]->Hash_0 == path
                        && (#[trigger] replies[j]) is Hash && replies[i]->Hash_1
                        == replies[j]->Hash_1
            &&& task->HashFulls_1 == failures_of(replies)
        }),
{
    let hashes = hashes_of(replies);
    let keys = head_keys(entries, hashes);
    let good = |r: HashedView| hash_in(r);
    let asked = same_head(entries, hashes);
    assert forall|i: int, j: int, a: EntryView, b: EntryView|
        0 <= i < replies.len() && 0 <= j < replies.len() && i != j && #[trigger] alike(
            replies[i],
            a,
            replies[j],
            b,
        ) && entries.contains(a) && entries.contains(b) implies asked.contains(
        replies[i]->Hash_0,
    ) && asked.contains(replies[j]->Hash_0) by {
        let (x, y) = if i < j {
            lemma_filter_map_pair(replies, good, i, j)
        } else {
            let at = lemma_filter_map_pair(replies, good, j, i);
            (at.1, at.0)
        };
        let k = choose|k: int| 0 <= k < entries.len() && entries[k] == a;
        let m = choose|m: int| 0 <= m < entries.len() && entries[m] == b;
        lemma_recorded_size(entries, k);
        lemma_recorded_size(entries, m);
        assert(keys[x] == keys[y]);
        lemma_shared_holds(keys, x, y);
        lemma_picked(hash_paths(hashes), keys, x);
        lemma_picked(hash_paths(hashes), keys, y);
    }
    assert forall|path: PathView| #[trigger] asked.contains(path) implies exists|i: int, j: int|
        0 <= i < replies.len() && 0 <= j < replies.len() && i != j && (
        #[trigger] replies[i]) is Hash && replies[i]->Hash_0 == path && (
        #[trigger] replies[j]) is Hash && replies[i]->Hash_1 == replies[j]->Hash_1 by {
        let (x, y) = lemma_picked_from(hash_paths(hashes), keys, path);
        assert(keys[x] == keys[y]);
        let (i, j) = if x < y {
            lemma_filter_map_apart(replies, good, x, y)
        } else {
            let at = lemma_filter_map_apart(replies, good, y, x);
            (at.1, at.0)
        };
        assert(good(replies[i]) == Some(hashes[x]) && good(replies[j]) == Some(hashes[y]));
        assert(replies[i] is Hash && replies[j] is Hash);
    }
}

/// Whether two replies came back with the same hash, for two files of the same size.
pub open spec fn alike(x: HashedView, a: EntryView, y: HashedView, b: EntryView) -> bool {
    &&& x is Hash
    &&& y is Hash
    &&& x->Hash_1 == y->Hash_1
    &&& x->Hash_0.id() == a.path.id()
    &&& y->Hash_0.id() == b.path.id()
    &&& a.kind == EntryKind::File
    &&& b.kind == EntryKind::File
    &&& a.size == b.size
}

/// What came back is taken apart reply by reply, in order: a file that could not be read gives a
/// warning, and one that could gives none.
pub proof fn law_replies_are_taken_apart(
    replies: Seq<HashedView>,
    path: PathView,
    hash: Seq<u8>,
    error: ErrorView,
)
    ensures
        failures_of(Seq::empty()).len() == 0,
        failures_of(replies.push(HashedView::Failed(error))) == failures_of(replies).push(error),
        failures_of(replies.push(HashedView::Hash(path, hash))) == failures_of(replies),
        hashes_of(Seq::empty()).len() == 0,
        hashes_of(replies.push(HashedView::Failed(error))) == hashes_of(replies),
        hashes_of(replies.push(HashedView::Hash(path, hash))) == hashes_of(replies).push(
            HashView { path, hash },
        ),
{
    reveal(Seq::filter_map);
    assert(replies.push(HashedView::Failed(error)).drop_last() =~= replies);
    assert(replies.push(HashedView::Hash(path, hash)).drop_last() =~= replies);
}

/// The paths for which a hash came back, in order.
pub open spec fn paths_with(replies: Seq<HashedView>, hash: Seq<u8>) -> Seq<PathView> {
    replies.filter_map(
        |r: HashedView|
            match r {
                HashedView::Hash(path, h) => if h == hash {
                    Some(path)
                } else {
                    None
                },
                HashedView::Failed(error) => None,
            },
    )
}

/// Whether there is a group of this hash.
pub open spec fn has_group(groups: Seq<GroupView>, hash: Seq<u8>) -> bool {
    exists|g: int| 0 <= g < groups.len() && (#[trigger] groups[g]).hash == hash
}

/// At last the files are grouped by the hash of their content: each hash that came back for several
/// files makes one group, of all files that it came back for, in order, with the size of the first
/// one. The warnings are those before and those of the last reading.
pub proof fn law_last_task(
    entries: Seq<EntryView>,
    replies: Seq<HashedView>,
    warnings: Seq<ErrorView>,
)
    ensures
        ({
            let task = dedup_step(entries, DedupEventView::FullsHashed(replies, warnings));
            &&& task is Done
            &&& task.limit() == 0
            &&& forall|hash: Seq<u8>|
                (#[trigger] paths_with(replies, hash)).len() >= 2 ==> has_group(task->Done_0, hash)
            &&& forall|g: int|
                0 <= g < task->Done_0.len() ==> (#[trigger] task->Done_0[g]).paths == paths_with(
                    replies,
                    task->Done_0[g].hash,
                ) && task->Done_0[g].paths.len() >= 2
            &&& forall|g: int, h: int|
                0 <= g < h < task->Done_0.len() ==> (#[trigger] task->Done_0[g]).hash != (
                #[trigger] task->Done_0[h]).hash
            &&& distinct_files(entries) ==> forall|g: int, e: EntryView|
                0 <= g < task->Done_0.len() && #[trigger] entries.contains(e) && e.kind
                    == EntryKind::File && e.path.id() == (
                #[trigger] task->Done_0[g]).paths[0].id() ==> task->Done_0[g].size == e.size
            &&& task->Done_1 == warnings + failures_of(replies)
        }),
{
    let hashes = hashes_of(replies);
    let keys = full_keys(hashes);
    let groups = same_content(entries, hashes);
    assert forall|g: int| 0 <= g < groups.len() implies (#[trigger] groups[g]).paths == paths_with(
        replies,
        groups[g].hash,
    ) && groups[g].paths.len() >= 2 by {
        lemma_shared_within(keys, g);
        let at = shared(keys)[g];
        let k = choose|k: int|
            0 <= k < first_seen(keys).len() && at == #[trigger] positions(
                keys,
                first_seen(keys)[k],
            );
        let key = first_seen(keys)[k];
        lemma_positions(keys, key);
        assert(keys[at[0]] == key);
        assert(groups[g] == group_at(entries, hashes, at));
        lemma_paths_with(replies, key);
    }
    assert forall|hash: Seq<u8>| (#[trigger] paths_with(replies, hash)).len()
        >= 2 implies has_group(groups, hash) by {
        let key = KeyView { size: 0, hash };
        lemma_paths_with(replies, key);
        let at = positions(keys, key);
        lemma_positions(keys, key);
        assert(at[0] < at[1]);
        assert(keys[at[0]] == keys[at[1]]);
        lemma_shared_holds(keys, at[0], at[1]);
        let g = choose|g: int|
            0 <= g < shared(keys).len() && (#[trigger] shared(keys)[g]).contains(at[0])
                && shared(keys)[g].contains(at[1]);
        lemma_shared_within(keys, g);
        let m = choose|m: int| 0 <= m < shared(keys)[g].len() && shared(keys)[g][m] == at[0];
        assert(keys[shared(keys)[g][m]] == keys[shared(keys)[g][0]]);
        assert(groups[g] == group_at(entries, hashes, shared(keys)[g]));
        assert(groups[g].hash == hash);
    }
    assert forall|g: int, h: int| 0 <= g < h < groups.len() implies (#[trigger] groups[g]).hash != (
    #[trigger] groups[h]).hash by {
        law_groups_share_a_hash(entries, hashes, g);
    }
    if distinct_files(entries) {
        assert forall|g: int, e: EntryView|
            0 <= g < groups.len() && #[trigger] entries.contains(e) && e.kind == EntryKind::File
                && e.path.id() == (#[trigger] groups[g]).paths[0].id() implies groups[g].size
            == e.size by {
            let i = choose|i: int| 0 <= i < entries.len() && entries[i] == e;
            lemma_recorded_size(entries, i);
            lemma_shared_within(keys, g);
            assert(groups[g] == group_at(entries, hashes, shared(keys)[g]));
        }
    }
}

/// The paths at the positions of a hash are those for which it came back.
proof fn lemma_paths_with(replies: Seq<HashedView>, key: KeyView)
    requires
        key.size == 0,
    ensures
        paths_at(
            hash_paths(hashes_of(replies)),
            positions(full_keys(hashes_of(replies)), key),
        ) == paths_with(replies, key.hash),
    decreases replies.len(),
{
    reveal(Seq::filter_map);
    let hashes = hashes_of(replies);
    let keys = full_keys(hashes);
    if replies.len() == 0 {
        assert(paths_at(hash_paths(hashes), positions(keys, key)) =~= Seq::<PathView>::empty());
    } else {
        let rest = replies.drop_last();
        let before = hashes_of(rest);
        let at = positions(full_keys(before), key);
        lemma_paths_with(rest, key);
        lemma_positions(full_keys(before), key);
        match replies.last() {
            HashedView::Hash(path, hash) => {
                let one = HashView { path, hash };
                assert(hashes == before.push(one));
                assert(keys =~= full_keys(before).push(KeyView { size: 0, hash }));
                assert(keys.drop_last() =~= full_keys(before));
                assert(keys.last() == KeyView { size: 0, hash });
                assert forall|i: int| 0 <= i < at.len() implies hash_paths(hashes)[#[trigger] at[i]]
                    == hash_paths(before)[at[i]] by {
                    assert(0 <= at[i] < before.len());
                }
                assert(paths_at(hash_paths(hashes), at) =~= paths_at(hash_paths(before), at));
                if hash == key.hash {
                    let more = at.push(keys.len() - 1);
                    assert(positions(keys, key) == more);
                    assert(paths_at(hash_paths(hashes), more) =~= paths_at(
                        hash_paths(hashes),
                        at,
                    ).push(path));
                    assert(paths_with(replies, key.hash) =~= paths_with(rest, key.hash).push(path));
                } else {
                    assert(paths_with(replies, key.hash) =~= paths_with(rest, key.hash));
                }
            },
            HashedView::Failed(error) => {
                assert(hashes == before);
                assert(paths_with(replies, key.hash) =~= paths_with(rest, key.hash));
            },
        }
    }
}

/// Whether the replies to a task hold the hash of a file that was asked for, over as many bytes as
/// the task says.
pub open spec fn replied(
    task: DedupTaskView,
    replies: Seq<HashedView>,
    content: spec_fn(PathId) -> Seq<u8>,
    path: PathView,
) -> bool {
    let asked = match task {
        DedupTaskView::HashHeads(paths) => paths.contains(path),
        DedupTaskView::HashFulls(paths, warnings) => paths.contains(path),
        DedupTaskView::Done(groups, warnings) => false,
    };
    let n = if task.limit() < content(path.id()).len() {
        task.limit() as int
    } else {
        content(path.id()).len() as int
    };
    asked ==> replies.contains(HashedView::Hash(path, blake3_digest(content(path.id()).take(n))))
}

/// From the first task to the last: two files with the same content stand in one group of the
/// result, if what was asked of them was answered. Nothing is assumed of the other files.
pub proof fn law_copies_are_grouped(
    entries: Seq<EntryView>,
    content: spec_fn(PathId) -> Seq<u8>,
    heads: Seq<HashedView>,
    fulls: Seq<HashedView>,
    a: EntryView,
    b: EntryView,
)
    requires
        distinct_files(entries),
        entries.contains(a),
        entries.contains(b),
        a.kind == EntryKind::File,
        b.kind == EntryKind::File,
        a.path.id() != b.path.id(),
        a.size == content(a.path.id()).len(),
        b.size == content(b.path.id()).len(),
        content(a.path.id()) == content(b.path.id()),
        replied(dedup_step(entries, DedupEventView::Begin), heads, content, a.path),
        replied(dedup_step(entries, DedupEventView::Begin), heads, content, b.path),
        replied(dedup_step(entries, DedupEventView::HeadsHashed(heads)), fulls, content, a.path),
        replied(dedup_step(entries, DedupEventView::HeadsHashed(heads)), fulls, content, b.path),
    ensures
        ({
            let second = dedup_step(entries, DedupEventView::HeadsHashed(heads));
            let last = dedup_step(
                entries,
                DedupEventView::FullsHashed(fulls, second->HashFulls_1),
            );
            &&& dedup_step(entries, DedupEventView::Begin) is HashHeads
            &&& second is HashFulls
            &&& last is Done
            &&& exists|g: int|
                0 <= g < last->Done_0.len() && (#[trigger] last->Done_0[g]).paths.contains(a.path)
                    && last->Done_0[g].paths.contains(b.path)
        }),
{
    let i = choose|i: int| 0 <= i < entries.len() && entries[i] == a;
    let j = choose|j: int| 0 <= j < entries.len() && entries[j] == b;
    let data = content(a.path.id());
    let first = dedup_step(entries, DedupEventView::Begin);
    law_first_task(entries, a.path);
    law_first_task(entries, b.path);
    assert(entries[i].kind == EntryKind::File && entries[j].kind == EntryKind::File);
    let n = if first.limit() < data.len() {
        first.limit() as int
    } else {
        data.len() as int
    };
    let h = blake3_digest(data.take(n));
    let x = choose|x: int| 0 <= x < heads.len() && heads[x] == HashedView::Hash(a.path, h);
    let y = choose|y: int| 0 <= y < heads.len() && heads[y] == HashedView::Hash(b.path, h);
    let second = dedup_step(entries, DedupEventView::HeadsHashed(heads));
    law_second_task(entries, heads);
    assert(alike(heads[x], a, heads[y], b));
    let m = if second.limit() < data.len() {
        second.limit() as int
    } else {
        data.len() as int
    };
    let w = blake3_digest(data.take(m));
    let p = choose|p: int| 0 <= p < fulls.len() && fulls[p] == HashedView::Hash(a.path, w);
    let q = choose|q: int| 0 <= q < fulls.len() && fulls[q] == HashedView::Hash(b.path, w);
    let last = dedup_step(entries, DedupEventView::FullsHashed(fulls, second->HashFulls_1));
    law_last_task(entries, fulls, second->HashFulls_1);
    let f = |r: HashedView|
        match r {
            HashedView::Hash(path, h) => if h == w {
                Some(path)
            } else {
                None
            },
            HashedView::Failed(error) => None,
        };
    let all = paths_with(fulls, w);
    assert(all == fulls.filter_map(f));
    if p < q {
        let at = lemma_filter_map_pair(fulls, f, p, q);
        assert(all[at.0] == a.path && all[at.1] == b.path);
    } else {
        let at = lemma_filter_map_pair(fulls, f, q, p);
        assert(all[at.1] == a.path && all[at.0] == b.path);
    }
    let g = choose|g: int| 0 <= g < last->Done_0.len() && (#[trigger] last->Done_0[g]).hash == w;
    assert(last->Done_0[g].paths == all);
    assert(all.contains(a.path) && all.contains(b.path));
}

} // verus!
