//! Sets of paths, and sizes by path.

use crate::path::{lemma_path_order_total, path_less, FilePath, PathId};
use std::collections::HashMap;
use vstd::prelude::*;

verus! {

/// The components of each key.
spec fn ids(keys: Seq<FilePath>) -> Seq<PathId> {
    keys.map_values(|p: FilePath| p@.id())
}

/// Whether keys stand in strict path order.
spec fn ascending(keys: Seq<PathId>) -> bool {
    forall|i: int, j: int|
        0 <= i < j < keys.len() ==> path_less(#[trigger] keys[i], #[trigger] keys[j])
}

/// Where a path stands among keys, or would stand.
fn search(keys: &Vec<FilePath>, path: &FilePath) -> (found: (bool, usize))
    requires
        ascending(ids(keys@)),
    ensures
        found.1 <= keys@.len(),
        forall|k: int| 0 <= k < found.1 ==> path_less(#[trigger] ids(keys@)[k], path@.id()),
        found.0 ==> found.1 < keys@.len() && ids(keys@)[found.1 as int] == path@.id(),
        !found.0 ==> forall|k: int|
            found.1 <= k < keys@.len() ==> path_less(path@.id(), #[trigger] ids(keys@)[k]),
{
    let ghost q = path@.id();
    let ghost s = ids(keys@);
    proof {
        lemma_path_order_total();
    }
    let mut lo: usize = 0;
    let mut hi: usize = keys.len();
    while lo < hi
        invariant
            ascending(s),
            s == ids(keys@),
            q == path@.id(),
            lo <= hi <= keys@.len(),
            forall|k: int| 0 <= k < lo ==> path_less(#[trigger] s[k], q),
            forall|k: int| hi <= k < s.len() ==> path_less(q, #[trigger] s[k]),
            forall|a: PathId, b: PathId, c: PathId|
                #[trigger] path_less(a, b) && #[trigger] path_less(b, c) ==> path_less(a, c),
            forall|a: PathId, b: PathId|
                #![trigger path_less(a, b)]
                a == b || path_less(a, b) || path_less(b, a),
        decreases hi - lo,
    {
        let mid = lo + (hi - lo) / 2;
        assert(s[mid as int] == keys@[mid as int]@.id());
        if path.precedes(&keys[mid]) {
            hi = mid;
        } else if path.same(&keys[mid]) {
            return (true, mid);
        } else {
            assert(path_less(s[mid as int], q));
            lo = mid + 1;
        }
    }
    (false, lo)
}

proof fn lemma_inserted(keys: Seq<PathId>, at: int, q: PathId)
    requires
        ascending(keys),
        0 <= at <= keys.len(),
        forall|k: int| 0 <= k < at ==> path_less(#[trigger] keys[k], q),
        forall|k: int| at <= k < keys.len() ==> path_less(q, #[trigger] keys[k]),
    ensures
        ascending(keys.insert(at, q)),
{
    let after = keys.insert(at, q);
    assert forall|i: int, j: int| 0 <= i < j < after.len() implies path_less(
        #[trigger] after[i],
        #[trigger] after[j],
    ) by {
        let i2 = if i < at { i } else { i - 1 };
        let j2 = if j < at { j } else { j - 1 };
        if i != at && j != at {
            assert(after[i] == keys[i2] && after[j] == keys[j2]);
        } else if i == at {
            assert(after[j] == keys[j2]);
        } else {
            assert(after[i] == keys[i2]);
        }
    }
}

proof fn lemma_ascending_distinct(keys: Seq<PathId>)
    requires
        ascending(keys),
    ensures
        keys.no_duplicates(),
{
    lemma_path_order_total();
    assert forall|i: int, j: int| 0 <= i < j < keys.len() implies keys[i] != keys[j] by {
        assert(path_less(keys[i], keys[j]));
        assert(!path_less(keys[i], keys[i]));
    }
}

/// A set of paths. Paths that differ only in their separators are one element.
#[derive(Debug)]
pub struct PathSet {
    keys: Vec<FilePath>,
}

impl View for PathSet {
    type V = Set<PathId>;

    closed spec fn view(&self) -> Set<PathId> {
        ids(self.keys@).to_set()
    }
}

impl PathSet {
    #[verifier::type_invariant]
    spec fn sorted(self) -> bool {
        ascending(ids(self.keys@))
    }

    /// The empty set.
    pub fn new() -> (set: PathSet)
        ensures
            set@ == Set::<PathId>::empty(),
    {
        let keys: Vec<FilePath> = Vec::new();
        assert(ids(keys@).to_set() =~= Set::<PathId>::empty());
        PathSet { keys }
    }

    /// Whether the set holds a path.
    pub fn contains(&self, path: &FilePath) -> (found: bool)
        ensures
            found == self@.contains(path@.id()),
    {
        proof {
            use_type_invariant(self);
            lemma_path_order_total();
        }
        let ghost q = path@.id();
        let (found, at) = search(&self.keys, path);
        proof {
            let s = ids(self.keys@);
            if found {
                assert(s.contains(q));
            } else if s.contains(q) {
                let k = choose|k: int| 0 <= k < s.len() && s[k] == q;
                assert(path_less(s[k], q) || path_less(q, s[k]));
            }
        }
        found
    }

    /// The number of paths.
    pub fn len(&self) -> (n: usize)
        ensures
            n == self@.len(),
    {
        proof {
            use_type_invariant(self);
            lemma_ascending_distinct(ids(self.keys@));
            ids(self.keys@).unique_seq_to_set();
        }
        self.keys.len()
    }

    /// Whether the set is empty.
    pub fn is_empty(&self) -> (empty: bool)
        ensures
            empty == (self@ == Set::<PathId>::empty()),
    {
        proof {
            let s = ids(self.keys@);
            if s.len() > 0 {
                assert(s.contains(s[0]));
                assert(s.to_set().contains(s[0]));
            } else {
                assert(s.to_set() =~= Set::<PathId>::empty());
            }
        }
        self.keys.len() == 0
    }

    /// Adds a path; tells whether it was new.
    pub fn insert(&mut self, path: FilePath) -> (added: bool)
        ensures
            added == !old(self)@.contains(path@.id()),
            final(self)@ == old(self)@.insert(path@.id()),
    {
        proof {
            use_type_invariant(&*self);
            lemma_path_order_total();
        }
        let ghost q = path@.id();
        let ghost before = ids(self.keys@);
        let mut keys: Vec<FilePath> = Vec::new();
        std::mem::swap(&mut keys, &mut self.keys);
        let (found, at) = search(&keys, &path);
        if found {
            assert(before.contains(q));
            assert(before.to_set() =~= before.to_set().insert(q));
            self.keys = keys;
            return false;
        }
        proof {
            if before.contains(q) {
                let k = choose|k: int| 0 <= k < before.len() && before[k] == q;
                assert(path_less(before[k], q) || path_less(q, before[k]));
            }
            lemma_inserted(before, at as int, q);
        }
        keys.insert(at, path);
        proof {
            let after = ids(keys@);
            assert(after =~= before.insert(at as int, q));
            assert forall|p: PathId| after.to_set().contains(p) == before.to_set().insert(
                q,
            ).contains(p) by {
                if after.contains(p) {
                    let k = choose|k: int| 0 <= k < after.len() && after[k] == p;
                    if k < at {
                        assert(before[k] == p);
                    } else if k > at {
                        assert(before[k - 1] == p);
                    }
                }
                if before.contains(p) {
                    let k = choose|k: int| 0 <= k < before.len() && before[k] == p;
                    if k < at {
                        assert(after[k] == p);
                    } else {
                        assert(after[k + 1] == p);
                    }
                }
                assert(after[at as int] == q);
            }
            assert(after.to_set() =~= before.to_set().insert(q));
        }
        self.keys = keys;
        true
    }

    /// Removes a path; tells whether it was there.
    pub fn remove(&mut self, path: &FilePath) -> (removed: bool)
        ensures
            removed == old(self)@.contains(path@.id()),
            final(self)@ == old(self)@.remove(path@.id()),
    {
        proof {
            use_type_invariant(&*self);
            lemma_path_order_total();
        }
        let ghost q = path@.id();
        let ghost before = ids(self.keys@);
        let mut keys: Vec<FilePath> = Vec::new();
        std::mem::swap(&mut keys, &mut self.keys);
        let (found, at) = search(&keys, path);
        if !found {
            proof {
                if before.contains(q) {
                    let k = choose|k: int| 0 <= k < before.len() && before[k] == q;
                    assert(path_less(before[k], q) || path_less(q, before[k]));
                }
                assert(before.to_set() =~= before.to_set().remove(q));
            }
            self.keys = keys;
            return false;
        }
        let _gone = keys.remove(at);
        proof {
            let after = ids(keys@);
            assert(after =~= before.remove(at as int));
            assert(before[at as int] == q);
            assert(before.contains(q));
            lemma_ascending_distinct(before);
            assert forall|i: int, j: int| 0 <= i < j < after.len() implies path_less(
                #[trigger] after[i],
                #[trigger] after[j],
            ) by {
                let i2 = if i < at { i } else { i + 1 };
                let j2 = if j < at { j } else { j + 1 };
                assert(after[i] == before[i2] && after[j] == before[j2]);
            }
            assert forall|p: PathId| after.to_set().contains(p) == before.to_set().remove(
                q,
            ).contains(p) by {
                if after.contains(p) {
                    let k = choose|k: int| 0 <= k < after.len() && after[k] == p;
                    let k2 = if k < at { k } else { k + 1 };
                    assert(before[k2] == p);
                }
                if before.contains(p) && p != q {
                    let k = choose|k: int| 0 <= k < before.len() && before[k] == p;
                    let k2 = if k < at { k } else { k - 1 };
                    assert(after[k2] == p);
                }
            }
            assert(after.to_set() =~= before.to_set().remove(q));
        }
        self.keys = keys;
        true
    }

    /// Puts a path in, or takes it out if it is there.
    pub fn toggle(&mut self, path: FilePath)
        ensures
            final(self)@ == if old(self)@.contains(path@.id()) {
                old(self)@.remove(path@.id())
            } else {
                old(self)@.insert(path@.id())
            },
    {
        if !self.remove(&path) {
            assert(self@ =~= old(self)@);
            self.insert(path);
        }
    }
}

/// One more byte in a hash.
spec fn mixed(hash: u64, byte: u8) -> u64 {
    (hash ^ (byte as u64)).wrapping_mul(0x100_0000_01b3)
}

fn mix(hash: u64, byte: u8) -> (mix: u64)
    ensures
        mix == mixed(hash, byte),
{
    (hash ^ (byte as u64)).wrapping_mul(0x100_0000_01b3)
}

/// More bytes in a hash.
spec fn mixed_all(hash: u64, bytes: Seq<u8>) -> u64
    decreases bytes.len(),
{
    if bytes.len() == 0 {
        hash
    } else {
        mixed(mixed_all(hash, bytes.drop_last()), bytes.last())
    }
}

/// A number that equal paths share and different ones seldom do.
spec fn path_hash(id: PathId) -> u64
    decreases id.len(),
{
    if id.len() == 0 {
        0xcbf2_9ce4_8422_2325
    } else {
        mixed(mixed_all(path_hash(id.drop_last()), id.last().name), 47)
    }
}

fn hash_prefix(path: &FilePath, n: usize) -> (hash: u64)
    requires
        n <= path.parts@.len(),
    ensures
        hash == path_hash(path@.id().take(n as int)),
{
    let ghost id = path@.id();
    let mut hash: u64 = 0xcbf2_9ce4_8422_2325;
    for i in 0..n
        invariant
            id == path@.id(),
            n <= path.parts@.len(),
            hash == path_hash(id.take(i as int)),
    {
        let name = &path.parts[i].name;
        let ghost start = hash;
        assert(name@.take(0) =~= Seq::<u8>::empty());
        for k in 0..name.len()
            invariant
                hash == mixed_all(start, name@.take(k as int)),
        {
            assert(name@.take(k + 1).drop_last() =~= name@.take(k as int));
            hash = mix(hash, name[k]);
        }
        proof {
            assert(name@.take(name@.len() as int) =~= name@);
            assert(id.take(i + 1).drop_last() =~= id.take(i as int));
            assert(id[i as int] == path@.parts[i as int].id);
            assert(path@.parts[i as int] == path.parts@[i as int]@);
        }
        hash = mix(hash, 47);
    }
    hash
}

/// A size for each path; a path that was never added has size 0.
pub struct PathSizes {
    keys: Vec<FilePath>,
    sizes: Vec<u64>,
    /// The positions of keys, by the hash of the path.
    buckets: HashMap<u64, Vec<usize>>,
}

spec fn lookup(keys: Seq<PathId>, sizes: Seq<u64>, q: PathId) -> u64 {
    if keys.contains(q) {
        sizes[keys.index_of(q)]
    } else {
        0
    }
}

proof fn lemma_lookup_at(keys: Seq<PathId>, sizes: Seq<u64>, k: int)
    requires
        keys.no_duplicates(),
        0 <= k < keys.len(),
    ensures
        lookup(keys, sizes, keys[k]) == sizes[k],
{
    assert(keys.contains(keys[k]));
    let m = keys.index_of(keys[k]);
    assert(keys[m] == keys[k]);
}

/// Whether each key's bucket holds the key's position, and buckets hold positions only.
spec fn indexed(buckets: Map<u64, Vec<usize>>, keys: Seq<PathId>) -> bool {
    &&& forall|k: int|
        0 <= k < keys.len() ==> buckets.contains_key(path_hash(#[trigger] keys[k]))
            && buckets[path_hash(keys[k])]@.contains(k as usize)
    &&& forall|b: u64, j: int|
        buckets.contains_key(b) && 0 <= j < buckets[b]@.len() ==> #[trigger] buckets[b]@[j]
            < keys.len()
}

/// Where the path made of the first `n` components of `path` stands among the keys of a bucket.
fn find_in(list: &Vec<usize>, keys: &Vec<FilePath>, path: &FilePath, n: usize) -> (found: Option<
    usize,
>)
    requires
        n <= path.parts@.len(),
        forall|j: int| 0 <= j < list@.len() ==> #[trigger] list@[j] < keys@.len(),
    ensures
        found matches Some(k) ==> k < keys@.len() && ids(keys@)[k as int] == path@.id().take(
            n as int,
        ),
        found is None ==> forall|j: int|
            0 <= j < list@.len() ==> ids(keys@)[#[trigger] list@[j] as int] != path@.id().take(
                n as int,
            ),
{
    for j in 0..list.len()
        invariant
            n <= path.parts@.len(),
            forall|j: int| 0 <= j < list@.len() ==> #[trigger] list@[j] < keys@.len(),
            forall|m: int|
                0 <= m < j ==> ids(keys@)[#[trigger] list@[m] as int] != path@.id().take(n as int),
    {
        let k = list[j];
        assert(ids(keys@)[k as int] == keys@[k as int]@.id());
        if path.prefix_is(n, &keys[k]) {
            return Some(k);
        }
    }
    None
}

impl PathSizes {
    /// The size of a path.
    pub closed spec fn size_of(&self, q: PathId) -> u64 {
        lookup(ids(self.keys@), self.sizes@, q)
    }

    #[verifier::type_invariant]
    spec fn sound(self) -> bool {
        &&& ids(self.keys@).no_duplicates()
        &&& self.sizes@.len() == self.keys@.len()
        &&& indexed(self.buckets@, ids(self.keys@))
    }

    /// Size 0 for every path.
    pub fn new() -> (sizes: PathSizes)
        ensures
            forall|q: PathId| #[trigger] sizes.size_of(q) == 0,
    {
        broadcast use vstd::std_specs::hash::group_hash_axioms;

        PathSizes { keys: Vec::new(), sizes: Vec::new(), buckets: HashMap::new() }
    }

    /// Where the path made of the first `n` components of `path` stands among the keys.
    fn find(&self, path: &FilePath, n: usize) -> (found: Option<usize>)
        requires
            n <= path.parts@.len(),
        ensures
            found matches Some(k) ==> k < self.keys@.len() && ids(self.keys@)[k as int]
                == path@.id().take(n as int),
            found is None ==> !ids(self.keys@).contains(path@.id().take(n as int)),
    {
        broadcast use vstd::std_specs::hash::group_hash_axioms;

        proof {
            use_type_invariant(self);
        }
        let ghost s = ids(self.keys@);
        let ghost q = path@.id().take(n as int);
        let count = self.keys.len();
        let hash = hash_prefix(path, n);
        let found = match self.buckets.get(&hash) {
            Some(list) => find_in(list, &self.keys, path, n),
            None => None,
        };
        proof {
            if found is None && s.contains(q) {
                let k = choose|k: int| 0 <= k < s.len() && s[k] == q;
                let list = self.buckets@[path_hash(s[k])]@;
                let j = choose|j: int| 0 <= j < list.len() && list[j] == k as usize;
                assert(s[list[j] as int] == q);
            }
        }
        found
    }

    /// The size of the path made of the first `n` components of `path`.
    fn get_prefix(&self, path: &FilePath, n: usize) -> (size: u64)
        requires
            n <= path.parts@.len(),
        ensures
            size == self.size_of(path@.id().take(n as int)),
    {
        proof {
            use_type_invariant(self);
        }
        match self.find(path, n) {
            Some(at) => {
                proof {
                    lemma_lookup_at(ids(self.keys@), self.sizes@, at as int);
                }
                self.sizes[at]
            },
            None => 0,
        }
    }

    /// The size of a path.
    pub fn get(&self, path: &FilePath) -> (size: u64)
        ensures
            size == self.size_of(path@.id()),
    {
        assert(path@.id().take(path@.id().len() as int) =~= path@.id());
        self.get_prefix(path, path.parts.len())
    }

    /// Sets the size of the path made of the first `n` components of `path`.
    fn set_prefix(&mut self, path: &FilePath, n: usize, size: u64)
        requires
            n <= path.parts@.len(),
        ensures
            forall|q: PathId| #[trigger]
                final(self).size_of(q) == if q == path@.id().take(n as int) {
                    size
                } else {
                    old(self).size_of(q)
                },
    {
        broadcast use vstd::std_specs::hash::group_hash_axioms;

        proof {
            use_type_invariant(&*self);
        }
        let ghost key = path@.id().take(n as int);
        let ghost before = ids(self.keys@);
        let ghost old_sizes = self.sizes@;
        let ghost old_buckets = self.buckets@;
        let found = self.find(path, n);
        let mut whole = PathSizes::new();
        std::mem::swap(&mut whole, self);
        let PathSizes { mut keys, mut sizes, mut buckets } = whole;
        match found {
            Some(at) => {
                sizes.set(at, size);
                proof {
                    assert forall|q: PathId| #[trigger] lookup(before, sizes@, q) == (if q == key {
                        size
                    } else {
                        lookup(before, old_sizes, q)
                    }) by {
                        if before.contains(q) {
                            let k = before.index_of(q);
                            assert(before[k] == q);
                            if q == key {
                                assert(k == at);
                            }
                        }
                    }
                }
            },
            None => {
                let hash = hash_prefix(path, n);
                let at = keys.len();
                let mut list: Vec<usize> = match buckets.remove(&hash) {
                    Some(list) => list,
                    None => Vec::new(),
                };
                let ghost old_list = list@;
                list.push(at);
                buckets.insert(hash, list);
                keys.push(path.prefix(n));
                sizes.push(size);
                proof {
                    let after = ids(keys@);
                    assert(after =~= before.push(key));
                    assert forall|k: int| 0 <= k < after.len() implies buckets@.contains_key(
                        path_hash(#[trigger] after[k]),
                    ) && buckets@[path_hash(after[k])]@.contains(k as usize) by {
                        if k == at {
                            assert(list@[list@.len() - 1] == at);
                        } else {
                            assert(before[k] == after[k]);
                            let own = old_buckets[path_hash(before[k])]@;
                            let j = choose|j: int| 0 <= j < own.len() && own[j] == k as usize;
                            if path_hash(before[k]) == hash {
                                assert(list@[j] == k as usize);
                            }
                        }
                    }
                    assert forall|b: u64, j: int|
                        buckets@.contains_key(b) && 0 <= j
                            < buckets@[b]@.len() implies #[trigger] buckets@[b]@[j]
                        < after.len() by {
                        if b == hash {
                            if j < old_list.len() {
                                assert(old_buckets[hash]@[j] == old_list[j]);
                            }
                        } else {
                            assert(old_buckets[b]@[j] < before.len());
                        }
                    }
                    assert(after.no_duplicates());
                    assert forall|q: PathId| #[trigger] lookup(after, sizes@, q) == (if q == key {
                        size
                    } else {
                        lookup(before, old_sizes, q)
                    }) by {
                        if q == key {
                            assert(after[at as int] == q);
                            lemma_lookup_at(after, sizes@, at as int);
                        } else if before.contains(q) {
                            let k = before.index_of(q);
                            assert(after[k] == q);
                            lemma_lookup_at(after, sizes@, k);
                        } else if after.contains(q) {
                            let k = choose|k: int| 0 <= k < after.len() && after[k] == q;
                            assert(before[k] == q);
                        }
                    }
                }
            },
        }
        *self = PathSizes { keys, sizes, buckets };
    }

    /// Sets the size of a path.
    pub fn set(&mut self, path: &FilePath, size: u64)
        ensures
            forall|q: PathId| #[trigger]
                final(self).size_of(q) == if q == path@.id() {
                    size
                } else {
                    old(self).size_of(q)
                },
    {
        assert(path@.id().take(path@.id().len() as int) =~= path@.id());
        self.set_prefix(path, path.parts.len(), size);
    }

    /// Adds to the size of the path made of the first `n` components of `path`.
    pub(crate) fn grow(&mut self, path: &FilePath, n: usize, size: u64)
        requires
            n <= path.parts@.len(),
            old(self).size_of(path@.id().take(n as int)) + size <= u64::MAX,
        ensures
            forall|q: PathId| #[trigger]
                final(self).size_of(q) == old(self).size_of(q) + (if q == path@.id().take(n as int) {
                    size as int
                } else {
                    0
                }),
    {
        let grown = self.get_prefix(path, n) + size;
        self.set_prefix(path, n, grown);
    }
}

} // verus!
