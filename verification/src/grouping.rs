//! Grouping positions of a list by equal keys.

use std::collections::HashMap;
use vstd::prelude::*;

verus! {

/// What files are grouped by: a size and a hash.
pub struct ContentKey {
    pub size: u64,
    pub hash: [u8; 32],
}

/// What a key is.
pub struct KeyView {
    pub size: u64,
    pub hash: Seq<u8>,
}

impl View for ContentKey {
    type V = KeyView;

    open spec fn view(&self) -> KeyView {
        KeyView { size: self.size, hash: self.hash@ }
    }
}

/// What a list of keys is.
pub open spec fn keys_view(keys: Seq<ContentKey>) -> Seq<KeyView> {
    keys.map_values(|k: ContentKey| k@)
}

/// The positions at which a key stands, in order.
pub open spec fn positions<K>(keys: Seq<K>, key: K) -> Seq<int>
    decreases keys.len(),
{
    if keys.len() == 0 {
        Seq::empty()
    } else if keys.last() == key {
        positions(keys.drop_last(), key).push(keys.len() - 1)
    } else {
        positions(keys.drop_last(), key)
    }
}

/// The different keys, in the order in which they come up.
pub open spec fn first_seen<K>(keys: Seq<K>) -> Seq<K>
    decreases keys.len(),
{
    if keys.len() == 0 {
        Seq::empty()
    } else if keys.drop_last().contains(keys.last()) {
        first_seen(keys.drop_last())
    } else {
        first_seen(keys.drop_last()).push(keys.last())
    }
}

/// The positions of a list, grouped by key, in the order in which the keys come up.
pub open spec fn grouped<K>(keys: Seq<K>) -> Seq<Seq<int>> {
    first_seen(keys).map_values(|k: K| positions(keys, k))
}

/// Positions hold the key, and every position that holds it is there.
pub proof fn lemma_positions<K>(keys: Seq<K>, key: K)
    ensures
        forall|i: int|
            #![trigger positions(keys, key)[i]]
            0 <= i < positions(keys, key).len() ==> 0 <= positions(keys, key)[i] < keys.len()
                && keys[positions(keys, key)[i]] == key,
        forall|j: int|
            0 <= j < keys.len() && #[trigger] keys[j] == key ==> positions(keys, key).contains(j),
        forall|i: int, j: int|
            0 <= i < j < positions(keys, key).len() ==> #[trigger] positions(keys, key)[i]
                < #[trigger] positions(keys, key)[j],
    decreases keys.len(),
{
    if keys.len() > 0 {
        let short = keys.drop_last();
        lemma_positions(short, key);
        let before = positions(short, key);
        let all = positions(keys, key);
        assert forall|i: int| #![trigger all[i]] 0 <= i < all.len() implies 0 <= all[i]
            < keys.len() && keys[all[i]] == key by {
            if i < before.len() {
                assert(short[before[i]] == key);
                assert(keys[before[i]] == short[before[i]]);
            }
        }
        assert forall|j: int| 0 <= j < keys.len() && #[trigger] keys[j] == key implies all.contains(
            j,
        ) by {
            if j < short.len() {
                assert(short[j] == key);
                let i = choose|i: int| 0 <= i < before.len() && before[i] == j;
                assert(all[i] == j);
            } else {
                assert(all[all.len() - 1] == j);
            }
        }
    }
}

/// The different keys are the keys, each once.
pub proof fn lemma_first_seen<K>(keys: Seq<K>)
    ensures
        forall|k: K| #[trigger] first_seen(keys).contains(k) <==> keys.contains(k),
        first_seen(keys).no_duplicates(),
    decreases keys.len(),
{
    if keys.len() > 0 {
        let short = keys.drop_last();
        lemma_first_seen(short);
        let before = first_seen(short);
        let all = first_seen(keys);
        assert forall|k: K| #[trigger] all.contains(k) <==> keys.contains(k) by {
            if keys.contains(k) {
                let j = choose|j: int| 0 <= j < keys.len() && keys[j] == k;
                if j < short.len() {
                    assert(short[j] == k);
                    assert(before.contains(k));
                    let i = choose|i: int| 0 <= i < before.len() && before[i] == k;
                    assert(all[i] == k);
                } else if short.contains(k) {
                    assert(before.contains(k));
                } else {
                    assert(all[all.len() - 1] == k);
                }
            }
            if all.contains(k) {
                let i = choose|i: int| 0 <= i < all.len() && all[i] == k;
                if i < before.len() {
                    assert(before[i] == k);
                    assert(before.contains(k));
                    let j = choose|j: int| 0 <= j < short.len() && short[j] == k;
                    assert(keys[j] == k);
                } else {
                    assert(keys[keys.len() - 1] == k);
                }
            }
        }
        if !short.contains(keys.last()) {
            assert(!before.contains(keys.last()));
        }
    }
}

spec fn bucket(key: KeyView) -> u64 {
    (key.size ^ (key.hash[0] as u64)) ^ ((key.hash[1] as u64) * 256 + (key.hash[2] as u64) * 65536
        + (key.hash[3] as u64) * 16777216) as u64
}

fn bucket_of(key: &ContentKey) -> (b: u64)
    ensures
        b == bucket(key@),
{
    (key.size ^ (key.hash[0] as u64)) ^ (key.hash[1] as u64 * 256 + key.hash[2] as u64 * 65536
        + key.hash[3] as u64 * 16777216)
}

impl ContentKey {
    /// Whether two keys are the same.
    pub fn same(&self, other: &ContentKey) -> (same: bool)
        ensures
            same == (self@ == other@),
    {
        if self.size != other.size {
            return false;
        }
        for i in 0..32
            invariant
                forall|j: int| 0 <= j < i ==> self.hash@[j] == other.hash@[j],
        {
            if self.hash[i] != other.hash[i] {
                assert(self.hash@[i as int] != other.hash@[i as int]);
                return false;
            }
        }
        assert(self.hash@ =~= other.hash@);
        true
    }
}

/// What groups of positions are.
pub open spec fn groups_of_positions(groups: Seq<Vec<usize>>) -> Seq<Seq<int>> {
    groups.map_values(|g: Vec<usize>| g@.map_values(|i: usize| i as int))
}

/// Whether the groups of each key's bucket hold the key's own.
spec fn indexed(buckets: Map<u64, Vec<usize>>, seen: Seq<KeyView>) -> bool {
    &&& forall|g: int|
        0 <= g < seen.len() ==> buckets.contains_key(bucket(#[trigger] seen[g])) && buckets[bucket(
            seen[g],
        )]@.contains(g as usize)
    &&& forall|b: u64, j: int|
        buckets.contains_key(b) && 0 <= j < buckets[b]@.len() ==> #[trigger] buckets[b]@[j]
            < seen.len()
}

proof fn lemma_group_start(keys: Seq<KeyView>, groups: Seq<Vec<usize>>, g: int)
    requires
        groups_of_positions(groups) == grouped(keys),
        0 <= g < groups.len(),
    ensures
        first_seen(keys).len() == groups.len(),
        groups[g]@.len() > 0,
        groups[g]@[0] < keys.len(),
        keys[groups[g]@[0] as int] == first_seen(keys)[g],
{
    let seen = first_seen(keys);
    assert(grouped(keys).len() == seen.len());
    assert(groups_of_positions(groups).len() == groups.len());
    assert(grouped(keys)[g] == positions(keys, seen[g]));
    assert(groups_of_positions(groups)[g] == groups[g]@.map_values(|i: usize| i as int));
    lemma_first_seen(keys);
    assert(seen.contains(seen[g]));
    lemma_positions(keys, seen[g]);
    let k = choose|k: int| 0 <= k < keys.len() && keys[k] == seen[g];
    assert(positions(keys, seen[g]).contains(k));
    assert(positions(keys, seen[g])[0] == groups[g]@[0]);
}

/// The group of a key among those that share its bucket.
fn find_group(
    keys: &Vec<ContentKey>,
    n: usize,
    groups: &Vec<Vec<usize>>,
    list: &Vec<usize>,
    key: &ContentKey,
) -> (found: Option<usize>)
    requires
        n <= keys@.len(),
        groups_of_positions(groups@) == grouped(keys_view(keys@).take(n as int)),
        forall|k: int| 0 <= k < list@.len() ==> #[trigger] list@[k] < groups@.len(),
    ensures
        found matches Some(g) ==> g < groups@.len() && first_seen(
            keys_view(keys@).take(n as int),
        )[g as int] == key@,
        found is None ==> forall|k: int|
            0 <= k < list@.len() ==> first_seen(
                keys_view(keys@).take(n as int),
            )[#[trigger] list@[k] as int] != key@,
{
    let ghost before = keys_view(keys@).take(n as int);
    for j in 0..list.len()
        invariant
            n <= keys@.len(),
            before == keys_view(keys@).take(n as int),
            groups_of_positions(groups@) == grouped(before),
            forall|k: int| 0 <= k < list@.len() ==> #[trigger] list@[k] < groups@.len(),
            forall|k: int| 0 <= k < j ==> first_seen(before)[#[trigger] list@[k] as int] != key@,
    {
        let g = list[j];
        proof {
            lemma_group_start(before, groups@, g as int);
        }
        let first = groups[g][0];
        if keys[first].same(key) {
            return Some(g);
        }
    }
    None
}

proof fn lemma_joins_group(keys: Seq<KeyView>, g: int)
    requires
        keys.len() > 0,
        0 <= g < first_seen(keys.drop_last()).len(),
        first_seen(keys.drop_last())[g] == keys.last(),
    ensures
        grouped(keys) == grouped(keys.drop_last()).update(
            g,
            grouped(keys.drop_last())[g].push(keys.len() - 1),
        ),
        first_seen(keys) == first_seen(keys.drop_last()),
{
    let before = keys.drop_last();
    let seen = first_seen(before);
    lemma_first_seen(before);
    assert(seen.contains(seen[g]));
    assert(first_seen(keys) == seen);
    assert forall|k: int| 0 <= k < seen.len() implies #[trigger] grouped(keys)[k] == grouped(
        before,
    ).update(g, grouped(before)[g].push(keys.len() - 1))[k] by {
        if k != g {
            assert(seen[k] != keys.last());
        }
    }
    assert(grouped(keys) =~= grouped(before).update(g, grouped(before)[g].push(keys.len() - 1)));
}

proof fn lemma_opens_group(keys: Seq<KeyView>)
    requires
        keys.len() > 0,
        !first_seen(keys.drop_last()).contains(keys.last()),
    ensures
        grouped(keys) == grouped(keys.drop_last()).push(seq![keys.len() - 1]),
        first_seen(keys) == first_seen(keys.drop_last()).push(keys.last()),
{
    let before = keys.drop_last();
    let seen = first_seen(before);
    let key = keys.last();
    lemma_first_seen(before);
    lemma_positions(before, key);
    assert(!before.contains(key));
    assert(positions(before, key) =~= Seq::<int>::empty()) by {
        if positions(before, key).len() > 0 {
            assert(before[positions(before, key)[0]] == key);
        }
    }
    assert(positions(keys, key) =~= seq![keys.len() - 1]);
    assert forall|k: int| 0 <= k < seen.len() implies #[trigger] grouped(keys)[k] == grouped(
        before,
    )[k] by {
        assert(seen.contains(seen[k]));
    }
    assert(grouped(keys) =~= grouped(before).push(seq![keys.len() - 1]));
}

/// Groups the positions of a list by key.
pub(crate) fn group_positions(keys: &Vec<ContentKey>) -> (groups: Vec<Vec<usize>>)
    ensures
        groups_of_positions(groups@) == grouped(keys_view(keys@)),
{
    broadcast use vstd::std_specs::hash::group_hash_axioms;

    let ghost all = keys_view(keys@);
    let mut groups: Vec<Vec<usize>> = Vec::new();
    let mut buckets: HashMap<u64, Vec<usize>> = HashMap::new();
    assert(groups_of_positions(groups@) =~= grouped(all.take(0)));
    for i in 0..keys.len()
        invariant
            all == keys_view(keys@),
            groups_of_positions(groups@) == grouped(all.take(i as int)),
            indexed(buckets@, first_seen(all.take(i as int))),
    {
        let ghost before = all.take(i as int);
        let ghost now = all.take(i + 1);
        let ghost seen = first_seen(before);
        let key = &keys[i];
        let b = bucket_of(key);
        proof {
            assert(now.drop_last() =~= before);
            assert(now.last() == key@);
            assert(grouped(before).len() == seen.len());
            assert(groups_of_positions(groups@).len() == groups@.len());
        }
        let count = groups.len();
        let found = match buckets.get(&b) {
            Some(list) => find_group(keys, i, &groups, list, key),
            None => None,
        };
        match found {
            Some(g) => {
                proof {
                    lemma_joins_group(now, g as int);
                }
                let ghost old_groups = groups@;
                groups[g].push(i);
                proof {
                    assert(groups_of_positions(groups@)[g as int] =~= groups_of_positions(
                        old_groups,
                    )[g as int].push(i as int));
                    assert(groups_of_positions(groups@) =~= grouped(now));
                }
            },
            None => {
                proof {
                    if seen.contains(key@) {
                        let g = choose|g: int| 0 <= g < seen.len() && seen[g] == key@;
                        let list = buckets@[bucket(seen[g])]@;
                        let k = choose|k: int| 0 <= k < list.len() && list[k] == g as usize;
                        assert(seen[list[k] as int] == key@);
                    }
                    lemma_opens_group(now);
                }
                let ghost old_buckets = buckets@;
                let ghost old_groups = groups@;
                let mut group: Vec<usize> = Vec::new();
                group.push(i);
                let g = count;
                groups.push(group);
                let mut list: Vec<usize> = match buckets.remove(&b) {
                    Some(list) => list,
                    None => Vec::new(),
                };
                let ghost old_list = list@;
                list.push(g);
                buckets.insert(b, list);
                proof {
                    assert(groups_of_positions(groups@)[g as int] =~= seq![i as int]);
                    assert(groups_of_positions(groups@) =~= grouped(now));
                    let after = seen.push(key@);
                    assert forall|k: int| 0 <= k < after.len() implies buckets@.contains_key(
                        bucket(#[trigger] after[k]),
                    ) && buckets@[bucket(after[k])]@.contains(k as usize) by {
                        if k == g {
                            assert(list@[list@.len() - 1] == g);
                        } else {
                            let own = old_buckets[bucket(seen[k])]@;
                            let j = choose|j: int| 0 <= j < own.len() && own[j] == k as usize;
                            if bucket(seen[k]) == b {
                                assert(list@[j] == k as usize);
                            }
                        }
                    }
                    assert forall|c: u64, j: int|
                        buckets@.contains_key(c) && 0 <= j
                            < buckets@[c]@.len() implies #[trigger] buckets@[c]@[j]
                        < after.len() by {
                        if c == b {
                            if j < old_list.len() {
                                assert(old_buckets[b]@[j] == old_list[j]);
                            }
                        } else {
                            assert(old_buckets[c]@[j] < seen.len());
                        }
                    }
                }
            },
        }
    }
    assert(all.take(all.len() as int) =~= all);
    groups
}

/// The groups of several positions that hold the same key.
pub open spec fn shared<K>(keys: Seq<K>) -> Seq<Seq<int>> {
    grouped(keys).filter(|g: Seq<int>| g.len() >= 2)
}

/// Groups the positions of a list that hold the same key as another position.
pub(crate) fn shared_positions(keys: &Vec<ContentKey>) -> (groups: Vec<Vec<usize>>)
    ensures
        groups_of_positions(groups@) == shared(keys_view(keys@)),
{
    let all = group_positions(keys);
    let ghost seen = all@;
    let ghost views = grouped(keys_view(keys@));
    let ghost several = |g: Seq<int>| g.len() >= 2;
    let mut groups: Vec<Vec<usize>> = Vec::new();
    proof {
        reveal(Seq::filter);
        assert(groups_of_positions(groups@) =~= views.take(0).filter(several));
    }
    for group in it: all
        invariant
            it.seq() == seen,
            views == groups_of_positions(seen),
            several == (|g: Seq<int>| g.len() >= 2),
            groups_of_positions(groups@) == views.take(it.index() as int).filter(several),
    {
        let ghost i = it.index() as int;
        proof {
            reveal(Seq::filter);
            assert(views.take(i + 1).drop_last() =~= views.take(i));
            assert(views[i] == group@.map_values(|i: usize| i as int));
        }
        if group.len() >= 2 {
            groups.push(group);
            assert(groups_of_positions(groups@) =~= views.take(i + 1).filter(several));
        }
    }
    assert(views.take(views.len() as int) =~= views);
    groups
}

} // verus!
