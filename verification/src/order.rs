//! Orders on sequences, and stable sorting.

use vstd::prelude::*;
use vstd::relations::strict_total_ordering;

verus! {

/// The lexicographic order of two sequences whose items are ordered by `less`.
pub open spec fn lex_less<T>(a: Seq<T>, b: Seq<T>, less: spec_fn(T, T) -> bool) -> bool
    decreases a.len(),
{
    if b.len() == 0 {
        false
    } else if a.len() == 0 {
        true
    } else if a[0] != b[0] {
        less(a[0], b[0])
    } else {
        lex_less(a.drop_first(), b.drop_first(), less)
    }
}

proof fn lemma_lex_irreflexive<T>(a: Seq<T>, less: spec_fn(T, T) -> bool)
    ensures
        !lex_less(a, a, less),
    decreases a.len(),
{
    if a.len() > 0 {
        lemma_lex_irreflexive(a.drop_first(), less);
    }
}

proof fn lemma_lex_connected<T>(a: Seq<T>, b: Seq<T>, less: spec_fn(T, T) -> bool)
    requires
        strict_total_ordering(less),
        !lex_less(a, b, less),
        !lex_less(b, a, less),
    ensures
        a == b,
    decreases a.len(),
{
    if a.len() > 0 && b.len() > 0 {
        assert(a[0] == b[0]);
        lemma_lex_connected(a.drop_first(), b.drop_first(), less);
        assert(a =~= seq![a[0]] + a.drop_first());
        assert(b =~= seq![b[0]] + b.drop_first());
    } else {
        assert(a =~= b);
    }
}

proof fn lemma_lex_transitive<T>(a: Seq<T>, b: Seq<T>, c: Seq<T>, less: spec_fn(T, T) -> bool)
    requires
        strict_total_ordering(less),
        lex_less(a, b, less),
        lex_less(b, c, less),
    ensures
        lex_less(a, c, less),
    decreases a.len(),
{
    if a.len() > 0 {
        if a[0] == b[0] && b[0] == c[0] {
            lemma_lex_transitive(a.drop_first(), b.drop_first(), c.drop_first(), less);
        } else if a[0] == b[0] {
            assert(less(a[0], c[0]));
        } else if b[0] == c[0] {
            assert(less(a[0], c[0]));
        } else {
            assert(less(a[0], b[0]) && less(b[0], c[0]));
            if a[0] == c[0] {
                assert(less(b[0], a[0]));
            }
        }
    }
}

/// The lexicographic order of sequences as a relation.
pub open spec fn lexicographic<T>(less: spec_fn(T, T) -> bool) -> spec_fn(Seq<T>, Seq<T>) -> bool {
    |a: Seq<T>, b: Seq<T>| lex_less(a, b, less)
}

/// A strict total order on items gives a strict total order on sequences of them.
pub proof fn lemma_lexicographic_total<T>(less: spec_fn(T, T) -> bool)
    requires
        strict_total_ordering(less),
    ensures
        strict_total_ordering(lexicographic(less)),
{
    let lex = lexicographic(less);
    assert forall|x: Seq<T>| #[trigger] lex(x, x) == false by {
        lemma_lex_irreflexive(x, less);
    }
    assert forall|x: Seq<T>, y: Seq<T>, z: Seq<T>| #[trigger] lex(x, y) && #[trigger] lex(y, z)
        implies lex(x, z) by {
        lemma_lex_transitive(x, y, z, less);
    }
    assert forall|x: Seq<T>, y: Seq<T>| #[trigger] lex(x, y) && #[trigger] lex(y, x) implies x
        == y by {
        assert(lex(x, x));
    }
    assert forall|x: Seq<T>, y: Seq<T>| x != y implies #[trigger] lex(x, y) || #[trigger] lex(
        y,
        x,
    ) by {
        if !lex(x, y) && !lex(y, x) {
            lemma_lex_connected(x, y, less);
        }
    }
}

/// `s` with `x` added behind every item that `x` does not come before, where `s` is sorted.
pub open spec fn insert_sorted<T>(s: Seq<T>, x: T, before: spec_fn(T, T) -> bool) -> Seq<T>
    decreases s.len(),
{
    if s.len() > 0 && before(x, s.last()) {
        insert_sorted(s.drop_last(), x, before).push(s.last())
    } else {
        s.push(x)
    }
}

/// `s` sorted by `before`; items of which neither comes before the other keep their order.
pub open spec fn stable_sort<T>(s: Seq<T>, before: spec_fn(T, T) -> bool) -> Seq<T>
    decreases s.len(),
{
    if s.len() == 0 {
        s
    } else {
        insert_sorted(stable_sort(s.drop_last(), before), s.last(), before)
    }
}

/// Whether `before` ranks items: no two come before each other, and an item between two others
/// takes a side.
pub open spec fn weak_order<T>(before: spec_fn(T, T) -> bool) -> bool {
    &&& forall|x: T, y: T| #[trigger] before(x, y) ==> !#[trigger] before(y, x)
    &&& forall|x: T, y: T, z: T| #[trigger]
        before(x, z) ==> #[trigger] before(x, y) || #[trigger] before(y, z)
}

/// Whether position `i` goes in front of position `j` in a stable sort of `s`.
spec fn goes_first<T>(s: Seq<T>, before: spec_fn(T, T) -> bool, i: int, j: int) -> bool {
    before(s[i], s[j]) || (!before(s[j], s[i]) && i < j)
}

/// Whether `order` lists the positions `lo..hi` of `s`, each once, as a stable sort puts them.
spec fn lists_sorted<T>(
    order: Seq<int>,
    s: Seq<T>,
    lo: int,
    hi: int,
    before: spec_fn(T, T) -> bool,
) -> bool {
    &&& order.len() == hi - lo
    &&& forall|k: int| 0 <= k < order.len() ==> lo <= #[trigger] order[k] < hi
    &&& forall|i: int| lo <= i < hi ==> #[trigger] order.contains(i)
    &&& forall|a: int, b: int|
        0 <= a < b < order.len() ==> goes_first(s, before, #[trigger] order[a], #[trigger] order[b])
}

pub proof fn lemma_insert_position<T>(v: Seq<T>, x: T, p: int, before: spec_fn(T, T) -> bool)
    requires
        0 <= p <= v.len(),
        forall|k: int| 0 <= k < p ==> !before(x, #[trigger] v[k]),
        forall|k: int| p <= k < v.len() ==> before(x, #[trigger] v[k]),
    ensures
        insert_sorted(v, x, before) == v.insert(p, x),
    decreases v.len(),
{
    if p < v.len() {
        lemma_insert_position(v.drop_last(), x, p, before);
        assert(v.drop_last().insert(p, x).push(v.last()) =~= v.insert(p, x));
    } else {
        assert(v.push(x) =~= v.insert(p, x));
    }
}

/// There is one stable order: listing the positions that way gives the stable sort.
proof fn lemma_listing_is_stable_sort<T>(
    order: Seq<int>,
    s: Seq<T>,
    before: spec_fn(T, T) -> bool,
)
    requires
        weak_order(before),
        lists_sorted(order, s, 0, s.len() as int, before),
    ensures
        order.map_values(|i: int| s[i]) == stable_sort(s, before),
    decreases s.len(),
{
    let at = |i: int| s[i];
    if s.len() == 0 {
        assert(order.map_values(at) =~= s);
    } else {
        let n = s.len() as int;
        let short = s.drop_last();
        let x = s.last();
        assert(order.contains(n - 1));
        let p = choose|p: int| 0 <= p < order.len() && order[p] == n - 1;
        let rest = order.remove(p);
        assert forall|a: int| 0 <= a < order.len() && a != p implies #[trigger] order[a] != n
            - 1 by {
            if order[a] == n - 1 {
                if a < p {
                    assert(goes_first(s, before, order[a], order[p]));
                } else {
                    assert(goes_first(s, before, order[p], order[a]));
                }
            }
        }
        assert forall|k: int| 0 <= k < rest.len() implies 0 <= #[trigger] rest[k] < n - 1 by {
            if k < p {
                assert(rest[k] == order[k]);
            } else {
                assert(rest[k] == order[k + 1]);
            }
        }
        assert forall|i: int| 0 <= i < n - 1 implies #[trigger] rest.contains(i) by {
            assert(order.contains(i));
            let k = choose|k: int| 0 <= k < order.len() && order[k] == i;
            if k < p {
                assert(rest[k] == i);
            } else {
                assert(rest[k - 1] == i);
            }
        }
        assert forall|a: int, b: int| 0 <= a < b < rest.len() implies goes_first(
            short,
            before,
            #[trigger] rest[a],
            #[trigger] rest[b],
        ) by {
            let a2 = if a < p { a } else { a + 1 };
            let b2 = if b < p { b } else { b + 1 };
            assert(rest[a] == order[a2] && rest[b] == order[b2]);
            assert(goes_first(s, before, order[a2], order[b2]));
        }
        lemma_listing_is_stable_sort(rest, short, before);
        let v = rest.map_values(|i: int| short[i]);
        assert forall|k: int| 0 <= k < p implies !before(x, #[trigger] v[k]) by {
            assert(rest[k] == order[k]);
            assert(goes_first(s, before, order[k], order[p]));
        }
        assert forall|k: int| p <= k < v.len() implies before(x, #[trigger] v[k]) by {
            assert(rest[k] == order[k + 1]);
            assert(goes_first(s, before, order[p], order[k + 1]));
        }
        lemma_insert_position(v, x, p, before);
        assert forall|k: int| 0 <= k < n implies order.map_values(at)[k] == #[trigger] v.insert(
            p,
            x,
        )[k] by {
            if k < p {
                assert(rest[k] == order[k]);
            } else if k > p {
                assert(rest[k - 1] == order[k]);
            }
        }
        assert(order.map_values(at) =~= v.insert(p, x));
    }
}

/// Items that can be compared by position.
pub(crate) trait Ranked {
    type Item;

    /// The items.
    spec fn items(&self) -> Seq<Self::Item>;

    /// Which item comes before which.
    spec fn order(&self) -> spec_fn(Self::Item, Self::Item) -> bool;

    proof fn ranks(&self)
        ensures
            weak_order(self.order()),
    ;

    fn comes_before(&self, i: usize, j: usize) -> (before: bool)
        requires
            i < self.items().len(),
            j < self.items().len(),
        ensures
            before == self.order()(self.items()[i as int], self.items()[j as int]),
    ;
}

/// Positions as mathematical integers.
spec fn positions(order: Seq<usize>) -> Seq<int> {
    order.map_values(|i: usize| i as int)
}

proof fn lemma_goes_first_transitive<T>(
    s: Seq<T>,
    before: spec_fn(T, T) -> bool,
    i: int,
    j: int,
    k: int,
)
    requires
        weak_order(before),
        goes_first(s, before, i, j),
        goes_first(s, before, j, k),
    ensures
        goes_first(s, before, i, k),
{
    let (x, y, z) = (s[i], s[j], s[k]);
    if before(x, y) {
        assert(before(x, z) || before(z, y));
        if before(z, y) {
            assert(!before(y, z));
            assert(before(z, x) || before(x, y));
            assert(before(x, z));
        }
    } else if before(y, z) {
        assert(before(y, x) || before(x, z));
    } else {
        if before(z, x) {
            assert(before(z, y) || before(y, x));
        }
    }
}

fn merge<R: Ranked>(ranked: &R, left: &Vec<usize>, right: &Vec<usize>, lo: usize, mid: usize, hi: usize) -> (out: Vec<usize>)
    requires
        lo <= mid <= hi <= ranked.items().len(),
        lists_sorted(positions(left@), ranked.items(), lo as int, mid as int, ranked.order()),
        lists_sorted(positions(right@), ranked.items(), mid as int, hi as int, ranked.order()),
    ensures
        lists_sorted(positions(out@), ranked.items(), lo as int, hi as int, ranked.order()),
{
    let ghost s = ranked.items();
    let ghost before = ranked.order();
    let ghost l = positions(left@);
    let ghost r = positions(right@);
    proof {
        ranked.ranks();
    }
    let mut out: Vec<usize> = Vec::new();
    let mut a: usize = 0;
    let mut b: usize = 0;
    while a < left.len() || b < right.len()
        invariant
            weak_order(before),
            s == ranked.items(),
            before == ranked.order(),
            l == positions(left@),
            r == positions(right@),
            lo <= mid <= hi <= s.len(),
            lists_sorted(l, s, lo as int, mid as int, before),
            lists_sorted(r, s, mid as int, hi as int, before),
            a <= left@.len(),
            b <= right@.len(),
            out@.len() == a + b,
            forall|k: int| 0 <= k < out@.len() ==> lo <= #[trigger] out@[k] < hi,
            forall|k: int| 0 <= k < a ==> out@.contains(#[trigger] left@[k]),
            forall|k: int| 0 <= k < b ==> out@.contains(#[trigger] right@[k]),
            forall|x: int, y: int|
                0 <= x < y < out@.len() ==> goes_first(
                    s,
                    before,
                    #[trigger] out@[x] as int,
                    #[trigger] out@[y] as int,
                ),
            forall|x: int, k: int|
                0 <= x < out@.len() && a <= k < left@.len() ==> goes_first(
                    s,
                    before,
                    #[trigger] out@[x] as int,
                    #[trigger] left@[k] as int,
                ),
            forall|x: int, k: int|
                0 <= x < out@.len() && b <= k < right@.len() ==> goes_first(
                    s,
                    before,
                    #[trigger] out@[x] as int,
                    #[trigger] right@[k] as int,
                ),
        decreases left@.len() - a + right@.len() - b,
    {
        let ghost old_out = out@;
        assert(a < left@.len() ==> l[a as int] == left@[a as int]);
        assert(b < right@.len() ==> r[b as int] == right@[b as int]);
        let take_right = a >= left.len() || (b < right.len() && ranked.comes_before(
            right[b],
            left[a],
        ));
        if take_right {
            let x = right[b];
            out.push(x);
            proof {
                assert forall|k: int| a <= k < left@.len() implies goes_first(
                    s,
                    before,
                    x as int,
                    #[trigger] left@[k] as int,
                ) by {
                    assert(l[k] == left@[k]);
                    if k > a {
                        assert(goes_first(s, before, l[a as int], l[k]));
                        lemma_goes_first_transitive(s, before, x as int, l[a as int], l[k]);
                    }
                }
                assert forall|k: int| b < k < right@.len() implies goes_first(
                    s,
                    before,
                    x as int,
                    #[trigger] right@[k] as int,
                ) by {
                    assert(goes_first(s, before, r[b as int], r[k]));
                }
                assert(out@[old_out.len() as int] == x);
                assert forall|v: usize| old_out.contains(v) implies out@.contains(v) by {
                    let k = choose|k: int| 0 <= k < old_out.len() && old_out[k] == v;
                    assert(out@[k] == v);
                }
            }
            b += 1;
        } else {
            let x = left[a];
            out.push(x);
            proof {
                assert forall|k: int| b <= k < right@.len() implies goes_first(
                    s,
                    before,
                    x as int,
                    #[trigger] right@[k] as int,
                ) by {
                    assert(r[k] == right@[k]);
                    assert(goes_first(s, before, x as int, r[b as int]));
                    if k > b {
                        assert(goes_first(s, before, r[b as int], r[k]));
                        lemma_goes_first_transitive(s, before, x as int, r[b as int], r[k]);
                    }
                }
                assert forall|k: int| a < k < left@.len() implies goes_first(
                    s,
                    before,
                    x as int,
                    #[trigger] left@[k] as int,
                ) by {
                    assert(goes_first(s, before, l[a as int], l[k]));
                }
                assert(out@[old_out.len() as int] == x);
                assert forall|v: usize| old_out.contains(v) implies out@.contains(v) by {
                    let k = choose|k: int| 0 <= k < old_out.len() && old_out[k] == v;
                    assert(out@[k] == v);
                }
            }
            a += 1;
        }
    }
    proof {
        let o = positions(out@);
        assert forall|i: int| lo <= i < hi implies #[trigger] o.contains(i) by {
            if i < mid {
                assert(l.contains(i));
                let k = choose|k: int| 0 <= k < l.len() && l[k] == i;
                assert(out@.contains(left@[k]));
                let m = choose|m: int| 0 <= m < out@.len() && out@[m] == left@[k];
                assert(o[m] == i);
            } else {
                assert(r.contains(i));
                let k = choose|k: int| 0 <= k < r.len() && r[k] == i;
                assert(out@.contains(right@[k]));
                let m = choose|m: int| 0 <= m < out@.len() && out@[m] == right@[k];
                assert(o[m] == i);
            }
        }
    }
    out
}

fn sort_range<R: Ranked>(ranked: &R, lo: usize, hi: usize) -> (order: Vec<usize>)
    requires
        lo <= hi <= ranked.items().len(),
    ensures
        lists_sorted(positions(order@), ranked.items(), lo as int, hi as int, ranked.order()),
    decreases hi - lo,
{
    if lo == hi {
        Vec::new()
    } else if hi - lo == 1 {
        let mut order: Vec<usize> = Vec::new();
        order.push(lo);
        assert(positions(order@)[0] == lo);
        order
    } else {
        let mid = lo + (hi - lo) / 2;
        let left = sort_range(ranked, lo, mid);
        let right = sort_range(ranked, mid, hi);
        merge(ranked, &left, &right, lo, mid, hi)
    }
}

/// The positions of `n` ranked items in the order of a stable sort.
pub(crate) fn sorted_order<R: Ranked>(ranked: &R, n: usize) -> (order: Vec<usize>)
    requires
        n == ranked.items().len(),
    ensures
        order@.len() == n,
        forall|k: int| 0 <= k < n ==> #[trigger] order@[k] < n,
        order@.map_values(|i: usize| ranked.items()[i as int]) == stable_sort(
            ranked.items(),
            ranked.order(),
        ),
{
    let order = sort_range(ranked, 0, n);
    proof {
        ranked.ranks();
        let s = ranked.items();
        let o = positions(order@);
        lemma_listing_is_stable_sort(o, s, ranked.order());
        assert(order@.map_values(|i: usize| s[i as int]) =~= o.map_values(|i: int| s[i]));
        assert forall|k: int| 0 <= k < n implies #[trigger] order@[k] < n by {
            assert(o[k] == order@[k]);
        }
    }
    order
}

proof fn lemma_insert_sorted<T>(s: Seq<T>, x: T, before: spec_fn(T, T) -> bool)
    requires
        weak_order(before),
        sorted(s, before),
    ensures
        sorted(insert_sorted(s, x, before), before),
        insert_sorted(s, x, before).to_multiset() == s.push(x).to_multiset(),
    decreases s.len(),
{
    broadcast use vstd::seq_lib::group_to_multiset_ensures;

    let all = insert_sorted(s, x, before);
    if s.len() > 0 && before(x, s.last()) {
        let short = s.drop_last();
        let y = s.last();
        let part = insert_sorted(short, x, before);
        lemma_insert_sorted(short, x, before);
        assert(s =~= short.push(y));
        assert(all.to_multiset() =~= s.push(x).to_multiset());
        assert forall|i: int, j: int| 0 <= i < j < all.len() implies !before(
            #[trigger] all[j],
            #[trigger] all[i],
        ) by {
            if j == all.len() - 1 {
                assert(part[i] == all[i]);
                assert(part.to_multiset().count(part[i]) > 0) by {
                    assert(part.contains(part[i]));
                }
                assert(short.push(x).contains(part[i]));
                let k = choose|k: int| 0 <= k < short.push(x).len() && short.push(x)[k] == part[i];
                if k < short.len() {
                    assert(s[k] == part[i]);
                    assert(!before(s[s.len() - 1], s[k]));
                }
            } else {
                assert(part[i] == all[i] && part[j] == all[j]);
            }
        }
    } else {
        assert forall|i: int, j: int| 0 <= i < j < all.len() implies !before(
            #[trigger] all[j],
            #[trigger] all[i],
        ) by {
            if j == all.len() - 1 {
                let k = s.len() - 1;
                if i < k {
                    assert(!before(s[k], s[i]));
                }
                if before(x, s[i]) {
                    assert(before(x, s[k]) || before(s[k], s[i]));
                }
            } else {
                assert(s[i] == all[i] && s[j] == all[j]);
            }
        }
    }
}

/// Whether no item comes before an earlier one.
pub open spec fn sorted<T>(s: Seq<T>, before: spec_fn(T, T) -> bool) -> bool {
    forall|i: int, j: int|
        0 <= i < j < s.len() ==> !before(#[trigger] s[j], #[trigger] s[i])
}

/// Sorting puts the items in order and keeps each of them.
pub proof fn law_stable_sort<T>(s: Seq<T>, before: spec_fn(T, T) -> bool)
    requires
        weak_order(before),
    ensures
        sorted(stable_sort(s, before), before),
        stable_sort(s, before).to_multiset() == s.to_multiset(),
        stable_sort(s, before).len() == s.len(),
    decreases s.len(),
{
    broadcast use vstd::seq_lib::group_to_multiset_ensures;

    if s.len() > 0 {
        let short = stable_sort(s.drop_last(), before);
        law_stable_sort(s.drop_last(), before);
        lemma_insert_sorted(short, s.last(), before);
        assert(s =~= s.drop_last().push(s.last()));
        assert(stable_sort(s, before).to_multiset() =~= s.to_multiset());
    }
    vstd::seq_lib::to_multiset_len(s);
    vstd::seq_lib::to_multiset_len(stable_sort(s, before));
}

/// Sorting keeps the order of items of which neither comes before the other: those that rank like
/// `x` stand in the sorted sequence as they stood before.
pub proof fn law_sort_is_stable<T>(s: Seq<T>, before: spec_fn(T, T) -> bool, x: T)
    requires
        weak_order(before),
    ensures
        stable_sort(s, before).filter(|y: T| !before(x, y) && !before(y, x)) == s.filter(
            |y: T| !before(x, y) && !before(y, x),
        ),
    decreases s.len(),
{
    reveal(Seq::filter);
    let like = |y: T| !before(x, y) && !before(y, x);
    if s.len() > 0 {
        let short = stable_sort(s.drop_last(), before);
        law_sort_is_stable(s.drop_last(), before, x);
        law_stable_sort(s.drop_last(), before);
        lemma_insert_behind_likes(short, s.last(), before, x);
    }
}

/// An item that is put in goes behind those that it ranks like.
proof fn lemma_insert_behind_likes<T>(s: Seq<T>, y: T, before: spec_fn(T, T) -> bool, x: T)
    requires
        weak_order(before),
        sorted(s, before),
    ensures
        insert_sorted(s, y, before).filter(|z: T| !before(x, z) && !before(z, x)) == if !before(
            x,
            y,
        ) && !before(y, x) {
            s.filter(|z: T| !before(x, z) && !before(z, x)).push(y)
        } else {
            s.filter(|z: T| !before(x, z) && !before(z, x))
        },
    decreases s.len(),
{
    reveal(Seq::filter);
    let like = |z: T| !before(x, z) && !before(z, x);
    let all = insert_sorted(s, y, before);
    if s.len() > 0 && before(y, s.last()) {
        let short = s.drop_last();
        assert forall|i: int, j: int| 0 <= i < j < short.len() implies !before(
            #[trigger] short[j],
            #[trigger] short[i],
        ) by {
            assert(!before(s[j], s[i]));
        }
        lemma_insert_behind_likes(short, y, before, x);
        assert(all.drop_last() =~= insert_sorted(short, y, before));
        assert(all.last() == s.last());
        if like(y) && like(s.last()) {
            assert(before(y, x) || before(x, s.last()));
        }
    } else {
        assert(all.drop_last() =~= s);
    }
}

/// Sorting gives as many items, each of them one of those that were given, and no others.
pub proof fn law_sort_keeps_items<T>(s: Seq<T>, before: spec_fn(T, T) -> bool, x: T)
    requires
        weak_order(before),
    ensures
        stable_sort(s, before).len() == s.len(),
        stable_sort(s, before).contains(x) <==> s.contains(x),
{
    broadcast use vstd::seq_lib::group_to_multiset_ensures;

    law_stable_sort(s, before);
    let t = stable_sort(s, before);
    assert(t.contains(x) <==> t.to_multiset().count(x) > 0);
    assert(s.contains(x) <==> s.to_multiset().count(x) > 0);
}

} // verus!
