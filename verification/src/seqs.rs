//! Facts about sequences.

use vstd::prelude::*;

verus! {

/// Filtering and mapping two sequences in a row is the same as doing it to each.
pub proof fn lemma_filter_map_add<A, B>(a: Seq<A>, b: Seq<A>, f: spec_fn(A) -> Option<B>)
    ensures
        (a + b).filter_map(f) == a.filter_map(f) + b.filter_map(f),
    decreases b.len(),
{
    if b.len() == 0 {
        assert(a + b =~= a);
        assert(a.filter_map(f) + b.filter_map(f) =~= a.filter_map(f));
    } else {
        lemma_filter_map_add(a, b.drop_last(), f);
        assert((a + b).drop_last() =~= a + b.drop_last());
        assert((a + b).filter_map(f) =~= a.filter_map(f) + b.filter_map(f));
    }
}

/// An item of a sequence is one of each rearrangement.
pub proof fn lemma_rearranged_holds<A>(a: Seq<A>, b: Seq<A>, i: int)
    requires
        a.to_multiset() == b.to_multiset(),
        0 <= i < a.len(),
    ensures
        b.contains(a[i]),
{
    broadcast use vstd::seq_lib::group_to_multiset_ensures;

    assert(a.contains(a[i]));
    assert(a.to_multiset().count(a[i]) > 0);
}

/// What an item maps to is among what filtering and mapping its sequence gives.
pub proof fn lemma_filter_map_holds<A, B>(s: Seq<A>, f: spec_fn(A) -> Option<B>, i: int)
    requires
        0 <= i < s.len(),
        f(s[i]) is Some,
    ensures
        s.filter_map(f).contains(f(s[i])->0),
    decreases s.len(),
{
    reveal(Seq::filter_map);
    let all = s.filter_map(f);
    let rest = s.drop_last();
    if i < rest.len() {
        lemma_filter_map_holds(rest, f, i);
        let part = rest.filter_map(f);
        let k = choose|k: int| 0 <= k < part.len() && part[k] == f(s[i])->0;
        assert(all[k] == part[k]);
    } else {
        assert(all.last() == f(s[i])->0);
    }
}

/// Two results of filtering and mapping a sequence come from different places of it.
pub proof fn lemma_filter_map_apart<A, B>(
    s: Seq<A>,
    f: spec_fn(A) -> Option<B>,
    i: int,
    j: int,
) -> (at: (int, int))
    requires
        0 <= i < j < s.filter_map(f).len(),
    ensures
        0 <= at.0 < at.1 < s.len(),
        f(s[at.0]) == Some(s.filter_map(f)[i]),
        f(s[at.1]) == Some(s.filter_map(f)[j]),
    decreases s.len(),
{
    reveal(Seq::filter_map);
    let rest = s.drop_last();
    let part = rest.filter_map(f);
    if j < part.len() {
        let at = lemma_filter_map_apart(rest, f, i, j);
        assert(rest[at.0] == s[at.0] && rest[at.1] == s[at.1]);
        at
    } else {
        assert(part.contains(part[i]));
        rest.lemma_filter_map_contains(f, part[i]);
        let x = choose|x: A| #[trigger] rest.contains(x) && f(x) == Some(part[i]);
        let a = choose|a: int| 0 <= a < rest.len() && rest[a] == x;
        (a, s.len() - 1)
    }
}

/// Mapping rearranged sequences gives rearranged sequences.
pub proof fn lemma_map_rearranged<A, B>(a: Seq<A>, b: Seq<A>, f: spec_fn(A) -> B)
    requires
        a.to_multiset() == b.to_multiset(),
    ensures
        a.map_values(f).to_multiset() == b.map_values(f).to_multiset(),
{
    let g = |x: A| Some(f(x));
    lemma_map_is_filter_map(a, f);
    lemma_map_is_filter_map(b, f);
    lemma_filter_map_rearranged(a, b, g);
}

proof fn lemma_map_is_filter_map<A, B>(s: Seq<A>, f: spec_fn(A) -> B)
    ensures
        s.map_values(f) == s.filter_map(|x: A| Some(f(x))),
    decreases s.len(),
{
    reveal(Seq::filter_map);
    if s.len() > 0 {
        lemma_map_is_filter_map(s.drop_last(), f);
        assert(s.map_values(f) =~= s.drop_last().map_values(f) + seq![f(s.last())]);
    } else {
        assert(s.map_values(f) =~= Seq::<B>::empty());
    }
}

/// A sequence around one of its items.
pub proof fn lemma_split_around<A>(s: Seq<A>, j: int)
    requires
        0 <= j < s.len(),
    ensures
        s == s.take(j) + seq![s[j]] + s.skip(j + 1),
        s.remove(j) == s.take(j) + s.skip(j + 1),
{
    assert(s =~= s.take(j) + seq![s[j]] + s.skip(j + 1));
    assert(s.remove(j) =~= s.take(j) + s.skip(j + 1));
}

/// Where the last item of `a` stands in a rearrangement `b`, and that the rest of `b` rearranges
/// the rest of `a`.
pub proof fn lemma_rearranged_last<A>(a: Seq<A>, b: Seq<A>) -> (j: int)
    requires
        a.len() > 0,
        a.to_multiset() == b.to_multiset(),
    ensures
        0 <= j < b.len(),
        b[j] == a.last(),
        a.drop_last().to_multiset() == b.remove(j).to_multiset(),
{
    broadcast use vstd::seq_lib::group_to_multiset_ensures;

    assert(a.to_multiset().count(a.last()) > 0) by {
        assert(a.contains(a.last()));
    }
    assert(b.contains(a.last()));
    let j = choose|j: int| 0 <= j < b.len() && b[j] == a.last();
    assert(a.drop_last() =~= a.remove(a.len() - 1));
    j
}

/// Rearranging a sequence rearranges what filtering and mapping it gives.
pub proof fn lemma_filter_map_rearranged<A, B>(a: Seq<A>, b: Seq<A>, f: spec_fn(A) -> Option<B>)
    requires
        a.to_multiset() == b.to_multiset(),
    ensures
        a.filter_map(f).to_multiset() == b.filter_map(f).to_multiset(),
    decreases a.len(),
{
    broadcast use vstd::seq_lib::group_to_multiset_ensures;

    if a.len() == 0 {
        vstd::seq_lib::to_multiset_len(a);
        vstd::seq_lib::to_multiset_len(b);
        assert(a =~= b);
    } else {
        let j = lemma_rearranged_last(a, b);
        let rest = b.remove(j);
        lemma_filter_map_rearranged(a.drop_last(), rest, f);
        let (left, right) = (b.take(j), b.skip(j + 1));
        lemma_split_around(b, j);
        lemma_filter_map_add(left + seq![b[j]], right, f);
        lemma_filter_map_add(left, seq![b[j]], f);
        lemma_filter_map_add(left, right, f);
        let (fl, fr) = (left.filter_map(f), right.filter_map(f));
        Seq::<A>::lemma_filter_map_singleton(b[j], f);
        vstd::seq_lib::lemma_multiset_commutative(fl, fr);
        match f(b[j]) {
            Some(x) => {
                vstd::seq_lib::lemma_multiset_commutative(fl + seq![x], fr);
                vstd::seq_lib::lemma_multiset_commutative(fl, seq![x]);
                assert(a.filter_map(f) =~= a.drop_last().filter_map(f).push(x));
                assert(seq![x] =~= Seq::<B>::empty().push(x));
                assert(b.filter_map(f).to_multiset() =~= a.filter_map(f).to_multiset());
            },
            None => {
                assert(fl + Seq::<B>::empty() =~= fl);
                assert(b.filter_map(f).to_multiset() =~= a.filter_map(f).to_multiset());
            },
        }
    }
}

/// Two items of a sequence that map to something stand at different places of what filtering and
/// mapping it gives, in order.
pub proof fn lemma_filter_map_pair<A, B>(
    s: Seq<A>,
    f: spec_fn(A) -> Option<B>,
    i: int,
    j: int,
) -> (at: (int, int))
    requires
        0 <= i < j < s.len(),
        f(s[i]) is Some,
        f(s[j]) is Some,
    ensures
        0 <= at.0 < at.1 < s.filter_map(f).len(),
        s.filter_map(f)[at.0] == f(s[i])->0,
        s.filter_map(f)[at.1] == f(s[j])->0,
    decreases s.len(),
{
    reveal(Seq::filter_map);
    let rest = s.drop_last();
    let part = rest.filter_map(f);
    let all = s.filter_map(f);
    if j < rest.len() {
        let at = lemma_filter_map_pair(rest, f, i, j);
        assert(all[at.0] == part[at.0] && all[at.1] == part[at.1]);
        at
    } else {
        lemma_filter_map_holds(rest, f, i);
        let a = choose|a: int| 0 <= a < part.len() && part[a] == f(s[i])->0;
        assert(all[a] == part[a]);
        (a, part.len() as int)
    }
}

/// Two items of a sequence that stay in it when it is filtered stand at different places there.
pub proof fn lemma_filter_pair<A>(s: Seq<A>, p: spec_fn(A) -> bool, i: int, j: int) -> (at: (
    int,
    int,
))
    requires
        0 <= i < j < s.len(),
        p(s[i]),
        p(s[j]),
    ensures
        0 <= at.0 < at.1 < s.filter(p).len(),
        s.filter(p)[at.0] == s[i],
        s.filter(p)[at.1] == s[j],
    decreases s.len(),
{
    reveal(Seq::filter);
    let rest = s.drop_last();
    let part = rest.filter(p);
    let all = s.filter(p);
    if j < rest.len() {
        let at = lemma_filter_pair(rest, p, i, j);
        assert(all[at.0] == part[at.0] && all[at.1] == part[at.1]);
        at
    } else {
        rest.lemma_filter_contains(p, i);
        let a = choose|a: int| 0 <= a < part.len() && part[a] == rest[i];
        assert(all[a] == part[a]);
        (a, part.len() as int)
    }
}

/// Two items that are left of a filtered sequence come from different places of it, in order.
pub proof fn lemma_filter_apart<A>(s: Seq<A>, p: spec_fn(A) -> bool, i: int, j: int) -> (at: (
    int,
    int,
))
    requires
        0 <= i < j < s.filter(p).len(),
    ensures
        0 <= at.0 < at.1 < s.len(),
        s[at.0] == s.filter(p)[i],
        s[at.1] == s.filter(p)[j],
    decreases s.len(),
{
    reveal(Seq::filter);
    let rest = s.drop_last();
    let part = rest.filter(p);
    if j < part.len() {
        let at = lemma_filter_apart(rest, p, i, j);
        assert(rest[at.0] == s[at.0] && rest[at.1] == s[at.1]);
        at
    } else {
        assert(part.contains(part[i]));
        rest.lemma_filter_contains_rev(p, part[i]);
        let a = choose|a: int| 0 <= a < rest.len() && rest[a] == part[i];
        assert(s[a] == rest[a]);
        (a, s.len() - 1)
    }
}

} // verus!
