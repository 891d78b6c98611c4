//! Rendering the result of a scan.

use crate::error::ErrorView;
use crate::model::{
    entries_view, groups_view, paths_view, DuplicateGroup, EntryKind, EntryView, FileEntry,
    GroupView, ResultView, ScanResult,
};
use crate::path::{FilePath, PathView};
use crate::order::{law_sort_is_stable, law_stable_sort, sorted_order, stable_sort, Ranked};
use crate::seqs::{lemma_rearranged_holds, lemma_rearranged_last, lemma_split_around};
use crate::tree::{render_tree, tree_lines, tree_of};
use crate::text::{
    decimal, hex_digit, law_hex_digit, padded, push_decimal, push_hex, push_padded,
};
use vstd::prelude::*;
use vstd::string::*;

verus! {

/// `n / d` rounded to the nearest integer, and to the even one in the middle.
pub open spec fn nearest(n: nat, d: nat) -> nat {
    let q = n / d;
    let r = n % d;
    if 2 * r > d || (2 * r == d && q % 2 == 1) {
        q + 1
    } else {
        q
    }
}

/// The distance of the numbers near `n` that 53 binary digits can write.
pub open spec fn spacing(n: nat) -> nat
    decreases n,
{
    if n < 0x20_0000_0000_0000 {
        1
    } else {
        2 * spacing(n / 2)
    }
}

/// `n` rounded to 53 binary digits.
pub open spec fn rounded(n: nat) -> nat {
    nearest(n, spacing(n)) * spacing(n)
}

/// How many bytes the unit has that a size is shown in.
pub open spec fn shown_unit(bytes: nat) -> nat {
    if bytes < 1024 {
        1
    } else if bytes < 1024 * 1024 {
        1024
    } else if bytes < 1024 * 1024 * 1024 {
        1024 * 1024
    } else if bytes < 1024 * 1024 * 1024 * 1024 {
        1024 * 1024 * 1024
    } else {
        1024 * 1024 * 1024 * 1024
    }
}

/// The name of the unit that a size is shown in.
pub open spec fn unit_name(bytes: nat) -> Seq<char> {
    if bytes < 1024 {
        " B"@
    } else if bytes < 1024 * 1024 {
        " KB"@
    } else if bytes < 1024 * 1024 * 1024 {
        " MB"@
    } else if bytes < 1024 * 1024 * 1024 * 1024 {
        " GB"@
    } else {
        " TB"@
    }
}

/// A size in tenths of the unit that it is shown in.
pub open spec fn tenths(bytes: nat) -> nat {
    nearest(rounded(bytes) * 10, shown_unit(bytes))
}

/// A size as it is shown.
pub open spec fn size_text(bytes: nat) -> Seq<char> {
    if bytes < 1024 {
        decimal(bytes) + unit_name(bytes)
    } else {
        decimal(tenths(bytes) / 10) + "."@ + decimal(tenths(bytes) % 10) + unit_name(bytes)
    }
}

proof fn lemma_spacing(n: nat)
    requires
        n > 0,
    ensures
        1 <= spacing(n) <= n,
    decreases n,
{
    if n >= 0x20_0000_0000_0000 {
        lemma_spacing(n / 2);
    }
}

fn spacing_of(n: u64) -> (s: u64)
    ensures
        s == spacing(n as nat),
    decreases n,
{
    if n < 0x20_0000_0000_0000 {
        1
    } else {
        proof {
            lemma_spacing((n / 2) as nat);
        }
        2 * spacing_of(n / 2)
    }
}

fn nearest_of(n: u128, d: u128) -> (q: u128)
    requires
        0 < d <= u64::MAX,
        n < 0x1_0000_0000_0000_0000_0000_0000,
    ensures
        q == nearest(n as nat, d as nat),
        q <= n / d + 1,
{
    proof {
        assert(n / d <= n && n % d < d) by (nonlinear_arith)
            requires
                d > 0,
        ;
    }
    let q = n / d;
    let r = n % d;
    if 2 * r > d || (2 * r == d && q % 2 == 1) {
        q + 1
    } else {
        q
    }
}

/// A size in a form to be read: 1536 is `1.5 KB`.
///
/// The size is rounded to 53 binary digits first, then to a tenth of the largest unit that it
/// reaches.
pub fn human_size(bytes: u64) -> (text: String)
    ensures
        text@ == size_text(bytes as nat),
{
    let mut text = String::new();
    if bytes < 1024 {
        push_decimal(&mut text, bytes);
        text.append(" B");
        assert(text@ =~= size_text(bytes as nat));
        return text;
    }
    let step = spacing_of(bytes);
    proof {
        lemma_spacing(bytes as nat);
    }
    let count = nearest_of(bytes as u128, step as u128);
    proof {
        assert(count * step <= bytes + step) by (nonlinear_arith)
            requires
                count <= bytes as u128 / step as u128 + 1,
                step > 0,
        ;
    }
    let near = count * step as u128;
    let unit: u64 = if bytes < 1024 * 1024 {
        1024
    } else if bytes < 1024 * 1024 * 1024 {
        1024 * 1024
    } else if bytes < 1024 * 1024 * 1024 * 1024 {
        1024 * 1024 * 1024
    } else {
        1024 * 1024 * 1024 * 1024
    };
    let tenths = nearest_of(near * 10, unit as u128);
    proof {
        let n = near * 10;
        let d = unit as int;
        assert(n / d <= n / 1024) by (nonlinear_arith)
            requires
                d >= 1024,
                n >= 0,
        ;
    }
    push_decimal(&mut text, (tenths / 10) as u64);
    text.append(".");
    push_decimal(&mut text, (tenths % 10) as u64);
    text.append(
        if bytes < 1024 * 1024 {
            " KB"
        } else if bytes < 1024 * 1024 * 1024 {
            " MB"
        } else if bytes < 1024 * 1024 * 1024 * 1024 {
            " GB"
        } else {
            " TB"
        },
    );
    assert(text@ =~= size_text(bytes as nat));
    text
}

/// A size is rounded to 53 binary digits, which changes none below 2 to the power of 53, and then
/// to the nearest tenth of its unit.
pub proof fn law_size_is_near(bytes: u64)
    ensures
        bytes < 0x20_0000_0000_0000 ==> rounded(bytes as nat) == bytes,
        -(spacing(bytes as nat) as int) <= 2 * (rounded(bytes as nat) - bytes) <= spacing(
            bytes as nat,
        ),
        -(shown_unit(bytes as nat) as int) <= 2 * (tenths(bytes as nat) * shown_unit(bytes as nat)
            - rounded(bytes as nat) * 10) <= shown_unit(bytes as nat),
{
    if bytes > 0 {
        lemma_spacing(bytes as nat);
    }
    lemma_nearest(bytes as nat, spacing(bytes as nat));
    lemma_nearest(rounded(bytes as nat) * 10, shown_unit(bytes as nat));
}

proof fn lemma_nearest(n: nat, d: nat)
    requires
        d > 0,
    ensures
        -(d as int) <= 2 * (nearest(n, d) * d - n) <= d,
        d == 1 ==> nearest(n, d) == n,
{
    let q = n / d;
    let r = n % d;
    assert(n == q * d + r && r < d) by (nonlinear_arith)
        requires
            d > 0,
            q == n / d,
            r == n % d,
    ;
    assert((q + 1) * d == q * d + d) by (nonlinear_arith);
}

/// Entries by size, the largest first.
pub open spec fn larger() -> spec_fn(EntryView, EntryView) -> bool {
    |a: EntryView, b: EntryView| a.size > b.size
}

/// The first `top` items, or all where there are fewer.
pub open spec fn first_of<T>(s: Seq<T>, top: nat) -> Seq<T> {
    s.take(if top < s.len() {
        top as int
    } else {
        s.len() as int
    })
}

/// The `top` largest entries, the largest first; entries of one size keep their order.
pub open spec fn top_of(entries: Seq<EntryView>, top: nat) -> Seq<EntryView> {
    first_of(stable_sort(entries, larger()), top)
}

struct BySize<'a> {
    entries: &'a Vec<FileEntry>,
}

impl<'a> Ranked for BySize<'a> {
    type Item = EntryView;

    closed spec fn items(&self) -> Seq<EntryView> {
        entries_view(self.entries@)
    }

    closed spec fn order(&self) -> spec_fn(EntryView, EntryView) -> bool {
        larger()
    }

    proof fn ranks(&self) {
    }

    fn comes_before(&self, i: usize, j: usize) -> (before: bool) {
        self.entries[i].size > self.entries[j].size
    }
}

/// The `top` largest entries, the largest first.
pub fn top_entries(entries: &Vec<FileEntry>, top: usize) -> (largest: Vec<&FileEntry>)
    ensures
        largest@.map_values(|e: &FileEntry| e@) == top_of(entries_view(entries@), top as nat),
{
    let ghost all = entries_view(entries@);
    let order = sorted_order(&BySize { entries }, entries.len());
    let ghost ranking = stable_sort(all, larger());
    assert(order@.map_values(|i: usize| all[i as int]) == ranking);
    let n = if top < order.len() {
        top
    } else {
        order.len()
    };
    let mut largest: Vec<&FileEntry> = Vec::new();
    for k in 0..n
        invariant
            n <= order@.len(),
            all == entries_view(entries@),
            forall|k: int| 0 <= k < order@.len() ==> #[trigger] order@[k] < entries@.len(),
            ranking == order@.map_values(|i: usize| all[i as int]),
            largest@.len() == k,
            forall|j: int| 0 <= j < k ==> (#[trigger] largest@[j])@ == ranking[j],
    {
        largest.push(&entries[order[k]]);
        assert(ranking[k as int] == all[order@[k as int] as int]);
    }
    assert(largest@.map_values(|e: &FileEntry| e@) =~= top_of(all, top as nat));
    largest
}

/// The largest entries come in order, none is larger than the last of them but for themselves,
/// and there are as many as asked for, or all.
pub proof fn law_top_entries(entries: Seq<EntryView>, top: nat)
    ensures
        top_of(entries, top).len() == if top < entries.len() {
            top
        } else {
            entries.len()
        },
        forall|i: int, j: int|
            0 <= i < j < top_of(entries, top).len() ==> (#[trigger] top_of(entries, top)[i]).size
                >= (#[trigger] top_of(entries, top)[j]).size,
        top_of(entries, top).to_multiset().subset_of(entries.to_multiset()),
        forall|i: int, k: int|
            0 <= i < top_of(entries, top).len() && top <= k < entries.len() ==> (
            #[trigger] top_of(entries, top)[i]).size >= (#[trigger] stable_sort(
                entries,
                larger(),
            )[k]).size,
{
    broadcast use vstd::seq_lib::group_to_multiset_ensures;

    let all = stable_sort(entries, larger());
    law_stable_sort(entries, larger());
    let n = top_of(entries, top).len() as int;
    assert(all =~= all.take(n) + all.skip(n));
    vstd::seq_lib::lemma_multiset_commutative(all.take(n), all.skip(n));
    assert forall|i: int, j: int| 0 <= i < j < n implies (#[trigger] top_of(entries, top)[i]).size
        >= (#[trigger] top_of(entries, top)[j]).size by {
        assert(!larger()(all[j], all[i]));
    }
    assert forall|i: int, k: int| 0 <= i < n && top <= k < entries.len() implies (
    #[trigger] top_of(entries, top)[i]).size >= (#[trigger] all[k]).size by {
        assert(!larger()(all[k], all[i]));
    }
}

/// Lines of text.
pub open spec fn lines_view(lines: Seq<String>) -> Seq<Seq<char>> {
    lines.map_values(|line: String| line@)
}

/// What a report prints.
#[derive(Debug)]
pub struct Output {
    /// The lines for standard output.
    pub out: Vec<String>,
    /// The lines for standard error.
    pub err: Vec<String>,
}

/// What a report prints.
pub struct OutputView {
    pub out: Seq<Seq<char>>,
    pub err: Seq<Seq<char>>,
}

impl View for Output {
    type V = OutputView;

    open spec fn view(&self) -> OutputView {
        OutputView { out: lines_view(self.out@), err: lines_view(self.err@) }
    }
}

/// The line of the table for an entry.
pub open spec fn entry_line(entry: EntryView) -> Seq<char> {
    padded(size_text(entry.size as nat), 10) + "  "@ + entry.path.text()
}

/// The line of a warning.
pub open spec fn warning_line(warning: ErrorView) -> Seq<char> {
    "warning: "@ + warning.message()
}

/// Groups by the space that they free, the most first.
pub open spec fn frees_more() -> spec_fn(GroupView, GroupView) -> bool {
    |a: GroupView, b: GroupView| a.reclaimable() > b.reclaimable()
}

/// The space that groups free together.
pub open spec fn reclaimable_total(groups: Seq<GroupView>) -> int
    decreases groups.len(),
{
    if groups.len() == 0 {
        0
    } else {
        reclaimable_total(groups.drop_last()) + groups.last().reclaimable()
    }
}

/// Whether no group is empty and the space that groups free can be counted.
pub open spec fn groups_countable(groups: Seq<GroupView>) -> bool {
    &&& forall|i: int| 0 <= i < groups.len() ==> (#[trigger] groups[i]).paths.len() > 0
    &&& reclaimable_total(groups) <= u64::MAX
}

/// The first line of a group.
pub open spec fn group_line(group: GroupView) -> Seq<char> {
    size_text(group.size as nat) + " × "@ + decimal(group.paths.len()) + " 份（可回收 "@ + size_text(
        group.reclaimable() as nat,
    ) + "）"@
}

/// The lines of a group.
pub open spec fn group_lines(group: GroupView) -> Seq<Seq<char>> {
    seq![group_line(group)] + group.paths.map_values(|p: PathView| "  "@ + p.text())
}

/// The lines of groups, one after the other.
pub open spec fn all_group_lines(groups: Seq<GroupView>) -> Seq<Seq<char>>
    decreases groups.len(),
{
    if groups.len() == 0 {
        Seq::empty()
    } else {
        all_group_lines(groups.drop_last()) + group_lines(groups.last())
    }
}

/// The lines on duplicates.
pub open spec fn duplicate_lines(groups: Seq<GroupView>) -> Seq<Seq<char>> {
    if groups.len() == 0 {
        seq!["未发现重复文件"@]
    } else {
        all_group_lines(stable_sort(groups, frees_more())).push(
            "总计可回收: "@ + size_text(reclaimable_total(groups) as nat),
        )
    }
}

pub proof fn lemma_reclaimable_part(groups: Seq<GroupView>, n: int)
    requires
        0 <= n <= groups.len(),
        forall|i: int| 0 <= i < groups.len() ==> (#[trigger] groups[i]).paths.len() > 0,
    ensures
        0 <= reclaimable_total(groups.take(n)) <= reclaimable_total(groups),
        forall|i: int|
            0 <= i < groups.len() ==> 0 <= (#[trigger] groups[i]).reclaimable()
                <= reclaimable_total(groups),
    decreases groups.len(),
{
    if groups.len() > 0 {
        let rest = groups.drop_last();
        let last = groups.last();
        assert(groups[groups.len() - 1].paths.len() > 0);
        assert(last.reclaimable() >= 0) by (nonlinear_arith)
            requires
                last.reclaimable() == last.size * (last.paths.len() - 1),
                last.paths.len() > 0,
                last.size >= 0,
        ;
        assert forall|i: int| 0 <= i < rest.len() implies (#[trigger] rest[i]).paths.len()
            > 0 by {
            assert(groups[i].paths.len() > 0);
        }
        if n < groups.len() {
            lemma_reclaimable_part(rest, n);
            assert(rest.take(n) =~= groups.take(n));
        } else {
            lemma_reclaimable_part(rest, rest.len() as int);
            assert(rest.take(rest.len() as int) =~= rest);
            assert(groups.take(n) =~= groups);
        }
        assert forall|i: int| 0 <= i < groups.len() implies 0 <= (
        #[trigger] groups[i]).reclaimable() <= reclaimable_total(groups) by {
            if i < rest.len() {
                assert(rest[i].reclaimable() >= 0);
            }
        }
    } else {
        assert(groups.take(n) =~= groups);
    }
}

/// Groups sorted by the space that they free come in order, and each of them stays.
pub proof fn law_groups_by_freed(groups: Seq<GroupView>)
    ensures
        forall|i: int, j: int|
            0 <= i < j < groups.len() ==> (#[trigger] stable_sort(
                groups,
                frees_more(),
            )[i]).reclaimable() >= (#[trigger] stable_sort(groups, frees_more())[j]).reclaimable(),
        stable_sort(groups, frees_more()).to_multiset() == groups.to_multiset(),
{
    law_stable_sort(groups, frees_more());
    let sorted = stable_sort(groups, frees_more());
    assert forall|i: int, j: int| 0 <= i < j < groups.len() implies (
    #[trigger] sorted[i]).reclaimable() >= (#[trigger] sorted[j]).reclaimable() by {
        assert(!frees_more()(sorted[j], sorted[i]));
    }
}

struct ByFreed<'a> {
    groups: &'a Vec<DuplicateGroup>,
    freed: &'a Vec<u64>,
}

impl<'a> ByFreed<'a> {
    #[verifier::type_invariant]
    spec fn counted(self) -> bool {
        &&& self.freed@.len() == self.groups@.len()
        &&& forall|i: int|
            0 <= i < self.freed@.len() ==> #[trigger] self.freed@[i]
                == self.groups@[i]@.reclaimable()
    }
}

impl<'a> Ranked for ByFreed<'a> {
    type Item = GroupView;

    closed spec fn items(&self) -> Seq<GroupView> {
        groups_view(self.groups@)
    }

    closed spec fn order(&self) -> spec_fn(GroupView, GroupView) -> bool {
        frees_more()
    }

    proof fn ranks(&self) {
    }

    fn comes_before(&self, i: usize, j: usize) -> (before: bool) {
        proof {
            use_type_invariant(self);
        }
        self.freed[i] > self.freed[j]
    }
}

/// The space that each group frees.
pub(crate) fn freed_by_each(groups: &Vec<DuplicateGroup>) -> (freed: Vec<u64>)
    requires
        forall|i: int|
            0 <= i < groups@.len() ==> (#[trigger] groups@[i])@.paths.len() > 0
                && groups@[i]@.reclaimable() <= u64::MAX,
    ensures
        freed@.len() == groups@.len(),
        forall|i: int|
            0 <= i < freed@.len() ==> #[trigger] freed@[i] == groups@[i]@.reclaimable(),
{
    let mut freed: Vec<u64> = Vec::new();
    for i in 0..groups.len()
        invariant
            forall|i: int|
                0 <= i < groups@.len() ==> (#[trigger] groups@[i])@.paths.len() > 0
                    && groups@[i]@.reclaimable() <= u64::MAX,
            freed@.len() == i,
            forall|j: int| 0 <= j < i ==> #[trigger] freed@[j] == groups@[j]@.reclaimable(),
    {
        freed.push(groups[i].reclaimable());
    }
    freed
}

/// The order of groups by the space that they free, the most first.
pub(crate) fn freed_order(groups: &Vec<DuplicateGroup>, freed: &Vec<u64>) -> (order: Vec<usize>)
    requires
        freed@.len() == groups@.len(),
        forall|i: int|
            0 <= i < freed@.len() ==> #[trigger] freed@[i] == groups@[i]@.reclaimable(),
    ensures
        order@.len() == groups@.len(),
        forall|k: int| 0 <= k < order@.len() ==> #[trigger] order@[k] < groups@.len(),
        order@.map_values(|i: usize| groups_view(groups@)[i as int]) == stable_sort(
            groups_view(groups@),
            frees_more(),
        ),
{
    sorted_order(&ByFreed { groups, freed }, groups.len())
}

/// The line of a group: its size, the number of copies and the space that it frees.
pub(crate) fn group_summary(group: &DuplicateGroup) -> (line: String)
    requires
        group@.paths.len() > 0,
        group@.reclaimable() <= u64::MAX,
    ensures
        line@ == group_line(group@),
{
    proof {
        assert(group@.reclaimable() >= 0) by (nonlinear_arith)
            requires
                group@.reclaimable() == group@.size * (group@.paths.len() - 1),
                group@.paths.len() > 0,
                group@.size >= 0,
        ;
    }
    let mut line = human_size(group.size);
    line.append(" × ");
    push_decimal(&mut line, group.paths.len() as u64);
    line.append(" 份（可回收 ");
    line.append(human_size(group.reclaimable()).as_str());
    line.append("）");
    assert(line@ =~= group_line(group@));
    line
}

/// Appends the lines on duplicates.
fn render_duplicates(out: &mut Vec<String>, groups: &Vec<DuplicateGroup>)
    requires
        groups_countable(groups_view(groups@)),
    ensures
        lines_view(final(out)@) == lines_view(old(out)@) + duplicate_lines(groups_view(groups@)),
{
    let ghost start = lines_view(out@);
    let ghost all = groups_view(groups@);
    if groups.len() == 0 {
        out.push("未发现重复文件".to_string());
        assert(lines_view(out@) =~= start + duplicate_lines(all));
        return;
    }
    proof {
        lemma_reclaimable_part(all, 0);
        assert forall|i: int| 0 <= i < groups@.len() implies (#[trigger] groups@[i])@.paths.len()
            > 0 && groups@[i]@.reclaimable() <= u64::MAX by {
            assert(all[i] == groups@[i]@);
        }
    }
    let freed = freed_by_each(groups);
    let order = freed_order(groups, &freed);
    let ghost shown = stable_sort(all, frees_more());
    assert(start =~= start + all_group_lines(shown.take(0)));
    for k in 0..order.len()
        invariant
            all == groups_view(groups@),
            shown == order@.map_values(|i: usize| all[i as int]),
            forall|k: int| 0 <= k < order@.len() ==> #[trigger] order@[k] < groups@.len(),
            forall|i: int|
                0 <= i < groups@.len() ==> (#[trigger] groups@[i])@.paths.len() > 0
                    && groups@[i]@.reclaimable() <= u64::MAX,
            lines_view(out@) == start + all_group_lines(shown.take(k as int)),
    {
        let group = &groups[order[k]];
        let ghost before = lines_view(out@);
        let ghost listed = group@.paths.map_values(|p: PathView| "  "@ + p.text());
        proof {
            assert(shown[k as int] == group@);
            assert(shown.take(k + 1).drop_last() =~= shown.take(k as int));
        }
        out.push(group_summary(group));
        assert(lines_view(out@) =~= before + (seq![group_line(group@)] + listed.take(0)));
        for i in 0..group.paths.len()
            invariant
                listed == group@.paths.map_values(|p: PathView| "  "@ + p.text()),
                lines_view(out@) == before + (seq![group_line(group@)] + listed.take(i as int)),
        {
            let mut line = "  ".to_string();
            line.append(group.paths[i].display().as_str());
            let ghost so_far = lines_view(out@);
            out.push(line);
            assert(line@ == listed[i as int]);
            assert(lines_view(out@) =~= so_far.push(line@));
            assert(lines_view(out@) =~= before + (seq![group_line(group@)] + listed.take(i + 1)));
        }
        assert(listed.take(listed.len() as int) =~= listed);
        assert(lines_view(out@) =~= start + all_group_lines(shown.take(k + 1)));
    }
    assert(shown.take(shown.len() as int) =~= shown);
    let mut total: u64 = 0;
    for i in 0..freed.len()
        invariant
            all == groups_view(groups@),
            groups_countable(all),
            freed@.len() == groups@.len(),
            forall|i: int|
                0 <= i < freed@.len() ==> #[trigger] freed@[i] == groups@[i]@.reclaimable(),
            total == reclaimable_total(all.take(i as int)),
    {
        proof {
            lemma_reclaimable_part(all, i + 1);
            assert(all.take(i + 1).drop_last() =~= all.take(i as int));
        }
        total = total + freed[i];
    }
    assert(all.take(all.len() as int) =~= all);
    let mut line = "总计可回收: ".to_string();
    line.append(human_size(total).as_str());
    let ghost so_far = lines_view(out@);
    out.push(line);
    assert(lines_view(out@) =~= so_far.push(line@));
    assert(lines_view(out@) =~= start + duplicate_lines(all));
}

/// The lines of the warnings of a result.
fn warning_lines(result: &ScanResult) -> (err: Vec<String>)
    ensures
        lines_view(err@) == result@.warnings.map_values(|w: ErrorView| warning_line(w)),
{
    let ghost all = result@.warnings.map_values(|w: ErrorView| warning_line(w));
    let mut err: Vec<String> = Vec::new();
    for i in 0..result.warnings.len()
        invariant
            all == result@.warnings.map_values(|w: ErrorView| warning_line(w)),
            err@.len() == i,
            forall|j: int| 0 <= j < i ==> (#[trigger] err@[j])@ == all[j],
    {
        let mut line = "warning: ".to_string();
        line.append(result.warnings[i].message().as_str());
        err.push(line);
    }
    assert(lines_view(err@) =~= all);
    err
}

/// What a report is made of.
pub enum Rendered {
    /// Lines to print.
    Lines(Output),
    /// A document to print as JSON.
    Document(JsonReport),
}

/// What a report is made of.
pub enum RenderedView {
    Lines(OutputView),
    Document(JsonView),
}

impl View for Rendered {
    type V = RenderedView;

    open spec fn view(&self) -> RenderedView {
        match self {
            Rendered::Lines(output) => RenderedView::Lines(output@),
            Rendered::Document(report) => RenderedView::Document(report@),
        }
    }
}

/// What groups are, if there are any to show.
pub open spec fn some_groups(dups: Option<&Vec<DuplicateGroup>>) -> Option<Seq<GroupView>> {
    match dups {
        Some(groups) => Some(groups_view(groups@)),
        None => None,
    }
}

/// The lines on duplicates, if they were looked for.
pub open spec fn dup_lines(dups: Option<Seq<GroupView>>) -> Seq<Seq<char>> {
    match dups {
        Some(groups) => duplicate_lines(groups),
        None => Seq::empty(),
    }
}

/// The lines of the warnings of a result.
pub open spec fn warnings_of(result: ResultView) -> Seq<Seq<char>> {
    result.warnings.map_values(|w: ErrorView| warning_line(w))
}

/// A way to render the result of a scan, and the groups of duplicates if they were looked for.
pub trait Reporter {
    /// Whether all sizes that the report shows can be counted.
    spec fn accepts(&self, result: ResultView, dups: Option<Seq<GroupView>>) -> bool;

    /// The report.
    spec fn rendered(&self, result: ResultView, dups: Option<Seq<GroupView>>, top: nat)
        -> RenderedView;

    fn report(&self, result: &ScanResult, dups: Option<&Vec<DuplicateGroup>>, top: usize) -> (report:
        Rendered)
        requires
            self.accepts(result@, some_groups(dups)),
        ensures
            report@ == self.rendered(result@, some_groups(dups), top as nat),
    ;
}

/// A table: the largest entries and the total.
pub struct TableReporter;

/// A tree: the directories with the sizes of all that lies in them.
pub struct TreeReporter;

/// A JSON document.
pub struct JsonReporter;

impl Reporter for TableReporter {
    open spec fn accepts(&self, result: ResultView, dups: Option<Seq<GroupView>>) -> bool {
        dups matches Some(groups) ==> groups_countable(groups)
    }

    open spec fn rendered(&self, result: ResultView, dups: Option<Seq<GroupView>>, top: nat)
        -> RenderedView {
        RenderedView::Lines(
            OutputView {
                out: top_of(result.entries, top).map_values(|e: EntryView| entry_line(e)).push(
                    "total: "@ + size_text(result.total_size as nat),
                ) + dup_lines(dups),
                err: warnings_of(result),
            },
        )
    }

    fn report(&self, result: &ScanResult, dups: Option<&Vec<DuplicateGroup>>, top: usize) -> (report:
        Rendered) {
        let largest = top_entries(&result.entries, top);
        let ghost shown = top_of(result@.entries, top as nat);
        let ghost lines = shown.map_values(|e: EntryView| entry_line(e));
        let mut out: Vec<String> = Vec::new();
        for i in 0..largest.len()
            invariant
                shown == largest@.map_values(|e: &FileEntry| e@),
                lines == shown.map_values(|e: EntryView| entry_line(e)),
                out@.len() == i,
                forall|j: int| 0 <= j < i ==> (#[trigger] out@[j])@ == lines[j],
        {
            let entry = largest[i];
            let mut line = String::new();
            push_padded(&mut line, human_size(entry.size).as_str(), 10);
            line.append("  ");
            line.append(entry.path.display().as_str());
            assert(line@ =~= entry_line(entry@));
            assert(shown[i as int] == entry@);
            out.push(line);
        }
        assert(lines_view(out@) =~= lines);
        let mut line = "total: ".to_string();
        line.append(human_size(result.total_size).as_str());
        out.push(line);
        let ghost listed = lines.push("total: "@ + size_text(result@.total_size as nat));
        assert(lines_view(out@) =~= listed);
        if let Some(groups) = dups {
            render_duplicates(&mut out, groups);
        }
        assert(lines_view(out@) =~= listed + dup_lines(some_groups(dups)));
        Rendered::Lines(Output { out, err: warning_lines(result) })
    }
}

impl Reporter for TreeReporter {
    open spec fn accepts(&self, result: ResultView, dups: Option<Seq<GroupView>>) -> bool {
        &&& tree_of(result).size <= u64::MAX
        &&& dups matches Some(groups) ==> groups_countable(groups)
    }

    open spec fn rendered(&self, result: ResultView, dups: Option<Seq<GroupView>>, top: nat)
        -> RenderedView {
        RenderedView::Lines(
            OutputView {
                out: tree_lines(tree_of(result), result.root.text(), 0, top) + dup_lines(dups),
                err: warnings_of(result),
            },
        )
    }

    fn report(&self, result: &ScanResult, dups: Option<&Vec<DuplicateGroup>>, top: usize) -> (report:
        Rendered) {
        let mut out: Vec<String> = Vec::new();
        let ghost lines = tree_lines(tree_of(result@), result@.root.text(), 0, top as nat);
        render_tree(&mut out, result, top);
        assert(lines_view(out@) =~= lines);
        if let Some(groups) = dups {
            render_duplicates(&mut out, groups);
        }
        assert(lines_view(out@) =~= lines + dup_lines(some_groups(dups)));
        Rendered::Lines(Output { out, err: warning_lines(result) })
    }
}

impl Reporter for JsonReporter {
    open spec fn accepts(&self, result: ResultView, dups: Option<Seq<GroupView>>) -> bool {
        true
    }

    open spec fn rendered(&self, result: ResultView, dups: Option<Seq<GroupView>>, top: nat)
        -> RenderedView {
        RenderedView::Document(json_of(result, dups, top))
    }

    fn report(&self, result: &ScanResult, dups: Option<&Vec<DuplicateGroup>>, top: usize) -> (report:
        Rendered) {
        Rendered::Document(render_json(result, dups, top))
    }
}

/// An entry of the JSON document.
#[derive(Debug)]
pub struct JsonEntry {
    pub path: String,
    pub size: u64,
    pub kind: &'static str,
}

/// An entry of the JSON document.
pub struct JsonEntryView {
    pub path: Seq<char>,
    pub size: u64,
    pub kind: Seq<char>,
}

impl View for JsonEntry {
    type V = JsonEntryView;

    open spec fn view(&self) -> JsonEntryView {
        JsonEntryView { path: self.path@, size: self.size, kind: self.kind@ }
    }
}

/// A group of duplicates of the JSON document.
#[derive(Debug)]
pub struct JsonDup {
    pub hash: String,
    pub size: u64,
    pub paths: Vec<String>,
}

/// A group of duplicates of the JSON document.
pub struct JsonDupView {
    pub hash: Seq<char>,
    pub size: u64,
    pub paths: Seq<Seq<char>>,
}

impl View for JsonDup {
    type V = JsonDupView;

    open spec fn view(&self) -> JsonDupView {
        JsonDupView { hash: self.hash@, size: self.size, paths: lines_view(self.paths@) }
    }
}

/// The JSON document. Without a search for duplicates it has no field for them.
#[derive(Debug)]
pub struct JsonReport {
    pub root: String,
    pub total_size: u64,
    pub entries: Vec<JsonEntry>,
    pub duplicates: Option<Vec<JsonDup>>,
    pub warnings: Vec<String>,
}

/// The JSON document.
pub struct JsonView {
    pub root: Seq<char>,
    pub total_size: u64,
    pub entries: Seq<JsonEntryView>,
    pub duplicates: Option<Seq<JsonDupView>>,
    pub warnings: Seq<Seq<char>>,
}

impl View for JsonReport {
    type V = JsonView;

    open spec fn view(&self) -> JsonView {
        JsonView {
            root: self.root@,
            total_size: self.total_size,
            entries: self.entries@.map_values(|e: JsonEntry| e@),
            duplicates: match self.duplicates {
                Some(dups) => Some(dups@.map_values(|d: JsonDup| d@)),
                None => None,
            },
            warnings: lines_view(self.warnings@),
        }
    }
}

/// The word for a type of entry.
pub open spec fn kind_word(kind: EntryKind) -> Seq<char> {
    match kind {
        EntryKind::File => "file"@,
        EntryKind::Dir => "dir"@,
        EntryKind::Symlink => "symlink"@,
    }
}

/// Bytes in hexadecimal, two digits each.
pub open spec fn hex_text(bytes: Seq<u8>) -> Seq<char>
    decreases bytes.len(),
{
    if bytes.len() == 0 {
        Seq::empty()
    } else {
        hex_text(bytes.drop_last()) + seq![
            hex_digit((bytes.last() / 16) as nat),
            hex_digit((bytes.last() % 16) as nat),
        ]
    }
}

/// An entry in the JSON document.
pub open spec fn json_entry(entry: EntryView) -> JsonEntryView {
    JsonEntryView { path: entry.path.text(), size: entry.size, kind: kind_word(entry.kind) }
}

/// A group in the JSON document.
pub open spec fn json_dup(group: GroupView) -> JsonDupView {
    JsonDupView {
        hash: hex_text(group.hash),
        size: group.size,
        paths: group.paths.map_values(|p: PathView| p.text()),
    }
}

/// The JSON document of a result.
pub open spec fn json_of(
    result: ResultView,
    dups: Option<Seq<GroupView>>,
    top: nat,
) -> JsonView {
    JsonView {
        root: result.root.text(),
        total_size: result.total_size,
        entries: top_of(result.entries, top).map_values(|e: EntryView| json_entry(e)),
        duplicates: match dups {
            Some(groups) => Some(groups.map_values(|g: GroupView| json_dup(g))),
            None => None,
        },
        warnings: result.warnings.map_values(|w: ErrorView| w.message()),
    }
}

fn kind_str(kind: EntryKind) -> (word: &'static str)
    ensures
        word@ == kind_word(kind),
{
    match kind {
        EntryKind::File => "file",
        EntryKind::Dir => "dir",
        EntryKind::Symlink => "symlink",
    }
}

fn hex(bytes: &[u8; 32]) -> (text: String)
    ensures
        text@ == hex_text(bytes@),
{
    let mut text = String::new();
    assert(text@ =~= hex_text(bytes@.take(0)));
    for i in 0..32
        invariant
            text@ == hex_text(bytes@.take(i as int)),
    {
        assert(bytes@.take(i + 1).drop_last() =~= bytes@.take(i as int));
        push_hex(&mut text, bytes[i]);
    }
    assert(bytes@.take(32) =~= bytes@);
    text
}

fn path_texts(paths: &Vec<FilePath>) -> (texts: Vec<String>)
    ensures
        lines_view(texts@) == paths_view(paths@).map_values(|p: PathView| p.text()),
{
    let mut texts: Vec<String> = Vec::new();
    for i in 0..paths.len()
        invariant
            texts@.len() == i,
            forall|j: int| 0 <= j < i ==> (#[trigger] texts@[j])@ == paths@[j]@.text(),
    {
        texts.push(paths[i].display());
    }
    assert(lines_view(texts@) =~= paths_view(paths@).map_values(|p: PathView| p.text()));
    texts
}

/// The JSON document of a result.
pub fn render_json(
    result: &ScanResult,
    dups: Option<&Vec<DuplicateGroup>>,
    top: usize,
) -> (report: JsonReport)
    ensures
        report@ == json_of(result@, some_groups(dups), top as nat),
{
    let ghost wanted = json_of(result@, some_groups(dups), top as nat);
    let largest = top_entries(&result.entries, top);
    let ghost shown = top_of(result@.entries, top as nat);
    let mut entries: Vec<JsonEntry> = Vec::new();
    for i in 0..largest.len()
        invariant
            shown == largest@.map_values(|e: &FileEntry| e@),
            entries@.len() == i,
            forall|j: int| 0 <= j < i ==> (#[trigger] entries@[j])@ == json_entry(shown[j]),
    {
        let entry = largest[i];
        assert(shown[i as int] == entry@);
        entries.push(
            JsonEntry { path: entry.path.display(), size: entry.size, kind: kind_str(entry.kind) },
        );
    }
    assert(entries@.map_values(|e: JsonEntry| e@) =~= wanted.entries);
    let duplicates = match dups {
        Some(groups) => {
            let mut list: Vec<JsonDup> = Vec::new();
            for i in 0..groups.len()
                invariant
                    list@.len() == i,
                    forall|j: int|
                        0 <= j < i ==> (#[trigger] list@[j])@ == json_dup(groups@[j]@),
            {
                let group = &groups[i];
                list.push(
                    JsonDup {
                        hash: hex(&group.hash),
                        size: group.size,
                        paths: path_texts(&group.paths),
                    },
                );
            }
            assert(list@.map_values(|d: JsonDup| d@) =~= groups_view(groups@).map_values(
                |g: GroupView| json_dup(g),
            ));
            Some(list)
        },
        None => None,
    };
    let mut warnings: Vec<String> = Vec::new();
    for i in 0..result.warnings.len()
        invariant
            warnings@.len() == i,
            forall|j: int|
                0 <= j < i ==> (#[trigger] warnings@[j])@ == result@.warnings[j].message(),
    {
        warnings.push(result.warnings[i].message());
    }
    assert(lines_view(warnings@) =~= wanted.warnings);
    JsonReport {
        root: result.root.display(),
        total_size: result.total_size,
        entries,
        duplicates,
        warnings,
    }
}

/// A size is shown in the largest unit that it reaches: bytes as they are, and others with one
/// decimal place that is off by no more than half of a tenth. From 2 to the power of 53 on, the
/// size is rounded to 53 binary digits first, which moves it by no more than one part in 2 to the
/// power of 53.
pub proof fn law_size_is_read_back(bytes: u64)
    ensures
        bytes < 1024 ==> size_text(bytes as nat) == decimal(bytes as nat) + " B"@,
        1024 <= bytes < 1048576 ==> shown_as(bytes as nat, 1024, " KB"@),
        1048576 <= bytes < 1073741824 ==> shown_as(bytes as nat, 1048576, " MB"@),
        1073741824 <= bytes < 1099511627776 ==> shown_as(bytes as nat, 1073741824, " GB"@),
        bytes >= 1099511627776 ==> shown_as(bytes as nat, 1099511627776, " TB"@),
{
    if bytes >= 1024 {
        lemma_tenths(bytes);
        let unit = shown_unit(bytes as nat) as int;
        assert(nearest_tenths(tenths(bytes as nat), rounded(bytes as nat), unit));
        assert(shown_as(bytes as nat, unit, unit_name(bytes as nat)));
    }
}

/// Whether a size is shown in tenths of a unit.
pub open spec fn shown_as(bytes: nat, unit: int, name: Seq<char>) -> bool {
    exists|t: nat, near: nat| #[trigger]
        nearest_tenths(t, near, unit) && within_53_bits(bytes, near) && size_text(bytes) == decimal(
            t / 10,
        ) + "."@ + decimal(t % 10) + name
}

proof fn lemma_tenths(bytes: u64)
    requires
        bytes >= 1024,
    ensures
        nearest_tenths(
            tenths(bytes as nat),
            rounded(bytes as nat),
            shown_unit(bytes as nat) as int,
        ),
        within_53_bits(bytes as nat, rounded(bytes as nat)),
{
    let n = bytes as nat;
    law_size_is_near(bytes);
    lemma_spacing_small(n);
    lemma_ties(rounded(n) * 10, shown_unit(n));
}

/// Whether so many tenths of a unit are the nearest to a number of bytes; in the middle between two
/// the even one counts.
pub open spec fn nearest_tenths(t: nat, bytes: nat, unit: int) -> bool {
    let off = 2 * (t * unit - 10 * bytes);
    -unit <= off <= unit && (off == unit || off == -unit ==> t % 2 == 0)
}

/// Whether a number is another one, or as near to it as 53 binary digits come.
pub open spec fn within_53_bits(n: nat, near: nat) -> bool {
    &&& n < 0x20_0000_0000_0000 ==> near == n
    &&& -(n as int) <= 0x20_0000_0000_0000 * (near - n) <= n
}

proof fn lemma_spacing_small(n: nat)
    requires
        n > 0,
    ensures
        n >= 0x20_0000_0000_0000 ==> spacing(n) * 0x10_0000_0000_0000 <= n,
    decreases n,
{
    if n >= 0x20_0000_0000_0000 {
        lemma_spacing_small(n / 2);
        if n / 2 < 0x20_0000_0000_0000 {
            assert(spacing(n / 2) == 1);
        }
    }
}

proof fn lemma_ties(n: nat, d: nat)
    requires
        d > 0,
    ensures
        2 * (nearest(n, d) * d - n) == d || 2 * (nearest(n, d) * d - n) == -(d as int) ==> nearest(
            n,
            d,
        ) % 2 == 0,
{
    let q = n / d;
    let r = n % d;
    assert(n == q * d + r && r < d) by (nonlinear_arith)
        requires
            d > 0,
            q == n / d,
            r == n % d,
    ;
    assert((q + 1) * d == q * d + d) by (nonlinear_arith);
}

/// Filtering the start of a list gives the start of what filtering all of it gives.
proof fn lemma_filter_prefix(s: Seq<EntryView>, n: int, pred: spec_fn(EntryView) -> bool)
    requires
        0 <= n <= s.len(),
    ensures
        s.take(n).filter(pred).is_prefix_of(s.filter(pred)),
    decreases s.len(),
{
    reveal(Seq::filter);
    let part = s.take(n).filter(pred);
    let all = s.filter(pred);
    if n < s.len() {
        let rest = s.drop_last();
        lemma_filter_prefix(rest, n, pred);
        assert(rest.take(n) =~= s.take(n));
        assert(part =~= rest.filter(pred).subrange(0, part.len() as int));
        assert(part =~= all.subrange(0, part.len() as int));
    } else {
        assert(s.take(n) =~= s);
        assert(part =~= all.subrange(0, part.len() as int));
    }
}

/// The largest entries: as many as were asked for, or all; none that is left out is larger than one
/// that is shown; they come by size, the largest first, and entries of one size in the order in
/// which they were given.
pub proof fn law_largest_entries(entries: Seq<EntryView>, top: nat, size: u64)
    ensures
        top_of(entries, top).len() == if top < entries.len() {
            top
        } else {
            entries.len()
        },
        forall|i: int, j: int|
            0 <= i < j < top_of(entries, top).len() ==> (#[trigger] top_of(entries, top)[i]).size
                >= (#[trigger] top_of(entries, top)[j]).size,
        top_of(entries, top).to_multiset().subset_of(entries.to_multiset()),
        forall|e: EntryView, i: int|
            #[trigger] entries.to_multiset().sub(top_of(entries, top).to_multiset()).count(e) > 0
                && 0 <= i < top_of(entries, top).len() ==> e.size <= (#[trigger] top_of(
                entries,
                top,
            )[i]).size,
        top_of(entries, top).filter(|e: EntryView| e.size == size).is_prefix_of(
            entries.filter(|e: EntryView| e.size == size),
        ),
{
    broadcast use vstd::seq_lib::group_to_multiset_ensures;

    law_top_entries(entries, top);
    law_stable_sort(entries, larger());
    let all = stable_sort(entries, larger());
    let shown = top_of(entries, top);
    let n = shown.len() as int;
    let left = all.skip(n);
    assert(all =~= shown + left);
    vstd::seq_lib::lemma_multiset_commutative(shown, left);
    assert forall|e: EntryView, i: int|
        #[trigger] entries.to_multiset().sub(shown.to_multiset()).count(e) > 0 && 0 <= i
            < shown.len() implies e.size <= (#[trigger] shown[i]).size by {
        assert(left.to_multiset().count(e) > 0);
        assert(left.contains(e));
        let k = choose|k: int| 0 <= k < left.len() && left[k] == e;
        assert(all[n + k] == e && all[i] == shown[i]);
        assert(!larger()(all[n + k], all[i]));
    }
    let x = EntryView { size, ..arbitrary() };
    let like = |e: EntryView| !larger()(x, e) && !larger()(e, x);
    let same = |e: EntryView| e.size == size;
    law_sort_is_stable(entries, larger(), x);
    assert forall|e: EntryView| #[trigger] like(e) == same(e) by {}
    lemma_filters_same(entries, like, same);
    lemma_filters_same(all, like, same);
    lemma_filter_prefix(all, n, same);
    assert(all.take(n) =~= shown);
}

proof fn lemma_filters_same(
    s: Seq<EntryView>,
    a: spec_fn(EntryView) -> bool,
    b: spec_fn(EntryView) -> bool,
)
    requires
        forall|e: EntryView| #[trigger] a(e) == b(e),
    ensures
        s.filter(a) == s.filter(b),
    decreases s.len(),
{
    reveal(Seq::filter);
    if s.len() > 0 {
        lemma_filters_same(s.drop_last(), a, b);
        assert(a(s.last()) == b(s.last()));
    }
}

/// How many lines groups take: one each, and one for each of their paths.
pub open spec fn lines_of_groups(groups: Seq<GroupView>) -> nat
    decreases groups.len(),
{
    if groups.len() == 0 {
        0
    } else {
        lines_of_groups(groups.drop_last()) + 1 + groups.last().paths.len()
    }
}

/// Whether a group stands among lines: its own line, then a line for each of its paths, in order,
/// two spaces in.
pub open spec fn group_stands_at(lines: Seq<Seq<char>>, at: int, group: GroupView) -> bool {
    &&& 0 <= at
    &&& at + group.paths.len() < lines.len()
    &&& lines[at] == size_text(group.size as nat) + " × "@ + decimal(group.paths.len())
        + " 份（可回收 "@ + size_text((group.size * (group.paths.len() - 1)) as nat) + "）"@
    &&& forall|i: int|
        0 <= i < group.paths.len() ==> #[trigger] lines[at + 1 + i] == "  "@
            + group.paths[i].text()
}

/// The lines on duplicates list every group, with every path, those that free the most first; at the
/// end stands what all groups free together. Without groups one line says so.
pub proof fn law_groups_are_listed(groups: Seq<GroupView>)
    ensures
        groups.len() == 0 ==> duplicate_lines(groups) == seq!["未发现重复文件"@],
        groups.len() > 0 ==> duplicate_lines(groups).len() == lines_of_groups(groups) + 1,
        groups.len() > 0 ==> duplicate_lines(groups).last() == "总计可回收: "@ + size_text(
            reclaimable_total(groups) as nat,
        ),
        forall|g: int| 0 <= g < groups.len() ==> is_listed(duplicate_lines(groups), #[trigger] groups[g]),
        exists|order: Seq<GroupView>| #[trigger]
            listed_in_order(duplicate_lines(groups), order) && order.to_multiset()
                == groups.to_multiset(),
{
    let sorted = stable_sort(groups, frees_more());
    let lines = duplicate_lines(groups);
    law_groups_by_freed(groups);
    law_stable_sort(groups, frees_more());
    lemma_lines_rearranged(sorted, groups);
    lemma_group_lines_len(sorted);
    assert forall|k: int| 0 <= k < sorted.len() implies group_stands_at(
        lines,
        lines_of_groups(sorted.take(k)) as int,
        #[trigger] sorted[k],
    ) by {
        lemma_group_at(sorted, k);
        lemma_stands_longer(
            all_group_lines(sorted),
            lines.last(),
            lines_of_groups(sorted.take(k)) as int,
            sorted[k],
        );
    }
    assert(listed_in_order(lines, sorted)) by {
        assert forall|i: int, j: int| 0 <= i < j < sorted.len() implies (#[trigger] sorted[i]).size
            * (sorted[i].paths.len() - 1) >= (#[trigger] sorted[j]).size * (sorted[j].paths.len()
            - 1) by {
            assert(sorted[i].reclaimable() >= sorted[j].reclaimable());
        }
    }
    assert forall|g: int| 0 <= g < groups.len() implies is_listed(
        lines,
        #[trigger] groups[g],
    ) by {
        lemma_rearranged_holds(groups, sorted, g);
        let k = choose|k: int| 0 <= k < sorted.len() && sorted[k] == groups[g];
        assert(group_stands_at(lines, lines_of_groups(sorted.take(k)) as int, sorted[k]));
    }
}

/// Whether a group stands somewhere among lines.
pub open spec fn is_listed(lines: Seq<Seq<char>>, group: GroupView) -> bool {
    exists|at: int| group_stands_at(lines, at, group)
}

/// Whether groups stand among lines one behind the other, those that free the most first.
pub open spec fn listed_in_order(lines: Seq<Seq<char>>, groups: Seq<GroupView>) -> bool {
    &&& forall|k: int|
        0 <= k < groups.len() ==> group_stands_at(
            lines,
            lines_of_groups(groups.take(k)) as int,
            #[trigger] groups[k],
        )
    &&& forall|i: int, j: int|
        0 <= i < j < groups.len() ==> (#[trigger] groups[i]).size * (groups[i].paths.len() - 1) >= (
        #[trigger] groups[j]).size * (groups[j].paths.len() - 1)
}

proof fn lemma_stands_longer(lines: Seq<Seq<char>>, last: Seq<char>, at: int, group: GroupView)
    requires
        group_stands_at(lines, at, group),
    ensures
        group_stands_at(lines.push(last), at, group),
{
    let more = lines.push(last);
    assert forall|i: int| 0 <= i < group.paths.len() implies #[trigger] more[at + 1 + i] == "  "@
        + group.paths[i].text() by {
        assert(more[at + 1 + i] == lines[at + 1 + i]);
    }
}

proof fn lemma_group_lines_len(groups: Seq<GroupView>)
    ensures
        all_group_lines(groups).len() == lines_of_groups(groups),
    decreases groups.len(),
{
    if groups.len() > 0 {
        lemma_group_lines_len(groups.drop_last());
    }
}

proof fn lemma_group_at(groups: Seq<GroupView>, k: int)
    requires
        0 <= k < groups.len(),
    ensures
        group_stands_at(
            all_group_lines(groups),
            lines_of_groups(groups.take(k)) as int,
            groups[k],
        ),
    decreases groups.len(),
{
    let rest = groups.drop_last();
    let lines = all_group_lines(rest);
    let all = all_group_lines(groups);
    lemma_group_lines_len(rest);
    if k < rest.len() {
        lemma_group_at(rest, k);
        assert(rest.take(k) =~= groups.take(k));
        let at = lines_of_groups(groups.take(k)) as int;
        assert(group_stands_at(lines, at, groups[k]));
        assert forall|i: int| 0 <= i < groups[k].paths.len() implies #[trigger] all[at + 1 + i]
            == "  "@ + groups[k].paths[i].text() by {
            assert(all[at + 1 + i] == lines[at + 1 + i]);
        }
    } else {
        assert(groups.take(k) =~= rest);
        let last = group_lines(groups.last());
        let at = lines.len() as int;
        assert(all[at] == last[0]);
        assert forall|i: int| 0 <= i < groups[k].paths.len() implies #[trigger] all[at + 1 + i]
            == "  "@ + groups[k].paths[i].text() by {
            assert(all[at + 1 + i] == last[1 + i]);
        }
    }
}

proof fn lemma_lines_add(a: Seq<GroupView>, b: Seq<GroupView>)
    ensures
        lines_of_groups(a + b) == lines_of_groups(a) + lines_of_groups(b),
    decreases b.len(),
{
    if b.len() == 0 {
        assert(a + b =~= a);
    } else {
        assert((a + b).drop_last() =~= a + b.drop_last());
        lemma_lines_add(a, b.drop_last());
    }
}

proof fn lemma_lines_rearranged(a: Seq<GroupView>, b: Seq<GroupView>)
    requires
        a.to_multiset() == b.to_multiset(),
    ensures
        lines_of_groups(a) == lines_of_groups(b),
    decreases a.len(),
{
    if a.len() == 0 {
        vstd::seq_lib::to_multiset_len(a);
        vstd::seq_lib::to_multiset_len(b);
        assert(a =~= b);
    } else {
        let j = lemma_rearranged_last(a, b);
        lemma_lines_rearranged(a.drop_last(), b.remove(j));
        lemma_split_around(b, j);
        lemma_lines_add(b.take(j) + seq![b[j]], b.skip(j + 1));
        lemma_lines_add(b.take(j), seq![b[j]]);
        lemma_lines_add(b.take(j), b.skip(j + 1));
        let one = seq![b[j]];
        assert(one.drop_last() =~= Seq::<GroupView>::empty());
        reveal_with_fuel(lines_of_groups, 2);
    }
}

/// What one more group frees is added to what all free.
pub proof fn law_freed_adds_up(groups: Seq<GroupView>, group: GroupView)
    ensures
        reclaimable_total(Seq::empty()) == 0,
        reclaimable_total(groups.push(group)) == reclaimable_total(groups) + group.size * (
        group.paths.len() - 1),
{
    assert(groups.push(group).drop_last() =~= groups);
}

/// The table: a line for each of the largest entries, in order, with the size in the first ten
/// columns and the path at the end; then the total; then the duplicates, if they were looked for.
/// Every warning gets a line of its own on standard error.
pub proof fn law_table(
    reporter: TableReporter,
    result: ResultView,
    dups: Option<Seq<GroupView>>,
    top: nat,
)
    ensures
        ({
            let table = reporter.rendered(result, dups, top);
            let n = top_of(result.entries, top).len() as int;
            &&& table is Lines
            &&& table->Lines_0.out.len() == n + 1 + if dups is Some {
                duplicate_lines(dups->0).len()
            } else {
                0
            }
            &&& forall|i: int|
                0 <= i < n ==> #[trigger] table->Lines_0.out[i] == padded(
                    size_text(top_of(result.entries, top)[i].size as nat),
                    10,
                ) + "  "@ + top_of(result.entries, top)[i].path.text()
            &&& table->Lines_0.out[n] == "total: "@ + size_text(result.total_size as nat)
            &&& dups is Some ==> table->Lines_0.out.skip(n + 1) == duplicate_lines(dups->0)
            &&& warned_of(table->Lines_0.err, result.warnings)
        }),
{
    let table = reporter.rendered(result, dups, top);
    let n = top_of(result.entries, top).len() as int;
    if dups is Some {
        assert(table->Lines_0.out.skip(n + 1) =~= duplicate_lines(dups->0));
    }
}

/// Whether there is a line for each warning, in order: the path and the cause.
pub open spec fn warned_of(lines: Seq<Seq<char>>, warnings: Seq<ErrorView>) -> bool {
    &&& lines.len() == warnings.len()
    &&& forall|i: int|
        0 <= i < lines.len() ==> #[trigger] lines[i] == match warnings[i] {
            ErrorView::Io { path, source } => "warning: "@ + (path.text() + ": "@ + source),
            ErrorView::Tui(source) => "warning: "@ + ("终端错误: "@ + source),
        }
}

/// The tree report: the lines of the tree under the root's path, then the duplicates, if they were
/// looked for. Every warning gets a line of its own on standard error.
pub proof fn law_tree_report(
    reporter: TreeReporter,
    result: ResultView,
    dups: Option<Seq<GroupView>>,
    top: nat,
)
    ensures
        ({
            let report = reporter.rendered(result, dups, top);
            let lines = tree_lines(tree_of(result), result.root.text(), 0, top);
            &&& report is Lines
            &&& dups is None ==> report->Lines_0.out == lines
            &&& dups is Some ==> report->Lines_0.out == lines + duplicate_lines(dups->0)
            &&& warned_of(report->Lines_0.err, result.warnings)
        }),
{
    let report = reporter.rendered(result, dups, top);
    let lines = tree_lines(tree_of(result), result.root.text(), 0, top);
    if dups is None {
        assert(report->Lines_0.out =~= lines);
    }
}

/// The JSON document holds the root, the total, the largest entries in order with path, size and
/// type, a message for each warning, and, only if duplicates were looked for, every group in the
/// order found with its hash, its size and all its paths.
pub proof fn law_document(
    reporter: JsonReporter,
    result: ResultView,
    dups: Option<Seq<GroupView>>,
    top: nat,
)
    ensures
        reporter.rendered(result, dups, top) is Document,
        ({
            let document = reporter.rendered(result, dups, top)->Document_0;
            let shown = top_of(result.entries, top);
            &&& document.root == result.root.text()
            &&& document.total_size == result.total_size
            &&& document.entries.len() == shown.len()
            &&& forall|i: int|
                0 <= i < shown.len() ==> (#[trigger] document.entries[i]).path
                    == shown[i].path.text() && document.entries[i].size == shown[i].size
                    && document.entries[i].kind == match shown[i].kind {
                    EntryKind::File => "file"@,
                    EntryKind::Dir => "dir"@,
                    EntryKind::Symlink => "symlink"@,
                }
            &&& document.duplicates is Some <==> dups is Some
            &&& dups is Some ==> document.duplicates->0.len() == dups->0.len()
            &&& dups is Some ==> forall|g: int|
                0 <= g < dups->0.len() ==> says_group(
                    #[trigger] document.duplicates->0[g],
                    dups->0[g],
                )
            &&& document.warnings.len() == result.warnings.len()
            &&& forall|i: int|
                0 <= i < result.warnings.len() ==> #[trigger] document.warnings[i]
                    == match result.warnings[i] {
                    ErrorView::Io { path, source } => path.text() + ": "@ + source,
                    ErrorView::Tui(source) => "终端错误: "@ + source,
                }
        }),
{
    if dups is Some {
        let document = reporter.rendered(result, dups, top)->Document_0;
        assert forall|g: int| 0 <= g < dups->0.len() implies says_group(
            #[trigger] document.duplicates->0[g],
            dups->0[g],
        ) by {
            lemma_hex_text(dups->0[g].hash);
        }
    }
}

/// Whether a group of the document says what a group is: every byte of the hash as two hexadecimal
/// digits, the size, and the path of each copy.
pub open spec fn says_group(said: JsonDupView, group: GroupView) -> bool {
    &&& said.size == group.size
    &&& said.paths.len() == group.paths.len()
    &&& forall|i: int|
        0 <= i < group.paths.len() ==> #[trigger] said.paths[i] == group.paths[i].text()
    &&& said.hash.len() == 2 * group.hash.len()
    &&& forall|i: int|
        #![trigger group.hash[i]]
        0 <= i < group.hash.len() ==> said.hash[2 * i] == "0123456789abcdef"@[group.hash[i] as int
            / 16] && said.hash[2 * i + 1] == "0123456789abcdef"@[group.hash[i] as int % 16]
}

proof fn lemma_hex_text(bytes: Seq<u8>)
    ensures
        hex_text(bytes).len() == 2 * bytes.len(),
        forall|i: int|
            #![trigger bytes[i]]
            0 <= i < bytes.len() ==> hex_text(bytes)[2 * i] == "0123456789abcdef"@[bytes[i] as int
                / 16] && hex_text(bytes)[2 * i + 1] == "0123456789abcdef"@[bytes[i] as int % 16],
    decreases bytes.len(),
{
    if bytes.len() > 0 {
        let rest = bytes.drop_last();
        lemma_hex_text(rest);
        law_hex_digit((bytes.last() / 16) as nat);
        law_hex_digit((bytes.last() % 16) as nat);
        assert forall|i: int|
            #![trigger bytes[i]]
            0 <= i < bytes.len() implies hex_text(bytes)[2 * i] == "0123456789abcdef"@[
            bytes[i] as int / 16] && hex_text(bytes)[2 * i + 1] == "0123456789abcdef"@[
            bytes[i] as int % 16] by {
            if i < rest.len() {
                assert(rest[i] == bytes[i]);
                assert(hex_text(bytes)[2 * i] == hex_text(rest)[2 * i]);
                assert(hex_text(bytes)[2 * i + 1] == hex_text(rest)[2 * i + 1]);
            }
        }
    }
}

} // verus!
