//! The tree that a scan's entries make.

use crate::model::{file_total, EntryKind, EntryView, FileEntry, ResultView, ScanResult};
use crate::order::{
    insert_sorted, law_sort_is_stable, law_stable_sort, lemma_insert_position,
    lemma_lexicographic_total, lex_less, lexicographic, sorted_order, stable_sort, Ranked,
};
use crate::path::{byte_order, bytes_precede, law_within, within, PartId, PartKind, PathId};
use crate::report::{human_size, lines_view, size_text};
use crate::seqs::{
    lemma_filter_apart, lemma_filter_map_holds, lemma_filter_map_rearranged, lemma_filter_pair,
    lemma_map_rearranged, lemma_rearranged_holds,
};
use crate::text::{lossy, lossy_text, repeated};
use vstd::prelude::*;
use vstd::relations::strict_total_ordering;
use vstd::seq_lib::to_multiset_len;
use vstd::string::*;

verus! {

/// An entry below a node of the tree: the names that lead to it, and what it is.
pub struct Placed {
    pub names: Seq<Seq<u8>>,
    pub kind: EntryKind,
    pub size: u64,
}

/// A node of the tree.
pub struct TreeView {
    pub name: Seq<u8>,
    pub size: nat,
    pub is_dir: bool,
    /// The nodes below, the largest first.
    pub children: Seq<TreeView>,
}

/// The names of components.
pub open spec fn part_names(id: PathId) -> Seq<Seq<u8>> {
    id.map_values(|p: PartId| p.name)
}

/// An entry as it lies below the root; one that lies elsewhere is placed by its whole path.
pub open spec fn placed(entry: EntryView, root: PathId) -> Placed {
    let id = entry.path.id();
    Placed {
        names: part_names(if within(id, root) {
            id.skip(root.len() as int)
        } else {
            id
        }),
        kind: entry.kind,
        size: entry.size,
    }
}

/// The entries of a result as they lie below its root.
pub open spec fn all_placed(result: ResultView) -> Seq<Placed> {
    result.entries.map_values(|e: EntryView| placed(e, result.root.id()))
}

/// The order of names.
pub open spec fn name_order() -> spec_fn(Seq<u8>, Seq<u8>) -> bool {
    lexicographic(byte_order())
}

/// The different names that come next below a node, in order.
pub open spec fn child_names(items: Seq<Placed>) -> Seq<Seq<u8>>
    decreases items.len(),
{
    if items.len() == 0 {
        Seq::empty()
    } else {
        let names = child_names(items.drop_last());
        let item = items.last();
        if item.names.len() == 0 || names.contains(item.names[0]) {
            names
        } else {
            insert_sorted(names, item.names[0], name_order())
        }
    }
}

/// An entry one level further down, if it lies below `name`.
pub open spec fn descended(item: Placed, name: Seq<u8>) -> Option<Placed> {
    if item.names.len() > 0 && item.names[0] == name {
        Some(Placed { names: item.names.drop_first(), kind: item.kind, size: item.size })
    } else {
        None
    }
}

/// The entries below a child.
pub open spec fn below(items: Seq<Placed>, name: Seq<u8>) -> Seq<Placed> {
    items.filter_map(|p: Placed| descended(p, name))
}

/// Whether a node is a directory: the last entry for the node itself says so, and where there is
/// none it is.
pub open spec fn own_is_dir(items: Seq<Placed>) -> bool
    decreases items.len(),
{
    if items.len() == 0 {
        true
    } else if items.last().names.len() == 0 {
        items.last().kind == EntryKind::Dir
    } else {
        own_is_dir(items.drop_last())
    }
}

/// The size that a node has by itself: that of the last file or link for the node.
pub open spec fn own_size(items: Seq<Placed>) -> nat
    decreases items.len(),
{
    if items.len() == 0 {
        0
    } else if items.last().names.len() == 0 && items.last().kind == EntryKind::File {
        items.last().size as nat
    } else if items.last().names.len() == 0 && items.last().kind == EntryKind::Symlink {
        0
    } else {
        own_size(items.drop_last())
    }
}

/// The total size of nodes.
pub open spec fn total(nodes: Seq<TreeView>) -> nat
    decreases nodes.len(),
{
    if nodes.len() == 0 {
        0
    } else {
        total(nodes.drop_last()) + nodes.last().size
    }
}

/// Nodes by size, the largest first.
pub open spec fn heavier() -> spec_fn(TreeView, TreeView) -> bool {
    |a: TreeView, b: TreeView| a.size > b.size
}

/// The nodes below a node, in the order of their names. `height` bounds how deep the entries lie.
/// Sizes are summed up where `summed` holds.
pub open spec fn branches(items: Seq<Placed>, height: nat, summed: bool) -> Seq<TreeView>
    decreases height, 0int,
{
    if height == 0 {
        Seq::empty()
    } else {
        child_names(items).map_values(
            |name: Seq<u8>| branch(below(items, name), name, (height - 1) as nat, summed),
        )
    }
}

/// The node that entries make. A directory has the size of all below it; what lies below a file
/// or a link counts for nothing, and directories there are not summed up.
pub open spec fn branch(
    items: Seq<Placed>,
    name: Seq<u8>,
    height: nat,
    summed: bool,
) -> TreeView
    decreases height, 1int,
{
    let is_dir = own_is_dir(items);
    let children = branches(items, height, summed && is_dir);
    TreeView {
        name,
        size: if is_dir && summed {
            total(children)
        } else {
            own_size(items)
        },
        is_dir,
        children: stable_sort(children, heavier()),
    }
}

/// How deep entries lie.
pub open spec fn depth_of(items: Seq<Placed>) -> nat
    decreases items.len(),
{
    if items.len() == 0 {
        0
    } else {
        let rest = depth_of(items.drop_last());
        if items.last().names.len() > rest {
            items.last().names.len()
        } else {
            rest
        }
    }
}

/// The nodes below the root of a result, in the order of their names.
pub open spec fn top_branches(result: ResultView) -> Seq<TreeView> {
    branches(all_placed(result), depth_of(all_placed(result)), true)
}

/// The tree of a result. Its root is a directory.
pub open spec fn tree_of(result: ResultView) -> TreeView {
    TreeView {
        name: Seq::empty(),
        size: total(top_branches(result)),
        is_dir: true,
        children: stable_sort(top_branches(result), heavier()),
    }
}

/// The line of a node.
pub open spec fn node_line(node: TreeView, label: Seq<char>, depth: nat) -> Seq<char> {
    repeated(' ', 2 * depth) + size_text(node.size) + "  "@ + label + if node.is_dir {
        "/"@
    } else {
        ""@
    }
}

/// The lines of a node and of those below it, at most `top` of each level.
pub open spec fn tree_lines(
    node: TreeView,
    label: Seq<char>,
    depth: nat,
    top: nat,
) -> Seq<Seq<char>>
    decreases node, 0nat,
{
    seq![node_line(node, label, depth)] + forest_lines(
        node.children,
        depth + 1,
        top,
        if top < node.children.len() {
            top
        } else {
            node.children.len()
        },
    )
}

/// The lines of the first `n` nodes.
pub open spec fn forest_lines(
    nodes: Seq<TreeView>,
    depth: nat,
    top: nat,
    n: nat,
) -> Seq<Seq<char>>
    decreases nodes, n,
{
    if n == 0 || n > nodes.len() {
        Seq::empty()
    } else {
        forest_lines(nodes, depth, top, (n - 1) as nat) + tree_lines(
            nodes[n - 1],
            lossy(nodes[n - 1].name),
            depth,
            top,
        )
    }
}

/// A node of the tree, with the nodes below it in the order of their names.
pub struct Node {
    name: Vec<u8>,
    size: u64,
    is_dir: bool,
    children: Vec<Node>,
    /// The positions of the children, the largest first.
    order: Vec<usize>,
}

spec fn node_view(node: Node) -> TreeView
    decreases node,
{
    TreeView {
        name: node.name@,
        size: node.size as nat,
        is_dir: node.is_dir,
        children: Seq::new(
            node.order@.len(),
            |i: int|
                if 0 <= i < node.order@.len() && node.order@[i] < node.children@.len() {
                    node_view(node.children@[node.order@[i] as int])
                } else {
                    arbitrary()
                },
        ),
    }
}

impl View for Node {
    type V = TreeView;

    closed spec fn view(&self) -> TreeView {
        node_view(*self)
    }
}

spec fn nodes_view(nodes: Seq<Node>) -> Seq<TreeView> {
    nodes.map_values(|n: Node| node_view(n))
}

/// An entry below a node: its path from the component `at` on leads to it.
#[derive(Clone, Copy)]
struct Item<'a> {
    entry: &'a FileEntry,
    at: usize,
}

spec fn item_view(item: Item<'_>) -> Placed {
    Placed {
        names: part_names(item.entry@.path.id().skip(item.at as int)),
        kind: item.entry.kind,
        size: item.entry.size,
    }
}

spec fn items_view(items: Seq<Item<'_>>) -> Seq<Placed> {
    items.map_values(|i: Item<'_>| item_view(i))
}

/// Whether items lie within their paths.
spec fn items_valid(items: Seq<Item<'_>>) -> bool {
    forall|i: int|
        0 <= i < items.len() ==> (#[trigger] items[i]).at <= items[i].entry.path.parts@.len()
}

/// The entries below a child.
struct Group<'a> {
    name: Vec<u8>,
    items: Vec<Item<'a>>,
}

spec fn group_names(groups: Seq<Group<'_>>) -> Seq<Seq<u8>> {
    groups.map_values(|g: Group<'_>| g.name@)
}

spec fn ascending(names: Seq<Seq<u8>>) -> bool {
    forall|i: int, j: int|
        0 <= i < j < names.len() ==> name_order()(#[trigger] names[i], #[trigger] names[j])
}

proof fn lemma_name_order()
    ensures
        strict_total_ordering(name_order()),
{
    assert(strict_total_ordering(byte_order()));
    lemma_lexicographic_total(byte_order());
}

fn copy_bytes(bytes: &Vec<u8>) -> (copy: Vec<u8>)
    ensures
        copy@ == bytes@,
{
    let copy = bytes.clone();
    assert(copy@ =~= bytes@);
    copy
}

/// Where a name stands among the groups, or where it belongs.
fn find_name(groups: &Vec<Group<'_>>, name: &Vec<u8>) -> (found: (bool, usize))
    requires
        ascending(group_names(groups@)),
    ensures
        found.1 <= groups@.len(),
        found.0 ==> found.1 < groups@.len() && groups@[found.1 as int].name@ == name@,
        !found.0 ==> (forall|k: int|
            0 <= k < found.1 ==> name_order()(#[trigger] group_names(groups@)[k], name@)) && (
        forall|k: int|
            found.1 <= k < groups@.len() ==> name_order()(
                name@,
                #[trigger] group_names(groups@)[k],
            )),
{
    let ghost names = group_names(groups@);
    let ghost less = name_order();
    proof {
        lemma_name_order();
    }
    let mut lo: usize = 0;
    let mut hi: usize = groups.len();
    while lo < hi
        invariant
            lo <= hi <= groups@.len(),
            names == group_names(groups@),
            less == name_order(),
            strict_total_ordering(less),
            ascending(names),
            forall|k: int| 0 <= k < lo ==> less(#[trigger] names[k], name@),
            forall|k: int| hi <= k < names.len() ==> less(name@, #[trigger] names[k]),
        decreases hi - lo,
    {
        let mid = lo + (hi - lo) / 2;
        let here = &groups[mid].name;
        assert(names[mid as int] == here@);
        if bytes_precede(here, name) {
            assert(less(here@, name@));
            assert forall|k: int| 0 <= k < mid + 1 implies less(#[trigger] names[k], name@) by {
                if k < mid {
                    assert(less(names[k], names[mid as int]));
                }
            }
            lo = mid + 1;
        } else if bytes_precede(name, here) {
            assert(less(name@, here@));
            assert forall|k: int| mid <= k < names.len() implies less(
                name@,
                #[trigger] names[k],
            ) by {
                if k > mid {
                    assert(less(names[mid as int], names[k]));
                }
            }
            hi = mid;
        } else {
            assert(!less(here@, name@) && !less(name@, here@));
            return (true, mid);
        }
    }
    (false, lo)
}

proof fn lemma_item_step(item: Item<'_>)
    requires
        item.at < item.entry.path.parts@.len(),
        item.at < usize::MAX,
    ensures
        item_view(item).names.len() > 0,
        item_view(item).names[0] == item.entry.path.parts@[item.at as int].name@,
        item_view(Item { entry: item.entry, at: (item.at + 1) as usize })
            == (Placed { names: item_view(item).names.drop_first(), ..item_view(item) }),
{
    let id = item.entry@.path.id();
    let next = Item { entry: item.entry, at: (item.at + 1) as usize };
    assert(id[item.at as int] == item.entry@.path.parts[item.at as int].id);
    assert(item.entry@.path.parts[item.at as int] == item.entry.path.parts@[item.at as int]@);
    assert(item_view(next).names =~= item_view(item).names.drop_first());
}

/// Parts the entries below a node by the child that they lie at or below.
fn split_items<'a>(items: &Vec<Item<'a>>) -> (groups: Vec<Group<'a>>)
    requires
        items_valid(items@),
    ensures
        group_names(groups@) == child_names(items_view(items@)),
        forall|g: int|
            0 <= g < groups@.len() ==> items_valid((#[trigger] groups@[g]).items@) && items_view(
                groups@[g].items@,
            ) == below(items_view(items@), groups@[g].name@),
{
    let ghost all = items_view(items@);
    let mut groups: Vec<Group<'a>> = Vec::new();
    assert(group_names(groups@) =~= child_names(all.take(0)));
    for i in 0..items.len()
        invariant
            all == items_view(items@),
            items_valid(items@),
            group_names(groups@) == child_names(all.take(i as int)),
            ascending(group_names(groups@)),
            forall|g: int|
                0 <= g < groups@.len() ==> items_valid((#[trigger] groups@[g]).items@)
                    && items_view(groups@[g].items@) == below(
                    all.take(i as int),
                    groups@[g].name@,
                ),
    {
        let item = items[i];
        let ghost before = all.take(i as int);
        let ghost now = all.take(i + 1);
        let ghost names = group_names(groups@);
        proof {
            assert(now.drop_last() =~= before);
            assert(now.last() == item_view(item));
            assert(items@[i as int].at <= items@[i as int].entry.path.parts@.len());
            assert forall|name: Seq<u8>| #[trigger] below(now, name) == match descended(
                now.last(),
                name,
            ) {
                Some(p) => below(before, name).push(p),
                None => below(before, name),
            } by {
                reveal(Seq::filter_map);
            }
        }
        if item.at < item.entry.path.parts.len() {
            let name = &item.entry.path.parts[item.at].name;
            let next = Item { entry: item.entry, at: item.at + 1 };
            let ghost old_groups = groups@;
            proof {
                lemma_item_step(item);
                lemma_name_order();
            }
            let (found, p) = find_name(&groups, name);
            if found {
                groups[p].items.push(next);
                proof {
                    assert(names[p as int] == name@);
                    assert(group_names(groups@) =~= names);
                    assert forall|g: int| 0 <= g < groups@.len() implies items_valid(
                        (#[trigger] groups@[g]).items@,
                    ) && items_view(groups@[g].items@) == below(now, groups@[g].name@) by {
                        assert(old_groups[g].name@ == groups@[g].name@);
                        assert(items_view(old_groups[g].items@) == below(before, names[g]));
                        if g == p {
                            assert(items_view(groups@[g].items@) =~= items_view(
                                old_groups[g].items@,
                            ).push(item_view(next)));
                        } else {
                            if g < p {
                                assert(name_order()(names[g], names[p as int]));
                            } else {
                                assert(name_order()(names[p as int], names[g]));
                            }
                            assert(names[g] != name@);
                        }
                    }
                }
            } else {
                proof {
                    if names.contains(name@) {
                        let k = choose|k: int| 0 <= k < names.len() && names[k] == name@;
                        if k < p {
                            assert(name_order()(names[k], name@));
                        } else {
                            assert(name_order()(name@, names[k]));
                        }
                    }
                    assert forall|k: int| 0 <= k < p implies !name_order()(
                        name@,
                        #[trigger] names[k],
                    ) by {
                        assert(name_order()(names[k], name@));
                    }
                    lemma_insert_position(names, name@, p as int, name_order());
                    lemma_none_below(before, name@);
                }
                let mut list: Vec<Item<'a>> = Vec::new();
                list.push(next);
                groups.insert(p, Group { name: copy_bytes(name), items: list });
                proof {
                    assert(group_names(groups@) =~= names.insert(p as int, name@));
                    assert(ascending(group_names(groups@))) by {
                        let after = group_names(groups@);
                        assert forall|x: int, y: int| 0 <= x < y < after.len() implies name_order()(
                            #[trigger] after[x],
                            #[trigger] after[y],
                        ) by {
                            let x0 = if x < p { x } else { x - 1 };
                            let y0 = if y < p { y } else { y - 1 };
                            if x != p && y != p {
                                assert(name_order()(names[x0], names[y0]));
                            } else if x == p {
                                assert(after[y] == names[y0]);
                            } else {
                                assert(after[x] == names[x0]);
                            }
                        }
                    }
                    assert forall|g: int| 0 <= g < groups@.len() implies items_valid(
                        (#[trigger] groups@[g]).items@,
                    ) && items_view(groups@[g].items@) == below(now, groups@[g].name@) by {
                        if g == p {
                            assert(items_view(groups@[g].items@) =~= seq![item_view(next)]);
                            assert(below(now, name@) =~= seq![item_view(next)]);
                        } else {
                            let g0 = if g < p { g } else { g - 1 };
                            assert(groups@[g] == old_groups[g0]);
                            assert(names[g0] == groups@[g].name@);
                            if names[g0] == name@ {
                                assert(names.contains(name@));
                            }
                        }
                    }
                }
            }
        } else {
            proof {
                assert(item_view(item).names =~= Seq::<Seq<u8>>::empty());
            }
        }
    }
    assert(all.take(all.len() as int) =~= all);
    groups
}

/// Nothing lies below a name that does not come next.
proof fn lemma_none_below(items: Seq<Placed>, name: Seq<u8>)
    requires
        !child_names(items).contains(name),
    ensures
        below(items, name) == Seq::<Placed>::empty(),
    decreases items.len(),
{
    reveal(Seq::filter_map);
    if items.len() > 0 {
        let rest = items.drop_last();
        let item = items.last();
        let names = child_names(rest);
        if item.names.len() > 0 && !names.contains(item.names[0]) {
            lemma_insert_contains(names, item.names[0]);
            assert(child_names(items).contains(item.names[0]));
            if names.contains(name) {
                assert(child_names(items).contains(name));
            }
        }
        lemma_none_below(rest, name);
    }
    assert(below(items, name) =~= Seq::<Placed>::empty());
}

/// Adding a name in order keeps the names and adds this one.
proof fn lemma_insert_contains(names: Seq<Seq<u8>>, name: Seq<u8>)
    ensures
        forall|x: Seq<u8>| #[trigger]
            insert_sorted(names, name, name_order()).contains(x) <==> (x == name || names.contains(
                x,
            )),
    decreases names.len(),
{
    let all = insert_sorted(names, name, name_order());
    if names.len() > 0 && name_order()(name, names.last()) {
        let short = names.drop_last();
        let part = insert_sorted(short, name, name_order());
        lemma_insert_contains(short, name);
        assert forall|x: Seq<u8>| #[trigger] all.contains(x) <==> (x == name || names.contains(
            x,
        )) by {
            if all.contains(x) {
                let k = choose|k: int| 0 <= k < all.len() && all[k] == x;
                if k < part.len() {
                    assert(part[k] == x);
                    assert(part.contains(x));
                    if short.contains(x) {
                        let j = choose|j: int| 0 <= j < short.len() && short[j] == x;
                        assert(names[j] == x);
                    }
                } else {
                    assert(names[names.len() - 1] == x);
                }
            }
            if x == name || names.contains(x) {
                if x != name && x == names.last() {
                    assert(all[all.len() - 1] == x);
                } else {
                    if x != name {
                        let j = choose|j: int| 0 <= j < names.len() && names[j] == x;
                        assert(short[j] == x);
                    }
                    assert(part.contains(x));
                    let k = choose|k: int| 0 <= k < part.len() && part[k] == x;
                    assert(all[k] == x);
                }
            }
        }
    } else {
        assert forall|x: Seq<u8>| #[trigger] all.contains(x) <==> (x == name || names.contains(
            x,
        )) by {
            if x == name {
                assert(all[all.len() - 1] == x);
            }
            if names.contains(x) {
                let j = choose|j: int| 0 <= j < names.len() && names[j] == x;
                assert(all[j] == x);
            }
            if all.contains(x) {
                let k = choose|k: int| 0 <= k < all.len() && all[k] == x;
                if k < names.len() {
                    assert(names[k] == x);
                }
            }
        }
    }
}

/// Whether the node that entries make is a directory, and the size that it has by itself.
fn own_state(items: &Vec<Item<'_>>) -> (own: (bool, u64))
    requires
        items_valid(items@),
    ensures
        own.0 == own_is_dir(items_view(items@)),
        own.1 == own_size(items_view(items@)),
{
    let ghost all = items_view(items@);
    let mut is_dir = true;
    let mut size: u64 = 0;
    for i in 0..items.len()
        invariant
            all == items_view(items@),
            items_valid(items@),
            is_dir == own_is_dir(all.take(i as int)),
            size == own_size(all.take(i as int)),
    {
        let item = items[i];
        proof {
            assert(all.take(i + 1).drop_last() =~= all.take(i as int));
            assert(all.take(i + 1).last() == item_view(item));
            assert(items@[i as int].at <= items@[i as int].entry.path.parts@.len());
            assert(item_view(item).names.len() == item.entry.path.parts@.len() - item.at);
        }
        if item.at == item.entry.path.parts.len() {
            match item.entry.kind {
                EntryKind::File => {
                    is_dir = false;
                    size = item.entry.size;
                },
                EntryKind::Symlink => {
                    is_dir = false;
                    size = 0;
                },
                EntryKind::Dir => {
                    is_dir = true;
                },
            }
        }
    }
    assert(all.take(all.len() as int) =~= all);
    (is_dir, size)
}

proof fn lemma_own_size_fits(items: Seq<Placed>)
    ensures
        own_size(items) <= u64::MAX,
    decreases items.len(),
{
    if items.len() > 0 {
        lemma_own_size_fits(items.drop_last());
    }
}

proof fn lemma_total_part(nodes: Seq<TreeView>, n: int)
    requires
        0 <= n <= nodes.len(),
    ensures
        total(nodes.take(n)) <= total(nodes),
        forall|i: int| 0 <= i < nodes.len() ==> (#[trigger] nodes[i]).size <= total(nodes),
    decreases nodes.len(),
{
    if nodes.len() > 0 {
        let rest = nodes.drop_last();
        if n < nodes.len() {
            lemma_total_part(rest, n);
            assert(rest.take(n) =~= nodes.take(n));
        } else {
            lemma_total_part(rest, rest.len() as int);
            assert(nodes.take(n) =~= nodes);
        }
        assert forall|i: int| 0 <= i < nodes.len() implies (#[trigger] nodes[i]).size <= total(
            nodes,
        ) by {
            if i < rest.len() {
                assert(rest[i].size <= total(rest));
            }
        }
    } else {
        assert(nodes.take(n) =~= nodes);
    }
}

/// Below a child entries lie one level less deep.
proof fn lemma_depth_below(items: Seq<Placed>, name: Seq<u8>)
    ensures
        depth_of(items) > 0 ==> depth_of(below(items, name)) < depth_of(items),
        child_names(items).len() > 0 ==> depth_of(items) > 0,
    decreases items.len(),
{
    reveal(Seq::filter_map);
    reveal_with_fuel(depth_of, 2);
    if items.len() > 0 {
        let rest = items.drop_last();
        lemma_depth_below(rest, name);
        if depth_of(rest) == 0 {
            lemma_none_below(rest, name);
        }
        match descended(items.last(), name) {
            Some(p) => {
                assert(below(items, name) == below(rest, name).push(p));
                assert(below(items, name).drop_last() =~= below(rest, name));
            },
            None => {
                assert(below(items, name) == below(rest, name));
            },
        }
    }
}

struct Heavier<'a> {
    nodes: &'a Vec<Node>,
}

impl<'a> Ranked for Heavier<'a> {
    type Item = TreeView;

    closed spec fn items(&self) -> Seq<TreeView> {
        nodes_view(self.nodes@)
    }

    closed spec fn order(&self) -> spec_fn(TreeView, TreeView) -> bool {
        heavier()
    }

    proof fn ranks(&self) {
    }

    fn comes_before(&self, i: usize, j: usize) -> (before: bool) {
        self.nodes[i].size > self.nodes[j].size
    }
}

/// A node above others, which are given in the order of their names.
fn node_above(name: Vec<u8>, size: u64, is_dir: bool, children: Vec<Node>) -> (node: Node)
    requires
        forall|i: int| 0 <= i < children@.len() ==> node_sound(#[trigger] children@[i]),
    ensures
        node_view(node) == (TreeView {
            name: name@,
            size: size as nat,
            is_dir,
            children: stable_sort(nodes_view(children@), heavier()),
        }),
        node_sound(node),
{
    let order = sorted_order(&Heavier { nodes: &children }, children.len());
    let ghost all = nodes_view(children@);
    let node = Node { name, size, is_dir, children, order };
    proof {
        let shown = stable_sort(all, heavier());
        assert(shown == order@.map_values(|i: usize| all[i as int]));
        assert(node_view(node).children =~= shown) by {
            assert forall|i: int| 0 <= i < shown.len() implies #[trigger] node_view(
                node,
            ).children[i] == shown[i] by {
                assert(order@[i] < children@.len());
                assert(shown[i] == all[order@[i] as int]);
            }
        }
    }
    node
}

/// Whether the order of the children of each node lists children.
impl Node {
    /// Whether the order of the nodes below names each of them once, here and further down.
    pub closed spec fn sound(&self) -> bool {
        node_sound(*self)
    }
}

spec fn node_sound(node: Node) -> bool
    decreases node,
{
    &&& forall|i: int|
        0 <= i < node.order@.len() ==> #[trigger] node.order@[i] < node.children@.len()
    &&& forall|i: int|
        0 <= i < node.children@.len() ==> node_sound(#[trigger] node.children@[i])
}

/// The total size of nodes.
fn sum_sizes(nodes: &Vec<Node>) -> (sum: u64)
    requires
        total(nodes_view(nodes@)) <= u64::MAX,
    ensures
        sum == total(nodes_view(nodes@)),
{
    let ghost all = nodes_view(nodes@);
    let mut sum: u64 = 0;
    for i in 0..nodes.len()
        invariant
            all == nodes_view(nodes@),
            total(all) <= u64::MAX,
            sum == total(all.take(i as int)),
    {
        proof {
            lemma_total_part(all, i + 1);
            assert(all.take(i + 1).drop_last() =~= all.take(i as int));
            assert(all.take(i + 1).last() == node_view(nodes@[i as int]));
        }
        sum = sum + nodes[i].size;
    }
    assert(all.take(all.len() as int) =~= all);
    sum
}

/// The nodes below a node, in the order of their names.
fn grow(items: &Vec<Item<'_>>, Ghost(height): Ghost<nat>, summed: bool) -> (nodes: Vec<Node>)
    requires
        items_valid(items@),
        depth_of(items_view(items@)) <= height,
        forall|i: int|
            0 <= i < branches(items_view(items@), height, summed).len() ==> (#[trigger] branches(
                items_view(items@),
                height,
                summed,
            )[i]).size <= u64::MAX,
    ensures
        nodes_view(nodes@) == branches(items_view(items@), height, summed),
        forall|i: int| 0 <= i < nodes@.len() ==> node_sound(#[trigger] nodes@[i]),
    decreases height,
{
    let ghost all = items_view(items@);
    let ghost wanted = branches(all, height, summed);
    let groups = split_items(items);
    proof {
        lemma_depth_below(all, Seq::empty());
        assert(group_names(groups@).len() == groups@.len());
        if height == 0 {
            assert(wanted =~= Seq::<TreeView>::empty());
        }
    }
    let mut nodes: Vec<Node> = Vec::new();
    assert(nodes_view(nodes@) =~= wanted.take(0));
    for g in 0..groups.len()
        invariant
            all == items_view(items@),
            wanted == branches(all, height, summed),
            depth_of(all) <= height,
            groups@.len() > 0 ==> height > 0,
            group_names(groups@) == child_names(all),
            forall|g: int|
                0 <= g < groups@.len() ==> items_valid((#[trigger] groups@[g]).items@)
                    && items_view(groups@[g].items@) == below(all, groups@[g].name@),
            forall|i: int| 0 <= i < wanted.len() ==> (#[trigger] wanted[i]).size <= u64::MAX,
            nodes_view(nodes@) == wanted.take(g as int),
            forall|i: int| 0 <= i < nodes@.len() ==> node_sound(#[trigger] nodes@[i]),
        decreases groups@.len() - g,
    {
        let group = &groups[g];
        let ghost part = items_view(group.items@);
        let ghost node = branch(part, group.name@, (height - 1) as nat, summed);
        proof {
            assert(child_names(all)[g as int] == group.name@);
            assert(wanted[g as int] == node);
            lemma_depth_below(all, group.name@);
        }
        let (is_dir, own) = own_state(&group.items);
        let ghost kids = branches(part, (height - 1) as nat, summed && is_dir);
        proof {
            if summed && is_dir {
                lemma_total_part(kids, 0);
            } else {
                assert forall|i: int| 0 <= i < kids.len() implies (#[trigger] kids[i]).size
                    <= u64::MAX by {
                    let name = child_names(part)[i];
                    assert(kids[i] == branch(
                        below(part, name),
                        name,
                        (height - 2) as nat,
                        false,
                    ));
                    lemma_own_size_fits(below(part, name));
                }
            }
        }
        let children = grow(&group.items, Ghost((height - 1) as nat), summed && is_dir);
        let size = if is_dir && summed {
            sum_sizes(&children)
        } else {
            own
        };
        let made = node_above(copy_bytes(&group.name), size, is_dir, children);
        let ghost old_nodes = nodes_view(nodes@);
        nodes.push(made);
        proof {
            assert(node_view(made) == node);
            assert(nodes_view(nodes@) =~= old_nodes.push(node));
            assert(wanted.take(g + 1) =~= wanted.take(g as int).push(node));
        }
    }
    assert(wanted.take(wanted.len() as int) =~= wanted);
    nodes
}

/// Builds the tree of a result.
pub fn build_tree(result: &ScanResult) -> (tree: Node)
    requires
        tree_of(result@).size <= u64::MAX,
    ensures
        tree@ == tree_of(result@),
        tree.sound(),
{
    let mut items: Vec<Item<'_>> = Vec::new();
    let ghost root = result@.root.id();
    for i in 0..result.entries.len()
        invariant
            root == result@.root.id(),
            items@.len() == i,
            items_valid(items@),
            forall|j: int|
                0 <= j < i ==> item_view(#[trigger] items@[j]) == placed(
                    result.entries@[j]@,
                    root,
                ),
    {
        let entry = &result.entries[i];
        let at = if entry.path.starts_with(&result.root) {
            result.root.parts.len()
        } else {
            0
        };
        proof {
            let id = entry@.path.id();
            assert(id.skip(0) =~= id);
            assert(id.len() == entry.path.parts@.len());
        }
        items.push(Item { entry, at });
    }
    assert(items_view(items@) =~= all_placed(result@));
    let ghost all = all_placed(result@);
    proof {
        lemma_total_part(top_branches(result@), 0);
    }
    let children = grow(&items, Ghost(depth_of(all)), true);
    let size = sum_sizes(&children);
    let name: Vec<u8> = Vec::new();
    assert(name@ =~= Seq::<u8>::empty());
    node_above(name, size, true, children)
}

/// Appends the lines of a node and of those below it.
fn print_node(
    out: &mut Vec<String>,
    node: &Node,
    label: &str,
    indent: &String,
    Ghost(depth): Ghost<nat>,
    top: usize,
)
    requires
        node_sound(*node),
        indent@ == repeated(' ', 2 * depth),
    ensures
        lines_view(final(out)@) == lines_view(old(out)@) + tree_lines(
            node_view(*node),
            label@,
            depth,
            top as nat,
        ),
    decreases node,
{
    let ghost view = node_view(*node);
    let ghost start = lines_view(out@);
    let mut line = indent.clone();
    line.append(human_size(node.size).as_str());
    line.append("  ");
    line.append(label);
    line.append(
        if node.is_dir {
            "/"
        } else {
            ""
        },
    );
    assert(line@ =~= node_line(view, label@, depth));
    out.push(line);
    let ghost first = seq![node_line(view, label@, depth)];
    assert(lines_view(out@) =~= start + first);
    let mut deeper = indent.clone();
    deeper.append("  ");
    proof {
        reveal_strlit("  ");
        assert(deeper@ =~= repeated(' ', 2 * (depth + 1)));
    }
    let n = if top < node.order.len() {
        top
    } else {
        node.order.len()
    };
    assert(lines_view(out@) =~= start + first + forest_lines(
        view.children,
        depth + 1,
        top as nat,
        0,
    ));
    for k in 0..n
        invariant
            n <= node.order@.len(),
            node_sound(*node),
            view == node_view(*node),
            deeper@ == repeated(' ', 2 * (depth + 1)),
            lines_view(out@) == start + first + forest_lines(
                view.children,
                depth + 1,
                top as nat,
                k as nat,
            ),
        decreases n - k,
    {
        let at = node.order[k];
        let child = &node.children[at];
        let name = lossy_text(&child.name);
        proof {
            assert(node_sound(node.children@[at as int]));
            assert(view.children[k as int] == node_view(*child));
        }
        let ghost before = lines_view(out@);
        print_node(out, child, name.as_str(), &deeper, Ghost(depth + 1), top);
        proof {
            assert(lines_view(out@) =~= start + first + forest_lines(
                view.children,
                depth + 1,
                top as nat,
                (k + 1) as nat,
            ));
        }
    }
    proof {
        assert(view.children.len() == node.order@.len());
        assert(lines_view(out@) =~= start + tree_lines(view, label@, depth, top as nat));
    }
}

/// Appends the lines of the tree of a result.
pub(crate) fn render_tree(out: &mut Vec<String>, result: &ScanResult, top: usize)
    requires
        tree_of(result@).size <= u64::MAX,
    ensures
        lines_view(final(out)@) == lines_view(old(out)@) + tree_lines(
            tree_of(result@),
            result@.root.text(),
            0,
            top as nat,
        ),
{
    let tree = build_tree(result);
    let label = result.root.display();
    let indent = String::new();
    assert(indent@ =~= repeated(' ', 0));
    print_node(out, &tree, label.as_str(), &indent, Ghost(0), top);
}

/// The total size of the files among placed entries.
pub open spec fn placed_total(items: Seq<Placed>) -> nat
    decreases items.len(),
{
    if items.len() == 0 {
        0
    } else {
        placed_total(items.drop_last()) + if items.last().kind == EntryKind::File {
            items.last().size as nat
        } else {
            0
        }
    }
}

/// Whether of two entries neither is a file or a link that the other one lies at or below.
pub open spec fn apart(a: Placed, b: Placed) -> bool {
    &&& a.kind != EntryKind::Dir ==> !a.names.is_prefix_of(b.names)
    &&& b.kind != EntryKind::Dir ==> !b.names.is_prefix_of(a.names)
}

/// Whether nothing lies at or below a file or a link but itself.
pub open spec fn consistent(items: Seq<Placed>) -> bool
    decreases items.len(),
{
    items.len() > 0 ==> consistent(items.drop_last()) && forall|p: Placed| #[trigger]
        items.drop_last().contains(p) ==> apart(p, items.last())
}

/// The size of a tree's root is the total size of all files, where nothing lies at or below a
/// file or a link but itself.
pub proof fn law_tree_size_is_file_total(result: ResultView)
    requires
        consistent(all_placed(result)),
        forall|i: int|
            0 <= i < result.entries.len() ==> (#[trigger] result.entries[i]).kind
                != EntryKind::Dir ==> placed(result.entries[i], result.root.id()).names.len() > 0,
    ensures
        tree_of(result).size == file_total(result.entries),
{
    let items = all_placed(result);
    assert forall|i: int|
        0 <= i < items.len() && (#[trigger] items[i]).names.len() == 0 implies items[i].kind
        == EntryKind::Dir by {
        assert(items[i] == placed(result.entries[i], result.root.id()));
    }
    lemma_branches_total(items, depth_of(items));
    lemma_placed_total(result.entries, result.root.id());
}

/// The size of each directory is the total size of the files below it, where nothing lies at or
/// below a file or a link but itself; that of a file is its own.
pub proof fn law_node_size_is_file_total(items: Seq<Placed>, name: Seq<u8>, height: nat)
    requires
        consistent(items),
        items.len() > 0,
        depth_of(items) <= height,
    ensures
        branch(items, name, height, true).size == placed_total(items),
    decreases height, 1int,
{
    if own_is_dir(items) {
        assert forall|i: int|
            0 <= i < items.len() && (#[trigger] items[i]).names.len() == 0 implies items[i].kind
            == EntryKind::Dir by {
            if items[i].kind != EntryKind::Dir {
                lemma_lone_leaf(items, i);
                assert(items.last() == items[i]);
            }
        }
        lemma_branches_total(items, height);
    } else {
        let i = lemma_own_leaf(items);
        lemma_lone_leaf(items, i);
        assert(items.drop_last() =~= Seq::<Placed>::empty());
        assert(placed_total(items.drop_last()) == 0);
        assert(own_size(items.drop_last()) == 0);
    }
}

proof fn lemma_placed_total(entries: Seq<EntryView>, root: PathId)
    ensures
        placed_total(entries.map_values(|e: EntryView| placed(e, root))) == file_total(entries),
    decreases entries.len(),
{
    let items = entries.map_values(|e: EntryView| placed(e, root));
    if entries.len() > 0 {
        lemma_placed_total(entries.drop_last(), root);
        assert(items.drop_last() =~= entries.drop_last().map_values(
            |e: EntryView| placed(e, root),
        ));
    }
}

/// A file or link at the node itself is the only entry.
proof fn lemma_lone_leaf(items: Seq<Placed>, i: int)
    requires
        consistent(items),
        0 <= i < items.len(),
        items[i].names.len() == 0,
        items[i].kind != EntryKind::Dir,
    ensures
        items.len() == 1,
    decreases items.len(),
{
    let rest = items.drop_last();
    assert forall|q: Placed| items[i].names.is_prefix_of(#[trigger] q.names) by {
        assert(items[i].names =~= q.names.subrange(0, 0));
    }
    if i < rest.len() {
        assert(rest[i] == items[i]);
        assert(rest.contains(items[i]));
        assert(items[i].names.is_prefix_of(items.last().names));
        assert(apart(items[i], items.last()));
    } else if rest.len() > 0 {
        assert(rest.contains(rest[0]));
        assert(apart(rest[0], items.last()));
        assert(items[i].names.is_prefix_of(rest[0].names));
    }
}

/// Where the entry stands that makes a node no directory.
proof fn lemma_own_leaf(items: Seq<Placed>) -> (i: int)
    requires
        !own_is_dir(items),
    ensures
        0 <= i < items.len(),
        items[i].names.len() == 0,
        items[i].kind != EntryKind::Dir,
    decreases items.len(),
{
    if items.last().names.len() == 0 {
        items.len() - 1
    } else {
        lemma_own_leaf(items.drop_last())
    }
}

/// The sum of a number for each name.
spec fn name_sum(names: Seq<Seq<u8>>, f: spec_fn(Seq<u8>) -> nat) -> nat
    decreases names.len(),
{
    if names.len() == 0 {
        0
    } else {
        name_sum(names.drop_last(), f) + f(names.last())
    }
}

proof fn lemma_sum_insert(names: Seq<Seq<u8>>, name: Seq<u8>, f: spec_fn(Seq<u8>) -> nat)
    ensures
        name_sum(insert_sorted(names, name, name_order()), f) == name_sum(names, f) + f(name),
    decreases names.len(),
{
    let all = insert_sorted(names, name, name_order());
    if names.len() > 0 && name_order()(name, names.last()) {
        lemma_sum_insert(names.drop_last(), name, f);
        assert(all.drop_last() =~= insert_sorted(names.drop_last(), name, name_order()));
    } else {
        assert(all.drop_last() =~= names);
    }
}

proof fn lemma_sum_change(
    names: Seq<Seq<u8>>,
    name: Seq<u8>,
    f: spec_fn(Seq<u8>) -> nat,
    g: spec_fn(Seq<u8>) -> nat,
)
    requires
        names.no_duplicates(),
        forall|x: Seq<u8>| x != name ==> #[trigger] f(x) == g(x),
    ensures
        name_sum(names, g) - name_sum(names, f) == if names.contains(name) {
            g(name) - f(name)
        } else {
            0
        },
    decreases names.len(),
{
    if names.len() > 0 {
        let rest = names.drop_last();
        lemma_sum_change(rest, name, f, g);
        if names.contains(name) {
            let k = choose|k: int| 0 <= k < names.len() && names[k] == name;
            if k < rest.len() {
                assert(rest[k] == name);
                assert(names[k] != names[names.len() - 1]);
            } else if rest.contains(name) {
                let j = choose|j: int| 0 <= j < rest.len() && rest[j] == name;
                assert(names[j] != names[names.len() - 1]);
            }
        } else {
            if rest.contains(name) {
                let j = choose|j: int| 0 <= j < rest.len() && rest[j] == name;
                assert(names[j] == name);
            }
            assert(names[names.len() - 1] != name);
        }
        assert(f(names.last()) == f(names[names.len() - 1]));
    }
}

proof fn lemma_child_names_distinct(items: Seq<Placed>)
    ensures
        child_names(items).no_duplicates(),
    decreases items.len(),
{
    if items.len() > 0 {
        let names = child_names(items.drop_last());
        lemma_child_names_distinct(items.drop_last());
        let item = items.last();
        if item.names.len() > 0 && !names.contains(item.names[0]) {
            lemma_insert_distinct(names, item.names[0]);
        }
    }
}

proof fn lemma_insert_distinct(names: Seq<Seq<u8>>, name: Seq<u8>)
    requires
        names.no_duplicates(),
        !names.contains(name),
    ensures
        insert_sorted(names, name, name_order()).no_duplicates(),
    decreases names.len(),
{
    let all = insert_sorted(names, name, name_order());
    if names.len() > 0 && name_order()(name, names.last()) {
        let short = names.drop_last();
        let part = insert_sorted(short, name, name_order());
        if short.contains(name) {
            let k = choose|k: int| 0 <= k < short.len() && short[k] == name;
            assert(names[k] == name);
        }
        lemma_insert_distinct(short, name);
        lemma_insert_contains(short, name);
        if part.contains(names.last()) {
            if short.contains(names.last()) {
                let k = choose|k: int| 0 <= k < short.len() && short[k] == names.last();
                assert(names[k] == names[names.len() - 1]);
            }
            assert(names[names.len() - 1] == names.last());
            assert(names.contains(names.last()));
        }
        assert forall|i: int, j: int| 0 <= i < all.len() && 0 <= j < all.len() && i != j implies
            all[i] != all[j] by {
            if i < part.len() && j < part.len() {
                assert(part[i] == all[i] && part[j] == all[j]);
            } else if i < part.len() {
                assert(part[i] == all[i]);
                assert(part.contains(part[i]));
            } else {
                assert(part[j] == all[j]);
                assert(part.contains(part[j]));
            }
        }
    } else {
        assert forall|i: int, j: int| 0 <= i < all.len() && 0 <= j < all.len() && i != j implies
            all[i] != all[j] by {
            if i < names.len() && j < names.len() {
                assert(names[i] == all[i] && names[j] == all[j]);
            } else if i < names.len() {
                assert(names.contains(names[i]));
            } else {
                assert(names.contains(names[j]));
            }
        }
    }
}

/// The files at a node's children are those of the node that do not stand for the node itself.
proof fn lemma_split_total(items: Seq<Placed>)
    ensures
        name_sum(child_names(items), |n: Seq<u8>| placed_total(below(items, n))) + own_total(items)
            == placed_total(items),
    decreases items.len(),
{
    let now = |n: Seq<u8>| placed_total(below(items, n));
    if items.len() > 0 {
        let rest = items.drop_last();
        let item = items.last();
        let before = |n: Seq<u8>| placed_total(below(rest, n));
        let names = child_names(rest);
        lemma_split_total(rest);
        lemma_child_names_distinct(rest);
        assert forall|n: Seq<u8>| #[trigger] below(items, n) == match descended(item, n) {
            Some(p) => below(rest, n).push(p),
            None => below(rest, n),
        } by {
            reveal(Seq::filter_map);
        }
        if item.names.len() == 0 {
            assert forall|n: Seq<u8>| #[trigger] before(n) == now(n) by {
                assert(below(items, n) == below(rest, n));
            }
            lemma_sum_change(names, Seq::empty(), before, now);
            assert(now(Seq::empty()) == before(Seq::empty()));
        } else {
            let name = item.names[0];
            assert forall|x: Seq<u8>| x != name implies #[trigger] before(x) == now(x) by {
                assert(below(items, x) == below(rest, x));
            }
            let p = descended(item, name)->0;
            assert(below(items, name) == below(rest, name).push(p));
            assert(below(items, name).drop_last() =~= below(rest, name));
            lemma_sum_change(names, name, before, now);
            if !names.contains(name) {
                lemma_sum_insert(names, name, now);
                lemma_none_below(rest, name);
                assert(placed_total(below(rest, name)) == 0);
            }
        }
    }
}

/// The total size of the files that stand for the node itself.
spec fn own_total(items: Seq<Placed>) -> nat
    decreases items.len(),
{
    if items.len() == 0 {
        0
    } else {
        own_total(items.drop_last()) + if items.last().names.len() == 0 && items.last().kind
            == EntryKind::File {
            items.last().size as nat
        } else {
            0
        }
    }
}

proof fn lemma_own_total(items: Seq<Placed>)
    ensures
        own_size(items) <= own_total(items),
    decreases items.len(),
{
    if items.len() > 0 {
        lemma_own_total(items.drop_last());
    }
}

proof fn lemma_no_own_files(items: Seq<Placed>)
    requires
        forall|i: int|
            0 <= i < items.len() && (#[trigger] items[i]).names.len() == 0 ==> items[i].kind
                == EntryKind::Dir,
    ensures
        own_total(items) == 0,
    decreases items.len(),
{
    if items.len() > 0 {
        let rest = items.drop_last();
        assert forall|i: int|
            0 <= i < rest.len() && (#[trigger] rest[i]).names.len() == 0 implies rest[i].kind
            == EntryKind::Dir by {
            assert(items[i] == rest[i]);
        }
        lemma_no_own_files(rest);
        assert(items[items.len() - 1] == items.last());
    }
}

/// No node is larger than all files together: what can be counted in all can be counted in the
/// tree.
pub proof fn law_tree_is_no_larger(result: ResultView)
    ensures
        tree_of(result).size <= file_total(result.entries),
{
    let items = all_placed(result);
    lemma_branches_bound(items, depth_of(items));
    lemma_placed_total(result.entries, result.root.id());
}

proof fn lemma_branches_bound(items: Seq<Placed>, height: nat)
    ensures
        total(branches(items, height, true)) + own_total(items) <= placed_total(items),
    decreases height,
{
    let names = child_names(items);
    let kids = branches(items, height, true);
    let f = |n: Seq<u8>| placed_total(below(items, n));
    lemma_split_total(items);
    if height > 0 {
        assert forall|i: int| 0 <= i < names.len() implies (#[trigger] kids[i]).size <= f(
            names[i],
        ) by {
            let part = below(items, names[i]);
            assert(kids[i] == branch(part, names[i], (height - 1) as nat, true));
            lemma_branches_bound(part, (height - 1) as nat);
            lemma_own_total(part);
            lemma_split_total(part);
        }
        lemma_total_bound(kids, names, f);
    }
}

proof fn lemma_total_bound(
    nodes: Seq<TreeView>,
    names: Seq<Seq<u8>>,
    f: spec_fn(Seq<u8>) -> nat,
)
    requires
        nodes.len() == names.len(),
        forall|i: int| 0 <= i < names.len() ==> (#[trigger] nodes[i]).size <= f(names[i]),
    ensures
        total(nodes) <= name_sum(names, f),
    decreases nodes.len(),
{
    if nodes.len() > 0 {
        assert(nodes[nodes.len() - 1].size <= f(names[names.len() - 1]));
        assert forall|i: int| 0 <= i < names.drop_last().len() implies (
        #[trigger] nodes.drop_last()[i]).size <= f(names.drop_last()[i]) by {
            assert(nodes[i].size <= f(names[i]));
        }
        lemma_total_bound(nodes.drop_last(), names.drop_last(), f);
    }
}

proof fn lemma_below_consistent(items: Seq<Placed>, name: Seq<u8>)
    requires
        consistent(items),
    ensures
        consistent(below(items, name)),
    decreases items.len(),
{
    reveal(Seq::filter_map);
    let down = |p: Placed| descended(p, name);
    if items.len() > 0 {
        let rest = items.drop_last();
        let item = items.last();
        lemma_below_consistent(rest, name);
        match descended(item, name) {
            Some(p) => {
                let part = below(rest, name);
                assert(below(items, name) == part.push(p));
                assert(part.push(p).drop_last() =~= part);
                assert forall|q: Placed| #[trigger] part.contains(q) implies apart(q, p) by {
                    rest.lemma_filter_map_contains(down, q);
                    let r = choose|r: Placed| #[trigger] rest.contains(r) && down(r) == Some(q);
                    assert(apart(r, item));
                    lemma_prefix_down(r, item, name);
                    lemma_prefix_down(item, r, name);
                }
            },
            None => {
                assert(below(items, name) == below(rest, name));
            },
        }
    }
}

proof fn lemma_prefix_down(a: Placed, b: Placed, name: Seq<u8>)
    requires
        descended(a, name) is Some,
        descended(b, name) is Some,
    ensures
        (descended(a, name)->0).names.is_prefix_of((descended(b, name)->0).names)
            ==> a.names.is_prefix_of(b.names),
{
    let x = a.names.drop_first();
    let y = b.names.drop_first();
    if x.is_prefix_of(y) {
        assert forall|i: int| 0 <= i < a.names.len() implies a.names[i] == b.names[i] by {
            if i > 0 {
                assert(x[i - 1] == y.subrange(0, x.len() as int)[i - 1]);
            }
        }
        assert(a.names =~= b.names.subrange(0, a.names.len() as int));
    }
}

/// The files at a node's children make up the sizes of the children.
proof fn lemma_branches_total(items: Seq<Placed>, height: nat)
    requires
        consistent(items),
        depth_of(items) <= height,
        forall|i: int|
            0 <= i < items.len() && (#[trigger] items[i]).names.len() == 0 ==> items[i].kind
                == EntryKind::Dir,
    ensures
        total(branches(items, height, true)) == placed_total(items),
    decreases height, 0int,
{
    let names = child_names(items);
    let kids = branches(items, height, true);
    let f = |n: Seq<u8>| placed_total(below(items, n));
    lemma_split_total(items);
    lemma_no_own_files(items);
    lemma_depth_below(items, Seq::empty());
    if height == 0 {
        assert(names =~= Seq::<Seq<u8>>::empty());
    } else {
        assert forall|i: int| 0 <= i < names.len() implies (#[trigger] kids[i]).size == f(
            names[i],
        ) by {
            let name = names[i];
            lemma_below_consistent(items, name);
            lemma_depth_below(items, name);
            lemma_some_below(items, name);
            law_node_size_is_file_total(below(items, name), name, (height - 1) as nat);
        }
        lemma_total_sum(kids, names, f);
    }
}

/// Something lies at or below each name that comes next.
proof fn lemma_some_below(items: Seq<Placed>, name: Seq<u8>)
    requires
        child_names(items).contains(name),
    ensures
        below(items, name).len() > 0,
    decreases items.len(),
{
    reveal(Seq::filter_map);
    let rest = items.drop_last();
    let item = items.last();
    let names = child_names(rest);
    if names.contains(name) {
        lemma_some_below(rest, name);
    } else {
        lemma_insert_contains(names, item.names[0]);
        assert(item.names[0] == name);
    }
}

proof fn lemma_total_sum(
    nodes: Seq<TreeView>,
    names: Seq<Seq<u8>>,
    f: spec_fn(Seq<u8>) -> nat,
)
    requires
        nodes.len() == names.len(),
        forall|i: int| 0 <= i < names.len() ==> (#[trigger] nodes[i]).size == f(names[i]),
    ensures
        total(nodes) == name_sum(names, f),
    decreases nodes.len(),
{
    if nodes.len() > 0 {
        assert(nodes[nodes.len() - 1].size == f(names[names.len() - 1]));
        assert forall|i: int| 0 <= i < names.drop_last().len() implies (
        #[trigger] nodes.drop_last()[i]).size == f(names.drop_last()[i]) by {
            assert(nodes[i].size == f(names[i]));
        }
        lemma_total_sum(nodes.drop_last(), names.drop_last(), f);
    }
}

/// Whether no two entries lie at the same place.
pub open spec fn places_differ(items: Seq<Placed>) -> bool {
    forall|i: int, j: int|
        0 <= i < j < items.len() ==> (#[trigger] items[i]).names != (#[trigger] items[j]).names
}

/// Where no two entries lie at the same place, their order does not matter: any other order
/// gives the same tree.
pub proof fn law_tree_ignores_order(a: ResultView, b: ResultView)
    requires
        a.root.id() == b.root.id(),
        a.entries.to_multiset() == b.entries.to_multiset(),
        places_differ(all_placed(a)),
    ensures
        tree_of(a) == tree_of(b),
{
    let root = a.root.id();
    let x = all_placed(a);
    let y = all_placed(b);
    lemma_map_rearranged(a.entries, b.entries, |e: EntryView| placed(e, root));
    lemma_depth_any_order(x, y);
    lemma_depth_any_order(y, x);
    lemma_branches_any_order(x, y, depth_of(x), true);
}

/// Entries strictly below the root whose paths differ and whose components below the root are
/// names lie at different places.
pub proof fn law_paths_are_places(result: ResultView)
    requires
        forall|i: int|
            0 <= i < result.entries.len() ==> within(
                (#[trigger] result.entries[i]).path.id(),
                result.root.id(),
            ),
        forall|i: int, k: int|
            0 <= i < result.entries.len() && result.root.id().len() <= k
                < result.entries[i].path.id().len() ==> (#[trigger] result.entries[i].path.id()[k]).kind
                == PartKind::Normal,
        forall|i: int, j: int|
            0 <= i < j < result.entries.len() ==> (#[trigger] result.entries[i]).path.id() != (
            #[trigger] result.entries[j]).path.id(),
    ensures
        places_differ(all_placed(result)),
{
    let root = result.root.id();
    let items = all_placed(result);
    assert forall|i: int, j: int| 0 <= i < j < items.len() implies (#[trigger] items[i]).names != (
    #[trigger] items[j]).names by {
        let x = result.entries[i].path.id();
        let y = result.entries[j].path.id();
        assert(within(x, root) && within(y, root));
        if items[i].names == items[j].names {
            let n = root.len() as int;
            assert(x.len() - n == items[i].names.len() && y.len() - n == items[j].names.len());
            assert forall|k: int| 0 <= k < x.len() implies x[k] == y[k] by {
                if k < n {
                    assert(x.subrange(0, n)[k] == y.subrange(0, n)[k]);
                } else {
                    assert(items[i].names[k - n] == x[k].name);
                    assert(items[j].names[k - n] == y[k].name);
                    assert(result.entries[i].path.id()[k].kind == PartKind::Normal);
                    assert(result.entries[j].path.id()[k].kind == PartKind::Normal);
                }
            }
            assert(x =~= y);
        }
    }
}

proof fn lemma_insert_ascends(names: Seq<Seq<u8>>, name: Seq<u8>)
    requires
        ascending(names),
        !names.contains(name),
    ensures
        ascending(insert_sorted(names, name, name_order())),
    decreases names.len(),
{
    lemma_name_order();
    let less = name_order();
    let all = insert_sorted(names, name, less);
    if names.len() > 0 && less(name, names.last()) {
        let short = names.drop_last();
        let part = insert_sorted(short, name, less);
        if short.contains(name) {
            let k = choose|k: int| 0 <= k < short.len() && short[k] == name;
            assert(names[k] == name);
        }
        assert(ascending(short)) by {
            assert forall|i: int, j: int| 0 <= i < j < short.len() implies less(
                #[trigger] short[i],
                #[trigger] short[j],
            ) by {
                assert(less(names[i], names[j]));
            }
        }
        lemma_insert_ascends(short, name);
        lemma_insert_contains(short, name);
        assert forall|i: int, j: int| 0 <= i < j < all.len() implies less(
            #[trigger] all[i],
            #[trigger] all[j],
        ) by {
            if j < part.len() {
                assert(less(part[i], part[j]));
            } else {
                assert(part.contains(part[i]));
                if part[i] != name {
                    let k = choose|k: int| 0 <= k < short.len() && short[k] == part[i];
                    assert(less(names[k], names[names.len() - 1]));
                }
            }
        }
    } else {
        assert forall|i: int, j: int| 0 <= i < j < all.len() implies less(
            #[trigger] all[i],
            #[trigger] all[j],
        ) by {
            if j < names.len() {
                assert(less(names[i], names[j]));
            } else {
                let last = names[names.len() - 1];
                assert(names.contains(last));
                assert(less(last, name) || less(name, last));
                if i < names.len() - 1 {
                    assert(less(names[i], last));
                }
            }
        }
    }
}

proof fn lemma_child_names_ascend(items: Seq<Placed>)
    ensures
        ascending(child_names(items)),
    decreases items.len(),
{
    if items.len() > 0 {
        let names = child_names(items.drop_last());
        lemma_child_names_ascend(items.drop_last());
        let item = items.last();
        if item.names.len() > 0 && !names.contains(item.names[0]) {
            lemma_insert_ascends(names, item.names[0]);
        }
    }
}

/// Names in order are given by which names they are.
proof fn lemma_same_names(a: Seq<Seq<u8>>, b: Seq<Seq<u8>>)
    requires
        ascending(a),
        ascending(b),
        forall|n: Seq<u8>| #[trigger] a.contains(n) <==> b.contains(n),
    ensures
        a == b,
    decreases a.len(),
{
    lemma_name_order();
    let less = name_order();
    if a.len() == 0 {
        if b.len() > 0 {
            assert(b.contains(b[0]));
            assert(a.contains(b[0]));
        }
        assert(a =~= b);
    } else {
        assert(a.contains(a[a.len() - 1]));
        let j = choose|j: int| 0 <= j < b.len() && b[j] == a.last();
        assert(b.contains(b[b.len() - 1]));
        assert(a.contains(b.last()));
        let i = choose|i: int| 0 <= i < a.len() && a[i] == b.last();
        if j < b.len() - 1 {
            assert(less(b[j], b[b.len() - 1]));
            if i < a.len() - 1 {
                assert(less(a[i], a[a.len() - 1]));
            }
        }
        assert(a.last() == b.last());
        let x = a.drop_last();
        let y = b.drop_last();
        lemma_without_last(a);
        lemma_without_last(b);
        assert forall|n: Seq<u8>| #[trigger] x.contains(n) <==> y.contains(n) by {
            assert(a.contains(n) <==> b.contains(n));
        }
        lemma_same_names(x, y);
        assert(a =~= x.push(a.last()));
        assert(b =~= y.push(b.last()));
    }
}

proof fn lemma_without_last(names: Seq<Seq<u8>>)
    requires
        ascending(names),
        names.len() > 0,
    ensures
        ascending(names.drop_last()),
        forall|n: Seq<u8>| #[trigger]
            names.drop_last().contains(n) <==> names.contains(n) && n != names.last(),
{
    lemma_name_order();
    let less = name_order();
    let short = names.drop_last();
    assert forall|i: int, j: int| 0 <= i < j < short.len() implies less(
        #[trigger] short[i],
        #[trigger] short[j],
    ) by {
        assert(less(names[i], names[j]));
    }
    assert forall|n: Seq<u8>| #[trigger] short.contains(n) <==> names.contains(n) && n
        != names.last() by {
        if short.contains(n) {
            let k = choose|k: int| 0 <= k < short.len() && short[k] == n;
            assert(names[k] == n);
            assert(less(names[k], names[names.len() - 1]));
        }
        if names.contains(n) && n != names.last() {
            let k = choose|k: int| 0 <= k < names.len() && names[k] == n;
            assert(short[k] == n);
        }
    }
}

proof fn lemma_below_rearranged(x: Seq<Placed>, y: Seq<Placed>, name: Seq<u8>)
    requires
        x.to_multiset() == y.to_multiset(),
    ensures
        below(x, name).to_multiset() == below(y, name).to_multiset(),
        below(x, name).len() == below(y, name).len(),
{
    lemma_filter_map_rearranged(x, y, |p: Placed| descended(p, name));
    to_multiset_len(below(x, name));
    to_multiset_len(below(y, name));
}

proof fn lemma_same_children(x: Seq<Placed>, y: Seq<Placed>)
    requires
        x.to_multiset() == y.to_multiset(),
    ensures
        child_names(x) == child_names(y),
{
    lemma_child_names_ascend(x);
    lemma_child_names_ascend(y);
    assert forall|n: Seq<u8>| #[trigger] child_names(x).contains(n) <==> child_names(y).contains(
        n,
    ) by {
        lemma_below_rearranged(x, y, n);
        if child_names(x).contains(n) {
            lemma_some_below(x, n);
            if !child_names(y).contains(n) {
                lemma_none_below(y, n);
            }
        } else if child_names(y).contains(n) {
            lemma_some_below(y, n);
            lemma_none_below(x, n);
        }
    }
    lemma_same_names(child_names(x), child_names(y));
}

/// Without an entry for itself a node is a directory.
proof fn lemma_no_own(items: Seq<Placed>)
    requires
        forall|i: int| 0 <= i < items.len() ==> (#[trigger] items[i]).names.len() > 0,
    ensures
        own_is_dir(items),
        own_size(items) == 0,
    decreases items.len(),
{
    if items.len() > 0 {
        let rest = items.drop_last();
        assert forall|i: int| 0 <= i < rest.len() implies (#[trigger] rest[i]).names.len() > 0 by {
            assert(items[i] == rest[i]);
        }
        lemma_no_own(rest);
        assert(items[items.len() - 1].names.len() > 0);
    }
}

/// The only entry for a node itself says what the node is.
proof fn lemma_own_entry(items: Seq<Placed>, k: int)
    requires
        places_differ(items),
        0 <= k < items.len(),
        items[k].names.len() == 0,
    ensures
        own_is_dir(items) == (items[k].kind == EntryKind::Dir),
        own_size(items) == if items[k].kind == EntryKind::File {
            items[k].size as nat
        } else {
            0
        },
    decreases items.len(),
{
    let rest = items.drop_last();
    if k < rest.len() {
        assert(items[k].names != items[items.len() - 1].names);
        if items.last().names.len() == 0 {
            assert(items[k].names =~= items.last().names);
        }
        assert(places_differ(rest)) by {
            assert forall|i: int, j: int| 0 <= i < j < rest.len() implies (
            #[trigger] rest[i]).names != (#[trigger] rest[j]).names by {
                assert(items[i].names != items[j].names);
            }
        }
        lemma_own_entry(rest, k);
    } else {
        assert forall|i: int| 0 <= i < rest.len() implies (#[trigger] rest[i]).names.len() > 0 by {
            assert(items[i].names != items[k].names);
            if rest[i].names.len() == 0 {
                assert(items[i].names =~= items[k].names);
            }
        }
        lemma_no_own(rest);
    }
}

proof fn lemma_same_own(x: Seq<Placed>, y: Seq<Placed>)
    requires
        x.to_multiset() == y.to_multiset(),
        places_differ(x),
        places_differ(y),
    ensures
        own_is_dir(x) == own_is_dir(y),
        own_size(x) == own_size(y),
{
    if exists|k: int| 0 <= k < x.len() && (#[trigger] x[k]).names.len() == 0 {
        let k = choose|k: int| 0 <= k < x.len() && (#[trigger] x[k]).names.len() == 0;
        lemma_rearranged_holds(x, y, k);
        let j = choose|j: int| 0 <= j < y.len() && y[j] == x[k];
        lemma_own_entry(x, k);
        lemma_own_entry(y, j);
    } else {
        assert forall|j: int| 0 <= j < y.len() implies (#[trigger] y[j]).names.len() > 0 by {
            lemma_rearranged_holds(y, x, j);
            let k = choose|k: int| 0 <= k < x.len() && x[k] == y[j];
            assert(x[k].names.len() > 0);
        }
        lemma_no_own(x);
        lemma_no_own(y);
    }
}

proof fn lemma_differ_rearranged(x: Seq<Placed>, y: Seq<Placed>)
    requires
        x.to_multiset() == y.to_multiset(),
        places_differ(x),
    ensures
        places_differ(y),
{
    assert(x.no_duplicates()) by {
        assert forall|i: int, j: int| 0 <= i < j < x.len() implies x[i] != x[j] by {
            assert(x[i].names != x[j].names);
        }
    }
    x.lemma_multiset_has_no_duplicates();
    y.lemma_multiset_has_no_duplicates_conv();
    assert forall|i: int, j: int| 0 <= i < j < y.len() implies (#[trigger] y[i]).names != (
    #[trigger] y[j]).names by {
        lemma_rearranged_holds(y, x, i);
        lemma_rearranged_holds(y, x, j);
        let a = choose|a: int| 0 <= a < x.len() && x[a] == y[i];
        let b = choose|b: int| 0 <= b < x.len() && x[b] == y[j];
        assert(a != b);
        if a < b {
            assert(x[a].names != x[b].names);
        } else {
            assert(x[b].names != x[a].names);
        }
    }
}

proof fn lemma_below_differ(items: Seq<Placed>, name: Seq<u8>)
    requires
        places_differ(items),
    ensures
        places_differ(below(items, name)),
    decreases items.len(),
{
    reveal(Seq::filter_map);
    let down = |p: Placed| descended(p, name);
    if items.len() > 0 {
        let rest = items.drop_last();
        let item = items.last();
        assert(places_differ(rest)) by {
            assert forall|i: int, j: int| 0 <= i < j < rest.len() implies (
            #[trigger] rest[i]).names != (#[trigger] rest[j]).names by {
                assert(items[i].names != items[j].names);
            }
        }
        lemma_below_differ(rest, name);
        let part = below(rest, name);
        match descended(item, name) {
            Some(p) => {
                let all = below(items, name);
                assert(all == part.push(p));
                assert forall|i: int, j: int| 0 <= i < j < all.len() implies (
                #[trigger] all[i]).names != (#[trigger] all[j]).names by {
                    if j < part.len() {
                        assert(part[i].names != part[j].names);
                    } else {
                        assert(part.contains(part[i]));
                        rest.lemma_filter_map_contains(down, part[i]);
                        let r = choose|r: Placed| #[trigger]
                            rest.contains(r) && down(r) == Some(part[i]);
                        let k = choose|k: int| 0 <= k < rest.len() && rest[k] == r;
                        assert(items[k].names != items[items.len() - 1].names);
                        assert(r.names =~= seq![name] + r.names.drop_first());
                        assert(item.names =~= seq![name] + item.names.drop_first());
                    }
                }
            },
            None => {
                assert(below(items, name) == part);
            },
        }
    }
}

proof fn lemma_depth_holds(items: Seq<Placed>, k: int)
    requires
        0 <= k < items.len(),
    ensures
        items[k].names.len() <= depth_of(items),
    decreases items.len(),
{
    if k < items.len() - 1 {
        lemma_depth_holds(items.drop_last(), k);
    }
}

/// A rearrangement lies no less deep.
proof fn lemma_depth_any_order(x: Seq<Placed>, y: Seq<Placed>)
    requires
        x.to_multiset() == y.to_multiset(),
    ensures
        depth_of(x) <= depth_of(y),
{
    assert forall|k: int| 0 <= k < x.len() implies (#[trigger] x[k]).names.len() <= depth_of(
        y,
    ) by {
        lemma_rearranged_holds(x, y, k);
        let j = choose|j: int| 0 <= j < y.len() && y[j] == x[k];
        lemma_depth_holds(y, j);
    }
    lemma_depth_least(x, depth_of(y));
}

proof fn lemma_depth_least(items: Seq<Placed>, depth: nat)
    requires
        forall|k: int| 0 <= k < items.len() ==> (#[trigger] items[k]).names.len() <= depth,
    ensures
        depth_of(items) <= depth,
    decreases items.len(),
{
    if items.len() > 0 {
        let rest = items.drop_last();
        assert forall|k: int| 0 <= k < rest.len() implies (#[trigger] rest[k]).names.len()
            <= depth by {
            assert(items[k] == rest[k]);
        }
        lemma_depth_least(rest, depth);
        assert(items[items.len() - 1].names.len() <= depth);
    }
}

proof fn lemma_branches_any_order(x: Seq<Placed>, y: Seq<Placed>, height: nat, summed: bool)
    requires
        x.to_multiset() == y.to_multiset(),
        places_differ(x),
    ensures
        branches(x, height, summed) == branches(y, height, summed),
    decreases height,
{
    if height > 0 {
        let names = child_names(x);
        lemma_same_children(x, y);
        let a = branches(x, height, summed);
        let b = branches(y, height, summed);
        assert forall|i: int| 0 <= i < names.len() implies a[i] == b[i] by {
            let name = names[i];
            let p = below(x, name);
            let q = below(y, name);
            lemma_below_rearranged(x, y, name);
            lemma_below_differ(x, name);
            lemma_differ_rearranged(p, q);
            lemma_same_own(p, q);
            lemma_branches_any_order(p, q, (height - 1) as nat, summed && own_is_dir(p));
            assert(a[i] == branch(p, name, (height - 1) as nat, summed));
            assert(b[i] == branch(q, name, (height - 1) as nat, summed));
        }
        assert(a =~= b);
    }
}

/// Whether a node stands at a place of a tree, which is given by the names that lead there.
pub open spec fn stands_at(tree: TreeView, names: Seq<Seq<u8>>, node: TreeView) -> bool
    decreases names.len(),
{
    if names.len() == 0 {
        node == tree
    } else {
        exists|i: int|
            0 <= i < tree.children.len() && (#[trigger] tree.children[i]).name == names[0]
                && stands_at(tree.children[i], names.drop_first(), node)
    }
}

/// Whether a node stands at a place of a tree.
pub open spec fn has_node(tree: TreeView, names: Seq<Seq<u8>>) -> bool {
    exists|node: TreeView| stands_at(tree, names, node)
}

/// Whether names lead to an entry or to a directory above one.
pub open spec fn leads_to_some(result: ResultView, names: Seq<Seq<u8>>) -> bool {
    exists|i: int|
        0 <= i < result.entries.len() && names.is_prefix_of(
            placed(#[trigger] result.entries[i], result.root.id()).names,
        )
}

/// Whether no two nodes stand at the same place.
pub open spec fn one_node_each(tree: TreeView) -> bool
    decreases tree,
{
    &&& forall|i: int, j: int|
        0 <= i < j < tree.children.len() ==> (#[trigger] tree.children[i]).name != (
        #[trigger] tree.children[j]).name
    &&& forall|i: int| 0 <= i < tree.children.len() ==> one_node_each(#[trigger] tree.children[i])
}

/// The tree has one node for each entry and for each directory above one, and no others.
pub proof fn law_each_place_has_one_node(result: ResultView, names: Seq<Seq<u8>>)
    ensures
        one_node_each(tree_of(result)),
        has_node(tree_of(result), names) <==> names.len() == 0 || leads_to_some(result, names),
{
    let items = all_placed(result);
    let height = depth_of(items);
    let tree = tree_of(result);
    lemma_one_node_each(items, height, true);
    lemma_sorted_nodes(items, height, true);
    lemma_places(tree, items, height, true, names);
    if exists|i: int| 0 <= i < items.len() && names.is_prefix_of((#[trigger] items[i]).names) {
        let i = choose|i: int| 0 <= i < items.len() && names.is_prefix_of(
            (#[trigger] items[i]).names,
        );
        assert(items[i] == placed(result.entries[i], result.root.id()));
    }
    if exists|i: int|
        0 <= i < result.entries.len() && names.is_prefix_of(
            placed(#[trigger] result.entries[i], result.root.id()).names,
        ) {
        let i = choose|i: int|
            0 <= i < result.entries.len() && names.is_prefix_of(
                placed(#[trigger] result.entries[i], result.root.id()).names,
            );
        assert(items[i] == placed(result.entries[i], result.root.id()));
    }
}

/// Where nothing lies at or below a file or a link but itself, the node at a place has the total
/// size of the files at or below the place: a directory that of all files in it, a file its own,
/// a link none. It is a directory unless a file or a link stands there.
pub proof fn law_node_at_place(result: ResultView, names: Seq<Seq<u8>>, node: TreeView)
    requires
        consistent(all_placed(result)),
        names.len() > 0,
        stands_at(tree_of(result), names, node),
    ensures
        node.name == names.last(),
        node.size == placed_total(
            all_placed(result).filter(|p: Placed| names.is_prefix_of(p.names)),
        ),
        node.is_dir <==> !exists|p: Placed| #[trigger]
            all_placed(result).contains(p) && p.names == names && p.kind != EntryKind::Dir,
        forall|p: Placed| #[trigger]
            all_placed(result).contains(p) && p.names == names && p.kind != EntryKind::Dir
                ==> node.size == if p.kind == EntryKind::File {
                p.size as nat
            } else {
                0
            },
{
    let items = all_placed(result);
    lemma_node_at(tree_of(result), items, depth_of(items), names, node);
}

/// The nodes below a node, sorted by size, are those in the order of their names.
proof fn lemma_sorted_nodes(items: Seq<Placed>, height: nat, summed: bool)
    ensures
        ({
            let kids = branches(items, height, summed);
            let sorted = stable_sort(kids, heavier());
            &&& forall|i: int| 0 <= i < sorted.len() ==> kids.contains(#[trigger] sorted[i])
            &&& forall|k: int| 0 <= k < kids.len() ==> sorted.contains(#[trigger] kids[k])
            &&& forall|i: int, j: int|
                0 <= i < j < sorted.len() ==> (#[trigger] sorted[i]).name != (
                #[trigger] sorted[j]).name
        }),
{
    let names = child_names(items);
    let kids = branches(items, height, summed);
    let sorted = stable_sort(kids, heavier());
    law_stable_sort(kids, heavier());
    lemma_child_names_distinct(items);
    assert forall|i: int| 0 <= i < sorted.len() implies kids.contains(#[trigger] sorted[i]) by {
        lemma_rearranged_holds(sorted, kids, i);
    }
    assert forall|k: int| 0 <= k < kids.len() implies sorted.contains(#[trigger] kids[k]) by {
        lemma_rearranged_holds(kids, sorted, k);
    }
    assert forall|k: int| 0 <= k < kids.len() implies (#[trigger] kids[k]).name == names[k] by {
        assert(kids[k] == branch(
            below(items, names[k]),
            names[k],
            (height - 1) as nat,
            summed,
        ));
    }
    assert(kids.no_duplicates()) by {
        assert forall|i: int, j: int| 0 <= i < j < kids.len() implies kids[i] != kids[j] by {
            assert(kids[i].name == names[i] && kids[j].name == names[j]);
        }
    }
    kids.lemma_multiset_has_no_duplicates();
    sorted.lemma_multiset_has_no_duplicates_conv();
    assert forall|i: int, j: int| 0 <= i < j < sorted.len() implies (#[trigger] sorted[i]).name != (
    #[trigger] sorted[j]).name by {
        let a = choose|a: int| 0 <= a < kids.len() && kids[a] == sorted[i];
        let b = choose|b: int| 0 <= b < kids.len() && kids[b] == sorted[j];
        assert(a != b);
        assert(kids[a].name == names[a] && kids[b].name == names[b]);
    }
}

/// The node that stands for a name below a node.
proof fn lemma_child_of(items: Seq<Placed>, height: nat, summed: bool, child: TreeView)
    requires
        branches(items, height, summed).contains(child),
    ensures
        height > 0,
        child_names(items).contains(child.name),
        child == branch(below(items, child.name), child.name, (height - 1) as nat, summed),
{
    let names = child_names(items);
    let kids = branches(items, height, summed);
    let k = choose|k: int| 0 <= k < kids.len() && kids[k] == child;
    assert(kids[k] == branch(below(items, names[k]), names[k], (height - 1) as nat, summed));
    assert(names.contains(names[k]));
}

proof fn lemma_one_node_each(items: Seq<Placed>, height: nat, summed: bool)
    ensures
        forall|i: int|
            0 <= i < stable_sort(branches(items, height, summed), heavier()).len()
                ==> one_node_each(
                #[trigger] stable_sort(branches(items, height, summed), heavier())[i],
            ),
    decreases height,
{
    let kids = branches(items, height, summed);
    let sorted = stable_sort(kids, heavier());
    lemma_sorted_nodes(items, height, summed);
    assert forall|i: int| 0 <= i < sorted.len() implies one_node_each(#[trigger] sorted[i]) by {
        let child = sorted[i];
        lemma_child_of(items, height, summed, child);
        let part = below(items, child.name);
        let deeper = summed && own_is_dir(part);
        lemma_one_node_each(part, (height - 1) as nat, deeper);
        lemma_sorted_nodes(part, (height - 1) as nat, deeper);
        assert(child.children == stable_sort(
            branches(part, (height - 1) as nat, deeper),
            heavier(),
        ));
    }
}

proof fn lemma_prefix_step(names: Seq<Seq<u8>>, p: Placed)
    requires
        names.len() > 0,
    ensures
        names.is_prefix_of(p.names) <==> descended(p, names[0]) is Some
            && names.drop_first().is_prefix_of((descended(p, names[0])->0).names),
{
    let rest = names.drop_first();
    let short = p.names.drop_first();
    if names.is_prefix_of(p.names) {
        assert(p.names.subrange(0, names.len() as int)[0] == names[0]);
        assert forall|k: int| 0 <= k < rest.len() implies rest[k] == short[k] by {
            assert(p.names.subrange(0, names.len() as int)[k + 1] == names[k + 1]);
        }
        assert(rest =~= short.subrange(0, rest.len() as int));
    }
    if p.names.len() > 0 && p.names[0] == names[0] && rest.is_prefix_of(short) {
        assert forall|k: int| 0 <= k < names.len() implies names[k] == p.names[k] by {
            if k > 0 {
                assert(short.subrange(0, rest.len() as int)[k - 1] == rest[k - 1]);
            }
        }
        assert(names =~= p.names.subrange(0, names.len() as int));
    }
}

/// A place has a node if something lies there or below.
proof fn lemma_places(
    tree: TreeView,
    items: Seq<Placed>,
    height: nat,
    summed: bool,
    names: Seq<Seq<u8>>,
)
    requires
        tree.children == stable_sort(branches(items, height, summed), heavier()),
        depth_of(items) <= height,
    ensures
        (exists|node: TreeView| stands_at(tree, names, node)) <==> names.len() == 0 || (exists|
            i: int,
        |
            0 <= i < items.len() && names.is_prefix_of((#[trigger] items[i]).names)),
    decreases names.len(),
{
    let kids = branches(items, height, summed);
    if names.len() == 0 {
        assert(stands_at(tree, names, tree));
    } else {
        let name = names[0];
        let rest = names.drop_first();
        let part = below(items, name);
        let down = |p: Placed| descended(p, name);
        lemma_sorted_nodes(items, height, summed);
        lemma_depth_below(items, name);
        if exists|node: TreeView| stands_at(tree, names, node) {
            let node = choose|node: TreeView| stands_at(tree, names, node);
            let i = choose|i: int|
                0 <= i < tree.children.len() && (#[trigger] tree.children[i]).name == name
                    && stands_at(tree.children[i], rest, node);
            let child = tree.children[i];
            lemma_child_of(items, height, summed, child);
            lemma_some_below(items, name);
            lemma_places(child, part, (height - 1) as nat, summed && own_is_dir(part), rest);
            let k = if rest.len() == 0 {
                0
            } else {
                choose|k: int| 0 <= k < part.len() && rest.is_prefix_of((#[trigger] part[k]).names)
            };
            if rest.len() == 0 {
                assert(rest =~= part[k].names.subrange(0, 0));
            }
            assert(part.contains(part[k]));
            items.lemma_filter_map_contains(down, part[k]);
            let r = choose|r: Placed| #[trigger] items.contains(r) && down(r) == Some(part[k]);
            lemma_prefix_step(names, r);
            let j = choose|j: int| 0 <= j < items.len() && items[j] == r;
            assert(names.is_prefix_of(items[j].names));
        }
        if exists|i: int| 0 <= i < items.len() && names.is_prefix_of((#[trigger] items[i]).names) {
            let i = choose|i: int|
                0 <= i < items.len() && names.is_prefix_of((#[trigger] items[i]).names);
            lemma_prefix_step(names, items[i]);
            lemma_filter_map_holds(items, down, i);
            let p = descended(items[i], name)->0;
            assert(part.contains(p));
            let k = choose|k: int| 0 <= k < part.len() && part[k] == p;
            assert(rest.is_prefix_of(part[k].names));
            if !child_names(items).contains(name) {
                lemma_none_below(items, name);
            }
            let c = choose|c: int| 0 <= c < child_names(items).len() && child_names(items)[c]
                == name;
            let child = kids[c];
            assert(child == branch(part, name, (height - 1) as nat, summed));
            assert(tree.children.contains(kids[c]));
            lemma_places(child, part, (height - 1) as nat, summed && own_is_dir(part), rest);
            let node = choose|node: TreeView| stands_at(child, rest, node);
            let j = choose|j: int| 0 <= j < tree.children.len() && tree.children[j] == child;
            assert(tree.children[j].name == names[0]);
            assert(stands_at(tree, names, node));
        }
    }
}

/// What lies at or below a place is what lies at or below the rest of it, one level further down.
proof fn lemma_under(items: Seq<Placed>, names: Seq<Seq<u8>>)
    requires
        names.len() > 0,
    ensures
        placed_total(items.filter(|p: Placed| names.is_prefix_of(p.names))) == placed_total(
            below(items, names[0]).filter(|p: Placed| names.drop_first().is_prefix_of(p.names)),
        ),
    decreases items.len(),
{
    reveal(Seq::filter);
    reveal(Seq::filter_map);
    let here = |p: Placed| names.is_prefix_of(p.names);
    let there = |p: Placed| names.drop_first().is_prefix_of(p.names);
    if items.len() > 0 {
        let rest = items.drop_last();
        let item = items.last();
        let part = below(rest, names[0]);
        lemma_under(rest, names);
        lemma_prefix_step(names, item);
        match descended(item, names[0]) {
            Some(p) => {
                assert(below(items, names[0]) == part.push(p));
                assert(part.push(p).drop_last() =~= part);
                assert(rest.filter(here).push(item).drop_last() =~= rest.filter(here));
                assert(part.filter(there).push(p).drop_last() =~= part.filter(there));
            },
            None => {
                assert(below(items, names[0]) == part);
            },
        }
    }
}

proof fn lemma_node_at(
    tree: TreeView,
    items: Seq<Placed>,
    height: nat,
    names: Seq<Seq<u8>>,
    node: TreeView,
)
    requires
        tree.children == stable_sort(branches(items, height, true), heavier()),
        depth_of(items) <= height,
        consistent(items),
        names.len() > 0,
        stands_at(tree, names, node),
    ensures
        node.name == names.last(),
        node.size == placed_total(items.filter(|p: Placed| names.is_prefix_of(p.names))),
        node.is_dir <==> !exists|p: Placed| #[trigger]
            items.contains(p) && p.names == names && p.kind != EntryKind::Dir,
        forall|p: Placed| #[trigger]
            items.contains(p) && p.names == names && p.kind != EntryKind::Dir ==> node.size
                == if p.kind == EntryKind::File {
                p.size as nat
            } else {
                0
            },
    decreases names.len(),
{
    let name = names[0];
    let rest = names.drop_first();
    let part = below(items, name);
    let there = |p: Placed| rest.is_prefix_of(p.names);
    let i = choose|i: int|
        0 <= i < tree.children.len() && (#[trigger] tree.children[i]).name == name && stands_at(
            tree.children[i],
            rest,
            node,
        );
    let child = tree.children[i];
    lemma_sorted_nodes(items, height, true);
    lemma_child_of(items, height, true, child);
    lemma_some_below(items, name);
    lemma_below_consistent(items, name);
    lemma_depth_below(items, name);
    lemma_under(items, names);
    if rest.len() == 0 {
        law_node_size_is_file_total(part, name, (height - 1) as nat);
        assert forall|p: Placed| #[trigger] there(p) by {
            assert(rest =~= p.names.subrange(0, 0));
        }
        lemma_filter_all(part, there);
        if own_is_dir(part) {
            assert forall|k: int| 0 <= k < part.len() implies (#[trigger] part[k]).names != rest
                || part[k].kind == EntryKind::Dir by {
                if part[k].names == rest && part[k].kind != EntryKind::Dir {
                    lemma_lone_leaf(part, k);
                    assert(part.last() == part[k]);
                }
            }
        } else {
            let k = lemma_own_leaf(part);
            lemma_lone_leaf(part, k);
            assert(part[k].names =~= rest);
            assert(part.contains(part[k]));
        }
    } else {
        if !own_is_dir(part) {
            let k = lemma_own_leaf(part);
            lemma_lone_leaf(part, k);
            assert(part.drop_last() =~= Seq::<Placed>::empty());
            assert(child_names(part) =~= Seq::<Seq<u8>>::empty()) by {
                reveal_with_fuel(child_names, 2);
            }
            let kids = branches(part, (height - 1) as nat, false);
            assert(kids =~= Seq::<TreeView>::empty());
            assert(child.children =~= Seq::<TreeView>::empty());
        }
        lemma_node_at(child, part, (height - 1) as nat, rest, node);
    }
    lemma_entries_at(items, names);
    if exists|p: Placed| #[trigger]
        items.contains(p) && p.names == names && p.kind != EntryKind::Dir {
        let p = choose|p: Placed| #[trigger]
            items.contains(p) && p.names == names && p.kind != EntryKind::Dir;
        let q = Placed { names: rest, kind: p.kind, size: p.size };
        assert(part.contains(q));
    }
    if exists|q: Placed| #[trigger] part.contains(q) && q.names == rest && q.kind != EntryKind::Dir {
        let q = choose|q: Placed| #[trigger]
            part.contains(q) && q.names == rest && q.kind != EntryKind::Dir;
        let p = Placed { names, kind: q.kind, size: q.size };
        assert(items.contains(p));
    }
    if rest.len() == 0 {
        assert forall|p: Placed| #[trigger]
            items.contains(p) && p.names == names && p.kind != EntryKind::Dir implies node.size
            == if p.kind == EntryKind::File {
            p.size as nat
        } else {
            0
        } by {
            let q = Placed { names: rest, kind: p.kind, size: p.size };
            assert(part.contains(q));
            let k = choose|k: int| 0 <= k < part.len() && part[k] == q;
            lemma_lone_leaf(part, k);
            assert(part.drop_last() =~= Seq::<Placed>::empty());
            assert(part.last() == q);
            assert(placed_total(part.drop_last()) == 0);
        }
    } else {
        assert forall|p: Placed| #[trigger]
            items.contains(p) && p.names == names && p.kind != EntryKind::Dir implies node.size
            == if p.kind == EntryKind::File {
            p.size as nat
        } else {
            0
        } by {
            let q = Placed { names: rest, kind: p.kind, size: p.size };
            assert(part.contains(q));
        }
    }
}

/// The entries at a place, one level further down.
proof fn lemma_entries_at(items: Seq<Placed>, names: Seq<Seq<u8>>)
    requires
        names.len() > 0,
    ensures
        forall|p: Placed| #[trigger]
            items.contains(p) && p.names == names ==> below(items, names[0]).contains(
                (Placed { names: names.drop_first(), kind: p.kind, size: p.size }),
            ),
        forall|q: Placed| #[trigger]
            below(items, names[0]).contains(q) && q.names == names.drop_first() ==> items.contains(
                (Placed { names, kind: q.kind, size: q.size }),
            ),
{
    let name = names[0];
    let rest = names.drop_first();
    let part = below(items, name);
    let down = |p: Placed| descended(p, name);
    assert forall|p: Placed| #[trigger] items.contains(p) && p.names == names implies part.contains(
        (Placed { names: rest, kind: p.kind, size: p.size }),
    ) by {
        let i = choose|i: int| 0 <= i < items.len() && items[i] == p;
        lemma_filter_map_holds(items, down, i);
    }
    assert forall|q: Placed| #[trigger] part.contains(q) && q.names == rest implies items.contains(
        (Placed { names, kind: q.kind, size: q.size }),
    ) by {
        items.lemma_filter_map_contains(down, q);
        let r = choose|r: Placed| #[trigger] items.contains(r) && down(r) == Some(q);
        assert(r.names =~= seq![name] + r.names.drop_first());
        assert(names =~= seq![name] + rest);
    }
}

proof fn lemma_filter_all(items: Seq<Placed>, pred: spec_fn(Placed) -> bool)
    requires
        forall|p: Placed| #[trigger] pred(p),
    ensures
        items.filter(pred) == items,
    decreases items.len(),
{
    reveal(Seq::filter);
    if items.len() > 0 {
        lemma_filter_all(items.drop_last(), pred);
        assert(items.drop_last().push(items.last()) =~= items);
    } else {
        assert(items.filter(pred) =~= items);
    }
}

/// Whether entries are those of a directory tree: their paths differ, lie strictly below the root
/// with names for components there, and none lies below a file or a link.
pub open spec fn ordinary(result: ResultView) -> bool {
    let root = result.root.id();
    let entries = result.entries;
    &&& forall|i: int|
        0 <= i < entries.len() ==> within((#[trigger] entries[i]).path.id(), root)
            && entries[i].path.id().len() > root.len()
    &&& forall|i: int, k: int|
        0 <= i < entries.len() && root.len() <= k < entries[i].path.id().len() ==> (
        #[trigger] entries[i].path.id()[k]).kind == PartKind::Normal
    &&& forall|i: int, j: int|
        0 <= i < j < entries.len() ==> (#[trigger] entries[i]).path.id() != (
        #[trigger] entries[j]).path.id()
    &&& forall|i: int, j: int|
        0 <= i < entries.len() && 0 <= j < entries.len() && i != j && (
        #[trigger] entries[i]).kind != EntryKind::Dir ==> !within(
            (#[trigger] entries[j]).path.id(),
            entries[i].path.id(),
        )
}

/// The entries of a directory tree make a tree with one node for each entry and for each directory
/// above one, and no others. The root has the total size of all files, any other node that of the
/// files at or below it. Any other order of the entries gives the same tree.
pub proof fn law_tree_of_ordinary_entries(result: ResultView, other: ResultView)
    requires
        ordinary(result),
        other.root.id() == result.root.id(),
        other.entries.to_multiset() == result.entries.to_multiset(),
    ensures
        tree_of(other) == tree_of(result),
        tree_of(result).size == file_total(result.entries),
        tree_of(result).is_dir,
        one_node_each(tree_of(result)),
        forall|names: Seq<Seq<u8>>|
            #[trigger] has_node(tree_of(result), names) <==> names.len() == 0 || leads_to_some(
                result,
                names,
            ),
        forall|names: Seq<Seq<u8>>, node: TreeView|
            names.len() > 0 && #[trigger] stands_at(tree_of(result), names, node) ==> node.size
                == placed_total(
                all_placed(result).filter(|p: Placed| names.is_prefix_of(p.names)),
            ),
        forall|names: Seq<Seq<u8>>, node: TreeView, i: int|
            0 <= i < result.entries.len() && #[trigger] stands_at(tree_of(result), names, node)
                && names == placed(#[trigger] result.entries[i], result.root.id()).names ==> (
            node.is_dir <==> result.entries[i].kind == EntryKind::Dir) && (result.entries[i].kind
                == EntryKind::File ==> node.size == result.entries[i].size) && (
            result.entries[i].kind == EntryKind::Symlink ==> node.size == 0),
{
    let items = all_placed(result);
    lemma_ordinary(result);
    law_paths_are_places(result);
    law_tree_ignores_order(result, other);
    law_tree_size_is_file_total(result);
    law_each_place_has_one_node(result, Seq::empty());
    assert forall|names: Seq<Seq<u8>>|
        #[trigger] has_node(tree_of(result), names) <==> names.len() == 0 || leads_to_some(
            result,
            names,
        ) by {
        law_each_place_has_one_node(result, names);
    }
    assert forall|names: Seq<Seq<u8>>, node: TreeView|
        names.len() > 0 && #[trigger] stands_at(tree_of(result), names, node) implies node.size
        == placed_total(items.filter(|p: Placed| names.is_prefix_of(p.names))) by {
        law_node_at_place(result, names, node);
    }
    assert forall|names: Seq<Seq<u8>>, node: TreeView, i: int|
        0 <= i < result.entries.len() && #[trigger] stands_at(tree_of(result), names, node)
            && names == placed(#[trigger] result.entries[i], result.root.id()).names implies (
    node.is_dir <==> result.entries[i].kind == EntryKind::Dir) && (result.entries[i].kind
        == EntryKind::File ==> node.size == result.entries[i].size) && (result.entries[i].kind
        == EntryKind::Symlink ==> node.size == 0) by {
        law_node_at_place(result, names, node);
        assert(items[i] == placed(result.entries[i], result.root.id()));
        assert(items.contains(items[i]));
        if exists|p: Placed| #[trigger]
            items.contains(p) && p.names == names && p.kind != EntryKind::Dir {
            let p = choose|p: Placed| #[trigger]
                items.contains(p) && p.names == names && p.kind != EntryKind::Dir;
            let j = choose|j: int| 0 <= j < items.len() && items[j] == p;
            if j < i {
                assert(items[j].names != items[i].names);
            } else if i < j {
                assert(items[i].names != items[j].names);
            }
        }
    }
}

proof fn lemma_ordinary(result: ResultView)
    requires
        ordinary(result),
    ensures
        consistent(all_placed(result)),
        forall|i: int|
            0 <= i < result.entries.len() ==> placed(
                #[trigger] result.entries[i],
                result.root.id(),
            ).names.len() > 0,
{
    let items = all_placed(result);
    let root = result.root.id();
    assert forall|i: int, j: int| 0 <= i < items.len() && 0 <= j < items.len() && i != j && (
    #[trigger] items[i]).kind != EntryKind::Dir implies !items[i].names.is_prefix_of(
        (#[trigger] items[j]).names,
    ) by {
        let x = result.entries[i].path.id();
        let y = result.entries[j].path.id();
        let n = root.len() as int;
        assert(within(x, root) && within(y, root));
        assert(!within(y, x));
        if items[i].names.is_prefix_of(items[j].names) {
            let a = items[i].names;
            let b = items[j].names;
            assert(a.len() == x.len() - n && b.len() == y.len() - n);
            assert forall|k: int| 0 <= k < x.len() implies x[k] == y[k] by {
                if k < n {
                    assert(x.subrange(0, n)[k] == y.subrange(0, n)[k]);
                } else {
                    assert(a[k - n] == b.subrange(0, a.len() as int)[k - n]);
                    assert(a[k - n] == x[k].name);
                    assert(b[k - n] == y[k].name);
                    assert(result.entries[i].path.id()[k].kind == PartKind::Normal);
                    assert(result.entries[j].path.id()[k].kind == PartKind::Normal);
                }
            }
            assert(x =~= y.subrange(0, x.len() as int));
        }
    }
    lemma_consistent_from(items);
}

proof fn lemma_consistent_from(items: Seq<Placed>)
    requires
        forall|i: int, j: int|
            0 <= i < items.len() && 0 <= j < items.len() && i != j && (#[trigger] items[i]).kind
                != EntryKind::Dir ==> !items[i].names.is_prefix_of((#[trigger] items[j]).names),
    ensures
        consistent(items),
    decreases items.len(),
{
    if items.len() > 0 {
        let rest = items.drop_last();
        let last = items.len() - 1;
        assert forall|i: int, j: int|
            0 <= i < rest.len() && 0 <= j < rest.len() && i != j && (#[trigger] rest[i]).kind
                != EntryKind::Dir implies !rest[i].names.is_prefix_of(
            (#[trigger] rest[j]).names,
        ) by {
            assert(items[i] == rest[i] && items[j] == rest[j]);
        }
        lemma_consistent_from(rest);
        assert forall|p: Placed| #[trigger] rest.contains(p) implies apart(p, items.last()) by {
            let k = choose|k: int| 0 <= k < rest.len() && rest[k] == p;
            assert(items[k] == p && items[last] == items.last());
        }
    }
}

/// How many lines the first nodes of a list take, each with at most `top` nodes shown on every level
/// below it.
pub open spec fn lines_before(nodes: Seq<TreeView>, depth: nat, top: nat, n: nat) -> nat
    decreases n,
{
    if n == 0 || n > nodes.len() {
        0
    } else {
        lines_before(nodes, depth, top, (n - 1) as nat) + tree_lines(
            nodes[n - 1],
            lossy(nodes[n - 1].name),
            depth,
            top,
        ).len()
    }
}

/// The lines of a node: its own, with the indentation of its level, its size and its name, and a
/// slash behind a directory; then, one behind the other, the lines of its first `top` nodes, or of
/// all where there are fewer, each one level further in and under the same `top`.
pub proof fn law_lines_of_a_node(node: TreeView, label: Seq<char>, depth: nat, top: nat)
    ensures
        ({
            let lines = tree_lines(node, label, depth, top);
            let n = if top < node.children.len() {
                top
            } else {
                node.children.len()
            };
            &&& lines.len() == 1 + lines_before(node.children, depth + 1, top, n)
            &&& node.is_dir ==> lines[0] == Seq::new(2 * depth, |i: int| ' ') + size_text(node.size)
                + "  "@ + label + "/"@
            &&& !node.is_dir ==> lines[0] == Seq::new(2 * depth, |i: int| ' ') + size_text(
                node.size,
            ) + "  "@ + label
            &&& forall|k: nat|
                k < n ==> lines.skip(
                    (1 + #[trigger] lines_before(node.children, depth + 1, top, k)) as int,
                ).take(
                    tree_lines(
                        node.children[k as int],
                        lossy(node.children[k as int].name),
                        depth + 1,
                        top,
                    ).len() as int,
                ) == tree_lines(
                    node.children[k as int],
                    lossy(node.children[k as int].name),
                    depth + 1,
                    top,
                )
        }),
{
    reveal_strlit("");
    let lines = tree_lines(node, label, depth, top);
    let n = if top < node.children.len() {
        top
    } else {
        node.children.len()
    };
    lemma_forest_len(node.children, depth + 1, top, n);
    let line = node_line(node, label, depth);
    if node.is_dir {
        assert(line =~= Seq::new(2 * depth, |i: int| ' ') + size_text(node.size) + "  "@ + label
            + "/"@);
    } else {
        assert(line =~= Seq::new(2 * depth, |i: int| ' ') + size_text(node.size) + "  "@ + label);
    }
    assert forall|k: nat| k < n implies lines.skip(
        (1 + #[trigger] lines_before(node.children, depth + 1, top, k)) as int,
    ).take(
        tree_lines(
            node.children[k as int],
            lossy(node.children[k as int].name),
            depth + 1,
            top,
        ).len() as int,
    ) == tree_lines(
        node.children[k as int],
        lossy(node.children[k as int].name),
        depth + 1,
        top,
    ) by {
        lemma_forest_part(node.children, depth + 1, top, n, k);
        let forest = forest_lines(node.children, depth + 1, top, n);
        let at = lines_before(node.children, depth + 1, top, k) as int;
        assert(lines.skip(1 + at) =~= forest.skip(at));
    }
}

proof fn lemma_forest_len(nodes: Seq<TreeView>, depth: nat, top: nat, n: nat)
    requires
        n <= nodes.len(),
    ensures
        forest_lines(nodes, depth, top, n).len() == lines_before(nodes, depth, top, n),
    decreases n,
{
    if n > 0 {
        lemma_forest_len(nodes, depth, top, (n - 1) as nat);
    }
}

/// The lines of a node stand behind those of the nodes before it.
proof fn lemma_forest_part(nodes: Seq<TreeView>, depth: nat, top: nat, n: nat, k: nat)
    requires
        k < n <= nodes.len(),
    ensures
        ({
            let own = tree_lines(nodes[k as int], lossy(nodes[k as int].name), depth, top);
            let at = lines_before(nodes, depth, top, k) as int;
            &&& at + own.len() <= forest_lines(nodes, depth, top, n).len()
            &&& forest_lines(nodes, depth, top, n).skip(at).take(own.len() as int) == own
        }),
    decreases n,
{
    let own = tree_lines(nodes[k as int], lossy(nodes[k as int].name), depth, top);
    let at = lines_before(nodes, depth, top, k) as int;
    let short = forest_lines(nodes, depth, top, (n - 1) as nat);
    let all = forest_lines(nodes, depth, top, n);
    lemma_forest_len(nodes, depth, top, (n - 1) as nat);
    if k < n - 1 {
        lemma_forest_part(nodes, depth, top, (n - 1) as nat, k);
        assert(all.skip(at).take(own.len() as int) =~= short.skip(at).take(own.len() as int));
    } else {
        assert(all.skip(at).take(own.len() as int) =~= own);
    }
}

/// How many nodes a tree has.
pub open spec fn node_count(node: TreeView) -> nat
    decreases node, 0nat,
{
    1 + count_first(node.children, node.children.len())
}

/// How many nodes the first nodes of a list have, with all below them.
pub open spec fn count_first(nodes: Seq<TreeView>, n: nat) -> nat
    decreases nodes, n,
{
    if n == 0 || n > nodes.len() {
        0
    } else {
        count_first(nodes, (n - 1) as nat) + node_count(nodes[n - 1])
    }
}

/// Whether no node of a tree has more than so many nodes directly below it.
pub open spec fn no_wider_than(node: TreeView, top: nat) -> bool
    decreases node,
{
    &&& node.children.len() <= top
    &&& forall|i: int| 0 <= i < node.children.len() ==> no_wider_than(#[trigger] node.children[i], top)
}

/// Where no level has more nodes than are shown of each, the report has exactly one line for each
/// node of the tree.
pub proof fn law_every_node_is_shown(node: TreeView, label: Seq<char>, depth: nat, top: nat)
    requires
        no_wider_than(node, top),
    ensures
        tree_lines(node, label, depth, top).len() == node_count(node),
    decreases node, 0nat,
{
    law_lines_of_a_node(node, label, depth, top);
    lemma_every_node_counted(node.children, depth + 1, top, node.children.len());
}

proof fn lemma_every_node_counted(nodes: Seq<TreeView>, depth: nat, top: nat, n: nat)
    requires
        n <= nodes.len(),
        forall|i: int| 0 <= i < nodes.len() ==> no_wider_than(#[trigger] nodes[i], top),
    ensures
        lines_before(nodes, depth, top, n) == count_first(nodes, n),
    decreases nodes, n,
{
    if n > 0 {
        lemma_every_node_counted(nodes, depth, top, (n - 1) as nat);
        assert(no_wider_than(nodes[n - 1], top));
        law_every_node_is_shown(nodes[n - 1], lossy(nodes[n - 1].name), depth, top);
    }
}

/// An entry is placed by the names of its path below the root, or of its whole path where it does
/// not lie there, with its own type and size; the entries keep their order.
pub proof fn law_entries_are_placed(result: ResultView, i: int, rest: PathId)
    requires
        0 <= i < result.entries.len(),
    ensures
        all_placed(result).len() == result.entries.len(),
        all_placed(result)[i] == placed(result.entries[i], result.root.id()),
        all_placed(result)[i].kind == result.entries[i].kind,
        all_placed(result)[i].size == result.entries[i].size,
        result.entries[i].path.id() == result.root.id() + rest ==> all_placed(result)[i].names
            == rest.map_values(|p: PartId| p.name),
        (forall|more: PathId| result.entries[i].path.id() != #[trigger] (result.root.id() + more))
            ==> all_placed(result)[i].names == result.entries[i].path.id().map_values(
            |p: PartId| p.name,
        ),
{
    let id = result.entries[i].path.id();
    let root = result.root.id();
    law_within(id, root);
    if id == root + rest {
        assert(id.skip(root.len() as int) =~= rest);
    }
}

/// One more file adds its size to the total of placed entries, anything else adds nothing.
pub proof fn law_placed_total(items: Seq<Placed>, item: Placed)
    ensures
        placed_total(Seq::empty()) == 0,
        item.kind == EntryKind::File ==> placed_total(items.push(item)) == placed_total(items)
            + item.size,
        item.kind != EntryKind::File ==> placed_total(items.push(item)) == placed_total(items),
{
    assert(items.push(item).drop_last() =~= items);
}

/// Whether the nodes below each node come by size, the largest first, and those of one size by name.
pub open spec fn largest_first(node: TreeView) -> bool
    decreases node,
{
    &&& forall|i: int, j: int|
        0 <= i < j < node.children.len() ==> (#[trigger] node.children[i]).size > (
        #[trigger] node.children[j]).size || (node.children[i].size == node.children[j].size
            && lex_less(node.children[i].name, node.children[j].name, |x: u8, y: u8| x < y))
    &&& forall|i: int| 0 <= i < node.children.len() ==> largest_first(#[trigger] node.children[i])
}

/// On every level of a tree the largest nodes come first, and those of one size come by name.
pub proof fn law_largest_come_first(result: ResultView)
    ensures
        largest_first(tree_of(result)),
{
    let items = all_placed(result);
    lemma_level_in_order(items, depth_of(items), true);
}

proof fn lemma_level_in_order(items: Seq<Placed>, height: nat, summed: bool)
    ensures
        ({
            let nodes = stable_sort(branches(items, height, summed), heavier());
            &&& forall|i: int, j: int|
                0 <= i < j < nodes.len() ==> (#[trigger] nodes[i]).size > (
                #[trigger] nodes[j]).size || (nodes[i].size == nodes[j].size && lex_less(
                    nodes[i].name,
                    nodes[j].name,
                    |x: u8, y: u8| x < y,
                ))
            &&& forall|i: int| 0 <= i < nodes.len() ==> largest_first(#[trigger] nodes[i])
        }),
    decreases height,
{
    let names = child_names(items);
    let kids = branches(items, height, summed);
    let nodes = stable_sort(kids, heavier());
    law_stable_sort(kids, heavier());
    lemma_sorted_nodes(items, height, summed);
    lemma_child_names_ascend(items);
    assert forall|i: int, j: int| 0 <= i < j < nodes.len() implies (#[trigger] nodes[i]).size > (
    #[trigger] nodes[j]).size || (nodes[i].size == nodes[j].size && lex_less(
        nodes[i].name,
        nodes[j].name,
        |x: u8, y: u8| x < y,
    )) by {
        assert(!heavier()(nodes[j], nodes[i]));
        if nodes[i].size == nodes[j].size {
            let x = nodes[i];
            let like = |y: TreeView| !heavier()(x, y) && !heavier()(y, x);
            law_sort_is_stable(kids, heavier(), x);
            let (a, b) = lemma_filter_pair(nodes, like, i, j);
            let (p, q) = lemma_filter_apart(kids, like, a, b);
            assert(kids[p] == branch(
                below(items, names[p]),
                names[p],
                (height - 1) as nat,
                summed,
            ));
            assert(kids[q] == branch(
                below(items, names[q]),
                names[q],
                (height - 1) as nat,
                summed,
            ));
            assert(name_order()(names[p], names[q]));
            assert((|x: u8, y: u8| x < y) =~= byte_order());
        }
    }
    assert forall|i: int| 0 <= i < nodes.len() implies largest_first(#[trigger] nodes[i]) by {
        let child = nodes[i];
        lemma_child_of(items, height, summed, child);
        let part = below(items, child.name);
        let deeper = summed && own_is_dir(part);
        lemma_level_in_order(part, (height - 1) as nat, deeper);
        assert(child.children == stable_sort(
            branches(part, (height - 1) as nat, deeper),
            heavier(),
        ));
    }
}

} // verus!
