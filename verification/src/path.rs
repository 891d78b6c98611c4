//! File paths as sequences of components.

use crate::order::{lex_less, lexicographic, lemma_lexicographic_total};
use crate::text::{lossy, lossy_text};
use vstd::prelude::*;
use vstd::relations::strict_total_ordering;

verus! {

/// The kind of a path component.
#[derive(Clone, Copy, Debug, PartialEq, Eq, Structural)]
pub enum PartKind {
    /// A drive or share in front of the path.
    Prefix,
    /// The root of a file system.
    RootDir,
    /// The current directory at the start of a relative path.
    CurDir,
    /// The parent directory.
    ParentDir,
    /// A named file or directory.
    Normal,
}

/// One component of a path.
#[derive(Debug)]
pub struct PathPart {
    pub kind: PartKind,
    /// The component's own bytes, as the platform encodes them.
    pub name: Vec<u8>,
    /// The separators between the component before and this one, as they were spelled.
    pub lead: Vec<u8>,
}

/// A path: its components, in order, and what follows the last of them.
#[derive(Debug)]
pub struct FilePath {
    pub parts: Vec<PathPart>,
    /// Separators that follow the last component, as they were spelled.
    pub tail: Vec<u8>,
}

/// What a component is, whatever separators stand in front of it.
pub struct PartId {
    pub kind: PartKind,
    pub name: Seq<u8>,
}

/// What a path is, however it is spelled: two paths are the same if their components are.
pub type PathId = Seq<PartId>;

/// A component as it is spelled.
pub struct PartView {
    pub id: PartId,
    pub lead: Seq<u8>,
}

/// A path as it is spelled.
pub struct PathView {
    pub parts: Seq<PartView>,
    pub tail: Seq<u8>,
}

impl View for PathPart {
    type V = PartView;

    open spec fn view(&self) -> PartView {
        PartView { id: PartId { kind: self.kind, name: self.name@ }, lead: self.lead@ }
    }
}

impl View for FilePath {
    type V = PathView;

    open spec fn view(&self) -> PathView {
        PathView { parts: self.parts@.map_values(|p: PathPart| p@), tail: self.tail@ }
    }
}

/// The bytes of a run of components, each behind its separators.
pub open spec fn spelled_parts(parts: Seq<PartView>) -> Seq<u8>
    decreases parts.len(),
{
    if parts.len() == 0 {
        Seq::empty()
    } else {
        spelled_parts(parts.drop_last()) + parts.last().lead + parts.last().id.name
    }
}

impl PathView {
    /// The components of the path.
    pub open spec fn id(self) -> PathId {
        self.parts.map_values(|p: PartView| p.id)
    }

    /// The bytes of the path as it is spelled.
    pub open spec fn spelled(self) -> Seq<u8> {
        spelled_parts(self.parts) + self.tail
    }

    /// The path as it is displayed.
    pub open spec fn text(self) -> Seq<char> {
        lossy(self.spelled())
    }

    /// The path without its last component.
    pub open spec fn parent(self) -> PathView {
        PathView { parts: self.parts.drop_last(), tail: Seq::empty() }
    }
}

/// A separator.
pub open spec fn separator() -> Seq<u8> {
    seq![47u8]
}

/// A path with a component added behind a separator; none is needed behind a root or in front.
pub open spec fn joined(base: PathView, id: PartId) -> PathView {
    let lead = if base.parts.len() == 0 || base.parts.last().id.kind == PartKind::RootDir {
        Seq::empty()
    } else {
        separator()
    };
    PathView { parts: base.parts.push(PartView { id, lead }), tail: Seq::empty() }
}

/// A path with components added, one by one.
pub open spec fn joined_all(base: PathView, more: PathId) -> PathView
    decreases more.len(),
{
    if more.len() == 0 {
        base
    } else {
        joined(joined_all(base, more.drop_last()), more.last())
    }
}

/// Adding components to a path adds them to its identity, whatever separators it gets.
pub proof fn lemma_joined_all_id(base: PathView, more: PathId)
    ensures
        joined_all(base, more).id() == base.id() + more,
    decreases more.len(),
{
    if more.len() == 0 {
        assert(base.id() + more =~= base.id());
    } else {
        let short = joined_all(base, more.drop_last());
        lemma_joined_all_id(base, more.drop_last());
        assert(joined(short, more.last()).id() =~= short.id().push(more.last()));
        assert(base.id() + more =~= (base.id() + more.drop_last()).push(more.last()));
    }
}

/// Whether a path has a parent: it has a component, and the last one is no root and no prefix.
pub open spec fn has_parent(id: PathId) -> bool {
    id.len() > 0 && id.last().kind != PartKind::Prefix && id.last().kind != PartKind::RootDir
}

/// The rank of a component's kind among the kinds.
pub open spec fn kind_rank(kind: PartKind) -> int {
    match kind {
        PartKind::Prefix => 0,
        PartKind::RootDir => 1,
        PartKind::CurDir => 2,
        PartKind::ParentDir => 3,
        PartKind::Normal => 4,
    }
}

/// Bytes in numeric order.
pub open spec fn byte_order() -> spec_fn(u8, u8) -> bool {
    |x: u8, y: u8| x < y
}

/// Components in order: by kind, then by the bytes of the name.
pub open spec fn part_order() -> spec_fn(PartId, PartId) -> bool {
    |a: PartId, b: PartId|
        kind_rank(a.kind) < kind_rank(b.kind) || (a.kind == b.kind && lex_less(
            a.name,
            b.name,
            byte_order(),
        ))
}

/// Paths in order: component by component.
pub open spec fn path_less(a: PathId, b: PathId) -> bool {
    lex_less(a, b, part_order())
}

/// Component order is a strict total order.
pub proof fn lemma_part_order_total()
    ensures
        strict_total_ordering(part_order()),
{
    let less = part_order();
    assert(strict_total_ordering(byte_order()));
    lemma_lexicographic_total(byte_order());
    let names = lexicographic(byte_order());
    assert forall|a: PartId, b: PartId| a != b implies #[trigger] less(a, b) || #[trigger] less(
        b,
        a,
    ) by {
        if a.kind == b.kind {
            assert(a.name != b.name);
            assert(names(a.name, b.name) || names(b.name, a.name));
        }
    }
    assert forall|a: PartId| #[trigger] less(a, a) == false by {
        assert(!names(a.name, a.name));
    }
    assert forall|a: PartId, b: PartId, c: PartId| #[trigger] less(a, b) && #[trigger] less(b, c)
        implies less(a, c) by {
        if a.kind == b.kind && b.kind == c.kind {
            assert(names(a.name, b.name) && names(b.name, c.name));
        }
    }
    assert forall|a: PartId, b: PartId| #[trigger] less(a, b) && #[trigger] less(b, a) implies a
        == b by {
        assert(less(a, a));
    }
}

/// Path order is a strict total order: of two different paths one comes first, never both.
pub proof fn lemma_path_order_total()
    ensures
        forall|a: PathId| !#[trigger] path_less(a, a),
        forall|a: PathId, b: PathId, c: PathId|
            #[trigger] path_less(a, b) && #[trigger] path_less(b, c) ==> path_less(a, c),
        forall|a: PathId, b: PathId|
            #![trigger path_less(a, b)]
            a == b || path_less(a, b) || path_less(b, a),
{
    lemma_part_order_total();
    lemma_lexicographic_total(part_order());
    let less = lexicographic(part_order());
    assert forall|a: PathId| !#[trigger] path_less(a, a) by {
        assert(!less(a, a));
    }
    assert forall|a: PathId, b: PathId, c: PathId|
        #[trigger] path_less(a, b) && #[trigger] path_less(b, c) implies path_less(a, c) by {
        assert(less(a, b) && less(b, c));
    }
    assert forall|a: PathId, b: PathId|
        #![trigger path_less(a, b)]
        a == b || path_less(a, b) || path_less(b, a) by {
        assert(a == b || less(a, b) || less(b, a));
    }
}

/// Whether `id` lies at or below `root`.
pub open spec fn within(id: PathId, root: PathId) -> bool {
    root.is_prefix_of(id)
}

impl Clone for PathPart {
    fn clone(&self) -> (copy: Self)
        ensures
            copy@ == self@,
    {
        let copy = PathPart { kind: self.kind, name: self.name.clone(), lead: self.lead.clone() };
        assert(copy.name@ =~= self.name@);
        assert(copy.lead@ =~= self.lead@);
        copy
    }
}

impl Clone for FilePath {
    fn clone(&self) -> (copy: Self)
        ensures
            copy@ == self@,
    {
        let mut parts: Vec<PathPart> = Vec::new();
        for i in 0..self.parts.len()
            invariant
                parts@.len() == i,
                forall|j: int| 0 <= j < i ==> (#[trigger] parts@[j])@ == self.parts@[j]@,
        {
            parts.push(self.parts[i].clone());
        }
        let copy = FilePath { parts, tail: self.tail.clone() };
        assert(copy.tail@ =~= self.tail@);
        assert(copy@.parts =~= self@.parts);
        copy
    }
}

/// Appends bytes.
fn push_bytes(out: &mut Vec<u8>, more: &Vec<u8>)
    ensures
        final(out)@ == old(out)@ + more@,
{
    let ghost start = out@;
    assert(start =~= start + more@.take(0));
    for i in 0..more.len()
        invariant
            out@ == start + more@.take(i as int),
    {
        out.push(more[i]);
        assert(out@ =~= start + more@.take(i + 1));
    }
    assert(more@.take(more@.len() as int) =~= more@);
}

/// Whether two byte strings are equal.
fn same_bytes(a: &Vec<u8>, b: &Vec<u8>) -> (same: bool)
    ensures
        same == (a@ == b@),
{
    if a.len() != b.len() {
        return false;
    }
    for i in 0..a.len()
        invariant
            a@.len() == b@.len(),
            forall|j: int| 0 <= j < i ==> a@[j] == b@[j],
    {
        if a[i] != b[i] {
            return false;
        }
    }
    assert(a@ =~= b@);
    true
}

/// Whether one byte string comes before another.
pub fn bytes_precede(a: &Vec<u8>, b: &Vec<u8>) -> (before: bool)
    ensures
        before == lex_less(a@, b@, byte_order()),
{
    let mut i: usize = 0;
    assert(a@.skip(0) =~= a@);
    assert(b@.skip(0) =~= b@);
    while i < a.len() && i < b.len() && a[i] == b[i]
        invariant
            i <= a@.len(),
            i <= b@.len(),
            lex_less(a@, b@, byte_order()) == lex_less(
                a@.skip(i as int),
                b@.skip(i as int),
                byte_order(),
            ),
        decreases a@.len() - i,
    {
        assert(a@.skip(i as int).drop_first() =~= a@.skip(i + 1));
        assert(b@.skip(i as int).drop_first() =~= b@.skip(i + 1));
        i += 1;
    }
    if i >= b.len() {
        false
    } else if i >= a.len() {
        true
    } else {
        a[i] < b[i]
    }
}

/// The rank of a component's kind among the kinds.
fn rank_of(kind: PartKind) -> (rank: u8)
    ensures
        rank == kind_rank(kind),
{
    match kind {
        PartKind::Prefix => 0,
        PartKind::RootDir => 1,
        PartKind::CurDir => 2,
        PartKind::ParentDir => 3,
        PartKind::Normal => 4,
    }
}

impl PathPart {
    /// Whether two components are the same.
    pub fn same(&self, other: &PathPart) -> (same: bool)
        ensures
            same == (self@.id == other@.id),
    {
        self.kind == other.kind && same_bytes(&self.name, &other.name)
    }

    /// Whether this component comes before `other`.
    fn precedes(&self, other: &PathPart) -> (before: bool)
        ensures
            before == part_order()(self@.id, other@.id),
    {
        if self.kind == other.kind {
            bytes_precede(&self.name, &other.name)
        } else {
            rank_of(self.kind) < rank_of(other.kind)
        }
    }
}

impl FilePath {
    /// The path without its last component, if it has one that can be dropped.
    pub fn parent(&self) -> (parent: Option<FilePath>)
        ensures
            parent is Some <==> has_parent(self@.id()),
            parent matches Some(p) ==> p@ == self@.parent() && p@.id() == self@.id().drop_last(),
    {
        let n = self.parts.len();
        if n == 0 {
            return None;
        }
        let kind = self.parts[n - 1].kind;
        if kind == PartKind::Prefix || kind == PartKind::RootDir {
            return None;
        }
        let parent = self.prefix(n - 1);
        assert(parent@.parts =~= self@.parts.drop_last());
        assert(parent@.id() =~= self@.id().drop_last());
        Some(parent)
    }

    /// Adds a component.
    pub(crate) fn join(&mut self, kind: PartKind, name: Vec<u8>)
        ensures
            final(self)@ == joined(old(self)@, PartId { kind, name: name@ }),
    {
        let n = self.parts.len();
        let mut lead: Vec<u8> = Vec::new();
        if n > 0 && self.parts[n - 1].kind != PartKind::RootDir {
            lead.push(47);
            assert(lead@ =~= separator());
        }
        self.parts.push(PathPart { kind, name, lead });
        self.tail = Vec::new();
        assert(self@.parts =~= joined(old(self)@, PartId { kind, name: name@ }).parts);
    }

    /// The path as it is displayed.
    pub fn display(&self) -> (text: String)
        ensures
            text@ == self@.text(),
    {
        let mut bytes: Vec<u8> = Vec::new();
        for i in 0..self.parts.len()
            invariant
                bytes@ == spelled_parts(self@.parts.take(i as int)),
        {
            let ghost upto = self@.parts.take(i + 1);
            assert(upto.drop_last() =~= self@.parts.take(i as int));
            push_bytes(&mut bytes, &self.parts[i].lead);
            push_bytes(&mut bytes, &self.parts[i].name);
        }
        assert(self@.parts.take(self@.parts.len() as int) =~= self@.parts);
        push_bytes(&mut bytes, &self.tail);
        lossy_text(&bytes)
    }

    /// The path made of the first `n` components.
    pub(crate) fn prefix(&self, n: usize) -> (prefix: FilePath)
        requires
            n <= self.parts@.len(),
        ensures
            prefix@ == (PathView { parts: self@.parts.take(n as int), tail: Seq::empty() }),
            prefix@.id() == self@.id().take(n as int),
    {
        let mut parts: Vec<PathPart> = Vec::new();
        for i in 0..n
            invariant
                n <= self.parts@.len(),
                parts@.len() == i,
                forall|j: int| 0 <= j < i ==> (#[trigger] parts@[j])@ == self.parts@[j]@,
        {
            parts.push(self.parts[i].clone());
        }
        let prefix = FilePath { parts, tail: Vec::new() };
        assert(prefix@.parts =~= self@.parts.take(n as int));
        assert(prefix@.id() =~= self@.id().take(n as int));
        prefix
    }

    /// Whether the first `n` components are those of `other`.
    pub(crate) fn prefix_is(&self, n: usize, other: &FilePath) -> (same: bool)
        requires
            n <= self.parts@.len(),
        ensures
            same == (self@.id().take(n as int) == other@.id()),
    {
        let ghost left = self@.id().take(n as int);
        let ghost right = other@.id();
        if n != other.parts.len() {
            assert(left.len() != right.len());
            return false;
        }
        for i in 0..n
            invariant
                n <= self.parts@.len(),
                n == other.parts@.len(),
                left == self@.id().take(n as int),
                right == other@.id(),
                forall|j: int| 0 <= j < i ==> left[j] == right[j],
        {
            if !self.parts[i].same(&other.parts[i]) {
                assert(left[i as int] != right[i as int]);
                return false;
            }
        }
        assert(left =~= right);
        true
    }

    /// Whether two paths have the same components.
    pub fn same(&self, other: &FilePath) -> (same: bool)
        ensures
            same == (self@.id() == other@.id()),
    {
        assert(self@.id().take(self@.id().len() as int) =~= self@.id());
        self.prefix_is(self.parts.len(), other)
    }

    /// Whether `dir` is this path's parent.
    pub fn is_child_of(&self, dir: &FilePath) -> (child: bool)
        ensures
            child == (has_parent(self@.id()) && self@.id().drop_last() == dir@.id()),
    {
        let n = self.parts.len();
        if n == 0 {
            return false;
        }
        let kind = self.parts[n - 1].kind;
        assert(self@.id().take(n - 1) =~= self@.id().drop_last());
        kind != PartKind::Prefix && kind != PartKind::RootDir && self.prefix_is(n - 1, dir)
    }

    /// Whether this path lies at or below `root`.
    pub fn starts_with(&self, root: &FilePath) -> (inside: bool)
        ensures
            inside == within(self@.id(), root@.id()),
    {
        let n = root.parts.len();
        if n > self.parts.len() {
            return false;
        }
        assert(self@.id().take(n as int) == self@.id().subrange(0, root@.id().len() as int));
        self.prefix_is(n, root)
    }

    /// Whether this path comes before `other`.
    pub fn precedes(&self, other: &FilePath) -> (before: bool)
        ensures
            before == path_less(self@.id(), other@.id()),
    {
        let ghost a = self@.id();
        let ghost b = other@.id();
        let mut i: usize = 0;
        assert(a.skip(0) =~= a);
        assert(b.skip(0) =~= b);
        while i < self.parts.len() && i < other.parts.len() && self.parts[i].same(&other.parts[i])
            invariant
                a == self@.id(),
                b == other@.id(),
                i <= a.len(),
                i <= b.len(),
                path_less(a, b) == path_less(a.skip(i as int), b.skip(i as int)),
            decreases self.parts@.len() - i,
        {
            assert(a.skip(i as int).drop_first() =~= a.skip(i + 1));
            assert(b.skip(i as int).drop_first() =~= b.skip(i + 1));
            i += 1;
        }
        if i >= other.parts.len() {
            false
        } else if i >= self.parts.len() {
            true
        } else {
            self.parts[i].precedes(&other.parts[i])
        }
    }
}

impl PartialEq for FilePath {
    fn eq(&self, other: &FilePath) -> (same: bool) {
        self.same(other)
    }
}

impl vstd::std_specs::cmp::PartialEqSpecImpl for FilePath {
    open spec fn obeys_eq_spec() -> bool {
        true
    }

    open spec fn eq_spec(&self, other: &FilePath) -> bool {
        self@.id() == other@.id()
    }
}

/// A path lies at or below a root if and only if it is the root with components added.
pub proof fn law_within(id: PathId, root: PathId)
    ensures
        within(id, root) <==> exists|rest: PathId| id == #[trigger] (root + rest),
{
    if within(id, root) {
        assert(id =~= root + id.skip(root.len() as int));
    }
    if exists|rest: PathId| id == #[trigger] (root + rest) {
        let rest = choose|rest: PathId| id == #[trigger] (root + rest);
        assert(root =~= id.subrange(0, root.len() as int));
    }
}

/// The components of a path are those of its parts, in order; the parent has all but the last.
pub proof fn law_components(path: PathView, i: int)
    requires
        0 <= i < path.parts.len(),
    ensures
        path.id().len() == path.parts.len(),
        path.id()[i] == path.parts[i].id,
        path.parent().id() == path.id().take(path.parts.len() - 1),
        has_parent(path.id()) <==> path.parts.last().id.kind != PartKind::Prefix
            && path.parts.last().id.kind != PartKind::RootDir,
{
    assert(path.parent().id() =~= path.id().take(path.parts.len() - 1));
}

/// A path is spelled part by part: one more part adds the separators in front of it and its name,
/// and what follows the last part comes at the end.
pub proof fn law_spelled(parts: Seq<PartView>, part: PartView, tail: Seq<u8>)
    ensures
        (PathView { parts: Seq::empty(), tail }).spelled() == tail,
        (PathView { parts: parts.push(part), tail }).spelled() == (PathView {
            parts,
            tail: Seq::empty(),
        }).spelled() + part.lead + part.id.name + tail,
        (PathView { parts, tail }).text() == lossy((PathView { parts, tail }).spelled()),
{
    assert(parts.push(part).drop_last() =~= parts);
    assert((PathView { parts: Seq::empty(), tail }).spelled() =~= tail);
    assert((PathView { parts, tail: Seq::empty() }).spelled() =~= spelled_parts(parts));
}

/// Joining a name to a path spells it behind one slash, or behind none at the start and after a
/// root.
pub proof fn law_joined_is_spelled(base: PathView, id: PartId)
    requires
        base.tail.len() == 0,
    ensures
        joined(base, id).id() == base.id().push(id),
        base.parts.len() > 0 && base.parts.last().id.kind != PartKind::RootDir ==> joined(
            base,
            id,
        ).spelled() == base.spelled() + seq![47u8] + id.name,
        base.parts.len() == 0 || base.parts.last().id.kind == PartKind::RootDir ==> joined(
            base,
            id,
        ).spelled() == base.spelled() + id.name,
{
    let lead = joined(base, id).parts.last().lead;
    assert(joined(base, id).id() =~= base.id().push(id));
    law_spelled(base.parts, PartView { id, lead }, Seq::empty());
    assert(base.spelled() =~= spelled_parts(base.parts));
    assert(joined(base, id).spelled() =~= base.spelled() + lead + id.name);
    assert(base.spelled() + Seq::<u8>::empty() =~= base.spelled());
}

/// Sequences that agree up to a place are ordered by what follows it.
proof fn lemma_lex_from<T>(a: Seq<T>, b: Seq<T>, less: spec_fn(T, T) -> bool, k: int)
    requires
        0 <= k <= a.len(),
        k <= b.len(),
        a.take(k) == b.take(k),
        forall|x: T| !#[trigger] less(x, x),
    ensures
        lex_less(a, b, less) == lex_less(a.skip(k), b.skip(k), less),
    decreases k,
{
    if k > 0 {
        assert(a[0] == a.take(k)[0] && b[0] == b.take(k)[0]);
        assert(a.drop_first().take(k - 1) =~= a.take(k).drop_first());
        assert(b.drop_first().take(k - 1) =~= b.take(k).drop_first());
        lemma_lex_from(a.drop_first(), b.drop_first(), less, k - 1);
        assert(a.drop_first().skip(k - 1) =~= a.skip(k));
        assert(b.drop_first().skip(k - 1) =~= b.skip(k));
    } else {
        assert(a.skip(0) =~= a);
        assert(b.skip(0) =~= b);
    }
}

/// Whether a component of one kind comes before one of another: a prefix first, then a root, the
/// current directory, the parent directory and last a name.
pub open spec fn kinds_in_order(a: PartKind, b: PartKind) -> bool {
    ||| a == PartKind::Prefix && b != PartKind::Prefix
    ||| a == PartKind::RootDir && (b == PartKind::CurDir || b == PartKind::ParentDir || b
        == PartKind::Normal)
    ||| a == PartKind::CurDir && (b == PartKind::ParentDir || b == PartKind::Normal)
    ||| a == PartKind::ParentDir && b == PartKind::Normal
}

/// The first component in which two paths differ decides which comes first: by its kind, and for
/// components of one kind by the first byte in which their names differ; the shorter of two names
/// comes first where the other one goes on. So does a path before those below it.
pub proof fn law_first_difference_decides(a: PathId, b: PathId, k: int)
    requires
        0 <= k <= a.len(),
        k < b.len(),
        a.take(k) == b.take(k),
        k < a.len() ==> a[k] != b[k],
    ensures
        k == a.len() ==> path_less(a, b) && !path_less(b, a),
        k < a.len() && kinds_in_order(a[k].kind, b[k].kind) ==> path_less(a, b) && !path_less(
            b,
            a,
        ),
        k < a.len() && a[k].kind == b[k].kind ==> forall|m: int|
            #![trigger a[k].name[m]]
            0 <= m < a[k].name.len() && m < b[k].name.len() && a[k].name.take(m) == b[k].name.take(
                m,
            ) && a[k].name[m] < b[k].name[m] ==> path_less(a, b) && !path_less(b, a),
        k < a.len() && a[k].kind == b[k].kind && a[k].name.len() < b[k].name.len()
            && a[k].name == b[k].name.take(a[k].name.len() as int) ==> path_less(a, b)
            && !path_less(b, a),
{
    lemma_path_order_total();
    lemma_part_order_total();
    let less = part_order();
    assert forall|x: PartId| !#[trigger] less(x, x) by {}
    lemma_lex_from(a, b, less, k);
    lemma_lex_from(b, a, less, k);
    if k < a.len() {
        assert(a.skip(k)[0] == a[k] && b.skip(k)[0] == b[k]);
        let (x, y) = (a[k].name, b[k].name);
        if a[k].kind == b[k].kind {
            assert forall|m: int|
                #![trigger x[m]]
                0 <= m < x.len() && m < y.len() && x.take(m) == y.take(m) && x[m]
                    < y[m] implies path_less(a, b) && !path_less(b, a) by {
                lemma_lex_from(x, y, byte_order(), m);
                assert(x.skip(m)[0] == x[m] && y.skip(m)[0] == y[m]);
            }
            if x.len() < y.len() && x == y.take(x.len() as int) {
                assert(x.take(x.len() as int) =~= x);
                lemma_lex_from(x, y, byte_order(), x.len() as int);
            }
        }
    }
}

} // verus!
