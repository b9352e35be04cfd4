//! Paths modelled as sequences of components.

use vstd::prelude::*;

verus! {

broadcast use vstd::utf8::encode_utf8_decode_utf8;

/// What a path component is, in the order in which paths sort the kinds:
/// a prefix such as a drive (`C:`), the root directory, the current
/// directory (`.`), the parent directory (`..`), or a name.
#[derive(Clone, Copy, PartialEq, Eq, Structural, Debug)]
pub enum ComponentKind {
    Prefix,
    Root,
    Current,
    Parent,
    Name,
}

/// One component of a path: its kind and the bytes it is written with.
/// The kind is told by whoever splits the path into components; a name may
/// hold any bytes, `/` and `\` included.
pub struct PathComponent {
    pub kind: ComponentKind,
    pub bytes: Vec<u8>,
}

/// A path component, viewed as its kind and its bytes.
pub type ComponentView = (ComponentKind, Seq<u8>);

/// A path, viewed as the sequence of its components.
pub type PathView = Seq<ComponentView>;

impl View for PathComponent {
    type V = ComponentView;

    open spec fn view(&self) -> ComponentView {
        (self.kind, self.bytes@)
    }
}

impl Clone for PathComponent {
    fn clone(&self) -> (res: Self)
        ensures
            res@ == self@,
    {
        let mut bytes: Vec<u8> = Vec::new();
        for i in 0..self.bytes.len()
            invariant
                bytes@ == self.bytes@.take(i as int),
        {
            bytes.push(self.bytes[i]);
            assert(bytes@ =~= self.bytes@.take(i + 1));
        }
        assert(bytes@ =~= self.bytes@);
        PathComponent { kind: self.kind, bytes }
    }
}

/// A file-system path held as the sequence of its components
/// (a leading prefix or root counts as a component).
pub struct FilePath {
    pub components: Vec<PathComponent>,
}

impl View for FilePath {
    type V = PathView;

    open spec fn view(&self) -> PathView {
        self.components@.map_values(|c: PathComponent| c@)
    }
}

impl Clone for FilePath {
    fn clone(&self) -> (res: Self)
        ensures
            res@ == self@,
    {
        let mut components: Vec<PathComponent> = Vec::new();
        for i in 0..self.components.len()
            invariant
                components@.len() == i,
                forall|k: int| 0 <= k < i ==> #[trigger] components@[k]@ == self.components@[k]@,
        {
            components.push(self.components[i].clone());
        }
        let res = FilePath { components };
        assert(res@ =~= self@);
        res
    }
}


/// The paths of a sequence, as views.
pub open spec fn paths_view(v: Seq<FilePath>) -> Seq<PathView> {
    v.map_values(|p: FilePath| p@)
}

/// `p` is `q` itself or one of its ancestors: its components begin `q`.
pub open spec fn is_ancestor_or_self(p: PathView, q: PathView) -> bool {
    p.len() <= q.len() && q.subrange(0, p.len() as int) == p
}

/// `c` is a directory entry directly inside `p`: one component longer, beginning with `p`.
pub open spec fn is_child_of(p: PathView, c: PathView) -> bool {
    c.len() == p.len() + 1 && is_ancestor_or_self(p, c)
}

/// The place of a component kind in the order of kinds.
pub open spec fn kind_rank(k: ComponentKind) -> int {
    match k {
        ComponentKind::Prefix => 0,
        ComponentKind::Root => 1,
        ComponentKind::Current => 2,
        ComponentKind::Parent => 3,
        ComponentKind::Name => 4,
    }
}

/// The path has a parent: it has a last component, and that is a name, `.`
/// or `..` (a path ending in a prefix or a root has none).
pub open spec fn has_parent(f: PathView) -> bool {
    f.len() > 0 && kind_rank(f.last().0) >= 2
}

/// The file `f` lies directly in the directory `d`: `d` is its parent.
/// A path without components, or ending in a prefix or a root, has no parent.
pub open spec fn in_directory(f: PathView, d: PathView) -> bool {
    has_parent(f) && f.drop_last() == d
}

/// Lexicographic order on byte strings, a proper prefix coming first.
pub open spec fn bytes_lt(a: Seq<u8>, b: Seq<u8>) -> bool
    decreases a.len(),
{
    if a.len() == 0 {
        b.len() > 0
    } else if b.len() == 0 {
        false
    } else if a[0] != b[0] {
        a[0] < b[0]
    } else {
        bytes_lt(a.drop_first(), b.drop_first())
    }
}

/// The order of two different components: by kind, then by bytes.
pub open spec fn component_lt(a: ComponentView, b: ComponentView) -> bool {
    if a.0 != b.0 {
        kind_rank(a.0) < kind_rank(b.0)
    } else {
        bytes_lt(a.1, b.1)
    }
}

/// The order in which paths are sorted: component by component, each
/// component compared by `component_lt`, a proper prefix coming first.
pub open spec fn path_lt(a: PathView, b: PathView) -> bool
    decreases a.len(),
{
    if a.len() == 0 {
        b.len() > 0
    } else if b.len() == 0 {
        false
    } else if a[0] != b[0] {
        component_lt(a[0], b[0])
    } else {
        path_lt(a.drop_first(), b.drop_first())
    }
}

/// No byte string precedes itself.
pub proof fn lemma_bytes_lt_irreflexive(a: Seq<u8>)
    ensures
        !bytes_lt(a, a),
    decreases a.len(),
{
    if a.len() > 0 {
        lemma_bytes_lt_irreflexive(a.drop_first());
    }
}

/// Of two different byte strings, one precedes the other.
pub proof fn lemma_bytes_lt_total(a: Seq<u8>, b: Seq<u8>)
    requires
        a != b,
    ensures
        bytes_lt(a, b) || bytes_lt(b, a),
    decreases a.len(),
{
    if a.len() > 0 && b.len() > 0 && a[0] == b[0] {
        if a.drop_first() == b.drop_first() {
            assert(a =~= seq![a[0]] + a.drop_first());
            assert(b =~= seq![b[0]] + b.drop_first());
        }
        lemma_bytes_lt_total(a.drop_first(), b.drop_first());
    } else if a.len() == 0 && b.len() == 0 {
        assert(a =~= b);
    }
}

/// No path precedes itself.
pub proof fn lemma_path_lt_irreflexive(a: PathView)
    ensures
        !path_lt(a, a),
    decreases a.len(),
{
    if a.len() > 0 {
        lemma_path_lt_irreflexive(a.drop_first());
    }
}

/// Of two different paths, one precedes the other.
pub proof fn lemma_path_lt_total(a: PathView, b: PathView)
    requires
        a != b,
    ensures
        path_lt(a, b) || path_lt(b, a),
    decreases a.len(),
{
    if a.len() > 0 && b.len() > 0 {
        if a[0] == b[0] {
            if a.drop_first() == b.drop_first() {
                assert(a =~= seq![a[0]] + a.drop_first());
                assert(b =~= seq![b[0]] + b.drop_first());
            }
            lemma_path_lt_total(a.drop_first(), b.drop_first());
        } else if a[0].0 == b[0].0 {
            assert(a[0].1 != b[0].1);
            lemma_bytes_lt_total(a[0].1, b[0].1);
        }
    } else if a.len() == 0 && b.len() == 0 {
        assert(a =~= b);
    }
}

/// Byte-string order is transitive.
pub proof fn lemma_bytes_lt_transitive(a: Seq<u8>, b: Seq<u8>, c: Seq<u8>)
    requires
        bytes_lt(a, b),
        bytes_lt(b, c),
    ensures
        bytes_lt(a, c),
    decreases a.len(),
{
    if a.len() > 0 && a[0] == b[0] && b[0] == c[0] {
        lemma_bytes_lt_transitive(a.drop_first(), b.drop_first(), c.drop_first());
    }
}

/// Path order is transitive.
pub proof fn lemma_path_lt_transitive(a: PathView, b: PathView, c: PathView)
    requires
        path_lt(a, b),
        path_lt(b, c),
    ensures
        path_lt(a, c),
    decreases a.len(),
{
    if a.len() > 0 {
        if a[0] == b[0] && b[0] == c[0] {
            lemma_path_lt_transitive(a.drop_first(), b.drop_first(), c.drop_first());
        } else if a[0] != b[0] && b[0] != c[0] {
            if a[0].0 == b[0].0 && b[0].0 == c[0].0 {
                lemma_bytes_lt_transitive(a[0].1, b[0].1, c[0].1);
                if a[0] == c[0] {
                    lemma_bytes_lt_irreflexive(a[0].1);
                }
            }
        }
    }
}

/// Whether two byte strings are equal.
pub(crate) fn bytes_equal(a: &[u8], b: &[u8]) -> (eq: bool)
    ensures
        eq == (a@ == b@),
{
    if a.len() != b.len() {
        return false;
    }
    for i in 0..a.len()
        invariant
            a@.len() == b@.len(),
            forall|k: int| 0 <= k < i ==> a@[k] == b@[k],
    {
        if a[i] != b[i] {
            return false;
        }
    }
    assert(a@ =~= b@);
    true
}

/// Whether two strings are equal.
pub(crate) fn text_equals(a: &str, b: &str) -> (eq: bool)
    ensures
        eq == (a@ == b@),
{
    let r = bytes_equal(a.as_bytes(), b.as_bytes());
    proof {
        if r {
            assert(vstd::utf8::decode_utf8(vstd::utf8::encode_utf8(a@)) == a@);
            assert(vstd::utf8::decode_utf8(vstd::utf8::encode_utf8(b@)) == b@);
        }
    }
    r
}

/// Whether the byte string `a` precedes `b`.
fn bytes_less(a: &[u8], b: &[u8]) -> (res: bool)
    ensures
        res == bytes_lt(a@, b@),
{
    let mut i: usize = 0;
    assert(a@.skip(0) =~= a@);
    assert(b@.skip(0) =~= b@);
    while i < a.len() && i < b.len() && a[i] == b[i]
        invariant
            i <= a@.len(),
            i <= b@.len(),
            bytes_lt(a@, b@) == bytes_lt(a@.skip(i as int), b@.skip(i as int)),
        decreases a@.len() - i,
    {
        assert(a@.skip(i as int).drop_first() =~= a@.skip(i + 1));
        assert(b@.skip(i as int).drop_first() =~= b@.skip(i + 1));
        i = i + 1;
    }
    if i < a.len() && i < b.len() {
        a[i] < b[i]
    } else {
        i == a.len() && i < b.len()
    }
}

/// The place of a component kind in the order of kinds.
fn rank_of(k: ComponentKind) -> (rank: u8)
    ensures
        rank == kind_rank(k),
{
    match k {
        ComponentKind::Prefix => 0,
        ComponentKind::Root => 1,
        ComponentKind::Current => 2,
        ComponentKind::Parent => 3,
        ComponentKind::Name => 4,
    }
}

/// Whether two components are the same.
fn same_component(a: &PathComponent, b: &PathComponent) -> (res: bool)
    ensures
        res == (a@ == b@),
{
    a.kind == b.kind && bytes_equal(a.bytes.as_slice(), b.bytes.as_slice())
}

/// Whether the component `a` comes before the different component `b`.
fn component_less(a: &PathComponent, b: &PathComponent) -> (res: bool)
    ensures
        res == component_lt(a@, b@),
{
    if a.kind != b.kind {
        rank_of(a.kind) < rank_of(b.kind)
    } else {
        bytes_less(a.bytes.as_slice(), b.bytes.as_slice())
    }
}

impl FilePath {
    /// Builds a path from its components.
    pub fn from_components(components: Vec<PathComponent>) -> (res: FilePath)
        ensures
            res@ == components@.map_values(|c: PathComponent| c@),
    {
        FilePath { components }
    }

    /// The number of components.
    pub fn len(&self) -> (res: usize)
        ensures
            res == self@.len(),
    {
        self.components.len()
    }

    /// Whether the two paths have the same components.
    pub fn same_as(&self, other: &FilePath) -> (res: bool)
        ensures
            res == (self@ == other@),
    {
        if self.components.len() != other.components.len() {
            assert(self@.len() != other@.len());
            return false;
        }
        let n = self.components.len();
        for i in 0..n
            invariant
                n == self@.len(),
                n == other@.len(),
                forall|k: int| 0 <= k < i ==> self@[k] == other@[k],
        {
            if !same_component(&self.components[i], &other.components[i]) {
                assert(self@[i as int] != other@[i as int]);
                return false;
            }
        }
        assert(self@ =~= other@);
        true
    }

    /// Whether `prefix` is this path or one of its ancestors.
    pub fn starts_with(&self, prefix: &FilePath) -> (res: bool)
        ensures
            res == is_ancestor_or_self(prefix@, self@),
    {
        let n = prefix.components.len();
        if n > self.components.len() {
            return false;
        }
        for i in 0..n
            invariant
                n == prefix@.len(),
                n <= self@.len(),
                forall|k: int| 0 <= k < i ==> self@[k] == prefix@[k],
        {
            if !same_component(&self.components[i], &prefix.components[i]) {
                assert(self@.subrange(0, n as int)[i as int] != prefix@[i as int]);
                return false;
            }
        }
        assert(self@.subrange(0, n as int) =~= prefix@);
        true
    }

    /// The path made of the first `n` components.
    pub fn prefix(&self, n: usize) -> (res: FilePath)
        requires
            n <= self@.len(),
        ensures
            res@ == self@.subrange(0, n as int),
    {
        let mut components: Vec<PathComponent> = Vec::new();
        for i in 0..n
            invariant
                n <= self@.len(),
                components@.len() == i,
                forall|k: int| 0 <= k < i ==> #[trigger] components@[k]@ == self.components@[k]@,
        {
            components.push(self.components[i].clone());
        }
        let res = FilePath { components };
        assert(res@ =~= self@.subrange(0, n as int));
        res
    }

    /// Whether this path has a parent: a last component that is a name, `.`
    /// or `..`.
    pub fn has_parent(&self) -> (res: bool)
        ensures
            res == has_parent(self@),
    {
        let n = self.components.len();
        if n == 0 {
            return false;
        }
        rank_of(self.components[n - 1].kind) >= 2
    }

    /// Whether this path lies directly in the directory `dir`.
    pub fn is_in(&self, dir: &FilePath) -> (res: bool)
        ensures
            res == in_directory(self@, dir@),
    {
        if !self.has_parent() {
            return false;
        }
        let n = self.components.len();
        if n - 1 != dir.components.len() {
            assert(self@.drop_last().len() != dir@.len());
            return false;
        }
        assert(self@.drop_last() =~= self@.subrange(0, dir@.len() as int));
        self.starts_with(dir)
    }

    /// Whether this path comes before `other` in path order.
    pub fn precedes(&self, other: &FilePath) -> (res: bool)
        ensures
            res == path_lt(self@, other@),
    {
        let mut i: usize = 0;
        let a = &self.components;
        let b = &other.components;
        assert(self@.skip(0) =~= self@);
        assert(other@.skip(0) =~= other@);
        while i < a.len() && i < b.len() && same_component(&a[i], &b[i])
            invariant
                a == &self.components,
                b == &other.components,
                i <= self@.len(),
                i <= other@.len(),
                path_lt(self@, other@) == path_lt(self@.skip(i as int), other@.skip(i as int)),
            decreases self@.len() - i,
        {
            assert(self@[i as int] == other@[i as int]);
            assert(self@.skip(i as int).drop_first() =~= self@.skip(i + 1));
            assert(other@.skip(i as int).drop_first() =~= other@.skip(i + 1));
            i = i + 1;
        }
        if i < a.len() && i < b.len() {
            assert(self@[i as int] != other@[i as int]);
            assert(self@.skip(i as int)[0] == self@[i as int]);
            assert(other@.skip(i as int)[0] == other@[i as int]);
            component_less(&a[i], &b[i])
        } else {
            i == a.len() && i < b.len()
        }
    }
}

/// A copy of the paths of `v`.
pub(crate) fn copy_paths(v: &Vec<FilePath>) -> (copy: Vec<FilePath>)
    ensures
        paths_view(copy@) == paths_view(v@),
{
    let mut copy: Vec<FilePath> = Vec::new();
    for j in 0..v.len()
        invariant
            paths_view(copy@) == paths_view(v@).take(j as int),
    {
        let p = v[j].clone();
        let ghost before = copy@;
        copy.push(p);
        assert(paths_view(copy@) =~= paths_view(before).push(p@));
        assert(paths_view(v@).take(j + 1) =~= paths_view(v@).take(j as int).push(p@));
    }
    assert(paths_view(v@).take(v@.len() as int) =~= paths_view(v@));
    copy
}

} // verus!
