//! File paths as sequences of component names.
//!
//! A path is the list of its components. A component is a raw file name; the
//! root directory of an absolute path is the component `/` at the front.
//! Repeated separators, trailing separators and inner `.` components carry no
//! meaning and are gone once a path has been read.

use vstd::prelude::*;
use vstd::string::*;
use vstd::utf8::*;

use crate::text::{shown, shown_text};

verus! {

/// The components of a path, front to back.
pub type Components = Seq<Seq<u8>>;

/// The separator `/`.
pub const SLASH: u8 = 0x2f;

/// The byte `.`.
pub const DOT: u8 = 0x2e;

/// The component that stands for the root directory.
pub open spec fn root_component() -> Seq<u8> {
    seq![SLASH]
}

/// The component `.`.
pub open spec fn dot_component() -> Seq<u8> {
    seq![DOT]
}

/// The component `..`.
pub open spec fn dot_dot_component() -> Seq<u8> {
    seq![DOT, DOT]
}

/// The bytes between separators, empty ones among them.
pub open spec fn pieces(bytes: Seq<u8>) -> Seq<Seq<u8>>
    decreases bytes.len(),
{
    if bytes.len() == 0 {
        seq![seq![]]
    } else {
        let before = pieces(bytes.drop_last());
        if bytes.last() == SLASH {
            before.push(seq![])
        } else {
            before.drop_last().push(before.last().push(bytes.last()))
        }
    }
}

/// The pieces that name something: not empty, and `.` only at the very front.
pub open spec fn meaningful(pieces: Seq<Seq<u8>>) -> Components
    decreases pieces.len(),
{
    if pieces.len() == 0 {
        seq![]
    } else {
        let before = meaningful(pieces.drop_last());
        let piece = pieces.last();
        if piece.len() == 0 || (piece == dot_component() && pieces.len() > 1) {
            before
        } else {
            before.push(piece)
        }
    }
}

/// The components of a written path.
pub open spec fn components(bytes: Seq<u8>) -> Components {
    let front: Components = if bytes.len() > 0 && bytes[0] == SLASH {
        seq![root_component()]
    } else {
        seq![]
    };
    front + meaningful(pieces(bytes))
}

/// A path as it is written: its components with one separator in between.
pub open spec fn written(p: Components) -> Seq<u8>
    decreases p.len(),
{
    if p.len() == 0 {
        seq![]
    } else if p.len() == 1 {
        p[0]
    } else if p.drop_last() == seq![root_component()] {
        root_component() + p.last()
    } else {
        written(p.drop_last()).push(SLASH) + p.last()
    }
}

/// The text shown for a path.
pub open spec fn shown_path(p: Components) -> Seq<char> {
    shown_text(written(p))
}

/// True of the components that a written path can have.
pub open spec fn valid_path(p: Components) -> bool {
    forall|i: int|
        0 <= i < p.len() ==> {
            &&& (#[trigger] p[i]).len() > 0
            &&& (i > 0 || p[i] != root_component()) ==> !p[i].contains(SLASH)
            &&& i > 0 ==> p[i] != dot_component()
        }
}

/// True of a component that is a plain file name.
pub open spec fn is_name(c: Seq<u8>) -> bool {
    c != root_component() && c != dot_component() && c != dot_dot_component()
}

/// The last component, where it is a plain file name.
pub open spec fn file_name_of(p: Components) -> Option<Seq<u8>> {
    if p.len() > 0 && is_name(p.last()) {
        Some(p.last())
    } else {
        None
    }
}

/// The path without its last component; the root directory has none.
pub open spec fn parent_of(p: Components) -> Option<Components> {
    if p.len() > 0 && p.last() != root_component() {
        Some(p.drop_last())
    } else {
        None
    }
}

/// A path with a dot and an extension appended to its last component.
pub open spec fn with_extension(p: Components, ext: Seq<u8>) -> Components {
    if p.len() == 0 {
        seq![seq![DOT] + ext]
    } else {
        p.drop_last().push(p.last().push(DOT) + ext)
    }
}

/// True when `p` lies strictly below `ancestor`.
pub open spec fn strictly_under(p: Components, ancestor: Components) -> bool {
    p != ancestor && ancestor.is_prefix_of(p)
}

/// The components of each byte string in a list.
pub open spec fn byte_views(parts: Seq<Vec<u8>>) -> Components {
    Seq::new(parts.len(), |i: int| parts[i]@)
}

/// A number computed from bytes, continuing from `seed`.
pub open spec fn bytes_hash(seed: u64, bytes: Seq<u8>) -> u64
    decreases bytes.len(),
{
    if bytes.len() == 0 {
        seed
    } else {
        bytes_hash(seed, bytes.drop_last()).wrapping_mul(31).wrapping_add(bytes.last() as u64)
    }
}

/// A number computed from a path, the same for the same components.
pub open spec fn path_hash(p: Components) -> u64
    decreases p.len(),
{
    if p.len() == 0 {
        7
    } else {
        bytes_hash(path_hash(p.drop_last()).wrapping_mul(31).wrapping_add(47), p.last())
    }
}

/// A file path.
#[derive(Debug)]
pub struct TreePath {
    parts: Vec<Vec<u8>>,
}

impl View for TreePath {
    type V = Components;

    closed spec fn view(&self) -> Components {
        byte_views(self.parts@)
    }
}

/// The components of each path in a list.
pub open spec fn path_views(paths: Seq<TreePath>) -> Seq<Components> {
    Seq::new(paths.len(), |i: int| paths[i]@)
}

pub(crate) proof fn lemma_pieces(bytes: Seq<u8>)
    ensures
        pieces(bytes).len() > 0,
        forall|i: int| 0 <= i < pieces(bytes).len() ==> !(#[trigger] pieces(bytes)[i]).contains(SLASH),
        bytes.len() > 0 && bytes[0] == SLASH ==> pieces(bytes).len() > 1 && pieces(bytes)[0].len()
            == 0,
    decreases bytes.len(),
{
    if bytes.len() > 0 {
        lemma_pieces(bytes.drop_last());
        let before = pieces(bytes.drop_last());
        if bytes.last() != SLASH {
            let piece = before.last().push(bytes.last());
            assert forall|j: int| 0 <= j < piece.len() implies piece[j] != SLASH by {
                if j < before.last().len() {
                    assert(before.last().contains(before.last()[j]));
                }
            }
        }
    }
}

proof fn lemma_meaningful(ps: Seq<Seq<u8>>)
    requires
        forall|i: int| 0 <= i < ps.len() ==> !(#[trigger] ps[i]).contains(SLASH),
    ensures
        forall|i: int|
            0 <= i < meaningful(ps).len() ==> {
                &&& (#[trigger] meaningful(ps)[i]).len() > 0
                &&& !meaningful(ps)[i].contains(SLASH)
                &&& (i > 0 || ps[0].len() == 0) ==> meaningful(ps)[i] != dot_component()
            },
        meaningful(ps).len() <= ps.len(),
    decreases ps.len(),
{
    if ps.len() > 0 {
        lemma_meaningful(ps.drop_last());
    }
}

/// Every written path has valid components.
proof fn lemma_components_valid(bytes: Seq<u8>)
    ensures
        valid_path(components(bytes)),
{
    lemma_pieces(bytes);
    lemma_meaningful(pieces(bytes));
    let m = meaningful(pieces(bytes));
    let p = components(bytes);
    assert(root_component()[0] == SLASH);
    if bytes.len() > 0 && bytes[0] == SLASH {
        assert forall|i: int| 0 <= i < p.len() implies {
            &&& (#[trigger] p[i]).len() > 0
            &&& (i > 0 || p[i] != root_component()) ==> !p[i].contains(SLASH)
            &&& i > 0 ==> p[i] != dot_component()
        } by {
            if i > 0 {
                assert(p[i] == m[i - 1]);
            }
        }
    } else {
        assert(p =~= m);
    }
}

pub(crate) proof fn lemma_pieces_concat(a: Seq<u8>, b: Seq<u8>)
    ensures
        pieces(a.push(SLASH) + b) == pieces(a) + pieces(b),
    decreases b.len(),
{
    let whole = a.push(SLASH) + b;
    lemma_pieces(a);
    if b.len() == 0 {
        assert(whole =~= a.push(SLASH));
        assert(whole.drop_last() =~= a);
        assert(pieces(a) + pieces(b) =~= pieces(a).push(seq![]));
    } else {
        lemma_pieces_concat(a, b.drop_last());
        lemma_pieces(b.drop_last());
        assert(whole.drop_last() =~= a.push(SLASH) + b.drop_last());
        assert(whole.last() == b.last());
        assert((pieces(a) + pieces(b.drop_last())).last() == pieces(b.drop_last()).last());
        assert(pieces(whole) =~= pieces(a) + pieces(b));
    }
}

pub(crate) proof fn lemma_pieces_single(b: Seq<u8>)
    requires
        !b.contains(SLASH),
    ensures
        pieces(b) == seq![b],
    decreases b.len(),
{
    if b.len() > 0 {
        assert(b.contains(b.last()));
        assert forall|j: int| 0 <= j < b.drop_last().len() implies b.drop_last()[j] != SLASH by {
            assert(b.contains(b[j]));
        }
        lemma_pieces_single(b.drop_last());
        assert(b.drop_last().push(b.last()) =~= b);
        assert(pieces(b) =~= seq![b]);
    } else {
        assert(b =~= seq![]);
    }
}

/// Appending a separator and a plain component to a written path appends the
/// component.
pub(crate) proof fn lemma_components_push(a: Seq<u8>, c: Seq<u8>)
    requires
        a.len() > 0,
        c.len() > 0,
        !c.contains(SLASH),
        c != dot_component(),
    ensures
        components(a.push(SLASH) + c) == components(a).push(c),
{
    lemma_pieces_concat(a, c);
    lemma_pieces_single(c);
    lemma_pieces(a);
    let whole = pieces(a) + seq![c];
    assert(whole.drop_last() =~= pieces(a));
    assert((a.push(SLASH) + c)[0] == a[0]);
    assert(components(a.push(SLASH) + c) =~= components(a).push(c));
}

/// Reading back what a path is written as gives the path again.
pub proof fn written_path_reads_back(p: Components)
    requires
        valid_path(p),
    ensures
        components(written(p)) == p,
        p.len() > 0 ==> written(p).len() > 0,
    decreases p.len(),
{
    if p.len() == 0 {
        assert(pieces(seq![]) =~= seq![seq![]]);
        assert(components(seq![]) =~= p) by {
            reveal_with_fuel(meaningful, 2);
        }
    } else if p.len() == 1 {
        reveal_with_fuel(meaningful, 3);
        if p[0] == root_component() {
            assert(root_component() =~= seq![].push(SLASH) + seq![]);
            lemma_pieces_concat(seq![], seq![]);
            assert(pieces(seq![]) =~= seq![seq![]]);
            assert(components(root_component()) =~= p);
        } else {
            lemma_pieces_single(p[0]);
            assert(p[0].contains(p[0][0]));
            assert(seq![p[0]].drop_last() =~= seq![]);
            assert(components(p[0]) =~= p);
        }
    } else {
        let q = p.drop_last();
        assert(valid_path(q)) by {
            assert forall|i: int| 0 <= i < q.len() implies q[i] == p[i] by {}
        }
        written_path_reads_back(q);
        assert(p =~= q.push(p.last()));
        if q == seq![root_component()] {
            let c = p.last();
            assert(root_component() + c =~= seq![].push(SLASH) + c);
            lemma_pieces_concat(seq![], c);
            lemma_pieces_single(c);
            assert(pieces(seq![]) =~= seq![seq![]]);
            let whole = pieces(seq![]) + seq![c];
            assert(whole.drop_last() =~= seq![seq![]]);
            reveal_with_fuel(meaningful, 3);
            assert(components(written(p)) =~= p);
        } else {
            lemma_components_push(written(q), p.last());
        }
    }
}

/// Compares two byte strings.
pub(crate) fn same_bytes(a: &[u8], b: &[u8]) -> (same: bool)
    ensures
        same == (a@ == b@),
{
    if a.len() != b.len() {
        return false;
    }
    let mut i: usize = 0;
    while i < a.len()
        invariant
            a@.len() == b@.len(),
            i <= a@.len(),
            forall|j: int| 0 <= j < i ==> a@[j] == b@[j],
        decreases a.len() - i,
    {
        if a[i] != b[i] {
            return false;
        }
        i = i + 1;
    }
    assert(a@ =~= b@);
    true
}

/// Appends a copy of a component.
fn push_part(parts: &mut Vec<Vec<u8>>, part: &Vec<u8>)
    ensures
        byte_views(final(parts)@) == byte_views(old(parts)@).push(part@),
{
    let copy = part.clone();
    assert(copy@ =~= part@);
    parts.push(copy);
    assert(byte_views(parts@) =~= byte_views(old(parts)@).push(part@));
}

/// True of the root directory's component.
fn is_root(c: &Vec<u8>) -> (r: bool)
    ensures
        r == (c@ == root_component()),
{
    let r = c.len() == 1 && c[0] == SLASH;
    assert(r ==> c@ =~= root_component());
    r
}

/// True of the component `.`.
fn is_dot(c: &Vec<u8>) -> (r: bool)
    ensures
        r == (c@ == dot_component()),
{
    let r = c.len() == 1 && c[0] == DOT;
    assert(r ==> c@ =~= dot_component());
    r
}

/// True of the component `..`.
fn is_dot_dot(c: &Vec<u8>) -> (r: bool)
    ensures
        r == (c@ == dot_dot_component()),
{
    let r = c.len() == 2 && c[0] == DOT && c[1] == DOT;
    assert(r ==> c@ =~= dot_dot_component());
    r
}

/// Adds a piece of a written path to the components read so far.
fn add_piece(parts: &mut Vec<Vec<u8>>, piece: Vec<u8>, inner: bool)
    ensures
        byte_views(final(parts)@) == (if piece@.len() == 0 || (piece@ == dot_component() && inner) {
            byte_views(old(parts)@)
        } else {
            byte_views(old(parts)@).push(piece@)
        }),
{
    if piece.len() == 0 || (inner && is_dot(&piece)) {
        return;
    }
    parts.push(piece);
    assert(byte_views(parts@) =~= byte_views(old(parts)@).push(piece@));
}

impl TreePath {
    /// Reads a written path.
    pub fn from_bytes(bytes: &[u8]) -> (path: TreePath)
        ensures
            path@ == components(bytes@),
            valid_path(path@),
    {
        let mut parts: Vec<Vec<u8>> = Vec::new();
        if bytes.len() > 0 && bytes[0] == SLASH {
            let mut root: Vec<u8> = Vec::new();
            root.push(SLASH);
            assert(root@ =~= root_component());
            parts.push(root);
        }
        let ghost front = byte_views(parts@);
        assert(front =~= if bytes@.len() > 0 && bytes@[0] == SLASH {
            seq![root_component()]
        } else {
            seq![]
        });
        let mut current: Vec<u8> = Vec::new();
        let mut inner = false;
        let mut i: usize = 0;
        proof {
            assert(bytes@.take(0) =~= seq![]);
            assert(pieces(seq![]).drop_last() =~= seq![]);
            assert(front =~= front + meaningful(seq![]));
            assert(current@ =~= seq![]);
        }
        while i < bytes.len()
            invariant
                i <= bytes@.len(),
                current@ == pieces(bytes@.take(i as int)).last(),
                inner == (pieces(bytes@.take(i as int)).len() > 1),
                byte_views(parts@) == front + meaningful(
                    pieces(bytes@.take(i as int)).drop_last(),
                ),
            decreases bytes.len() - i,
        {
            let byte = bytes[i];
            let ghost before = pieces(bytes@.take(i as int));
            proof {
                lemma_pieces(bytes@.take(i as int));
                assert(bytes@.take(i + 1).drop_last() =~= bytes@.take(i as int));
            }
            if byte == SLASH {
                add_piece(&mut parts, current, inner);
                assert(byte_views(parts@) =~= front + meaningful(before));
                current = Vec::new();
                inner = true;
                assert(before.push(seq![]).drop_last() =~= before);
                assert(current@ =~= seq![]);
            } else {
                current.push(byte);
                assert(pieces(bytes@.take(i + 1)).drop_last() =~= before.drop_last());
            }
            i = i + 1;
        }
        proof {
            assert(bytes@.take(i as int) =~= bytes@);
            lemma_pieces(bytes@);
            lemma_components_valid(bytes@);
        }
        add_piece(&mut parts, current, inner);
        assert(byte_views(parts@) =~= front + meaningful(pieces(bytes@)));
        TreePath { parts }
    }

    /// The path without components.
    pub fn empty() -> (path: TreePath)
        ensures
            path@ == Seq::<Seq<u8>>::empty(),
    {
        let path = TreePath { parts: Vec::new() };
        assert(path@ =~= seq![]);
        path
    }

    /// The path `.`.
    pub fn here() -> (path: TreePath)
        ensures
            path@ == seq![dot_component()],
    {
        let mut dot: Vec<u8> = Vec::new();
        dot.push(DOT);
        assert(dot@ =~= dot_component());
        let mut parts: Vec<Vec<u8>> = Vec::new();
        parts.push(dot);
        let path = TreePath { parts };
        assert(path@ =~= seq![dot_component()]);
        path
    }

    /// Reads a path written as text.
    pub fn new(text: &str) -> (path: TreePath)
        ensures
            path@ == components(encode_utf8(text@)),
            valid_path(path@),
    {
        TreePath::from_bytes(text.as_bytes())
    }

    /// Writes the path.
    pub fn to_bytes(&self) -> (bytes: Vec<u8>)
        ensures
            bytes@ == written(self@),
    {
        let mut bytes: Vec<u8> = Vec::new();
        let mut i: usize = 0;
        assert(self@.take(0) =~= seq![]);
        while i < self.parts.len()
            invariant
                i <= self.parts@.len(),
                bytes@ == written(self@.take(i as int)),
            decreases self.parts.len() - i,
        {
            proof {
                assert(self@.take(i + 1).drop_last() =~= self@.take(i as int));
                assert(self@.take(i + 1).last() == self.parts@[i as int]@);
                if i > 0 {
                    assert(self@.take(i as int)[0] == self.parts@[0]@);
                }
            }
            if i > 0 && !(i == 1 && is_root(&self.parts[0])) {
                bytes.push(SLASH);
                proof {
                    if self@.take(i as int) == seq![root_component()] {
                        assert(self@.take(i as int).len() == 1);
                    }
                }
            } else {
                proof {
                    if i == 1 {
                        assert(self@.take(1) =~= seq![root_component()]);
                    }
                }
            }
            let ghost before = bytes@;
            push_all(&mut bytes, &self.parts[i]);
            assert(i == 0 ==> bytes@ =~= self@[0]);
            i = i + 1;
        }
        assert(self@.take(i as int) =~= self@);
        bytes
    }

    /// The path as text, for messages.
    pub fn display(&self) -> (text: String)
        ensures
            text@ == shown_path(self@),
    {
        let bytes = self.to_bytes();
        shown(bytes.as_slice())
    }

    /// The number of components.
    pub fn depth(&self) -> (depth: usize)
        ensures
            depth == self@.len(),
    {
        self.parts.len()
    }

    /// A number that depends on the components alone.
    pub(crate) fn hash_code(&self) -> (hash: u64)
        ensures
            hash == path_hash(self@),
    {
        let mut hash: u64 = 7;
        let mut i: usize = 0;
        assert(self@.take(0) =~= seq![]);
        while i < self.parts.len()
            invariant
                i <= self.parts@.len(),
                hash == path_hash(self@.take(i as int)),
            decreases self.parts.len() - i,
        {
            proof {
                assert(self@.take(i + 1).drop_last() =~= self@.take(i as int));
                assert(self@.take(i + 1).last() == self.parts@[i as int]@);
            }
            hash = hash_bytes(hash.wrapping_mul(31).wrapping_add(47), &self.parts[i]);
            i = i + 1;
        }
        assert(self@.take(i as int) =~= self@);
        hash
    }

    /// True when both paths have the same components.
    pub fn same(&self, other: &TreePath) -> (same: bool)
        ensures
            same == (self@ == other@),
    {
        if self.parts.len() != other.parts.len() {
            assert(self@.len() != other@.len());
            return false;
        }
        let same = self.starts_with(other);
        assert(other@.is_prefix_of(self@) && self@.len() == other@.len() ==> self@ =~= other@);
        same
    }

    /// True when the components of `base` are the first components of this path.
    pub fn starts_with(&self, base: &TreePath) -> (starts: bool)
        ensures
            starts == base@.is_prefix_of(self@),
    {
        if base.parts.len() > self.parts.len() {
            return false;
        }
        let mut i: usize = 0;
        while i < base.parts.len()
            invariant
                i <= base.parts@.len() <= self.parts@.len(),
                forall|j: int| 0 <= j < i ==> base@[j] == self@[j],
            decreases base.parts.len() - i,
        {
            if !same_bytes(base.parts[i].as_slice(), self.parts[i].as_slice()) {
                proof {
                    if base@.is_prefix_of(self@) {
                        assert(base@[i as int] == self@.subrange(0, base@.len() as int)[i as int]);
                    }
                }
                return false;
            }
            i = i + 1;
        }
        assert(base@ =~= self@.subrange(0, base@.len() as int));
        true
    }

    /// A copy of `count` components from `start` on.
    fn slice(&self, start: usize, end: usize) -> (path: TreePath)
        requires
            start <= end <= self@.len(),
        ensures
            path@ == self@.subrange(start as int, end as int),
    {
        let mut parts: Vec<Vec<u8>> = Vec::new();
        let mut i: usize = start;
        while i < end
            invariant
                start <= i <= end <= self.parts@.len(),
                byte_views(parts@) == self@.subrange(start as int, i as int),
            decreases end - i,
        {
            push_part(&mut parts, &self.parts[i]);
            assert(self@.subrange(start as int, i + 1) =~= self@.subrange(
                start as int,
                i as int,
            ).push(self@[i as int]));
            i = i + 1;
        }
        TreePath { parts }
    }

    /// What is left of this path after `base`, where it starts with `base`.
    pub fn strip_prefix(&self, base: &TreePath) -> (rest: Option<TreePath>)
        ensures
            match rest {
                Some(rest) => base@.is_prefix_of(self@) && rest@ == self@.skip(base@.len() as int),
                None => !base@.is_prefix_of(self@),
            },
    {
        if self.starts_with(base) {
            Some(self.slice(base.parts.len(), self.parts.len()))
        } else {
            None
        }
    }

    /// The last component, where it is a plain file name.
    pub fn file_name(&self) -> (name: Option<&Vec<u8>>)
        ensures
            match name {
                Some(name) => file_name_of(self@) == Some(name@),
                None => file_name_of(self@) is None,
            },
    {
        if self.parts.len() == 0 {
            return None;
        }
        let last = &self.parts[self.parts.len() - 1];
        if is_root(last) || is_dot(last) || is_dot_dot(last) {
            None
        } else {
            Some(last)
        }
    }

    /// The path without its last component; the root directory has none.
    pub fn parent(&self) -> (parent: Option<TreePath>)
        ensures
            match parent {
                Some(parent) => parent_of(self@) == Some(parent@),
                None => parent_of(self@) is None,
            },
    {
        if self.parts.len() == 0 || is_root(&self.parts[self.parts.len() - 1]) {
            None
        } else {
            let parent = self.slice(0, self.parts.len() - 1);
            assert(parent@ =~= self@.drop_last());
            Some(parent)
        }
    }

    /// The path of the entry `name` of this directory.
    pub fn child(&self, name: &Vec<u8>) -> (path: TreePath)
        ensures
            path@ == self@.push(name@),
    {
        let mut parts = self.clone().parts;
        push_part(&mut parts, name);
        TreePath { parts }
    }

    /// The first `count` components.
    pub fn front(&self, count: usize) -> (path: TreePath)
        requires
            count <= self@.len(),
        ensures
            path@ == self@.take(count as int),
    {
        self.slice(0, count)
    }

    /// The components of this path and of `path` after them.
    pub fn append(&self, path: &TreePath) -> (whole: TreePath)
        ensures
            whole@ == self@ + path@,
    {
        let mut parts = self.clone().parts;
        let mut i: usize = 0;
        assert(self@ + path@.take(0) =~= self@);
        while i < path.parts.len()
            invariant
                i <= path.parts@.len(),
                byte_views(parts@) == self@ + path@.take(i as int),
            decreases path.parts.len() - i,
        {
            push_part(&mut parts, &path.parts[i]);
            assert(self@ + path@.take(i + 1) =~= (self@ + path@.take(i as int)).push(
                path@[i as int],
            ));
            i = i + 1;
        }
        assert(path@.take(i as int) =~= path@);
        TreePath { parts }
    }

    /// This path with a dot and an extension appended to its last component.
    pub fn with_extension(&self, ext: &str) -> (path: TreePath)
        ensures
            path@ == with_extension(self@, encode_utf8(ext@)),
    {
        let count = self.parts.len();
        let mut name: Vec<u8> = Vec::new();
        let mut front = TreePath::empty();
        if count > 0 {
            push_all(&mut name, &self.parts[count - 1]);
            front = self.slice(0, count - 1);
            assert(name@ =~= self@.last());
            assert(front@ =~= self@.drop_last());
        }
        name.push(DOT);
        push_all(&mut name, &ext.as_bytes_vec());
        assert(count == 0 ==> name@ =~= seq![DOT] + encode_utf8(ext@));
        let path = front.child(&name);
        assert(count == 0 ==> path@ =~= seq![name@]);
        path
    }
}

/// Copies a list of paths.
pub(crate) fn copy_paths(paths: &Vec<TreePath>) -> (copies: Vec<TreePath>)
    ensures
        path_views(copies@) == path_views(paths@),
{
    let mut copies: Vec<TreePath> = Vec::new();
    let mut i: usize = 0;
    assert(path_views(copies@) =~= path_views(paths@).take(0));
    while i < paths.len()
        invariant
            i <= paths@.len(),
            path_views(copies@) == path_views(paths@).take(i as int),
        decreases paths.len() - i,
    {
        let ghost before = copies@;
        copies.push(paths[i].clone());
        assert(path_views(copies@) =~= path_views(before).push(paths@[i as int]@));
        assert(path_views(paths@).take(i + 1) =~= path_views(paths@).take(i as int).push(
            paths@[i as int]@,
        ));
        i = i + 1;
    }
    assert(path_views(paths@).take(i as int) =~= path_views(paths@));
    copies
}

/// A number computed from bytes, continuing from `seed`.
fn hash_bytes(seed: u64, bytes: &Vec<u8>) -> (hash: u64)
    ensures
        hash == bytes_hash(seed, bytes@),
{
    let mut hash: u64 = seed;
    let mut i: usize = 0;
    assert(bytes@.take(0) =~= seq![]);
    while i < bytes.len()
        invariant
            i <= bytes@.len(),
            hash == bytes_hash(seed, bytes@.take(i as int)),
        decreases bytes.len() - i,
    {
        assert(bytes@.take(i + 1).drop_last() =~= bytes@.take(i as int));
        hash = hash.wrapping_mul(31).wrapping_add(bytes[i] as u64);
        i = i + 1;
    }
    assert(bytes@.take(i as int) =~= bytes@);
    hash
}

/// Appends a byte string to another.
fn push_all(bytes: &mut Vec<u8>, more: &Vec<u8>)
    ensures
        final(bytes)@ == old(bytes)@ + more@,
{
    let mut i: usize = 0;
    while i < more.len()
        invariant
            i <= more@.len(),
            bytes@ == old(bytes)@ + more@.take(i as int),
        decreases more.len() - i,
    {
        bytes.push(more[i]);
        i = i + 1;
        assert(bytes@ =~= old(bytes)@ + more@.take(i as int));
    }
    assert(more@.take(i as int) =~= more@);
}

impl Clone for TreePath {
    fn clone(&self) -> (copy: Self)
        ensures
            copy@ == self@,
    {
        let copy = self.slice(0, self.parts.len());
        assert(copy@ =~= self@);
        copy
    }
}

impl PartialEq for TreePath {
    fn eq(&self, other: &TreePath) -> (same: bool) {
        self.same(other)
    }
}

impl vstd::std_specs::cmp::PartialEqSpecImpl for TreePath {
    open spec fn obeys_eq_spec() -> bool {
        true
    }

    open spec fn eq_spec(&self, other: &TreePath) -> bool {
        self@ == other@
    }
}

} // verus!
