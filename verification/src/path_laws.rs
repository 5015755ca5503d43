//! How paths are written and read, piece by piece.

use vstd::prelude::*;
use vstd::utf8::*;

use crate::path::{
    components, dot_component, dot_dot_component, file_name_of, lemma_components_push, lemma_pieces,
    lemma_pieces_concat, lemma_pieces_single, meaningful, parent_of, pieces, root_component,
    shown_path, with_extension, written, written_path_reads_back, Components, DOT, SLASH, TreePath,
};
use crate::text::replaced_text;

verus! {

/// A path is written as its components in order with one separator between
/// them: a further component comes behind what is written already. The root
/// directory is its own separator.
pub proof fn written_components_stand_in_order(p: Components, c: Seq<u8>)
    ensures
        written(seq![]) == Seq::<u8>::empty(),
        written(seq![c]) == c,
        written(seq![seq![0x2fu8], c]) == seq![0x2fu8] + c,
        p.len() > 0 && p != seq![seq![0x2fu8]] ==> written(p.push(c)) == written(p).push(0x2fu8)
            + c,
{
    let root: Components = seq![seq![0x2fu8]];
    assert(root =~= seq![root_component()]);
    assert(root.push(c) =~= seq![seq![0x2fu8], c]);
    assert(root.push(c).drop_last() =~= root);
    assert(p.push(c).drop_last() =~= p);
}

/// One path behind another is written as the first, a separator and the second.
pub proof fn written_paths_join(p: Components, q: Components)
    requires
        p.len() > 0,
        p != seq![seq![0x2fu8]],
        q.len() > 0,
        q[0] != seq![0x2fu8],
    ensures
        written(p + q) == written(p).push(0x2fu8) + written(q),
    decreases q.len(),
{
    let before = q.drop_last();
    let last = q.last();
    assert(before.push(last) =~= q);
    assert((p + before).push(last) =~= p + q);
    assert(p + before != seq![seq![0x2fu8]]) by {
        if p.len() == 1 && before.len() == 0 {
            assert(p + before =~= p);
        }
        if p + before == seq![seq![0x2fu8]] {
            assert((p + before).len() == 1);
        }
    }
    written_components_stand_in_order(p + before, last);
    if before.len() == 0 {
        assert(p + before =~= p);
        assert(q =~= seq![last]);
        written_components_stand_in_order(p, last);
    } else {
        assert(before[0] == q[0]);
        written_paths_join(p, before);
        assert(before != seq![seq![0x2fu8]]) by {
            assert(before[0] != seq![0x2fu8]);
        }
        written_components_stand_in_order(before, last);
        assert(written(p + q) =~= written(p).push(0x2fu8) + written(q));
    }
}

/// How many bytes the components of a path have together.
pub open spec fn bytes_in(p: Components) -> nat
    decreases p.len(),
{
    if p.len() == 0 {
        0
    } else {
        bytes_in(p.drop_last()) + p.last().len()
    }
}

/// A written path is as long as its components and the separators between them,
/// of which there is one less than there are components; below the root
/// directory there is one less again.
pub proof fn written_path_adds_only_separators(p: Components)
    requires
        p.len() > 0,
    ensures
        written(p).len() == bytes_in(p) + p.len() - 1 - (if p.len() > 1 && p[0] == seq![0x2fu8] {
            1int
        } else {
            0
        }),
    decreases p.len(),
{
    let before = p.drop_last();
    if p.len() == 1 {
        assert(before =~= seq![]);
        assert(bytes_in(before) == 0);
    } else {
        written_path_adds_only_separators(before);
        assert(before[0] == p[0]);
        if before.len() == 1 {
            assert(before =~= seq![p[0]]);
            assert(before.drop_last() =~= seq![]);
            assert(bytes_in(before) == before[0].len());
            if p[0] == seq![0x2fu8] {
                assert(before =~= seq![root_component()]);
            }
        } else {
            assert(before != seq![root_component()]);
        }
    }
}

/// The path read from bytes without a separator is those bytes, if there are any.
pub proof fn bytes_without_separator_are_one_component(c: Seq<u8>)
    requires
        !c.contains(0x2fu8),
    ensures
        components(c) == (if c.len() == 0 {
            Seq::<Seq<u8>>::empty()
        } else {
            seq![c]
        }),
{
    lemma_pieces_single(c);
    assert(seq![c].drop_last() =~= seq![]);
    assert(meaningful(seq![]) =~= seq![]);
    if c.len() > 0 {
        assert(c.contains(c[0]));
    }
    assert(components(c) =~= (if c.len() == 0 {
        Seq::<Seq<u8>>::empty()
    } else {
        seq![c]
    }));
}

/// A separator at the very front stands for the root directory; what follows it
/// comes below.
pub proof fn leading_separator_is_the_root(c: Seq<u8>)
    requires
        !c.contains(0x2fu8),
    ensures
        components(seq![0x2fu8] + c) == (if c.len() == 0 || c == seq![0x2eu8] {
            seq![seq![0x2fu8]]
        } else {
            seq![seq![0x2fu8], c]
        }),
{
    let none = Seq::<u8>::empty();
    lemma_pieces_concat(none, c);
    lemma_pieces_single(none);
    lemma_pieces_single(c);
    assert(none.push(SLASH) + c =~= seq![0x2fu8] + c);
    let both = pieces(none) + pieces(c);
    assert(both =~= seq![none, c]);
    assert(both.drop_last() =~= seq![none]);
    assert(seq![none].drop_last() =~= seq![]);
    assert(meaningful(seq![]) =~= seq![]);
    assert(meaningful(seq![none]) =~= seq![]);
    assert(dot_component() =~= seq![0x2eu8]);
    assert(root_component() =~= seq![0x2fu8]);
    assert(components(seq![0x2fu8] + c) =~= (if c.len() == 0 || c == seq![0x2eu8] {
        seq![seq![0x2fu8]]
    } else {
        seq![seq![0x2fu8], c]
    }));
}

/// Bytes behind a further separator are a further component, unless they are
/// empty or `.`, which name nothing.
pub proof fn each_separator_starts_a_component(a: Seq<u8>, c: Seq<u8>)
    requires
        a.len() > 0,
        !c.contains(0x2fu8),
    ensures
        components(a.push(0x2fu8) + c) == (if c.len() == 0 || c == seq![0x2eu8] {
            components(a)
        } else {
            components(a).push(c)
        }),
{
    assert(dot_component() =~= seq![0x2eu8]);
    if c.len() == 0 || c == seq![0x2eu8] {
        lemma_pieces_concat(a, c);
        lemma_pieces_single(c);
        lemma_pieces(a);
        let whole = pieces(a) + seq![c];
        assert(whole.drop_last() =~= pieces(a));
        assert((a.push(SLASH) + c)[0] == a[0]);
    } else {
        lemma_components_push(a, c);
    }
}

/// A trailing separator adds no component and removes none.
pub proof fn trailing_separator_means_nothing(b: Seq<u8>)
    requires
        b.len() > 0,
    ensures
        components(b.push(0x2fu8)) == components(b),
{
    let none = Seq::<u8>::empty();
    each_separator_starts_a_component(b, none);
    assert(b.push(0x2fu8) + none =~= b.push(0x2fu8));
}

/// A repeated separator means what a single one means.
pub proof fn repeated_separator_means_nothing(a: Seq<u8>, b: Seq<u8>)
    ensures
        components(a.push(0x2fu8).push(0x2fu8) + b) == components(a.push(0x2fu8) + b),
    decreases b.len(),
{
    let once = a.push(0x2fu8) + b;
    let twice = a.push(0x2fu8).push(0x2fu8) + b;
    lemma_pieces_concat(a, b);
    lemma_pieces_concat(a.push(SLASH), b);
    lemma_pieces(a);
    let none = Seq::<u8>::empty();
    lemma_pieces_concat(a, none);
    lemma_pieces_single(none);
    assert(a.push(SLASH) + none =~= a.push(SLASH));
    assert(once[0] == twice[0]);
    lemma_empty_piece_means_nothing(pieces(a), pieces(b));
    assert(pieces(once) == pieces(a) + pieces(b));
    assert(pieces(twice) == (pieces(a) + seq![none]) + pieces(b));
}

/// An empty piece behind others means nothing.
proof fn lemma_empty_piece_means_nothing(front: Seq<Seq<u8>>, back: Seq<Seq<u8>>)
    requires
        front.len() > 0,
    ensures
        meaningful((front + seq![Seq::<u8>::empty()]) + back) == meaningful(front + back),
    decreases back.len(),
{
    let none = Seq::<u8>::empty();
    let wide = (front + seq![none]) + back;
    let narrow = front + back;
    if back.len() == 0 {
        assert(wide.drop_last() =~= front);
        assert(narrow =~= front);
        assert(wide.last() == none);
    } else {
        lemma_empty_piece_means_nothing(front, back.drop_last());
        assert(wide.drop_last() =~= (front + seq![none]) + back.drop_last());
        assert(narrow.drop_last() =~= front + back.drop_last());
        assert(wide.last() == narrow.last());
    }
}

/// The text shown for a path is the one that its bytes encode, and where they
/// encode none, their reading with replacement characters.
pub proof fn shown_path_is_the_written_text(p: Components)
    ensures
        valid_utf8(written(p)) ==> encode_utf8(shown_path(p)) == written(p),
        !valid_utf8(written(p)) ==> shown_path(p) == replaced_text(written(p)),
{
    if valid_utf8(written(p)) {
        decode_utf8_encode_utf8(written(p));
    }
}

/// Two paths that are written alike in UTF-8 are shown alike, and the other way
/// round.
pub proof fn shown_paths_tell_paths_apart(p: Components, q: Components)
    requires
        valid_utf8(written(p)),
        valid_utf8(written(q)),
    ensures
        shown_path(p) == shown_path(q) <==> written(p) == written(q),
{
    shown_path_is_the_written_text(p);
    shown_path_is_the_written_text(q);
}

/// Appending a component and taking the parent gives the path back; the root
/// directory and the empty path have no parent.
pub proof fn parent_undoes_a_step_down(p: Components, c: Seq<u8>)
    requires
        c != seq![0x2fu8],
    ensures
        parent_of(p.push(c)) == Some(p),
        parent_of(p.push(seq![0x2fu8])) is None,
        parent_of(seq![]) is None,
{
    assert(root_component() =~= seq![0x2fu8]);
    assert(p.push(c).drop_last() =~= p);
}

/// A path is named by its last component, whatever stands before it, unless that
/// is the root directory, `.` or `..`.
pub proof fn last_component_is_the_name(p: Components, c: Seq<u8>)
    ensures
        file_name_of(p.push(c)) == (if c == seq![0x2fu8] || c == seq![0x2eu8] || c == seq![
            0x2eu8,
            0x2eu8,
        ] {
            None::<Seq<u8>>
        } else {
            Some(c)
        }),
        file_name_of(seq![]) is None,
{
    assert(root_component() =~= seq![0x2fu8]);
    assert(dot_component() =~= seq![0x2eu8]);
    assert(dot_dot_component() =~= seq![0x2eu8, 0x2eu8]);
}

/// An extension comes behind the whole written path, after a dot.
pub proof fn extension_comes_last(p: Components, ext: Seq<u8>)
    ensures
        written(with_extension(p, ext)) == written(p).push(0x2eu8) + ext,
        p.len() > 0 ==> with_extension(p, ext).len() == p.len(),
{
    if p.len() == 0 {
        assert(written(with_extension(p, ext)) == seq![DOT] + ext);
        assert(written(p).push(0x2eu8) + ext =~= seq![DOT] + ext);
    } else {
        let before = p.drop_last();
        let last = p.last().push(DOT) + ext;
        let longer = with_extension(p, ext);
        assert(longer.drop_last() =~= before);
        assert(longer.last() == last);
        assert(written(longer) =~= written(p).push(0x2eu8) + ext);
    }
}

/// Writing a path that was read, and reading what was written, gives the same
/// components.
pub proof fn path_survives_being_written(
    bytes: &[u8],
    path: TreePath,
    out: Vec<u8>,
    back: &[u8],
    again: TreePath,
)
    requires
        call_ensures(TreePath::from_bytes, (bytes,), path),
        call_ensures(TreePath::to_bytes, (&path,), out),
        back@ == out@,
        call_ensures(TreePath::from_bytes, (back,), again),
    ensures
        path@ == components(bytes@),
        out@ == written(path@),
        again@ == path@,
{
    written_path_reads_back(path@);
}

/// A path read from text is the one read from the bytes of the text.
pub proof fn text_is_read_like_its_bytes(text: &str, path: TreePath)
    requires
        call_ensures(TreePath::new, (text,), path),
    ensures
        path@ == components(encode_utf8(text@)),
{
}

/// What is left of a path after another, appended to the other, gives the path
/// back; something is left exactly when the path starts with the other.
pub proof fn stripping_undoes_appending(
    path: TreePath,
    base: TreePath,
    starts: bool,
    rest: Option<TreePath>,
)
    requires
        call_ensures(TreePath::starts_with, (&path, &base), starts),
        call_ensures(TreePath::strip_prefix, (&path, &base), rest),
    ensures
        starts <==> rest is Some,
        rest matches Some(rest) ==> base@ + rest@ == path@,
        rest is None ==> forall|tail: Components| #[trigger] (base@ + tail) != path@,
{
    if rest is Some {
        assert(base@ + rest->0@ =~= path@);
    } else {
        assert forall|tail: Components| #[trigger] (base@ + tail) != path@ by {
            let whole = base@ + tail;
            assert(whole.subrange(0, base@.len() as int) =~= base@);
        }
    }
}

/// An entry of a directory has the directory for parent and its name for file name,
/// where that is a plain name.
pub proof fn entry_has_its_directory_for_parent(
    dir: TreePath,
    name: Vec<u8>,
    path: TreePath,
    parent: Option<TreePath>,
)
    requires
        call_ensures(TreePath::child, (&dir, &name), path),
        call_ensures(TreePath::parent, (&path,), parent),
        name@ != seq![0x2fu8],
    ensures
        parent matches Some(parent) && parent@ == dir@,
        path@ == dir@ + seq![name@],
{
    parent_undoes_a_step_down(dir@, name@);
    assert(dir@.push(name@) =~= dir@ + seq![name@]);
}

} // verus!
