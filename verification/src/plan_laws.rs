//! Where the wanted links stand.

use vstd::prelude::*;
use vstd::utf8::*;

use crate::config::layout_problem;
use crate::link::LinkView;
use crate::link_laws::links_agree;
use crate::model::{
    is_plain, is_sound, lemma_prefix_is_dir, lemma_prefix_transitive, lemma_prefixes_nest, Fs, Node,
};
use crate::names::{key_of_track, split_is_at_the_last_dot, stem_and_extension};
use crate::path::{
    dot_dot_component, root_component, strictly_under, with_extension, Components, DOT, SLASH,
};
use crate::plan::{format_link, format_links, track_link, track_links};
use crate::scan::{
    best_of, dir_of, distinct_keys, is_best, keys_are_distinct_and_complete,
    lemma_best_of_known_track, track_with_best, tracks_of, SourceFileView, TrackView,
};
use crate::scan_laws::{are_the_managed_files, file_at, is_managed, name_parts};
use crate::text_laws::{
    encoding_of_concatenation, encoding_of_marks, first_slash_stays_first, slashes_stay_slashes,
};

verus! {

/// True of the path of something in a tree, seen from the tree's root.
pub open spec fn is_relative(rel: Components) -> bool {
    &&& rel.len() > 0
    &&& forall|i: int| 0 <= i < rel.len() ==> is_plain(#[trigger] rel[i])
}

/// True of what is known of a managed file.
pub open spec fn is_proper_file(source: Components, file: SourceFileView) -> bool {
    &&& file.path == source + file.rel
    &&& is_relative(file.rel)
    &&& name_parts(file.path) matches Some(parts) && file.ext == parts.1 && file.track
        == key_of_track(dir_of(file.rel), parts.0)
}

/// The managed files of a sound source tree are proper files.
pub proof fn managed_files_are_proper(
    fs: Fs,
    source: Components,
    excluded: Seq<Components>,
    formats: Seq<Seq<char>>,
    p: Components,
)
    requires
        is_sound(fs, source),
        is_managed(fs, source, excluded, formats, p),
    ensures
        is_proper_file(source, file_at(fs, source, p)),
{
    let n = source.len() as int;
    let rel = p.skip(n);
    assert(source =~= p.subrange(0, n));
    assert(p =~= source + rel);
    if rel.len() == 0 {
        assert(p =~= source);
    }
    assert forall|i: int| 0 <= i < rel.len() implies is_plain(#[trigger] rel[i]) by {
        let q = p.take(n + i + 1);
        assert(q.is_prefix_of(p));
        assert(source =~= q.subrange(0, n));
        assert(q.len() > source.len());
        if q != p {
            lemma_prefix_is_dir(fs, source, p, q);
        }
        assert(fs.contains_key(q));
        assert(q.last() == rel[i]);
    }
}

/// A text without separators that is not made of dots is a proper name.
pub(crate) proof fn lemma_plain_text(text: Seq<char>)
    requires
        text.len() > 0,
        !text.contains('/'),
        text != seq!['.'],
        text != seq!['.', '.'],
    ensures
        is_plain(encode_utf8(text)),
{
    let name = encode_utf8(text);
    slashes_stay_slashes(text);
    first_slash_stays_first(text);
    encode_utf8_decode_utf8(text);
    encoding_of_marks();
    encode_utf8_decode_utf8(seq!['.']);
    encode_utf8_decode_utf8(seq!['.', '.']);
    if name == dot_dot_component() {
        encoding_of_concatenation(seq!['.'], seq!['.']);
        assert(seq!['.'] + seq!['.'] =~= seq!['.', '.']);
        assert(seq![DOT] + seq![DOT] =~= dot_dot_component());
    }
    assert(root_component().contains(SLASH)) by {
        assert(root_component()[0] == SLASH);
    }
}

/// What the name of a proper file is made of.
proof fn lemma_name(source: Components, file: SourceFileView)
    requires
        is_proper_file(source, file),
    ensures
        ({
            let stem = name_parts(file.path).unwrap().0;
            let name = file.rel.last();
            &&& name == encode_utf8(stem + "."@ + file.ext)
            &&& is_plain(name)
            &&& is_plain(encode_utf8(file.ext))
            &&& stem.len() > 0
            &&& file.ext.len() > 0
            &&& !file.ext.contains('/')
        }),
{
    let name = file.rel.last();
    assert(file.path.last() == name);
    assert(is_plain(file.rel[file.rel.len() - 1]));
    let chars = decode_utf8(name);
    let stem = name_parts(file.path).unwrap().0;
    let ext = file.ext;
    assert(stem_and_extension(chars) == Some((stem, ext)));
    split_is_at_the_last_dot(chars, stem, ext);
    decode_utf8_encode_utf8(name);
    reveal_strlit(".");
    assert("."@ =~= seq!['.']);
    assert(stem + "."@ + ext =~= chars);
    slashes_stay_slashes(chars);
    if ext.contains('/') {
        let i = choose|i: int| 0 <= i < ext.len() && ext[i] == '/';
        assert(chars[stem.len() + 1 + i] == '/');
    }
    assert(ext.contains(ext[0]));
    lemma_plain_text(ext);
}

/// The link of a file in the per-format trees mirrors the file's relative path
/// below the directory of its format, whose name is proper.
pub proof fn format_link_mirrors_the_source(
    source: Components,
    formats_root: Components,
    file: SourceFileView,
)
    requires
        is_proper_file(source, file),
    ensures
        format_link(formats_root, file).dest == formats_root.push(encode_utf8(file.ext)) + file.rel,
        is_plain(encode_utf8(file.ext)),
{
    lemma_name(source, file);
}

/// The link of a file in the per-format trees stands below their root, whatever
/// the file.
pub proof fn format_link_stays_in_its_tree(formats_root: Components, file: SourceFileView)
    ensures
        strictly_under(format_link(formats_root, file).dest, formats_root),
{
    let dest = format_link(formats_root, file).dest;
    assert(formats_root =~= dest.subrange(0, formats_root.len() as int));
    assert(dest.len() > formats_root.len());
}

/// The link of a track in the best-quality tree stands below its root, whatever
/// the track.
pub proof fn track_link_stays_in_its_tree(max_qual_root: Components, track: TrackView)
    ensures
        strictly_under(track_link(max_qual_root, track).dest, max_qual_root),
{
    let dest = track_link(max_qual_root, track).dest;
    assert(max_qual_root =~= dest.subrange(0, max_qual_root.len() as int));
    assert(dest.len() > max_qual_root.len());
}

/// The link of a track in the best-quality tree mirrors the relative path of its
/// best file.
pub proof fn track_link_mirrors_the_source(
    source: Components,
    max_qual_root: Components,
    best: SourceFileView,
    formats: Seq<Seq<char>>,
)
    requires
        is_proper_file(source, best),
    ensures
        track_link(max_qual_root, track_with_best(best, formats)).dest == max_qual_root + best.rel,
{
    lemma_name(source, best);
    let rel = best.rel;
    let stem = name_parts(best.path).unwrap().0;
    let dir = dir_of(rel);
    let ext = encode_utf8(best.ext);
    assert(root_component().contains(SLASH)) by {
        assert(root_component()[0] == SLASH);
    }
    assert(dir == rel.drop_last());
    reveal_strlit(".");
    assert("."@ =~= seq!['.']);
    encoding_of_concatenation(stem + "."@, best.ext);
    encoding_of_concatenation(stem, "."@);
    encoding_of_marks();
    assert(encode_utf8(stem) + seq![DOT] =~= encode_utf8(stem).push(DOT));
    assert(best.track.drop_last() =~= dir);
    assert(with_extension(best.track, ext) =~= dir.push(rel.last()));
    assert(rel =~= dir.push(rel.last()));
}

/// Every track has a best file.
pub proof fn best_file_exists(
    files: Seq<SourceFileView>,
    formats: Seq<Seq<char>>,
    key: Components,
    j: int,
)
    requires
        0 <= j < files.len(),
        files[j].track == key,
    ensures
        is_best(files, formats, key, best_of(files, formats, key)),
    decreases files.len(),
{
    let before = files.drop_last();
    let n = files.len() - 1;
    assert forall|i: int| 0 <= i < before.len() implies before[i] == files[i] by {}
    if exists|i: int| 0 <= i < before.len() && (#[trigger] before[i]).track == key {
        let i = choose|i: int| 0 <= i < before.len() && (#[trigger] before[i]).track == key;
        best_file_exists(before, formats, key, i);
        lemma_best_of_known_track(files, formats, key, best_of(before, formats, key));
    } else {
        assert forall|i: int| 0 <= i < files.len() && (#[trigger] files[i]).track == key implies i
            == n by {
            if i < n {
                assert(before[i].track == key);
            }
        }
        assert(is_best(files, formats, key, n));
    }
}

/// Each track stands for one key, and its best file is one of the files, of that
/// key, and of the best format among the files of that key.
pub proof fn tracks_hold_the_best_files(files: Seq<SourceFileView>, formats: Seq<Seq<char>>)
    ensures
        tracks_of(files, formats).len() == distinct_keys(files).len(),
        forall|k: int|
            0 <= k < distinct_keys(files).len() ==> {
                let i = best_of(files, formats, #[trigger] distinct_keys(files)[k]);
                &&& is_best(files, formats, distinct_keys(files)[k], i)
                &&& tracks_of(files, formats)[k] == track_with_best(files[i], formats)
            },
{
    keys_are_distinct_and_complete(files);
    let keys = distinct_keys(files);
    assert forall|k: int| 0 <= k < keys.len() implies is_best(
        files,
        formats,
        keys[k],
        best_of(files, formats, #[trigger] keys[k]),
    ) by {
        let j = choose|j: int| 0 <= j < files.len() && (#[trigger] files[j]).track == keys[k];
        best_file_exists(files, formats, keys[k], j);
    }
}

/// All wanted links, those of the per-format trees first.
pub open spec fn all_links(
    formats_root: Components,
    max_qual_root: Components,
    files: Seq<SourceFileView>,
    formats: Seq<Seq<char>>,
) -> Seq<LinkView> {
    format_links(formats_root, files) + track_links(max_qual_root, tracks_of(files, formats))
}

/// No managed file lies in another.
proof fn lemma_files_do_not_nest(
    fs: Fs,
    source: Components,
    excluded: Seq<Components>,
    formats: Seq<Seq<char>>,
    p: Components,
    q: Components,
)
    requires
        is_sound(fs, source),
        is_managed(fs, source, excluded, formats, p),
        is_managed(fs, source, excluded, formats, q),
        p.is_prefix_of(q),
    ensures
        p == q,
{
    if p != q {
        lemma_prefix_is_dir(fs, source, q, p);
    }
}

/// Paths that share a front are nested as what follows it.
proof fn lemma_same_front(front: Components, a: Components, b: Components)
    requires
        (front + a).is_prefix_of(front + b),
    ensures
        a.is_prefix_of(b),
{
    let n = front.len() as int;
    assert(a =~= b.subrange(0, a.len() as int)) by {
        assert forall|i: int| 0 <= i < a.len() implies a[i] == b[i] by {
            assert((front + a)[n + i] == (front + b).subrange(0, (front + a).len() as int)[n + i]);
        }
    }
}

/// Nested relative paths make nested paths.
proof fn lemma_nested_from_source(source: Components, a: Components, b: Components)
    requires
        a.is_prefix_of(b),
    ensures
        (source + a).is_prefix_of(source + b),
{
    assert(source + a =~= (source + b).subrange(0, (source + a).len() as int)) by {
        assert forall|i: int| 0 <= i < a.len() implies a[i] == b[i] by {
            assert(a[i] == b.subrange(0, a.len() as int)[i]);
        }
    }
}

/// The file that a wanted link is for: each file in the per-format trees, then
/// the best file of each track in the best-quality tree.
pub open spec fn stands_for(files: Seq<SourceFileView>, formats: Seq<Seq<char>>, n: int) -> int {
    if n < files.len() {
        n
    } else {
        best_of(files, formats, distinct_keys(files)[n - files.len()])
    }
}

/// What a wanted link links to: a managed file, outside the output trees.
proof fn lemma_link_source(
    fs: Fs,
    source: Components,
    formats_root: Components,
    max_qual_root: Components,
    formats: Seq<Seq<char>>,
    files: Seq<SourceFileView>,
    n: int,
)
    requires
        are_the_managed_files(
            fs,
            source,
            seq![formats_root, max_qual_root],
            formats,
            files,
        ),
        0 <= n < all_links(formats_root, max_qual_root, files, formats).len(),
    ensures
        ({
            let link = all_links(formats_root, max_qual_root, files, formats)[n];
            let i = stands_for(files, formats, n);
            &&& 0 <= i < files.len()
            &&& is_managed(
                fs,
                source,
                seq![formats_root, max_qual_root],
                formats,
                files[i].path,
            )
            &&& link.src == files[i].path
            &&& link.ino == files[i].ino
            &&& fs.contains_key(link.src)
            &&& fs[link.src] == Node::File(link.ino)
            &&& !formats_root.is_prefix_of(link.src)
            &&& !max_qual_root.is_prefix_of(link.src)
        }),
{
    let excluded = seq![formats_root, max_qual_root];
    let i = stands_for(files, formats, n);
    tracks_hold_the_best_files(files, formats);
    if n >= files.len() {
        assert(is_best(files, formats, distinct_keys(files)[n - files.len()], i));
    }
    assert(is_managed(fs, source, excluded, formats, files[i].path));
    assert(excluded[0] == formats_root && excluded[1] == max_qual_root);
}

/// What is known of one wanted link.
pub(crate) proof fn lemma_wanted_link(
    fs: Fs,
    source: Components,
    formats_root: Components,
    max_qual_root: Components,
    formats: Seq<Seq<char>>,
    files: Seq<SourceFileView>,
    n: int,
)
    requires
        is_sound(fs, source),
        are_the_managed_files(
            fs,
            source,
            seq![formats_root, max_qual_root],
            formats,
            files,
        ),
        0 <= n < all_links(formats_root, max_qual_root, files, formats).len(),
    ensures
        ({
            let link = all_links(formats_root, max_qual_root, files, formats)[n];
            let i = stands_for(files, formats, n);
            &&& 0 <= i < files.len()
            &&& is_proper_file(source, files[i])
            &&& is_managed(
                fs,
                source,
                seq![formats_root, max_qual_root],
                formats,
                files[i].path,
            )
            &&& link.src == files[i].path
            &&& link.ino == files[i].ino
            &&& fs.contains_key(link.src)
            &&& fs[link.src] == Node::File(link.ino)
            &&& !formats_root.is_prefix_of(link.src)
            &&& !max_qual_root.is_prefix_of(link.src)
            &&& is_plain(link.dest.last())
            &&& n < files.len() ==> link.dest == formats_root.push(encode_utf8(files[i].ext))
                + files[i].rel && strictly_under(link.dest, formats_root)
            &&& n >= files.len() ==> link.dest == max_qual_root + files[i].rel && strictly_under(
                link.dest,
                max_qual_root,
            )
        }),
{
    let excluded = seq![formats_root, max_qual_root];
    let i = stands_for(files, formats, n);
    let file = files[i];
    lemma_link_source(fs, source, formats_root, max_qual_root, formats, files, n);
    managed_files_are_proper(fs, source, excluded, formats, file.path);
    if n < files.len() {
        format_link_mirrors_the_source(source, formats_root, file);
        format_link_stays_in_its_tree(formats_root, file);
    } else {
        track_link_mirrors_the_source(source, max_qual_root, file, formats);
        track_link_stays_in_its_tree(max_qual_root, track_with_best(file, formats));
        assert(is_best(files, formats, distinct_keys(files)[n - files.len()], i)) by {
            tracks_hold_the_best_files(files, formats);
        }
    }
    assert(is_plain(file.rel[file.rel.len() - 1]));
}

/// Two links in the per-format trees.
proof fn lemma_format_links_do_not_nest(
    fs: Fs,
    source: Components,
    formats_root: Components,
    excluded: Seq<Components>,
    formats: Seq<Seq<char>>,
    f: SourceFileView,
    g: SourceFileView,
)
    requires
        is_sound(fs, source),
        is_managed(fs, source, excluded, formats, f.path),
        is_managed(fs, source, excluded, formats, g.path),
        is_proper_file(source, f),
        is_proper_file(source, g),
        (formats_root.push(encode_utf8(f.ext)) + f.rel).is_prefix_of(
            formats_root.push(encode_utf8(g.ext)) + g.rel,
        ),
    ensures
        f.path == g.path,
{
    let e = seq![encode_utf8(f.ext)];
    let d = seq![encode_utf8(g.ext)];
    assert(formats_root.push(e[0]) + f.rel =~= formats_root + (e + f.rel));
    assert(formats_root.push(d[0]) + g.rel =~= formats_root + (d + g.rel));
    lemma_same_front(formats_root, e + f.rel, d + g.rel);
    assert((e + f.rel)[0] == (d + g.rel).subrange(0, (e + f.rel).len() as int)[0]);
    assert(e =~= d);
    lemma_same_front(e, f.rel, g.rel);
    lemma_nested_from_source(source, f.rel, g.rel);
    lemma_files_do_not_nest(fs, source, excluded, formats, f.path, g.path);
}

/// Two links in the best-quality tree.
proof fn lemma_track_links_do_not_nest(
    fs: Fs,
    source: Components,
    max_qual_root: Components,
    excluded: Seq<Components>,
    formats: Seq<Seq<char>>,
    f: SourceFileView,
    g: SourceFileView,
)
    requires
        is_sound(fs, source),
        is_managed(fs, source, excluded, formats, f.path),
        is_managed(fs, source, excluded, formats, g.path),
        is_proper_file(source, f),
        is_proper_file(source, g),
        (max_qual_root + f.rel).is_prefix_of(max_qual_root + g.rel),
    ensures
        f.path == g.path,
{
    lemma_same_front(max_qual_root, f.rel, g.rel);
    lemma_nested_from_source(source, f.rel, g.rel);
    lemma_files_do_not_nest(fs, source, excluded, formats, f.path, g.path);
}

/// Links in trees that do not overlap.
proof fn lemma_trees_do_not_overlap(
    root: Components,
    other: Components,
    a: Components,
    b: Components,
)
    requires
        root != other,
        !strictly_under(root, other),
        !strictly_under(other, root),
        root.is_prefix_of(a),
        other.is_prefix_of(b),
    ensures
        !a.is_prefix_of(b),
{
    if a.is_prefix_of(b) {
        lemma_prefix_transitive(root, a, b);
        if root.len() <= other.len() {
            lemma_prefixes_nest(root, other, b);
        } else {
            lemma_prefixes_nest(other, root, b);
        }
    }
}

/// Tracks at different positions have different best files.
proof fn lemma_best_files_differ(
    files: Seq<SourceFileView>,
    formats: Seq<Seq<char>>,
    a: int,
    b: int,
)
    requires
        0 <= a < distinct_keys(files).len(),
        0 <= b < distinct_keys(files).len(),
        a != b,
    ensures
        best_of(files, formats, distinct_keys(files)[a]) != best_of(
            files,
            formats,
            distinct_keys(files)[b],
        ),
{
    keys_are_distinct_and_complete(files);
    tracks_hold_the_best_files(files, formats);
    let keys = distinct_keys(files);
    assert(is_best(files, formats, keys[a], best_of(files, formats, keys[a])));
    assert(is_best(files, formats, keys[b], best_of(files, formats, keys[b])));
}

/// Two wanted links.
proof fn lemma_two_links(
    fs: Fs,
    source: Components,
    formats_root: Components,
    max_qual_root: Components,
    formats: Seq<Seq<char>>,
    files: Seq<SourceFileView>,
    a: int,
    b: int,
)
    requires
        is_sound(fs, source),
        layout_problem(source, formats_root, max_qual_root) is None,
        are_the_managed_files(
            fs,
            source,
            seq![formats_root, max_qual_root],
            formats,
            files,
        ),
        0 <= a < all_links(formats_root, max_qual_root, files, formats).len(),
        0 <= b < all_links(formats_root, max_qual_root, files, formats).len(),
        a != b,
    ensures
        !all_links(formats_root, max_qual_root, files, formats)[a].dest.is_prefix_of(
            all_links(formats_root, max_qual_root, files, formats)[b].dest,
        ),
{
    let excluded = seq![formats_root, max_qual_root];
    let links = all_links(formats_root, max_qual_root, files, formats);
    let count = files.len() as int;
    lemma_wanted_link(fs, source, formats_root, max_qual_root, formats, files, a);
    lemma_wanted_link(fs, source, formats_root, max_qual_root, formats, files, b);
    let i = stands_for(files, formats, a);
    let j = stands_for(files, formats, b);
    let f = files[i];
    let g = files[j];
    if a < count && b >= count {
        lemma_trees_do_not_overlap(formats_root, max_qual_root, links[a].dest, links[b].dest);
    } else if a >= count && b < count {
        lemma_trees_do_not_overlap(max_qual_root, formats_root, links[a].dest, links[b].dest);
    } else if links[a].dest.is_prefix_of(links[b].dest) {
        if a < count {
            lemma_format_links_do_not_nest(fs, source, formats_root, excluded, formats, f, g);
        } else {
            lemma_track_links_do_not_nest(fs, source, max_qual_root, excluded, formats, f, g);
            lemma_best_files_differ(files, formats, a - count, b - count);
        }
        assert(files[i].path == files[j].path);
        assert(i == j);
    }
}

/// The wanted links do not get in each other's way: no two stand at the same
/// place, none stands below another, and none stands at a source file.
pub proof fn wanted_links_agree(
    fs: Fs,
    source: Components,
    formats_root: Components,
    max_qual_root: Components,
    formats: Seq<Seq<char>>,
    files: Seq<SourceFileView>,
)
    requires
        is_sound(fs, source),
        layout_problem(source, formats_root, max_qual_root) is None,
        are_the_managed_files(
            fs,
            source,
            seq![formats_root, max_qual_root],
            formats,
            files,
        ),
    ensures
        links_agree(all_links(formats_root, max_qual_root, files, formats)),
{
    let links = all_links(formats_root, max_qual_root, files, formats);
    assert forall|a: int, b: int| 0 <= a < links.len() && 0 <= b < links.len() && a != b implies !(
    #[trigger] links[a]).dest.is_prefix_of((#[trigger] links[b]).dest) by {
        lemma_two_links(fs, source, formats_root, max_qual_root, formats, files, a, b);
    }
    assert forall|a: int, b: int|
        0 <= a < links.len() && 0 <= b < links.len() implies (#[trigger] links[a]).dest != (
    #[trigger] links[b]).src by {
        lemma_wanted_link(fs, source, formats_root, max_qual_root, formats, files, a);
        lemma_wanted_link(fs, source, formats_root, max_qual_root, formats, files, b);
    }
}

} // verus!
