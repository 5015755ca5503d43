//! What becomes of each thing that a scan comes across, whatever the disk
//! answers.

use vstd::prelude::*;
use vstd::utf8::*;

use crate::link::InodeRef;
use crate::names::{split_is_at_the_last_dot, stem_and_extension};
use crate::path::{
    dot_component, dot_dot_component, root_component, shown_path, with_extension, Components, DOT,
};
use crate::scan::{
    candidates_among, files_among, found_in, judged, judged_all, lines_among, regular_count,
    settled, tracks_of, CandidateView, JudgedView, OutcomeView, ProcessedView, SourceFileView,
};
use crate::text_laws::{encoding_of_concatenation, encoding_of_marks};
use crate::walk::{
    advanced, dirs_among, is_excluded, seen_in, seen_in_all, started, EntryView, Kind, ListedView,
    ListingView, SeenView, WalkView,
};

verus! {

/// A directory that cannot be read is reported in one line and nothing else. An
/// empty one gives no report.
pub proof fn unreadable_directory_is_reported(
    dir: Components,
    cause: Seq<char>,
    excluded: Seq<Components>,
)
    ensures
        seen_in(dir, Err(cause), excluded) == seq![
            Err::<EntryView, Seq<char>>("read directory "@ + shown_path(dir) + ": "@ + cause),
        ],
        seen_in(dir, Ok(seq![]), excluded) == Seq::<SeenView>::empty(),
{
}

/// Each further item of a directory is reported behind the others: with its path
/// and type, or in a line where one of them is unknown. Only items of excluded
/// trees are left out.
pub proof fn each_item_is_reported_in_turn(
    dir: Components,
    items: Seq<Result<ListedView, Seq<char>>>,
    name: Seq<u8>,
    kind: Kind,
    cause: Seq<char>,
    excluded: Seq<Components>,
)
    ensures
        ({
            let before = seen_in(dir, Ok(items), excluded);
            let path = dir.push(name);
            let hidden = exists|i: int|
                0 <= i < excluded.len() && (#[trigger] excluded[i]).is_prefix_of(path);
            let told = Ok::<ListedView, Seq<char>>(ListedView { name, kind: Ok(kind) });
            let untold = Ok::<ListedView, Seq<char>>(ListedView { name, kind: Err(cause) });
            let unread = Err::<ListedView, Seq<char>>(cause);
            &&& hidden ==> seen_in(dir, Ok(items.push(told)), excluded) == before
            &&& hidden ==> seen_in(dir, Ok(items.push(untold)), excluded) == before
            &&& !hidden ==> seen_in(dir, Ok(items.push(told)), excluded) == before.push(
                Ok(EntryView { path, kind }),
            )
            &&& !hidden ==> seen_in(dir, Ok(items.push(untold)), excluded) == before.push(
                Err("stat "@ + shown_path(path) + ": "@ + cause),
            )
            &&& seen_in(dir, Ok(items.push(unread)), excluded) == before.push(
                Err("read directory entry in "@ + shown_path(dir) + ": "@ + cause),
            )
        }),
{
    let told = Ok::<ListedView, Seq<char>>(ListedView { name, kind: Ok(kind) });
    let untold = Ok::<ListedView, Seq<char>>(ListedView { name, kind: Err(cause) });
    let unread = Err::<ListedView, Seq<char>>(cause);
    assert(items.push(told).drop_last() =~= items);
    assert(items.push(untold).drop_last() =~= items);
    assert(items.push(unread).drop_last() =~= items);
}

/// A walk starts at its root alone, and nowhere where the root is excluded.
pub proof fn walk_starts_at_its_root(root: Components, excluded: Seq<Components>)
    ensures
        ({
            let walk = started(root, excluded);
            let hidden = exists|i: int|
                0 <= i < excluded.len() && (#[trigger] excluded[i]).is_prefix_of(root);
            &&& walk.root == root && walk.excluded == excluded
            &&& hidden ==> walk.seen.len() == 0 && walk.level.len() == 0
            &&& !hidden ==> walk.level == seq![root] && walk.seen == seq![
                Ok::<EntryView, Seq<char>>(EntryView { path: root, kind: Kind::Dir }),
            ]
        }),
{
}

/// A walk keeps what it has reported and adds what the directories of its level
/// give, directory by directory.
pub proof fn walk_adds_what_each_directory_gives(
    walk: WalkView,
    dirs: Seq<Components>,
    listings: Seq<ListingView>,
    dir: Components,
    listing: ListingView,
)
    requires
        dirs.len() == listings.len(),
    ensures
        seen_in_all(seq![], seq![], walk.excluded) == Seq::<SeenView>::empty(),
        seen_in_all(dirs.push(dir), listings.push(listing), walk.excluded) == seen_in_all(
            dirs,
            listings,
            walk.excluded,
        ) + seen_in(dir, listing, walk.excluded),
        advanced(walk, listings).seen == walk.seen + seen_in_all(
            walk.level,
            listings,
            walk.excluded,
        ),
        advanced(walk, listings).root == walk.root,
        advanced(walk, listings).excluded == walk.excluded,
{
    assert(dirs.push(dir).drop_last() =~= dirs);
    assert(listings.push(listing).drop_last() =~= listings);
}

/// A walk goes on into the directories that it just came across, in their order,
/// and into nothing else: neither files nor what could not be read.
pub proof fn walk_goes_on_into_directories_only(
    walk: WalkView,
    listings: Seq<ListingView>,
    seen: Seq<SeenView>,
    last: SeenView,
)
    ensures
        advanced(walk, listings).level == dirs_among(
            seen_in_all(walk.level, listings, walk.excluded),
        ),
        dirs_among(seq![]) == Seq::<Components>::empty(),
        (last matches Ok(entry) && entry.kind == Kind::Dir) ==> dirs_among(seen.push(last))
            == dirs_among(seen).push(last->Ok_0.path),
        !(last matches Ok(entry) && entry.kind == Kind::Dir) ==> dirs_among(seen.push(last))
            == dirs_among(seen),
{
    assert(seen.push(last).drop_last() =~= seen);
}

/// An entry that is no regular file, or lies in an excluded tree, is passed over;
/// a problem stays the problem that it is.
pub proof fn only_regular_files_matter(
    path: Components,
    kind: Kind,
    line: Seq<char>,
    source: Components,
    excluded: Seq<Components>,
    formats: Seq<Seq<char>>,
)
    ensures
        judged(Err(line), source, excluded, formats) == JudgedView::Problem(line),
        judged(Ok(EntryView { path, kind }), source, excluded, formats) == JudgedView::Settled(
            OutcomeView::Ignored,
        ) <==> kind != Kind::File || exists|i: int|
            0 <= i < excluded.len() && (#[trigger] excluded[i]).is_prefix_of(path),
{
}

/// A regular file outside the excluded trees whose name is no text is reported as
/// such, and only such a file is.
pub proof fn file_without_a_text_name_is_reported(
    dir: Components,
    name: Seq<u8>,
    source: Components,
    excluded: Seq<Components>,
    formats: Seq<Seq<char>>,
)
    requires
        name != seq![0x2fu8],
        name != seq![0x2eu8],
        name != seq![0x2eu8, 0x2eu8],
        !is_excluded(dir.push(name), excluded),
    ensures
        judged(
            Ok(EntryView { path: dir.push(name), kind: Kind::File }),
            source,
            excluded,
            formats,
        ) == JudgedView::Settled(
            OutcomeView::Unusable("internal: non-UTF-8 file name in source tree"@),
        ) <==> !valid_utf8(name),
{
    assert(root_component() =~= seq![0x2fu8]);
    assert(dot_component() =~= seq![0x2eu8]);
    assert(dot_dot_component() =~= seq![0x2eu8, 0x2eu8]);
    let path = dir.push(name);
    assert(path.last() == name);
}

/// A regular file below the source directory and outside the excluded trees, named
/// by a stem, a dot and an extension, is managed exactly when the extension is
/// among the formats; otherwise it is only counted.
pub proof fn file_with_a_format_is_managed(
    source: Components,
    dir: Components,
    stem: Seq<char>,
    ext: Seq<char>,
    excluded: Seq<Components>,
    formats: Seq<Seq<char>>,
)
    requires
        stem.len() > 0,
        ext.len() > 0,
        !ext.contains('.'),
        !is_excluded(source + dir.push(encode_utf8(stem.push('.') + ext)), excluded),
    ensures
        ({
            let rel = dir.push(encode_utf8(stem.push('.') + ext));
            let found = judged(
                Ok(EntryView { path: source + rel, kind: Kind::File }),
                source,
                excluded,
                formats,
            );
            &&& formats.contains(ext) ==> {
                &&& found matches JudgedView::Managed(candidate)
                &&& candidate.path == source + rel
                &&& candidate.rel == rel
                &&& candidate.ext == ext
                &&& candidate.track == dir.push(encode_utf8(stem))
                &&& with_extension(candidate.track, encode_utf8(ext)) == rel
            }
            &&& !formats.contains(ext) ==> found == JudgedView::Settled(OutcomeView::Other)
        }),
{
    let text = stem.push('.') + ext;
    let name = encode_utf8(text);
    let rel = dir.push(name);
    let path = source + rel;
    assert(root_component() =~= seq![0x2fu8]);
    lemma_named_parts(stem, ext);
    assert(path.last() == name);
    encode_utf8_valid_utf8(text);
    encode_utf8_decode_utf8(text);
    split_is_at_the_last_dot(text, stem, ext);
    assert(source.is_prefix_of(path)) by {
        assert(path.subrange(0, source.len() as int) =~= source);
    }
    assert(path.skip(source.len() as int) =~= rel);
    assert(rel.drop_last() =~= dir);
    assert(rel.last() == name);
    let key = dir.push(encode_utf8(stem));
    assert(key.drop_last() =~= dir);
    assert(with_extension(key, encode_utf8(ext)) =~= rel);
}

/// A file with a managed extension that does not lie under the source directory is
/// no file of the library; one with another extension is only counted, wherever it
/// lies.
pub proof fn file_outside_the_source_strays(
    source: Components,
    dir: Components,
    stem: Seq<char>,
    ext: Seq<char>,
    excluded: Seq<Components>,
    formats: Seq<Seq<char>>,
)
    requires
        stem.len() > 0,
        ext.len() > 0,
        !ext.contains('.'),
        !is_excluded(dir.push(encode_utf8(stem.push('.') + ext)), excluded),
    ensures
        ({
            let path = dir.push(encode_utf8(stem.push('.') + ext));
            let found = judged(
                Ok(EntryView { path, kind: Kind::File }),
                source,
                excluded,
                formats,
            );
            &&& formats.contains(ext) ==> (found == JudgedView::Stray(path) <==> !source.is_prefix_of(
                path,
            ))
            &&& !formats.contains(ext) ==> found == JudgedView::Settled(OutcomeView::Other)
        }),
{
    let text = stem.push('.') + ext;
    let name = encode_utf8(text);
    lemma_named_parts(stem, ext);
    assert(dir.push(name).last() == name);
    encode_utf8_valid_utf8(text);
    encode_utf8_decode_utf8(text);
    split_is_at_the_last_dot(text, stem, ext);
}

/// A regular file that has no name of its own is reported like one whose name is no
/// text.
pub proof fn file_without_a_name_is_reported(
    path: Components,
    source: Components,
    excluded: Seq<Components>,
    formats: Seq<Seq<char>>,
)
    requires
        path.len() == 0 || path.last() == seq![0x2fu8] || path.last() == seq![0x2eu8]
            || path.last() == seq![0x2eu8, 0x2eu8],
        !is_excluded(path, excluded),
    ensures
        judged(Ok(EntryView { path, kind: Kind::File }), source, excluded, formats)
            == JudgedView::Settled(
            OutcomeView::Unusable("internal: non-UTF-8 file name in source tree"@),
        ),
{
    assert(root_component() =~= seq![0x2fu8]);
    assert(dot_component() =~= seq![0x2eu8]);
    assert(dot_dot_component() =~= seq![0x2eu8, 0x2eu8]);
}

/// How a name of a stem, a dot and an extension is encoded; such a name is
/// neither `/` nor `.` nor `..`.
proof fn lemma_named_parts(stem: Seq<char>, ext: Seq<char>)
    requires
        stem.len() > 0,
        ext.len() > 0,
        !ext.contains('.'),
    ensures
        ({
            let name = encode_utf8(stem.push('.') + ext);
            &&& name == encode_utf8(stem).push(DOT) + encode_utf8(ext)
            &&& name != root_component()
            &&& name != dot_component()
            &&& name != dot_dot_component()
        }),
{
    let text = stem.push('.') + ext;
    let name = encode_utf8(text);
    encoding_of_concatenation(stem.push('.'), ext);
    encoding_of_concatenation(stem, seq!['.']);
    encoding_of_marks();
    assert(stem.push('.') =~= stem + seq!['.']);
    assert(encode_utf8(stem) + seq![DOT] =~= encode_utf8(stem).push(DOT));
    assert(name[encode_utf8(stem).len() as int] == DOT);
    assert(root_component().len() == 1 && root_component()[0] != DOT);
    if name == dot_component() || name == dot_dot_component() {
        let dots: Seq<char> = if name == dot_component() {
            seq!['.']
        } else {
            seq!['.', '.']
        };
        encoding_of_concatenation(seq!['.'], seq!['.']);
        assert(seq!['.'] + seq!['.'] =~= seq!['.', '.']);
        assert(seq![DOT] + seq![DOT] =~= dot_dot_component());
        assert(encode_utf8(dots) == name);
        encode_utf8_decode_utf8(text);
        encode_utf8_decode_utf8(dots);
        assert(text == dots);
        assert(text.last() == ext.last());
        assert(ext.contains(ext.last()));
    }
}

/// A regular file outside the excluded trees whose name cannot be taken apart at a
/// dot is only counted.
pub proof fn file_without_an_extension_is_only_counted(
    dir: Components,
    text: Seq<char>,
    source: Components,
    excluded: Seq<Components>,
    formats: Seq<Seq<char>>,
)
    requires
        forall|stem: Seq<char>, ext: Seq<char>|
            text == #[trigger] (stem.push('.') + ext) && !ext.contains('.') ==> stem.len() == 0
                || ext.len() == 0,
        encode_utf8(text) != seq![0x2fu8],
        encode_utf8(text) != seq![0x2eu8],
        encode_utf8(text) != seq![0x2eu8, 0x2eu8],
        !is_excluded(dir.push(encode_utf8(text)), excluded),
    ensures
        judged(
            Ok(EntryView { path: dir.push(encode_utf8(text)), kind: Kind::File }),
            source,
            excluded,
            formats,
        ) == JudgedView::Settled(OutcomeView::Other),
{
    let name = encode_utf8(text);
    assert(root_component() =~= seq![0x2fu8]);
    assert(dot_component() =~= seq![0x2eu8]);
    assert(dot_dot_component() =~= seq![0x2eu8, 0x2eu8]);
    assert(dir.push(name).last() == name);
    encode_utf8_valid_utf8(text);
    encode_utf8_decode_utf8(text);
    if stem_and_extension(text) is Some {
        let (stem, ext) = stem_and_extension(text)->0;
        split_is_at_the_last_dot(text, stem, ext);
        assert(text == stem.push('.') + ext);
    }
}

/// Entries are judged one by one, each by itself, in their order.
pub proof fn entries_are_judged_one_by_one(
    seen: Seq<SeenView>,
    last: SeenView,
    source: Components,
    excluded: Seq<Components>,
    formats: Seq<Seq<char>>,
)
    ensures
        judged_all(seq![], source, excluded, formats) == Seq::<JudgedView>::empty(),
        judged_all(seen.push(last), source, excluded, formats) == judged_all(
            seen,
            source,
            excluded,
            formats,
        ).push(judged(last, source, excluded, formats)),
{
    assert(judged_all(seq![], source, excluded, formats) =~= Seq::<JudgedView>::empty());
    assert(judged_all(seen.push(last), source, excluded, formats) =~= judged_all(
        seen,
        source,
        excluded,
        formats,
    ).push(judged(last, source, excluded, formats)));
}

/// Exactly the managed files are looked at, in their order, each under its path.
pub proof fn managed_files_are_looked_at(before: Seq<JudgedView>, last: JudgedView)
    ensures
        candidates_among(seq![]) == Seq::<Components>::empty(),
        last matches JudgedView::Managed(candidate) ==> candidates_among(before.push(last))
            == candidates_among(before).push(candidate.path),
        !(last is Managed) ==> candidates_among(before.push(last)) == candidates_among(before),
{
    assert(before.push(last).drop_last() =~= before);
}

/// A managed file is taken with the identity that looking at it told; one that
/// could not be looked at is reported, with the cause. What was settled before
/// stays as it is.
pub proof fn managed_file_gets_its_identity(
    before: Seq<JudgedView>,
    inos: Seq<Result<InodeRef, Seq<char>>>,
    candidate: CandidateView,
    ino: InodeRef,
    cause: Seq<char>,
    outcome: OutcomeView,
    line: Seq<char>,
    path: Components,
)
    ensures
        settled(before.push(JudgedView::Managed(candidate)), inos.push(Ok(ino))) == settled(
            before,
            inos,
        ).push(
            Ok(
                OutcomeView::File(
                    SourceFileView {
                        path: candidate.path,
                        rel: candidate.rel,
                        ext: candidate.ext,
                        track: candidate.track,
                        ino,
                    },
                ),
            ),
        ),
        settled(before.push(JudgedView::Managed(candidate)), inos.push(Err(cause))) == settled(
            before,
            inos,
        ).push(
            Ok(
                OutcomeView::Unusable(
                    "stat source file "@ + shown_path(candidate.path) + ": "@ + cause,
                ),
            ),
        ),
        settled(before.push(JudgedView::Settled(outcome)), inos) == settled(before, inos).push(
            Ok(outcome),
        ),
        settled(before.push(JudgedView::Problem(line)), inos) == settled(before, inos).push(
            Err(line),
        ),
        settled(before.push(JudgedView::Stray(path)), inos) == settled(before, inos),
        settled(seq![], inos) == Seq::<ProcessedView>::empty(),
{
    assert(before.push(JudgedView::Managed(candidate)).drop_last() =~= before);
    assert(before.push(JudgedView::Settled(outcome)).drop_last() =~= before);
    assert(before.push(JudgedView::Problem(line)).drop_last() =~= before);
    assert(before.push(JudgedView::Stray(path)).drop_last() =~= before);
    assert(inos.push(Ok(ino)).drop_last() =~= inos);
    assert(inos.push(Err(cause)).drop_last() =~= inos);
}

/// One more entry adds to what is found just what it is: a managed file is a
/// regular file and is listed, an unusable one is a regular file and is reported,
/// another regular file is counted, a problem is reported, and what is ignored
/// changes nothing.
pub proof fn one_more_entry_adds_what_it_is(
    before: Seq<ProcessedView>,
    file: SourceFileView,
    line: Seq<char>,
)
    ensures
        ({
            let none = Seq::<ProcessedView>::empty();
            let with_file = before.push(Ok(OutcomeView::File(file)));
            let with_unusable = before.push(Ok(OutcomeView::Unusable(line)));
            let with_other = before.push(Ok(OutcomeView::Other));
            let with_ignored = before.push(Ok(OutcomeView::Ignored));
            let with_problem = before.push(Err(line));
            &&& regular_count(none) == 0 && files_among(none).len() == 0 && lines_among(none).len()
                == 0
            &&& regular_count(with_file) == regular_count(before) + 1
            &&& files_among(with_file) == files_among(before).push(file)
            &&& lines_among(with_file) == lines_among(before)
            &&& regular_count(with_unusable) == regular_count(before) + 1
            &&& files_among(with_unusable) == files_among(before)
            &&& lines_among(with_unusable) == lines_among(before).push(line)
            &&& regular_count(with_other) == regular_count(before) + 1
            &&& files_among(with_other) == files_among(before)
            &&& lines_among(with_other) == lines_among(before)
            &&& regular_count(with_ignored) == regular_count(before)
            &&& files_among(with_ignored) == files_among(before)
            &&& lines_among(with_ignored) == lines_among(before)
            &&& regular_count(with_problem) == regular_count(before)
            &&& files_among(with_problem) == files_among(before)
            &&& lines_among(with_problem) == lines_among(before).push(line)
        }),
{
    assert(before.push(Ok(OutcomeView::File(file))).drop_last() =~= before);
    assert(before.push(Ok(OutcomeView::Unusable(line))).drop_last() =~= before);
    assert(before.push(Ok(OutcomeView::Other)).drop_last() =~= before);
    assert(before.push(Ok(OutcomeView::Ignored)).drop_last() =~= before);
    assert(before.push(Err(line)).drop_last() =~= before);
}

/// What a scan found is what its entries add up to: the regular files, the managed
/// ones, their tracks, and the problems.
pub proof fn scan_adds_up_its_entries(processed: Seq<ProcessedView>, formats: Seq<Seq<char>>)
    ensures
        found_in(processed, formats).regular_files == regular_count(processed),
        found_in(processed, formats).files == files_among(processed),
        found_in(processed, formats).tracks == tracks_of(files_among(processed), formats),
        found_in(processed, formats).errors == lines_among(processed),
{
}

} // verus!
