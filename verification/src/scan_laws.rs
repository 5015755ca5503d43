//! Which files the scan of a source tree finds.

use vstd::prelude::*;
use vstd::utf8::*;

use crate::link::InodeRef;
use crate::model::{kind_of, Fs};
use crate::names::{key_of_track, stem_and_extension};
use crate::path::{file_name_of, Components};
use crate::scan::{
    candidates_among, dir_of, files_among, found_in, judged, judged_all, lines_among, outcome_of,
    regular_count, settled, tracks_of, FoundView, JudgedView, OutcomeView, SourceFileView,
};
use crate::walk::{is_excluded, is_in_reach, SeenView, WalkView};
use crate::walk_laws::{has_seen, true_reports, walk_is_faithful, walk_sees_everything_once};

verus! {

/// The stem and the extension in the file name of a path, where it is text and
/// has both.
pub open spec fn name_parts(p: Components) -> Option<(Seq<char>, Seq<char>)> {
    match file_name_of(p) {
        Some(name) => if valid_utf8(name) {
            stem_and_extension(decode_utf8(name))
        } else {
            None
        },
        None => None,
    }
}

/// True of a regular file in the source tree, outside the excluded trees, whose
/// extension is a managed format.
pub open spec fn is_managed(
    fs: Fs,
    source: Components,
    excluded: Seq<Components>,
    formats: Seq<Seq<char>>,
    p: Components,
) -> bool {
    &&& fs.contains_key(p)
    &&& fs[p] is File
    &&& source.is_prefix_of(p)
    &&& !is_excluded(p, excluded)
    &&& name_parts(p) matches Some(parts) && formats.contains(parts.1)
}

/// What is to be known of a managed file.
pub open spec fn file_at(fs: Fs, source: Components, p: Components) -> SourceFileView {
    let rel = p.skip(source.len() as int);
    SourceFileView {
        path: p,
        rel,
        ext: name_parts(p).unwrap().1,
        track: key_of_track(dir_of(rel), name_parts(p).unwrap().0),
        ino: fs[p]->File_0,
    }
}

/// True when looking at files told their identities.
pub open spec fn inos_are_true(
    fs: Fs,
    files: Seq<Components>,
    inos: Seq<Result<InodeRef, Seq<char>>>,
) -> bool {
    &&& inos.len() == files.len()
    &&& forall|k: int|
        0 <= k < files.len() ==> {
            &&& fs.contains_key(#[trigger] files[k])
            &&& fs[files[k]] is File
            &&& inos[k] == Ok::<InodeRef, Seq<char>>(fs[files[k]]->File_0)
        }
}

/// True when `p` is among the files.
pub open spec fn has_file(files: Seq<SourceFileView>, p: Components) -> bool {
    exists|i: int| 0 <= i < files.len() && (#[trigger] files[i]).path == p
}

/// True when `files` are the managed files, each once, with what is to be known
/// of them.
pub open spec fn are_the_managed_files(
    fs: Fs,
    source: Components,
    excluded: Seq<Components>,
    formats: Seq<Seq<char>>,
    files: Seq<SourceFileView>,
) -> bool {
    &&& forall|i: int|
        0 <= i < files.len() ==> {
            &&& is_managed(fs, source, excluded, formats, (#[trigger] files[i]).path)
            &&& files[i] == file_at(fs, source, files[i].path)
        }
    &&& forall|i: int, j: int|
        0 <= i < j < files.len() ==> (#[trigger] files[i]).path != (#[trigger] files[j]).path
    &&& forall|p: Components| #[trigger]
        is_managed(fs, source, excluded, formats, p) ==> has_file(files, p)
}

/// The regular files in the source tree, outside the excluded trees.
pub open spec fn regular_files_in(
    fs: Fs,
    source: Components,
    excluded: Seq<Components>,
) -> Set<Components> {
    Set::new(
        |p: Components|
            fs.contains_key(p) && fs[p] is File && source.is_prefix_of(p) && !is_excluded(
                p,
                excluded,
            ),
    )
}

/// True when the file name of a path is text.
pub open spec fn is_named(p: Components) -> bool {
    file_name_of(p) matches Some(name) && valid_utf8(name)
}

/// The regular files in the source tree, outside the excluded trees, whose names
/// are no text.
pub open spec fn unnamed_files_in(
    fs: Fs,
    source: Components,
    excluded: Seq<Components>,
) -> Set<Components> {
    Set::new(
        |p: Components|
            regular_files_in(fs, source, excluded).contains(p) && !is_named(p),
    )
}

/// A line for each of `count` files whose names are no text.
pub open spec fn unnamed_lines(count: nat) -> Seq<Seq<char>> {
    Seq::new(count, |i: int| "internal: non-UTF-8 file name in source tree"@)
}

/// True when a scan found the managed files and their tracks, counted every
/// regular file, and reported those whose names are no text.
pub open spec fn is_true_find(
    fs: Fs,
    source: Components,
    excluded: Seq<Components>,
    formats: Seq<Seq<char>>,
    found: FoundView,
) -> bool {
    &&& are_the_managed_files(fs, source, excluded, formats, found.files)
    &&& found.tracks == tracks_of(found.files, formats)
    &&& regular_files_in(fs, source, excluded).finite()
    &&& found.regular_files == regular_files_in(fs, source, excluded).len()
    &&& found.errors == unnamed_lines(unnamed_files_in(fs, source, excluded).len())
}

/// The reported paths that satisfy `what`, as a set.
spec fn reported(seen: Seq<SeenView>, what: Set<Components>) -> Set<Components> {
    Set::new(|p: Components| has_seen(seen, p) && what.contains(p))
}

/// One more report: the reported paths grow by it, where it satisfies `what`.
proof fn lemma_reported_more(fs: Fs, seen: Seq<SeenView>, what: Set<Components>)
    requires
        seen.len() > 0,
        true_reports(fs, seen),
        reported(seen.drop_last(), what).finite(),
    ensures
        reported(seen, what).finite(),
        reported(seen, what).len() == reported(seen.drop_last(), what).len() + (if what.contains(
            seen.last()->Ok_0.path,
        ) {
            1int
        } else {
            0
        }),
{
    let before = seen.drop_last();
    let n = seen.len() - 1;
    let last = seen[n]->Ok_0.path;
    let old_set = reported(before, what);
    assert(seen[n] is Ok);
    assert forall|p: Components| has_seen(seen, p) <==> has_seen(before, p) || p == last by {
        if has_seen(before, p) {
            let i = choose|i: int|
                0 <= i < before.len() && (#[trigger] before[i]) is Ok && before[i]->Ok_0.path == p;
            assert(seen[i] == before[i]);
        }
        if has_seen(seen, p) && p != last {
            let i = choose|i: int|
                0 <= i < seen.len() && (#[trigger] seen[i]) is Ok && seen[i]->Ok_0.path == p;
            assert(before[i] == seen[i]);
        }
        if p == last {
            assert(seen[n]->Ok_0.path == p);
        }
    }
    if has_seen(before, last) {
        let i = choose|i: int|
            0 <= i < before.len() && (#[trigger] before[i]) is Ok && before[i]->Ok_0.path == last;
        assert(seen[i]->Ok_0.path != seen[n]->Ok_0.path);
    }
    if what.contains(last) {
        assert(reported(seen, what) =~= old_set.insert(last));
    } else {
        assert(reported(seen, what) =~= old_set);
    }
}

/// What true reports of a tree are counted and reported as.
proof fn lemma_counts_and_lines(
    fs: Fs,
    source: Components,
    excluded: Seq<Components>,
    formats: Seq<Seq<char>>,
    seen: Seq<SeenView>,
    inos: Seq<Result<InodeRef, Seq<char>>>,
)
    requires
        true_reports(fs, seen),
        forall|i: int|
            0 <= i < seen.len() ==> source.is_prefix_of((#[trigger] seen[i])->Ok_0.path),
        inos_are_true(fs, candidates_among(judged_all(seen, source, excluded, formats)), inos),
    ensures
        ({
            let processed = settled(judged_all(seen, source, excluded, formats), inos);
            let regular = reported(seen, regular_files_in(fs, source, excluded));
            let unnamed = reported(seen, unnamed_files_in(fs, source, excluded));
            &&& regular.finite() && unnamed.finite()
            &&& regular_count(processed) == regular.len()
            &&& lines_among(processed) == unnamed_lines(unnamed.len())
        }),
    decreases seen.len(),
{
    let all = judged_all(seen, source, excluded, formats);
    let processed = settled(all, inos);
    let regular = regular_files_in(fs, source, excluded);
    let unnamed = unnamed_files_in(fs, source, excluded);
    if seen.len() == 0 {
        assert(reported(seen, regular) =~= Set::empty());
        assert(reported(seen, unnamed) =~= Set::empty());
        assert(lines_among(processed) =~= unnamed_lines(0));
    } else {
        let before = seen.drop_last();
        let n = seen.len() - 1;
        let earlier = judged_all(before, source, excluded, formats);
        assert forall|i: int| 0 <= i < before.len() implies before[i] == seen[i] by {}
        assert(earlier =~= all.drop_last());
        assert(all.last() == judged(seen[n], source, excluded, formats));
        let last = seen[n]->Ok_0.path;
        let managed = all.last() is Managed;
        let some_inos = if managed {
            inos.drop_last()
        } else {
            inos
        };
        lemma_fewer_inos(fs, all, inos);
        lemma_counts_and_lines(fs, source, excluded, formats, before, some_inos);
        lemma_reported_more(fs, seen, regular);
        lemma_reported_more(fs, seen, unnamed);
        assert(processed.drop_last() =~= settled(earlier, some_inos));
        assert(!(all.last() is Stray)) by {
            assert(source.is_prefix_of(seen[n]->Ok_0.path));
        }
        let count = reported(before, unnamed).len();
        if unnamed.contains(last) {
            assert(unnamed_lines(count).push("internal: non-UTF-8 file name in source tree"@)
                =~= unnamed_lines(count + 1));
        }
    }
}

/// The identities for all but the last entry.
proof fn lemma_fewer_inos(
    fs: Fs,
    all: Seq<JudgedView>,
    inos: Seq<Result<InodeRef, Seq<char>>>,
)
    requires
        all.len() > 0,
        inos_are_true(fs, candidates_among(all), inos),
    ensures
        inos_are_true(
            fs,
            candidates_among(all.drop_last()),
            if all.last() is Managed {
                inos.drop_last()
            } else {
                inos
            },
        ),
        all.last() is Managed ==> inos.last() == Ok::<InodeRef, Seq<char>>(
            fs[all.last()->Managed_0.path]->File_0,
        ),
{
    let candidates = candidates_among(all);
    let some_candidates = candidates_among(all.drop_last());
    let some_inos = if all.last() is Managed {
        inos.drop_last()
    } else {
        inos
    };
    assert forall|k: int| 0 <= k < some_candidates.len() implies {
        &&& fs.contains_key(#[trigger] some_candidates[k])
        &&& fs[some_candidates[k]] is File
        &&& some_inos[k] == Ok::<InodeRef, Seq<char>>(fs[some_candidates[k]]->File_0)
    } by {
        assert(candidates[k] == some_candidates[k]);
    }
    if all.last() is Managed {
        assert(candidates[candidates.len() - 1] == all.last()->Managed_0.path);
    }
}

/// What one true report is judged to be.
proof fn lemma_judged(
    fs: Fs,
    source: Components,
    excluded: Seq<Components>,
    formats: Seq<Seq<char>>,
    entry: SeenView,
)
    requires
        entry is Ok,
        fs.contains_key(entry->Ok_0.path),
        entry->Ok_0.kind == kind_of(fs[entry->Ok_0.path]),
        source.is_prefix_of(entry->Ok_0.path),
    ensures
        ({
            let p = entry->Ok_0.path;
            match judged(entry, source, excluded, formats) {
                JudgedView::Managed(candidate) => {
                    &&& is_managed(fs, source, excluded, formats, p)
                    &&& candidate.path == p
                    &&& outcome_of(candidate, Ok(fs[p]->File_0)) == Ok::<OutcomeView, Seq<char>>(
                        OutcomeView::File(file_at(fs, source, p)),
                    )
                },
                JudgedView::Settled(OutcomeView::File(_)) => false,
                _ => !is_managed(fs, source, excluded, formats, p),
            }
        }),
{
}

proof fn lemma_files_found(
    fs: Fs,
    source: Components,
    excluded: Seq<Components>,
    formats: Seq<Seq<char>>,
    seen: Seq<SeenView>,
    inos: Seq<Result<InodeRef, Seq<char>>>,
)
    requires
        true_reports(fs, seen),
        forall|i: int|
            0 <= i < seen.len() ==> source.is_prefix_of((#[trigger] seen[i])->Ok_0.path),
        inos_are_true(fs, candidates_among(judged_all(seen, source, excluded, formats)), inos),
    ensures
        ({
            let files = files_among(settled(judged_all(seen, source, excluded, formats), inos));
            &&& forall|i: int|
                0 <= i < files.len() ==> {
                    &&& is_managed(fs, source, excluded, formats, (#[trigger] files[i]).path)
                    &&& files[i] == file_at(fs, source, files[i].path)
                    &&& has_seen(seen, files[i].path)
                }
            &&& forall|i: int, j: int|
                0 <= i < j < files.len() ==> (#[trigger] files[i]).path != (
                #[trigger] files[j]).path
            &&& forall|p: Components| #[trigger]
                has_seen(seen, p) && is_managed(fs, source, excluded, formats, p) ==> has_file(
                    files,
                    p,
                )
        }),
    decreases seen.len(),
{
    let all = judged_all(seen, source, excluded, formats);
    if seen.len() > 0 {
        let before = seen.drop_last();
        let n = seen.len() - 1;
        let earlier = judged_all(before, source, excluded, formats);
        assert forall|i: int| 0 <= i < before.len() implies before[i] == seen[i] by {}
        assert(earlier =~= all.drop_last());
        assert(all.last() == judged(seen[n], source, excluded, formats));
        lemma_judged(fs, source, excluded, formats, seen[n]);
        let last = seen[n]->Ok_0.path;
        let managed = all.last() is Managed;
        let some_inos = if managed {
            inos.drop_last()
        } else {
            inos
        };
        let candidates = candidates_among(all);
        let some_candidates = candidates_among(earlier);
        assert(inos_are_true(fs, some_candidates, some_inos)) by {
            assert forall|k: int| 0 <= k < some_candidates.len() implies {
                &&& fs.contains_key(#[trigger] some_candidates[k])
                &&& fs[some_candidates[k]] is File
                &&& some_inos[k] == Ok::<InodeRef, Seq<char>>(fs[some_candidates[k]]->File_0)
            } by {
                assert(candidates[k] == some_candidates[k]);
            }
        }
        lemma_files_found(fs, source, excluded, formats, before, some_inos);
        let old_files = files_among(settled(earlier, some_inos));
        let files = files_among(settled(all, inos));
        let processed = settled(all, inos);
        assert(processed.drop_last() =~= settled(earlier, some_inos));
        if managed {
            assert(candidates[candidates.len() - 1] == last);
            assert(inos.last() == Ok::<InodeRef, Seq<char>>(fs[last]->File_0));
            assert(files == old_files.push(file_at(fs, source, last)));
        } else {
            assert(files == old_files);
        }
        assert(has_seen(seen, last));
        assert forall|i: int| 0 <= i < files.len() implies {
            &&& is_managed(fs, source, excluded, formats, (#[trigger] files[i]).path)
            &&& files[i] == file_at(fs, source, files[i].path)
            &&& has_seen(seen, files[i].path)
        } by {
            if i < old_files.len() {
                assert(files[i] == old_files[i]);
                let k = choose|k: int|
                    0 <= k < before.len() && (#[trigger] before[k]) is Ok && before[k]->Ok_0.path
                        == files[i].path;
                assert(seen[k] == before[k]);
            }
        }
        assert forall|i: int, j: int| 0 <= i < j < files.len() implies (#[trigger] files[i]).path
            != (#[trigger] files[j]).path by {
            assert(files[i] == old_files[i]);
            if j < old_files.len() {
                assert(files[j] == old_files[j]);
            } else {
                let k = choose|k: int|
                    0 <= k < before.len() && (#[trigger] before[k]) is Ok && before[k]->Ok_0.path
                        == files[i].path;
                assert(seen[k]->Ok_0.path != seen[n]->Ok_0.path);
            }
        }
        assert forall|p: Components| #[trigger]
            has_seen(seen, p) && is_managed(fs, source, excluded, formats, p) implies has_file(
            files,
            p,
        ) by {
            if p == last {
                assert(files[files.len() - 1].path == p);
            } else {
                let k = choose|k: int|
                    0 <= k < seen.len() && (#[trigger] seen[k]) is Ok && seen[k]->Ok_0.path == p;
                assert(before[k] == seen[k]);
                assert(has_seen(before, p));
                let i = choose|i: int|
                    0 <= i < old_files.len() && (#[trigger] old_files[i]).path == p;
                assert(files[i].path == p);
            }
        }
    }
}

/// The scan of a source tree that has been walked finds the managed files, each
/// once, and their tracks, counts every regular file, and reports those whose names
/// are no text, when looking at the managed files tells their identities.
pub proof fn scan_finds_the_managed_files(
    fs: Fs,
    walk: WalkView,
    formats: Seq<Seq<char>>,
    inos: Seq<Result<InodeRef, Seq<char>>>,
)
    requires
        walk_is_faithful(fs, walk),
        walk.level.len() == 0,
        inos_are_true(
            fs,
            candidates_among(judged_all(walk.seen, walk.root, walk.excluded, formats)),
            inos,
        ),
    ensures
        is_true_find(
            fs,
            walk.root,
            walk.excluded,
            formats,
            found_in(
                settled(judged_all(walk.seen, walk.root, walk.excluded, formats), inos),
                formats,
            ),
        ),
{
    walk_sees_everything_once(fs, walk);
    assert forall|i: int| 0 <= i < walk.seen.len() implies walk.root.is_prefix_of(
        (#[trigger] walk.seen[i])->Ok_0.path,
    ) by {
        assert(is_in_reach(walk, walk.seen[i]->Ok_0.path));
    }
    lemma_files_found(fs, walk.root, walk.excluded, formats, walk.seen, inos);
    lemma_counts_and_lines(fs, walk.root, walk.excluded, formats, walk.seen, inos);
    assert forall|p: Components| #[trigger]
        is_managed(fs, walk.root, walk.excluded, formats, p) implies has_seen(walk.seen, p) by {}
    let regular = regular_files_in(fs, walk.root, walk.excluded);
    let unnamed = unnamed_files_in(fs, walk.root, walk.excluded);
    assert forall|p: Components| regular.contains(p) implies has_seen(walk.seen, p) by {}
    assert(reported(walk.seen, regular) =~= regular);
    assert(reported(walk.seen, unnamed) =~= unnamed);
}

} // verus!
