//! What the source tree holds: its managed files, and the best file of each
//! track.

use vstd::prelude::*;
use vstd::string::*;
use vstd::utf8::*;

use crate::link::{FileMeta, InodeRef};
use crate::names::{key_of_track, split_name, stem_and_extension, track_key};
use crate::path::{file_name_of, parent_of, path_views, shown_path, Components, TreePath};
use crate::path_set::PathIndex;
use crate::stats::texts;
use crate::text::utf8_text;
use crate::walk::{
    excluded_by, is_excluded, problem_line, seen_view, seen_views, Entry, Kind, SeenView,
};

verus! {

/// A source file whose extension is a managed format.
#[derive(Debug, Clone)]
pub struct SourceFile {
    /// Path of the file.
    pub path: TreePath,
    /// Path relative to the source root.
    pub rel: TreePath,
    /// The file's extension.
    pub ext: String,
    /// The key of the file's track.
    pub track: TreePath,
    /// Identity of the file.
    pub ino: InodeRef,
}

/// The contents of a [`SourceFile`].
pub struct SourceFileView {
    pub path: Components,
    pub rel: Components,
    pub ext: Seq<char>,
    pub track: Components,
    pub ino: InodeRef,
}

impl View for SourceFile {
    type V = SourceFileView;

    open spec fn view(&self) -> SourceFileView {
        SourceFileView {
            path: self.path@,
            rel: self.rel@,
            ext: self.ext@,
            track: self.track@,
            ino: self.ino,
        }
    }
}

/// The contents of each file in a list.
pub open spec fn file_views(files: Seq<SourceFile>) -> Seq<SourceFileView> {
    Seq::new(files.len(), |i: int| files[i]@)
}

/// One track and the best file that holds it.
#[derive(Debug, Clone)]
pub struct Track {
    /// Track key.
    pub key: TreePath,
    /// Extension of the best file.
    pub best_ext: String,
    /// Path of the best file.
    pub best_path: TreePath,
    /// Identity of the best file.
    pub best_ino: InodeRef,
    /// Position of `best_ext` in the format order; lower is better.
    pub best_index: usize,
}

/// The contents of a [`Track`].
pub struct TrackView {
    pub key: Components,
    pub best_ext: Seq<char>,
    pub best_path: Components,
    pub best_ino: InodeRef,
    pub best_index: nat,
}

impl View for Track {
    type V = TrackView;

    open spec fn view(&self) -> TrackView {
        TrackView {
            key: self.key@,
            best_ext: self.best_ext@,
            best_path: self.best_path@,
            best_ino: self.best_ino,
            best_index: self.best_index as nat,
        }
    }
}

/// The contents of each track in a list.
pub open spec fn track_views(tracks: Seq<Track>) -> Seq<TrackView> {
    Seq::new(tracks.len(), |i: int| tracks[i]@)
}

/// What the scan of a source tree found.
#[derive(Debug)]
pub struct SourceScan {
    /// Regular files seen, managed or not, outside the output trees.
    pub regular_files: usize,
    /// Managed files.
    pub files: Vec<SourceFile>,
    /// One track per key, in the order in which the keys first come up.
    pub tracks: Vec<Track>,
    /// Non-fatal problems, one line each.
    pub errors: Vec<String>,
}

/// The contents of a [`SourceScan`].
pub struct FoundView {
    pub regular_files: nat,
    pub files: Seq<SourceFileView>,
    pub tracks: Seq<TrackView>,
    pub errors: Seq<Seq<char>>,
}

impl View for SourceScan {
    type V = FoundView;

    open spec fn view(&self) -> FoundView {
        FoundView {
            regular_files: self.regular_files as nat,
            files: file_views(self.files@),
            tracks: track_views(self.tracks@),
            errors: texts(self.errors@),
        }
    }
}

/// What one entry of the source tree amounts to.
#[derive(Debug)]
pub enum EntryOutcome {
    /// In an output tree, or not a regular file.
    Ignored,
    /// A regular file whose extension is not managed.
    Other,
    /// A regular file that cannot be used, for the reason in this line.
    Unusable(String),
    /// A managed file.
    File(SourceFile),
}

/// The contents of an [`EntryOutcome`].
pub enum OutcomeView {
    Ignored,
    Other,
    Unusable(Seq<char>),
    File(SourceFileView),
}

impl View for EntryOutcome {
    type V = OutcomeView;

    open spec fn view(&self) -> OutcomeView {
        match *self {
            EntryOutcome::Ignored => OutcomeView::Ignored,
            EntryOutcome::Other => OutcomeView::Other,
            EntryOutcome::Unusable(line) => OutcomeView::Unusable(line@),
            EntryOutcome::File(file) => OutcomeView::File(file@),
        }
    }
}

/// A managed file whose identity is still to be captured.
#[derive(Debug)]
pub struct Candidate {
    /// Path of the file.
    pub path: TreePath,
    /// Path relative to the source root.
    pub rel: TreePath,
    /// The file's extension.
    pub ext: String,
    /// The key of the file's track.
    pub track: TreePath,
}

/// The contents of a [`Candidate`].
pub struct CandidateView {
    pub path: Components,
    pub rel: Components,
    pub ext: Seq<char>,
    pub track: Components,
}

impl View for Candidate {
    type V = CandidateView;

    open spec fn view(&self) -> CandidateView {
        CandidateView {
            path: self.path@,
            rel: self.rel@,
            ext: self.ext@,
            track: self.track@,
        }
    }
}

/// How far an entry could be judged without looking at the file.
#[derive(Debug)]
pub enum Judged {
    /// Nothing to link.
    Settled(EntryOutcome),
    /// A managed file: look at it, then call [`identified`].
    Managed(Candidate),
    /// A problem to report in this line.
    Problem(String),
    /// An entry that does not lie under the source root.
    Stray(TreePath),
}

/// The contents of a [`Judged`].
pub enum JudgedView {
    Settled(OutcomeView),
    Managed(CandidateView),
    Problem(Seq<char>),
    Stray(Components),
}

impl View for Judged {
    type V = JudgedView;

    open spec fn view(&self) -> JudgedView {
        match *self {
            Judged::Settled(outcome) => JudgedView::Settled(outcome@),
            Judged::Managed(candidate) => JudgedView::Managed(candidate@),
            Judged::Problem(line) => JudgedView::Problem(line@),
            Judged::Stray(path) => JudgedView::Stray(path@),
        }
    }
}

/// The position of a format in the format order, or the number of formats for
/// one that is not there.
pub open spec fn rank(formats: Seq<Seq<char>>, ext: Seq<char>) -> nat
    decreases formats.len(),
{
    if formats.len() == 0 || formats[0] == ext {
        0
    } else {
        1 + rank(formats.drop_first(), ext)
    }
}

/// The directory of a relative path.
pub open spec fn dir_of(rel: Components) -> Components {
    match parent_of(rel) {
        Some(dir) => dir,
        None => seq![],
    }
}

/// What a regular file whose name is no text amounts to.
pub open spec fn unnamed() -> JudgedView {
    JudgedView::Settled(OutcomeView::Unusable("internal: non-UTF-8 file name in source tree"@))
}

/// What an entry amounts to, as far as its path and type tell.
///
/// Entries in excluded trees and entries that are no regular files are ignored.
/// A file is managed when its name has an extension that is a managed format.
pub open spec fn judged(
    entry: SeenView,
    source: Components,
    excluded: Seq<Components>,
    formats: Seq<Seq<char>>,
) -> JudgedView {
    match entry {
        Err(line) => JudgedView::Problem(line),
        Ok(entry) => {
            if is_excluded(entry.path, excluded) || entry.kind != Kind::File {
                JudgedView::Settled(OutcomeView::Ignored)
            } else {
                match file_name_of(entry.path) {
                    None => unnamed(),
                    Some(name) => {
                        if !valid_utf8(name) {
                            unnamed()
                        } else {
                            match stem_and_extension(decode_utf8(name)) {
                                None => JudgedView::Settled(OutcomeView::Other),
                                Some((stem, ext)) => {
                                    if !formats.contains(ext) {
                                        JudgedView::Settled(OutcomeView::Other)
                                    } else if !source.is_prefix_of(entry.path) {
                                        JudgedView::Stray(entry.path)
                                    } else {
                                        let rel = entry.path.skip(source.len() as int);
                                        JudgedView::Managed(
                                            CandidateView {
                                                path: entry.path,
                                                rel,
                                                ext,
                                                track: key_of_track(dir_of(rel), stem),
                                            },
                                        )
                                    }
                                },
                            }
                        }
                    },
                }
            }
        },
    }
}

/// The contents of a processed entry.
pub type ProcessedView = Result<OutcomeView, Seq<char>>;

/// The contents of a processed entry.
pub open spec fn processed_view(processed: Result<EntryOutcome, String>) -> ProcessedView {
    match processed {
        Ok(outcome) => Ok(outcome@),
        Err(line) => Err(line@),
    }
}

/// The contents of each processed entry in a list.
pub open spec fn processed_views(processed: Seq<Result<EntryOutcome, String>>) -> Seq<
    ProcessedView,
> {
    Seq::new(processed.len(), |i: int| processed_view(processed[i]))
}

/// The number of regular files among processed entries.
pub open spec fn regular_count(processed: Seq<ProcessedView>) -> nat
    decreases processed.len(),
{
    if processed.len() == 0 {
        0
    } else {
        let before = regular_count(processed.drop_last());
        match processed.last() {
            Ok(OutcomeView::File(_)) => before + 1,
            Ok(OutcomeView::Other) => before + 1,
            Ok(OutcomeView::Unusable(_)) => before + 1,
            Ok(OutcomeView::Ignored) => before,
            Err(_) => before,
        }
    }
}

/// The managed files among processed entries, in order.
pub open spec fn files_among(processed: Seq<ProcessedView>) -> Seq<SourceFileView>
    decreases processed.len(),
{
    if processed.len() == 0 {
        seq![]
    } else {
        let before = files_among(processed.drop_last());
        match processed.last() {
            Ok(OutcomeView::File(file)) => before.push(file),
            _ => before,
        }
    }
}

/// The problems among processed entries, in order.
pub open spec fn lines_among(processed: Seq<ProcessedView>) -> Seq<Seq<char>>
    decreases processed.len(),
{
    if processed.len() == 0 {
        seq![]
    } else {
        let before = lines_among(processed.drop_last());
        match processed.last() {
            Err(line) => before.push(line),
            Ok(OutcomeView::Unusable(line)) => before.push(line),
            Ok(_) => before,
        }
    }
}

/// The track keys of files, each once, in the order in which they first come
/// up.
pub open spec fn distinct_keys(files: Seq<SourceFileView>) -> Seq<Components>
    decreases files.len(),
{
    if files.len() == 0 {
        seq![]
    } else {
        let before = distinct_keys(files.drop_last());
        if before.contains(files.last().track) {
            before
        } else {
            before.push(files.last().track)
        }
    }
}

/// True when file `i` is the best one of the track `key`: no file of the track
/// has a better format, and none before it has one as good.
pub open spec fn is_best(
    files: Seq<SourceFileView>,
    formats: Seq<Seq<char>>,
    key: Components,
    i: int,
) -> bool {
    &&& 0 <= i < files.len()
    &&& files[i].track == key
    &&& forall|j: int|
        0 <= j < files.len() && (#[trigger] files[j]).track == key ==> {
            ||| rank(formats, files[i].ext) < rank(formats, files[j].ext)
            ||| rank(formats, files[i].ext) == rank(formats, files[j].ext) && i <= j
        }
}

/// The track whose best file is `file`.
pub open spec fn track_with_best(file: SourceFileView, formats: Seq<Seq<char>>) -> TrackView {
    TrackView {
        key: file.track,
        best_ext: file.ext,
        best_path: file.path,
        best_ino: file.ino,
        best_index: rank(formats, file.ext),
    }
}

/// The position of the best file of a track.
pub open spec fn best_of(
    files: Seq<SourceFileView>,
    formats: Seq<Seq<char>>,
    key: Components,
) -> int {
    choose|i: int| is_best(files, formats, key, i)
}

/// The tracks of files: for each distinct key the track with the best file.
pub open spec fn tracks_of(files: Seq<SourceFileView>, formats: Seq<Seq<char>>) -> Seq<TrackView> {
    Seq::new(
        distinct_keys(files).len(),
        |k: int| track_with_best(files[best_of(files, formats, distinct_keys(files)[k])], formats),
    )
}

/// What processed entries amount to.
pub open spec fn found_in(processed: Seq<ProcessedView>, formats: Seq<Seq<char>>) -> FoundView {
    FoundView {
        regular_files: regular_count(processed),
        files: files_among(processed),
        tracks: tracks_of(files_among(processed), formats),
        errors: lines_among(processed),
    }
}

/// True when `tracks` holds, for each distinct key, the track with the best
/// file.
spec fn are_best_tracks(
    tracks: Seq<TrackView>,
    files: Seq<SourceFileView>,
    formats: Seq<Seq<char>>,
) -> bool {
    &&& tracks.len() == distinct_keys(files).len()
    &&& forall|k: int|
        0 <= k < tracks.len() ==> exists|i: int|
            #![trigger files[i]]
            is_best(files, formats, distinct_keys(files)[k], i) && #[trigger] tracks[k]
                == track_with_best(files[i], formats)
}

/// The position of a format in the format order, or the number of formats for
/// one that is not there.
pub fn format_rank(formats: &Vec<String>, ext: &String) -> (index: usize)
    ensures
        index == rank(texts(formats@), ext@),
        index < formats@.len() <==> texts(formats@).contains(ext@),
        index <= formats@.len(),
{
    let mut i: usize = 0;
    let ghost all = texts(formats@);
    assert(all.skip(0) =~= all);
    while i < formats.len()
        invariant
            i <= formats@.len(),
            all == texts(formats@),
            rank(all, ext@) == i + rank(all.skip(i as int), ext@),
            forall|j: int| 0 <= j < i ==> all[j] != ext@,
        decreases formats.len() - i,
    {
        assert(all.skip(i as int)[0] == formats@[i as int]@);
        if formats[i] == *ext {
            assert(all[i as int] == ext@);
            return i;
        }
        assert(all.skip(i as int).drop_first() =~= all.skip(i + 1));
        i = i + 1;
    }
    i
}

/// Judges an entry of the source tree by its path and type.
///
/// `excluded` are the output trees, which may lie inside the source tree: the
/// links in them are never taken for source files. `formats` is the format
/// order, best first.
pub fn judge_entry(
    entry: Result<Entry, String>,
    source: &TreePath,
    excluded: &Vec<TreePath>,
    formats: &Vec<String>,
) -> (result: Judged)
    ensures
        result@ == judged(seen_view(entry), source@, path_views(excluded@), texts(formats@)),
{
    let entry = match entry {
        Ok(entry) => entry,
        Err(line) => return Judged::Problem(line),
    };
    if excluded_by(&entry.path, excluded) || entry.kind != Kind::File {
        return Judged::Settled(EntryOutcome::Ignored);
    }
    let name = match entry.path.file_name() {
        Some(name) => utf8_text(name.as_slice()),
        None => None,
    };
    let name = match name {
        Some(name) => name,
        None => {
            let line = "internal: non-UTF-8 file name in source tree".to_owned();
            return Judged::Settled(EntryOutcome::Unusable(line));
        },
    };
    let (stem, ext) = match split_name(name) {
        Some(split) => split,
        None => return Judged::Settled(EntryOutcome::Other),
    };
    let ext = ext.to_owned();
    if format_rank(formats, &ext) == formats.len() {
        return Judged::Settled(EntryOutcome::Other);
    }
    let rel = match entry.path.strip_prefix(source) {
        Some(rel) => rel,
        None => return Judged::Stray(entry.path),
    };
    let track = match rel.parent() {
        Some(dir) => track_key(&dir, stem),
        None => {
            let dir = TreePath::empty();
            track_key(&dir, stem)
        },
    };
    Judged::Managed(Candidate { path: entry.path, rel, ext, track })
}

/// What a managed file amounts to once it has been looked at.
pub open spec fn outcome_of(
    candidate: CandidateView,
    ino: Result<InodeRef, Seq<char>>,
) -> ProcessedView {
    match ino {
        Ok(ino) => Ok(
            OutcomeView::File(
                SourceFileView {
                    path: candidate.path,
                    rel: candidate.rel,
                    ext: candidate.ext,
                    track: candidate.track,
                    ino,
                },
            ),
        ),
        Err(cause) => Ok(
            OutcomeView::Unusable(
                "stat source file "@ + shown_path(candidate.path) + ": "@ + cause,
            ),
        ),
    }
}

/// The managed files among judged entries, in order.
pub open spec fn candidates_among(judged: Seq<JudgedView>) -> Seq<Components>
    decreases judged.len(),
{
    if judged.len() == 0 {
        seq![]
    } else {
        let before = candidates_among(judged.drop_last());
        match judged.last() {
            JudgedView::Managed(candidate) => before.push(candidate.path),
            _ => before,
        }
    }
}

/// What judged entries amount to, given the identities of the managed files among
/// them, in order.
pub open spec fn settled(judged: Seq<JudgedView>, inos: Seq<Result<InodeRef, Seq<char>>>) -> Seq<
    ProcessedView,
>
    decreases judged.len(),
{
    if judged.len() == 0 {
        seq![]
    } else {
        match judged.last() {
            JudgedView::Managed(candidate) => settled(judged.drop_last(), inos.drop_last()).push(
                outcome_of(candidate, inos.last()),
            ),
            JudgedView::Settled(outcome) => settled(judged.drop_last(), inos).push(Ok(outcome)),
            JudgedView::Problem(line) => settled(judged.drop_last(), inos).push(Err(line)),
            JudgedView::Stray(_) => settled(judged.drop_last(), inos),
        }
    }
}

/// The contents of a captured identity.
pub open spec fn ino_view(ino: Result<InodeRef, String>) -> Result<InodeRef, Seq<char>> {
    match ino {
        Ok(ino) => Ok(ino),
        Err(cause) => Err(cause@),
    }
}

/// Takes the identity of a managed file.
pub fn identified(candidate: Candidate, ino: Result<InodeRef, String>) -> (processed: Result<
    EntryOutcome,
    String,
>)
    ensures
        processed_view(processed) == outcome_of(candidate@, ino_view(ino)),
{
    match ino {
        Ok(ino) => {
            let Candidate { path, rel, ext, track } = candidate;
            Ok(EntryOutcome::File(SourceFile { path, rel, ext, track, ino }))
        },
        Err(cause) => {
            let line = problem_line("stat source file ", &candidate.path, cause.as_str());
            Ok(EntryOutcome::Unusable(line))
        },
    }
}

/// The contents of each judged entry in a list.
pub open spec fn judged_views(judged: Seq<Judged>) -> Seq<JudgedView> {
    Seq::new(judged.len(), |i: int| judged[i]@)
}

/// What entries amount to, as far as their paths and types tell.
pub open spec fn judged_all(
    seen: Seq<SeenView>,
    source: Components,
    excluded: Seq<Components>,
    formats: Seq<Seq<char>>,
) -> Seq<JudgedView> {
    Seq::new(seen.len(), |i: int| judged(seen[i], source, excluded, formats))
}

/// Judges entries of the source tree, one by one.
pub fn judge_entries(
    seen: Vec<Result<Entry, String>>,
    source: &TreePath,
    excluded: &Vec<TreePath>,
    formats: &Vec<String>,
) -> (result: Vec<Judged>)
    ensures
        judged_views(result@) == judged_all(
            seen_views(seen@),
            source@,
            path_views(excluded@),
            texts(formats@),
        ),
{
    let mut result: Vec<Judged> = Vec::new();
    let ghost all = judged_all(
        seen_views(seen@),
        source@,
        path_views(excluded@),
        texts(formats@),
    );
    assert(judged_views(result@) =~= all.take(0));
    for entry in it: seen
        invariant
            it.seq() == seen@,
            all == judged_all(
                seen_views(seen@),
                source@,
                path_views(excluded@),
                texts(formats@),
            ),
            judged_views(result@) == all.take(it.index()),
    {
        let ghost i = it.index();
        let ghost before = result@;
        result.push(judge_entry(entry, source, excluded, formats));
        assert(judged_views(result@) =~= judged_views(before).push(all[i]));
        assert(all.take(i + 1) =~= all.take(i).push(all[i]));
    }
    assert(all.take(all.len() as int) =~= all);
    result
}

/// The managed files among judged entries, which are to be looked at.
pub fn candidate_paths(judged: &Vec<Judged>) -> (paths: Vec<TreePath>)
    ensures
        path_views(paths@) == candidates_among(judged_views(judged@)),
{
    let mut paths: Vec<TreePath> = Vec::new();
    let ghost all = judged_views(judged@);
    let mut i: usize = 0;
    assert(all.take(0) =~= seq![]);
    assert(path_views(paths@) =~= candidates_among(all.take(0)));
    while i < judged.len()
        invariant
            i <= judged@.len(),
            all == judged_views(judged@),
            path_views(paths@) == candidates_among(all.take(i as int)),
        decreases judged.len() - i,
    {
        assert(all.take(i + 1).drop_last() =~= all.take(i as int));
        assert(all.take(i + 1).last() == judged@[i as int]@);
        match &judged[i] {
            Judged::Managed(candidate) => {
                let ghost before = paths@;
                paths.push(candidate.path.clone());
                assert(path_views(paths@) =~= path_views(before).push(candidate.path@));
            },
            Judged::Settled(_) => {},
            Judged::Problem(_) => {},
            Judged::Stray(_) => {},
        }
        i = i + 1;
    }
    assert(all.take(i as int) =~= all);
    paths
}

/// The identities that looking at files gave.
pub open spec fn inos_of(metas: Seq<Result<FileMeta, String>>) -> Seq<
    Result<InodeRef, Seq<char>>,
> {
    Seq::new(
        metas.len(),
        |i: int|
            match metas[i] {
                Ok(meta) => Ok(InodeRef { dev: meta.dev, ino: meta.ino }),
                Err(cause) => Err(cause@),
            },
    )
}

proof fn lemma_candidates_grow(judged: Seq<JudgedView>, n: int)
    requires
        0 <= n <= judged.len(),
    ensures
        candidates_among(judged.take(n)).len() <= candidates_among(judged).len(),
    decreases judged.len() - n,
{
    if n == judged.len() {
        assert(judged.take(n) =~= judged);
    } else {
        assert(judged.take(n + 1).drop_last() =~= judged.take(n));
        lemma_candidates_grow(judged, n + 1);
    }
}

/// Takes what looking at the managed files among judged entries gave, in their
/// order.
pub fn settle(judged: Vec<Judged>, metas: Vec<Result<FileMeta, String>>) -> (processed: Vec<
    Result<EntryOutcome, String>,
>)
    requires
        metas@.len() == candidates_among(judged_views(judged@)).len(),
        forall|i: int| 0 <= i < judged@.len() ==> !((#[trigger] judged@[i]) is Stray),
    ensures
        processed_views(processed@) == settled(judged_views(judged@), inos_of(metas@)),
{
    let mut processed: Vec<Result<EntryOutcome, String>> = Vec::new();
    let ghost all = judged_views(judged@);
    let ghost inos = inos_of(metas@);
    let mut n: usize = 0;
    assert(all.take(0) =~= seq![]);
    assert(processed_views(processed@) =~= settled(all.take(0), inos.take(0)));
    for item in it: judged
        invariant
            it.seq() == judged@,
            forall|i: int| 0 <= i < judged@.len() ==> !((#[trigger] judged@[i]) is Stray),
            all == judged_views(judged@),
            inos == inos_of(metas@),
            metas@.len() == candidates_among(all).len(),
            n == candidates_among(all.take(it.index())).len(),
            processed_views(processed@) == settled(all.take(it.index()), inos.take(n as int)),
            n <= metas@.len(),
    {
        let ghost i = it.index();
        let ghost before = processed@;
        proof {
            assert(all.take(i + 1).drop_last() =~= all.take(i));
            assert(all.take(i + 1).last() == item@);
            lemma_candidates_grow(all, i + 1);
        }
        match item {
            Judged::Managed(candidate) => {
                let meta = match &metas[n] {
                    Ok(meta) => Ok(*meta),
                    Err(cause) => Err(cause.clone()),
                };
                let outcome = identified(candidate, InodeRef::stat(meta));
                proof {
                    assert(inos.take(n + 1).drop_last() =~= inos.take(n as int));
                    assert(inos.take(n + 1).last() == inos[n as int]);
                }
                processed.push(outcome);
                assert(processed_views(processed@) =~= processed_views(before).push(
                    processed_view(outcome),
                ));
                assert(n < metas.len());
                n = n + 1;
            },
            Judged::Settled(outcome) => {
                processed.push(Ok(outcome));
                assert(processed_views(processed@) =~= processed_views(before).push(Ok(outcome@)));
            },
            Judged::Problem(line) => {
                processed.push(Err(line));
                assert(processed_views(processed@) =~= processed_views(before).push(Err(line@)));
            },
            Judged::Stray(_) => {
                assert(judged@[i] == item);
            },
        }
    }
    assert(all.take(all.len() as int) =~= all);
    assert(inos.take(n as int) =~= inos);
    processed
}

/// Each file's key is among the distinct keys, each distinct key is some file's,
/// and no key is there twice.
pub proof fn keys_are_distinct_and_complete(files: Seq<SourceFileView>)
    ensures
        distinct_keys(files).no_duplicates(),
        forall|j: int|
            0 <= j < files.len() ==> distinct_keys(files).contains((#[trigger] files[j]).track),
        forall|k: int|
            0 <= k < distinct_keys(files).len() ==> exists|j: int|
                0 <= j < files.len() && (#[trigger] files[j]).track == #[trigger] distinct_keys(
                    files,
                )[k],
    decreases files.len(),
{
    if files.len() > 0 {
        let before = files.drop_last();
        keys_are_distinct_and_complete(before);
        let keys = distinct_keys(before);
        let all = distinct_keys(files);
        assert forall|j: int| 0 <= j < files.len() implies all.contains(
            (#[trigger] files[j]).track,
        ) by {
            if j < before.len() {
                assert(before[j] == files[j]);
                let k = choose|k: int| 0 <= k < keys.len() && keys[k] == before[j].track;
                assert(all[k] == keys[k]);
            } else if !keys.contains(files.last().track) {
                assert(all[all.len() - 1] == files.last().track);
            }
        }
        assert forall|k: int| 0 <= k < all.len() implies exists|j: int|
            0 <= j < files.len() && (#[trigger] files[j]).track == #[trigger] all[k] by {
            if k < keys.len() {
                let j = choose|j: int| 0 <= j < before.len() && before[j].track == keys[k];
                assert(files[j].track == all[k]);
            } else {
                assert(files[files.len() - 1].track == all[k]);
            }
        }
    }
}

/// A track has one best file at most.
pub proof fn best_file_is_unique(
    files: Seq<SourceFileView>,
    formats: Seq<Seq<char>>,
    key: Components,
    i: int,
    j: int,
)
    requires
        is_best(files, formats, key, i),
        is_best(files, formats, key, j),
    ensures
        i == j,
{
    assert(files[i].track == files[j].track);
}

/// One more file of a known track: the better of it and the best so far.
pub(crate) proof fn lemma_best_of_known_track(
    files: Seq<SourceFileView>,
    formats: Seq<Seq<char>>,
    key: Components,
    best: int,
)
    requires
        files.len() > 0,
        is_best(files.drop_last(), formats, key, best),
    ensures
        files.last().track != key || rank(formats, files[best].ext) <= rank(
            formats,
            files.last().ext,
        ) ==> is_best(files, formats, key, best),
        files.last().track == key && rank(formats, files.last().ext) < rank(
            formats,
            files[best].ext,
        ) ==> is_best(files, formats, key, files.len() - 1),
{
    let before = files.drop_last();
    assert(before[best] == files[best]);
    assert forall|j: int| 0 <= j < before.len() implies before[j] == files[j] by {}
}

/// Picks the best file of each track.
fn best_tracks(files: &Vec<SourceFile>, formats: &Vec<String>) -> (tracks: Vec<Track>)
    ensures
        track_views(tracks@) == tracks_of(file_views(files@), texts(formats@)),
{
    let mut tracks: Vec<Track> = Vec::new();
    let mut index = PathIndex::empty();
    let ghost all = file_views(files@);
    let ghost order = texts(formats@);
    let mut i: usize = 0;
    assert(all.take(0) =~= seq![]);
    while i < files.len()
        invariant
            i <= files@.len(),
            all == file_views(files@),
            order == texts(formats@),
            are_best_tracks(track_views(tracks@), all.take(i as int), order),
            index@ == distinct_keys(all.take(i as int)),
        decreases files.len() - i,
    {
        let file = &files[i];
        let better = format_rank(formats, &file.ext);
        let ghost earlier = all.take(i as int);
        let ghost now = all.take(i + 1);
        let ghost keys = distinct_keys(earlier);
        let ghost before = track_views(tracks@);
        proof {
            assert(now.drop_last() =~= earlier);
            assert(now.last() == file@);
            keys_are_distinct_and_complete(earlier);
        }
        match index.find(&file.track) {
            Some(position) => {
                assert(before[position as int] == tracks@[position as int]@);
                assert(keys.contains(keys[position as int]));
                assert(keys[position as int] == file.track@);
                assert(distinct_keys(now) == keys);
                if tracks[position].best_index > better {
                    tracks[position] = Track {
                        key: file.track.clone(),
                        best_ext: file.ext.clone(),
                        best_path: file.path.clone(),
                        best_ino: file.ino,
                        best_index: better,
                    };
                }
                proof {
                    let after = track_views(tracks@);
                    assert forall|k: int| 0 <= k < after.len() implies exists|j: int|
                        #![trigger now[j]]
                        is_best(now, order, keys[k], j) && #[trigger] after[k] == track_with_best(
                            now[j],
                            order,
                        ) by {
                        let j = choose|j: int|
                            #![trigger earlier[j]]
                            is_best(earlier, order, keys[k], j) && before[k] == track_with_best(
                                earlier[j],
                                order,
                            );
                        lemma_best_of_known_track(now, order, keys[k], j);
                        assert(now[j] == earlier[j]);
                        if k != position {
                            assert(keys[k] != keys[position as int]);
                            assert(after[k] == before[k]);
                        } else {
                            assert(before[k].best_index == rank(order, earlier[j].ext));
                            assert(now[i as int] == file@);
                        }
                    }
                }
            },
            None => {
                index = index.with(file.track.clone());
                tracks.push(
                    Track {
                        key: file.track.clone(),
                        best_ext: file.ext.clone(),
                        best_path: file.path.clone(),
                        best_ino: file.ino,
                        best_index: better,
                    },
                );
                proof {
                    let after = track_views(tracks@);
                    assert(distinct_keys(now) == keys.push(file.track@));
                    assert forall|k: int| 0 <= k < after.len() implies exists|j: int|
                        #![trigger now[j]]
                        is_best(now, order, distinct_keys(now)[k], j) && #[trigger] after[k]
                            == track_with_best(now[j], order) by {
                        if k < keys.len() {
                            let j = choose|j: int|
                                #![trigger earlier[j]]
                                is_best(earlier, order, keys[k], j) && before[k]
                                    == track_with_best(earlier[j], order);
                            lemma_best_of_known_track(now, order, keys[k], j);
                            assert(now[j] == earlier[j]);
                            assert(after[k] == before[k]);
                            assert(keys.contains(keys[k]));
                        } else {
                            assert(now[i as int] == file@);
                            assert forall|j: int|
                                0 <= j < now.len() && (#[trigger] now[j]).track
                                    == file.track@ implies j == i by {
                                if j < i {
                                    assert(earlier[j] == now[j]);
                                    assert(keys.contains(earlier[j].track));
                                }
                            }
                            assert(is_best(now, order, file.track@, i as int));
                        }
                    }
                }
            },
        }
        i = i + 1;
    }
    proof {
        assert(all.take(i as int) =~= all);
        let found = track_views(tracks@);
        assert forall|k: int| 0 <= k < found.len() implies found[k] == tracks_of(all, order)[k] by {
            let key = distinct_keys(all)[k];
            let j = choose|j: int|
                #![trigger all[j]]
                is_best(all, order, key, j) && found[k] == track_with_best(all[j], order);
            best_file_is_unique(all, order, key, j, best_of(all, order, key));
        }
        assert(found =~= tracks_of(all, order));
    }
    tracks
}

/// Gathers what the entries of a source tree amount to.
///
/// `formats` is the format order, best first: the first file of the best format
/// stands for its track.
pub fn scan(processed: Vec<Result<EntryOutcome, String>>, formats: &Vec<String>) -> (found:
    SourceScan)
    ensures
        found@ == found_in(processed_views(processed@), texts(formats@)),
{
    let mut regular_files: usize = 0;
    let mut files: Vec<SourceFile> = Vec::new();
    let mut errors: Vec<String> = Vec::new();
    let ghost all = processed_views(processed@);
    let count = processed.len();
    proof {
        assert(all.take(0) =~= seq![]);
        assert(file_views(files@) =~= files_among(all.take(0)));
        assert(texts(errors@) =~= lines_among(all.take(0)));
    }
    for item in it: processed
        invariant
            it.seq() == processed@,
            count == processed@.len(),
            all == processed_views(processed@),
            regular_files <= it.index(),
            regular_files == regular_count(all.take(it.index())),
            file_views(files@) == files_among(all.take(it.index())),
            texts(errors@) == lines_among(all.take(it.index())),
    {
        let ghost i = it.index();
        let ghost files_before = files@;
        let ghost errors_before = errors@;
        proof {
            assert(all.take(i + 1).drop_last() =~= all.take(i));
            assert(all.take(i + 1).last() == processed_view(item));
        }
        match item {
            Ok(EntryOutcome::File(file)) => {
                regular_files = regular_files + 1;
                files.push(file);
                assert(file_views(files@) =~= file_views(files_before).push(file@));
            },
            Ok(EntryOutcome::Other) => {
                regular_files = regular_files + 1;
            },
            Ok(EntryOutcome::Unusable(line)) => {
                regular_files = regular_files + 1;
                errors.push(line);
                assert(texts(errors@) =~= texts(errors_before).push(line@));
            },
            Ok(EntryOutcome::Ignored) => {},
            Err(line) => {
                errors.push(line);
                assert(texts(errors@) =~= texts(errors_before).push(line@));
            },
        }
    }
    assert(all.take(all.len() as int) =~= all);
    let tracks = best_tracks(&files, formats);
    SourceScan { regular_files, files, tracks, errors }
}

impl SourceScan {
    /// The track of a key.
    pub fn track(&self, key: &TreePath) -> (track: Option<&Track>)
        ensures
            match track {
                Some(track) => {
                    &&& track.key@ == key@
                    &&& exists|k: int| 0 <= k < self.tracks@.len() && *track == self.tracks@[k]
                },
                None => forall|k: int|
                    0 <= k < self.tracks@.len() ==> (#[trigger] self.tracks@[k]).key@ != key@,
            },
    {
        let mut i: usize = 0;
        while i < self.tracks.len()
            invariant
                i <= self.tracks@.len(),
                forall|k: int| 0 <= k < i ==> (#[trigger] self.tracks@[k]).key@ != key@,
            decreases self.tracks.len() - i,
        {
            if self.tracks[i].key.same(key) {
                return Some(&self.tracks[i]);
            }
            i = i + 1;
        }
        None
    }
}

} // verus!
