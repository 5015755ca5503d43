//! Which links are wanted, and the counters of what came of them.

use vstd::prelude::*;
use vstd::string::*;
use vstd::utf8::*;

use crate::config::Config;
use crate::link::{link_views, Link, LinkAction, LinkView};
use crate::path::{path_views, shown_path, with_extension, Components, TreePath};
use crate::path_set::PathSet;
use crate::scan::{file_views, track_views, FoundView, SourceFileView, SourceScan, TrackView};
use crate::stats::{texts, Stats, StatsView};
use crate::walk::problem_line;

verus! {

/// The link of a file in the per-format trees: its relative path, below the
/// directory of its format.
pub open spec fn format_link(formats_root: Components, file: SourceFileView) -> LinkView {
    LinkView {
        src: file.path,
        dest: formats_root.push(encode_utf8(file.ext)) + file.rel,
        ino: file.ino,
    }
}

/// The link of a track in the best-quality tree: its key with the extension of
/// its best file.
pub open spec fn track_link(max_qual_root: Components, track: TrackView) -> LinkView {
    LinkView {
        src: track.best_path,
        dest: max_qual_root + with_extension(track.key, encode_utf8(track.best_ext)),
        ino: track.best_ino,
    }
}

/// The links of all files in the per-format trees.
pub open spec fn format_links(formats_root: Components, files: Seq<SourceFileView>) -> Seq<
    LinkView,
> {
    Seq::new(files.len(), |i: int| format_link(formats_root, files[i]))
}

/// The links of all tracks in the best-quality tree.
pub open spec fn track_links(max_qual_root: Components, tracks: Seq<TrackView>) -> Seq<LinkView> {
    Seq::new(tracks.len(), |i: int| track_link(max_qual_root, tracks[i]))
}

/// Where links stand.
pub open spec fn dests(links: Seq<LinkView>) -> Set<Components> {
    Seq::new(links.len(), |i: int| links[i].dest).to_set()
}

/// The trees that a scan leaves out: the output trees.
pub fn excluded_roots(config: &Config) -> (roots: Vec<TreePath>)
    ensures
        path_views(roots@) == seq![config.formats_root@, config.max_qual_root@],
{
    let mut roots: Vec<TreePath> = Vec::new();
    roots.push(config.formats_root.clone());
    roots.push(config.max_qual_root.clone());
    assert(path_views(roots@) =~= seq![config.formats_root@, config.max_qual_root@]);
    roots
}

/// The line for a directory that could not be created.
pub fn create_failure(dir: &TreePath, cause: &str) -> (line: String)
    ensures
        line@ == "create directory "@ + shown_path(dir@) + ": "@ + cause@,
{
    problem_line("create directory ", dir, cause)
}

/// The links wanted in the per-format trees and in the best-quality tree.
pub fn desired_links(config: &Config, found: &SourceScan) -> (links: (Vec<Link>, Vec<Link>))
    ensures
        link_views(links.0@) == format_links(config.formats_root@, found@.files),
        link_views(links.1@) == track_links(config.max_qual_root@, found@.tracks),
{
    let mut of_formats: Vec<Link> = Vec::new();
    let ghost wanted = format_links(config.formats_root@, file_views(found.files@));
    let mut i: usize = 0;
    assert(link_views(of_formats@) =~= wanted.take(0));
    while i < found.files.len()
        invariant
            i <= found.files@.len(),
            wanted == format_links(config.formats_root@, file_views(found.files@)),
            link_views(of_formats@) == wanted.take(i as int),
        decreases found.files.len() - i,
    {
        let file = &found.files[i];
        let dest = config.formats_root.child(&file.ext.as_str().as_bytes_vec()).append(&file.rel);
        let link = Link { src: file.path.clone(), dest, ino: file.ino };
        let ghost before = of_formats@;
        of_formats.push(link);
        assert(link_views(of_formats@) =~= link_views(before).push(link@));
        assert(wanted.take(i + 1) =~= wanted.take(i as int).push(wanted[i as int]));
        i = i + 1;
    }
    assert(wanted.take(i as int) =~= wanted);

    let mut of_tracks: Vec<Link> = Vec::new();
    let ghost wanted = track_links(config.max_qual_root@, track_views(found.tracks@));
    let mut i: usize = 0;
    assert(link_views(of_tracks@) =~= wanted.take(0));
    while i < found.tracks.len()
        invariant
            i <= found.tracks@.len(),
            wanted == track_links(config.max_qual_root@, track_views(found.tracks@)),
            link_views(of_tracks@) == wanted.take(i as int),
        decreases found.tracks.len() - i,
    {
        let track = &found.tracks[i];
        let name = track.key.with_extension(track.best_ext.as_str());
        let dest = config.max_qual_root.append(&name);
        let link = Link { src: track.best_path.clone(), dest, ino: track.best_ino };
        let ghost before = of_tracks@;
        of_tracks.push(link);
        assert(link_views(of_tracks@) =~= link_views(before).push(link@));
        assert(wanted.take(i + 1) =~= wanted.take(i as int).push(wanted[i as int]));
        i = i + 1;
    }
    assert(wanted.take(i as int) =~= wanted);
    (of_formats, of_tracks)
}

/// The files that links make wanted.
pub fn wanted_files(links: &Vec<Link>) -> (keep: PathSet)
    ensures
        keep@ == dests(link_views(links@)),
{
    let mut paths: Vec<TreePath> = Vec::new();
    let ghost all = Seq::new(links@.len(), |i: int| link_views(links@)[i].dest);
    let mut i: usize = 0;
    assert(path_views(paths@) =~= all.take(0));
    while i < links.len()
        invariant
            i <= links@.len(),
            all == Seq::new(links@.len(), |i: int| link_views(links@)[i].dest),
            path_views(paths@) == all.take(i as int),
        decreases links.len() - i,
    {
        let ghost before = paths@;
        paths.push(links[i].dest.clone());
        assert(path_views(paths@) =~= path_views(before).push(all[i as int]));
        assert(all.take(i + 1) =~= all.take(i as int).push(all[i as int]));
        i = i + 1;
    }
    assert(all.take(i as int) =~= all);
    assert(all =~= Seq::new(link_views(links@).len(), |i: int| link_views(links@)[i].dest));
    PathSet::of(&paths)
}

/// The contents of the outcome of a link.
pub open spec fn result_view(result: Result<LinkAction, String>) -> Result<LinkAction, Seq<char>> {
    match result {
        Ok(action) => Ok(action),
        Err(line) => Err(line@),
    }
}

/// The contents of the outcome of each link.
pub open spec fn result_views(results: Seq<Result<LinkAction, String>>) -> Seq<
    Result<LinkAction, Seq<char>>,
> {
    Seq::new(results.len(), |i: int| result_view(results[i]))
}

/// The number of links with this outcome.
pub open spec fn count_of(results: Seq<Result<LinkAction, Seq<char>>>, action: LinkAction) -> nat
    decreases results.len(),
{
    if results.len() == 0 {
        0
    } else {
        let before = count_of(results.drop_last(), action);
        match results.last() {
            Ok(done) => if done == action {
                before + 1
            } else {
                before
            },
            Err(_) => before,
        }
    }
}

/// The lines of the links that failed, in order.
pub open spec fn failures_among(results: Seq<Result<LinkAction, Seq<char>>>) -> Seq<Seq<char>>
    decreases results.len(),
{
    if results.len() == 0 {
        seq![]
    } else {
        let before = failures_among(results.drop_last());
        match results.last() {
            Ok(_) => before,
            Err(line) => before.push(line),
        }
    }
}

/// The counters once the source tree has been scanned and the links have been
/// ensured. Each link that failed has its line.
pub open spec fn stats_with_links(
    found: FoundView,
    results: Seq<Result<LinkAction, Seq<char>>>,
) -> StatsView {
    StatsView {
        regular_files: found.regular_files,
        managed_files: found.files.len(),
        tracks: found.tracks.len(),
        links_created: count_of(results, LinkAction::Created),
        links_replaced: count_of(results, LinkAction::Replaced),
        links_up_to_date: count_of(results, LinkAction::UpToDate),
        files_removed: 0,
        dirs_removed: 0,
        errors: found.errors + failures_among(results),
    }
}

/// The counters once the source tree has been scanned and the links have been
/// ensured. Nothing has been removed yet.
pub fn linked_stats(found: SourceScan, results: Vec<Result<LinkAction, String>>) -> (stats: Stats)
    ensures
        stats@ == stats_with_links(found@, result_views(results@)),
{
    let mut stats = Stats::default();
    stats.regular_files = found.regular_files;
    stats.managed_files = found.files.len();
    stats.tracks = found.tracks.len();
    let SourceScan { regular_files: _, files: _, tracks: _, errors } = found;
    let ghost scan_errors = texts(errors@);
    stats.errors = errors;
    let ghost all = result_views(results@);
    let count = results.len();
    assert(all.take(0) =~= seq![]);
    assert(scan_errors + failures_among(all.take(0)) =~= scan_errors);
    for result in it: results
        invariant
            it.seq() == results@,
            all == result_views(results@),
            count == results@.len(),
            stats.regular_files == found.regular_files,
            stats.managed_files == found.files@.len(),
            stats.tracks == found.tracks@.len(),
            stats.files_removed == 0,
            stats.dirs_removed == 0,
            stats.links_created <= it.index(),
            stats.links_replaced <= it.index(),
            stats.links_up_to_date <= it.index(),
            stats.links_created == count_of(all.take(it.index()), LinkAction::Created),
            stats.links_replaced == count_of(all.take(it.index()), LinkAction::Replaced),
            stats.links_up_to_date == count_of(all.take(it.index()), LinkAction::UpToDate),
            texts(stats.errors@) == scan_errors + failures_among(all.take(it.index())),
    {
        let ghost i = it.index();
        proof {
            assert(all.take(i + 1).drop_last() =~= all.take(i));
            assert(all.take(i + 1).last() == result_view(result));
        }
        match result {
            Ok(LinkAction::UpToDate) => {
                stats.links_up_to_date = stats.links_up_to_date + 1;
            },
            Ok(LinkAction::Created) => {
                stats.links_created = stats.links_created + 1;
            },
            Ok(LinkAction::Replaced) => {
                stats.links_replaced = stats.links_replaced + 1;
            },
            Err(line) => {
                let ghost before = stats.errors@;
                stats.errors.push(line);
                assert(texts(stats.errors@) =~= texts(before).push(line@));
                assert((scan_errors + failures_among(all.take(i))).push(line@) =~= scan_errors
                    + failures_among(all.take(i)).push(line@));
            },
        }
    }
    assert(all.take(all.len() as int) =~= all);
    stats
}

impl Stats {
    /// Adds lines for problems that came up.
    pub fn add_errors(&mut self, lines: Vec<String>)
        ensures
            final(self)@ == (StatsView {
                errors: old(self)@.errors + texts(lines@),
                ..old(self)@
            }),
    {
        let mut lines = lines;
        assert(texts(self.errors@ + lines@) =~= texts(self.errors@) + texts(lines@));
        self.errors.append(&mut lines);
    }

    /// Adds what clearing one output tree removed.
    pub fn add_removed(&mut self, files: usize, dirs: usize)
        requires
            old(self).files_removed + files <= usize::MAX,
            old(self).dirs_removed + dirs <= usize::MAX,
        ensures
            final(self)@ == (StatsView {
                files_removed: old(self)@.files_removed + files as nat,
                dirs_removed: old(self)@.dirs_removed + dirs as nat,
                ..old(self)@
            }),
    {
        self.files_removed = self.files_removed + files;
        self.dirs_removed = self.dirs_removed + dirs;
    }
}

} // verus!
