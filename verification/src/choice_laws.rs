//! Which file stands for a track, which links are wanted for what was found, and
//! how their outcomes are counted.

use vstd::prelude::*;
use vstd::utf8::*;

use crate::link::{LinkAction, LinkView};
use crate::path::{written, Components};
use crate::path_laws::extension_comes_last;
use crate::path_set::{above, distinct_paths};
use crate::plan::{dests, failures_among, format_links, stats_with_links, track_links};
use crate::plan_laws::tracks_hold_the_best_files;
use crate::scan::{
    best_of, distinct_keys, keys_are_distinct_and_complete, rank, tracks_of, FoundView,
    SourceFileView, TrackView,
};

verus! {

/// The rank of a format is its first position in the format order, and past the
/// end for what is no format.
pub proof fn rank_is_the_first_position(formats: Seq<Seq<char>>, ext: Seq<char>)
    ensures
        formats.contains(ext) ==> rank(formats, ext) < formats.len() && formats[rank(
            formats,
            ext,
        ) as int] == ext,
        !formats.contains(ext) ==> rank(formats, ext) == formats.len(),
        forall|i: int| 0 <= i < rank(formats, ext) ==> (#[trigger] formats[i]) != ext,
    decreases formats.len(),
{
    if formats.len() > 0 && formats[0] != ext {
        let rest = formats.drop_first();
        rank_is_the_first_position(rest, ext);
        if formats.contains(ext) {
            let i = choose|i: int| 0 <= i < formats.len() && formats[i] == ext;
            assert(rest[i - 1] == ext);
        }
        if rest.contains(ext) {
            let i = choose|i: int| 0 <= i < rest.len() && rest[i] == ext;
            assert(formats[i + 1] == ext);
        }
        assert forall|i: int| 0 <= i < rank(formats, ext) implies (#[trigger] formats[i]) != ext by {
            if i > 0 {
                assert(rest[i - 1] == formats[i]);
            }
        }
    } else if formats.len() > 0 {
        assert(formats.contains(formats[0]));
    }
}

/// The file that stands for a track is one of its files, and no other file of the
/// track has a format that comes earlier in the format order.
pub proof fn track_stands_for_its_best_file(
    files: Seq<SourceFileView>,
    formats: Seq<Seq<char>>,
    k: int,
)
    requires
        0 <= k < tracks_of(files, formats).len(),
    ensures
        ({
            let track = tracks_of(files, formats)[k];
            &&& exists|i: int| #[trigger] stands_for(files, track, i)
            &&& forall|i: int, j: int, a: int|
                #![trigger stands_for(files, track, i), files[j], formats[a]]
                stands_for(files, track, i) && 0 <= j < files.len() && files[j].track == track.key
                    && 0 <= a < formats.len() && formats[a] == files[j].ext
                    ==> track.best_index <= a && formats[track.best_index as int]
                    == track.best_ext
            &&& forall|j: int|
                0 <= j < files.len() && (#[trigger] files[j]).track == track.key && files[j].ext
                    == track.best_ext ==> exists|i: int|
                    i <= j && #[trigger] stands_for(files, track, i)
        }),
{
    tracks_hold_the_best_files(files, formats);
    let key = distinct_keys(files)[k];
    let b = best_of(files, formats, key);
    let track = tracks_of(files, formats)[k];
    assert(stands_for(files, track, b));
    assert forall|i: int, j: int, a: int|
        #![trigger stands_for(files, track, i), files[j], formats[a]]
        stands_for(files, track, i) && 0 <= j < files.len() && files[j].track == track.key && 0 <= a
            < formats.len() && formats[a] == files[j].ext implies track.best_index <= a
        && formats[track.best_index as int] == track.best_ext by {
        rank_is_the_first_position(formats, files[j].ext);
        rank_is_the_first_position(formats, track.best_ext);
        assert(formats.contains(formats[a]));
    }
}

/// True when a track holds the path, the extension and the identity of a file of
/// its own.
pub open spec fn stands_for(files: Seq<SourceFileView>, track: TrackView, i: int) -> bool {
    &&& 0 <= i < files.len()
    &&& files[i].track == track.key
    &&& files[i].ext == track.best_ext
    &&& files[i].path == track.best_path
    &&& files[i].ino == track.best_ino
}

/// There is one track for each key that files have, and for no other; the tracks
/// come in the order in which their keys first come up.
pub proof fn each_key_has_one_track(
    files: Seq<SourceFileView>,
    formats: Seq<Seq<char>>,
    last: SourceFileView,
)
    ensures
        forall|a: int, b: int|
            0 <= a < b < tracks_of(files, formats).len() ==> (#[trigger] tracks_of(
                files,
                formats,
            )[a]).key != (#[trigger] tracks_of(files, formats)[b]).key,
        forall|j: int|
            0 <= j < files.len() ==> exists|k: int|
                0 <= k < tracks_of(files, formats).len() && (#[trigger] tracks_of(
                    files,
                    formats,
                )[k]).key == (#[trigger] files[j]).track,
        forall|k: int|
            0 <= k < tracks_of(files, formats).len() ==> exists|j: int|
                0 <= j < files.len() && (#[trigger] files[j]).track == (#[trigger] tracks_of(
                    files,
                    formats,
                )[k]).key,
        forall|k: int|
            0 <= k < tracks_of(files, formats).len() ==> (#[trigger] tracks_of(
                files.push(last),
                formats,
            )[k]).key == tracks_of(files, formats)[k].key,
{
    let tracks = tracks_of(files, formats);
    let keys = distinct_keys(files);
    lemma_track_keys(files, formats);
    lemma_track_keys(files.push(last), formats);
    keys_are_distinct_and_complete(files);
    assert(files.push(last).drop_last() =~= files);
    assert forall|j: int| 0 <= j < files.len() implies exists|k: int|
        0 <= k < tracks.len() && (#[trigger] tracks[k]).key == (#[trigger] files[j]).track by {
        assert(keys.contains(files[j].track));
        let k = choose|k: int| 0 <= k < keys.len() && keys[k] == files[j].track;
        assert(tracks[k].key == files[j].track);
    }
    assert forall|k: int| 0 <= k < tracks.len() implies exists|j: int|
        0 <= j < files.len() && (#[trigger] files[j]).track == (#[trigger] tracks[k]).key by {
        assert(tracks[k].key == keys[k]);
    }
    assert forall|k: int| 0 <= k < tracks.len() implies (#[trigger] tracks_of(
        files.push(last),
        formats,
    )[k]).key == tracks[k].key by {
        assert(distinct_keys(files.push(last))[k] == keys[k]);
        assert(tracks[k].key == keys[k]);
    }
}

proof fn lemma_track_keys(files: Seq<SourceFileView>, formats: Seq<Seq<char>>)
    ensures
        tracks_of(files, formats).len() == distinct_keys(files).len(),
        forall|k: int|
            0 <= k < distinct_keys(files).len() ==> (#[trigger] tracks_of(files, formats)[k]).key
                == distinct_keys(files)[k],
{
    tracks_hold_the_best_files(files, formats);
    assert forall|k: int| 0 <= k < distinct_keys(files).len() implies (#[trigger] tracks_of(
        files,
        formats,
    )[k]).key == distinct_keys(files)[k] by {
        let key = distinct_keys(files)[k];
        assert(files[best_of(files, formats, key)].track == key);
    }
}

/// Every managed file is wanted in the per-format trees, and every track in the
/// best-quality tree: one link each, to the file itself and with its identity, and
/// no other link.
pub proof fn each_file_and_track_is_linked_once(
    formats_root: Components,
    max_qual_root: Components,
    files: Seq<SourceFileView>,
    tracks: Seq<TrackView>,
    i: int,
)
    ensures
        format_links(formats_root, files).len() == files.len(),
        track_links(max_qual_root, tracks).len() == tracks.len(),
        0 <= i < files.len() ==> {
            let link = format_links(formats_root, files)[i];
            &&& link.src == files[i].path
            &&& link.ino == files[i].ino
            &&& link.dest == formats_root + seq![encode_utf8(files[i].ext)] + files[i].rel
        },
        0 <= i < tracks.len() ==> {
            let link = track_links(max_qual_root, tracks)[i];
            &&& link.src == tracks[i].best_path
            &&& link.ino == tracks[i].best_ino
            &&& max_qual_root.is_prefix_of(link.dest)
            &&& written(link.dest.skip(max_qual_root.len() as int)) == written(tracks[i].key).push(
                0x2eu8,
            ) + encode_utf8(tracks[i].best_ext)
        },
{
    if 0 <= i < files.len() {
        let ext = encode_utf8(files[i].ext);
        assert(formats_root.push(ext) =~= formats_root + seq![ext]);
    }
    if 0 <= i < tracks.len() {
        let ext = encode_utf8(tracks[i].best_ext);
        let dest = track_links(max_qual_root, tracks)[i].dest;
        extension_comes_last(tracks[i].key, ext);
        assert(dest.skip(max_qual_root.len() as int) =~= crate::path::with_extension(
            tracks[i].key,
            ext,
        ));
        assert(dest.subrange(0, max_qual_root.len() as int) =~= max_qual_root);
    }
}

/// A path is kept exactly when a wanted link stands there.
pub proof fn kept_paths_are_where_links_stand(links: Seq<LinkView>, p: Components)
    ensures
        dests(links).contains(p) <==> exists|i: int|
            0 <= i < links.len() && (#[trigger] links[i]).dest == p,
{
    let all = Seq::new(links.len(), |i: int| links[i].dest);
    if dests(links).contains(p) {
        assert(all.contains(p));
        let i = choose|i: int| 0 <= i < all.len() && all[i] == p;
        assert(links[i].dest == p);
    }
    if exists|i: int| 0 <= i < links.len() && (#[trigger] links[i]).dest == p {
        let i = choose|i: int| 0 <= i < links.len() && (#[trigger] links[i]).dest == p;
        assert(all[i] == p);
    }
}

/// One more outcome of a link adds one to the counter of what was done and to no
/// other, or adds one line where the link failed.
pub proof fn each_outcome_adds_one(
    found: FoundView,
    results: Seq<Result<LinkAction, Seq<char>>>,
    line: Seq<char>,
)
    ensures
        ({
            let before = stats_with_links(found, results);
            let created = stats_with_links(found, results.push(Ok(LinkAction::Created)));
            let replaced = stats_with_links(found, results.push(Ok(LinkAction::Replaced)));
            let standing = stats_with_links(found, results.push(Ok(LinkAction::UpToDate)));
            let failed = stats_with_links(found, results.push(Err(line)));
            &&& created.links_created == before.links_created + 1
            &&& created.links_replaced == before.links_replaced
            &&& created.links_up_to_date == before.links_up_to_date
            &&& created.errors == before.errors
            &&& replaced.links_created == before.links_created
            &&& replaced.links_replaced == before.links_replaced + 1
            &&& replaced.links_up_to_date == before.links_up_to_date
            &&& replaced.errors == before.errors
            &&& standing.links_created == before.links_created
            &&& standing.links_replaced == before.links_replaced
            &&& standing.links_up_to_date == before.links_up_to_date + 1
            &&& standing.errors == before.errors
            &&& failed.links_created == before.links_created
            &&& failed.links_replaced == before.links_replaced
            &&& failed.links_up_to_date == before.links_up_to_date
            &&& failed.errors == before.errors.push(line)
        }),
{
    assert(results.push(Ok(LinkAction::Created)).drop_last() =~= results);
    assert(results.push(Ok(LinkAction::Replaced)).drop_last() =~= results);
    assert(results.push(Ok(LinkAction::UpToDate)).drop_last() =~= results);
    assert(results.push(Err(line)).drop_last() =~= results);
    let before = stats_with_links(found, results);
    let failed = stats_with_links(found, results.push(Err(line)));
    assert(failed.errors =~= before.errors.push(line));
}

/// Before any link has an outcome, the counters tell of the scan alone.
pub proof fn counters_start_with_the_scan(found: FoundView)
    ensures
        ({
            let stats = stats_with_links(found, seq![]);
            &&& stats.regular_files == found.regular_files
            &&& stats.managed_files == found.files.len()
            &&& stats.tracks == found.tracks.len()
            &&& stats.links_created == 0
            &&& stats.links_replaced == 0
            &&& stats.links_up_to_date == 0
            &&& stats.files_removed == 0
            &&& stats.dirs_removed == 0
            &&& stats.errors == found.errors
        }),
{
    assert(found.errors + failures_among(seq![]) =~= found.errors);
}

/// Dropping repeated paths keeps each path once, where it first came up.
pub proof fn each_path_stays_once(paths: Seq<Components>, last: Components)
    ensures
        distinct_paths(seq![]) == Seq::<Components>::empty(),
        paths.contains(last) ==> distinct_paths(paths.push(last)) == distinct_paths(paths),
        !paths.contains(last) ==> distinct_paths(paths.push(last)) == distinct_paths(paths).push(
            last,
        ),
{
    assert(paths.push(last).drop_last() =~= paths);
    lemma_distinct_paths(paths, last);
}

proof fn lemma_distinct_paths(paths: Seq<Components>, p: Components)
    ensures
        distinct_paths(paths).contains(p) <==> paths.contains(p),
    decreases paths.len(),
{
    if paths.len() > 0 {
        let before = paths.drop_last();
        let kept = distinct_paths(before);
        let all = distinct_paths(paths);
        lemma_distinct_paths(before, p);
        lemma_distinct_paths(before, paths.last());
        if paths.contains(p) {
            let i = choose|i: int| 0 <= i < paths.len() && paths[i] == p;
            if i < before.len() {
                assert(before[i] == p);
            }
        }
        if before.contains(p) {
            let i = choose|i: int| 0 <= i < before.len() && before[i] == p;
            assert(paths[i] == p);
        }
        assert(paths[paths.len() - 1] == paths.last());
        if !kept.contains(paths.last()) {
            assert(all == kept.push(paths.last()));
            if kept.contains(p) {
                let i = choose|i: int| 0 <= i < kept.len() && kept[i] == p;
                assert(all[i] == p);
            }
            assert(all[kept.len() as int] == paths.last());
            if all.contains(p) {
                let i = choose|i: int| 0 <= i < all.len() && all[i] == p;
                if i < kept.len() {
                    assert(kept[i] == p);
                }
            }
        }
    }
}

/// The directories above a path are those that it lies below, and the path itself
/// is none of them.
pub proof fn directories_above_hold_the_path(path: Components, name: Seq<u8>, dir: Components)
    ensures
        above(set![path]).contains(dir) <==> dir.len() < path.len() && dir == path.take(
            dir.len() as int,
        ),
        above(set![path.push(name)]).contains(path),
{
    assert(set![path].contains(path));
    if dir.len() < path.len() && dir == path.take(dir.len() as int) {
        assert(dir =~= path.subrange(0, dir.len() as int));
        assert(dir.is_prefix_of(path));
    }
    if above(set![path]).contains(dir) {
        assert(dir.is_prefix_of(path) && dir != path);
        assert(dir =~= path.take(dir.len() as int));
        if dir.len() == path.len() {
            assert(dir =~= path);
        }
    }
    let longer = path.push(name);
    assert(set![longer].contains(longer));
    assert(path =~= longer.subrange(0, path.len() as int));
    assert(path.len() != longer.len());
}

} // verus!
