//! What does not depend on the order in which the source tree is listed.

use vstd::prelude::*;

use crate::config::ConfigView;
use crate::count_laws::every_link_is_counted_once;
use crate::link::{LinkAction, LinkView};
use crate::link_laws::is_dest;
use crate::model::{is_sound, Fs, Node};
use crate::outcome_laws::lemma_dests;
use crate::path::Components;
use crate::plan::{count_of, dests, failures_among, format_links, track_links};
use crate::plan_laws::{
    managed_files_are_proper, track_link_mirrors_the_source, tracks_hold_the_best_files,
    wanted_links_agree,
};
use crate::run::output_roots;
use crate::run_laws::{
    are_files_of, found_is_right, is_ready, links_of, outcome_of, outcomes_in, wanted_in_formats,
    wanted_in_tracks,
};
use crate::scan::{
    best_of, distinct_keys, is_best, keys_are_distinct_and_complete, rank, tracks_of, FoundView,
    SourceFileView, TrackView,
};
use crate::scan_laws::{file_at, has_file, is_managed, is_named, regular_files_in, unnamed_files_in};
use crate::survey_laws::permit_in;
use crate::walk::is_excluded;

verus! {

/// True when two file systems have the same managed files.
pub open spec fn same_managed(a: Fs, b: Fs, config: ConfigView) -> bool {
    forall|p: Components|
        {
            &&& is_managed(a, config.source, output_roots(config), config.formats, p) <==> (
            #[trigger] is_managed(b, config.source, output_roots(config), config.formats, p))
            &&& is_managed(a, config.source, output_roots(config), config.formats, p) ==> file_at(
                a,
                config.source,
                p,
            ) == file_at(b, config.source, p)
        }
}

/// True when `files` and `again` are the managed files of two file systems that
/// have the same ones, each in some order.
pub open spec fn are_like_files(
    a: Fs,
    b: Fs,
    config: ConfigView,
    files: Seq<SourceFileView>,
    again: Seq<SourceFileView>,
) -> bool {
    &&& is_sound(a, config.source)
    &&& are_files_of(a, config, files)
    &&& are_files_of(b, config, again)
    &&& same_managed(a, b, config)
}

/// True when two lists hold the same.
pub open spec fn hold_the_same<A>(a: Seq<A>, b: Seq<A>) -> bool {
    forall|x: A|
        #![trigger a.contains(x)]
        #![trigger b.contains(x)]
        a.contains(x) <==> b.contains(x)
}

/// A format is found at its rank.
proof fn lemma_rank(formats: Seq<Seq<char>>, ext: Seq<char>)
    requires
        formats.contains(ext),
    ensures
        rank(formats, ext) < formats.len(),
        formats[rank(formats, ext) as int] == ext,
    decreases formats.len(),
{
    if formats[0] != ext {
        let rest = formats.drop_first();
        let i = choose|i: int| 0 <= i < formats.len() && formats[i] == ext;
        assert(rest[i - 1] == ext);
        lemma_rank(rest, ext);
    }
}

/// Each file of the second list is in the first.
proof fn lemma_same_files(
    a: Fs,
    b: Fs,
    config: ConfigView,
    files: Seq<SourceFileView>,
    again: Seq<SourceFileView>,
    j: int,
) -> (i: int)
    requires
        are_like_files(a, b, config, files, again),
        0 <= j < again.len(),
    ensures
        0 <= i < files.len(),
        files[i] == again[j],
{
    let p = again[j].path;
    assert(is_managed(b, config.source, output_roots(config), config.formats, again[j].path));
    assert(has_file(files, p));
    let i = choose|i: int| 0 <= i < files.len() && (#[trigger] files[i]).path == p;
    assert(files[i] == file_at(a, config.source, files[i].path));
    i
}

/// And the other way round.
proof fn lemma_same_files_back(
    a: Fs,
    b: Fs,
    config: ConfigView,
    files: Seq<SourceFileView>,
    again: Seq<SourceFileView>,
    i: int,
) -> (j: int)
    requires
        are_like_files(a, b, config, files, again),
        0 <= i < files.len(),
    ensures
        0 <= j < again.len(),
        files[i] == again[j],
{
    let p = files[i].path;
    assert(is_managed(a, config.source, output_roots(config), config.formats, files[i].path));
    assert(is_managed(b, config.source, output_roots(config), config.formats, p));
    assert(has_file(again, p));
    let j = choose|j: int| 0 <= j < again.len() && (#[trigger] again[j]).path == p;
    assert(again[j] == file_at(b, config.source, again[j].path));
    j
}

/// Two files of one track and one format are one file.
proof fn lemma_one_file_per_track_and_format(
    fs: Fs,
    config: ConfigView,
    files: Seq<SourceFileView>,
    a: int,
    b: int,
)
    requires
        is_sound(fs, config.source),
        are_files_of(fs, config, files),
        0 <= a < files.len(),
        0 <= b < files.len(),
        files[a].track == files[b].track,
        files[a].ext == files[b].ext,
    ensures
        a == b,
{
    let f = files[a];
    let g = files[b];
    let roots = output_roots(config);
    assert(is_managed(fs, config.source, roots, config.formats, files[a].path));
    assert(is_managed(fs, config.source, roots, config.formats, files[b].path));
    managed_files_are_proper(fs, config.source, roots, config.formats, f.path);
    managed_files_are_proper(fs, config.source, roots, config.formats, g.path);
    let m = config.max_qual_root;
    track_link_mirrors_the_source(config.source, m, f, config.formats);
    track_link_mirrors_the_source(config.source, m, g, config.formats);
    assert(m + f.rel == m + g.rel);
    assert(f.rel =~= (m + f.rel).skip(m.len() as int));
    assert(g.rel =~= (m + g.rel).skip(m.len() as int));
    assert(f.path == g.path);
}

/// The best file of a track is the same, in whatever order the files come up.
proof fn lemma_same_best(
    a: Fs,
    b: Fs,
    config: ConfigView,
    files: Seq<SourceFileView>,
    again: Seq<SourceFileView>,
    key: Components,
    i: int,
    j: int,
)
    requires
        are_like_files(a, b, config, files, again),
        is_best(files, config.formats, key, i),
        is_best(again, config.formats, key, j),
    ensures
        files[i] == again[j],
{
    let formats = config.formats;
    let i2 = lemma_same_files_back(a, b, config, files, again, i);
    let j2 = lemma_same_files(a, b, config, files, again, j);
    assert(again[i2].track == key);
    assert(files[j2].track == key);
    assert(rank(formats, files[i].ext) == rank(formats, files[j2].ext));
    assert(is_managed(a, config.source, output_roots(config), formats, files[i].path));
    assert(is_managed(a, config.source, output_roots(config), formats, files[j2].path));
    lemma_rank(formats, files[i].ext);
    lemma_rank(formats, files[j2].ext);
    lemma_one_file_per_track_and_format(a, config, files, i, j2);
}

/// Each track of the second list is one of the first, with the same best file.
proof fn lemma_same_track(
    a: Fs,
    b: Fs,
    config: ConfigView,
    files: Seq<SourceFileView>,
    again: Seq<SourceFileView>,
    n: int,
) -> (k: int)
    requires
        are_like_files(a, b, config, files, again),
        0 <= n < tracks_of(again, config.formats).len(),
    ensures
        0 <= k < tracks_of(files, config.formats).len(),
        tracks_of(files, config.formats)[k] == tracks_of(again, config.formats)[n],
{
    let formats = config.formats;
    tracks_hold_the_best_files(files, formats);
    tracks_hold_the_best_files(again, formats);
    keys_are_distinct_and_complete(files);
    let key = distinct_keys(again)[n];
    let j = best_of(again, formats, key);
    assert(is_best(again, formats, key, j));
    let j2 = lemma_same_files(a, b, config, files, again, j);
    assert(distinct_keys(files).contains(files[j2].track));
    let k = choose|k: int| 0 <= k < distinct_keys(files).len() && distinct_keys(files)[k] == key;
    let i = best_of(files, formats, distinct_keys(files)[k]);
    assert(is_best(files, formats, key, i));
    lemma_same_best(a, b, config, files, again, key, i, j);
    k
}

/// And the other way round.
proof fn lemma_same_track_back(
    a: Fs,
    b: Fs,
    config: ConfigView,
    files: Seq<SourceFileView>,
    again: Seq<SourceFileView>,
    k: int,
) -> (n: int)
    requires
        are_like_files(a, b, config, files, again),
        0 <= k < tracks_of(files, config.formats).len(),
    ensures
        0 <= n < tracks_of(again, config.formats).len(),
        tracks_of(files, config.formats)[k] == tracks_of(again, config.formats)[n],
{
    let formats = config.formats;
    tracks_hold_the_best_files(files, formats);
    tracks_hold_the_best_files(again, formats);
    keys_are_distinct_and_complete(again);
    let key = distinct_keys(files)[k];
    let i = best_of(files, formats, key);
    assert(is_best(files, formats, key, i));
    let i2 = lemma_same_files_back(a, b, config, files, again, i);
    assert(distinct_keys(again).contains(again[i2].track));
    let n = choose|n: int| 0 <= n < distinct_keys(again).len() && distinct_keys(again)[n] == key;
    let j = best_of(again, formats, distinct_keys(again)[n]);
    assert(is_best(again, formats, key, j));
    lemma_same_best(a, b, config, files, again, key, i, j);
    n
}

/// Lists that hold the same, each thing once, are equally long.
proof fn lemma_same_length<A>(a: Seq<A>, b: Seq<A>)
    requires
        a.no_duplicates(),
        b.no_duplicates(),
        hold_the_same(a, b),
    ensures
        a.len() == b.len(),
{
    a.unique_seq_to_set();
    b.unique_seq_to_set();
    assert(a.to_set() =~= b.to_set());
}

/// The managed files and the tracks with their best files do not depend on the
/// order in which the files come up, nor do their numbers.
pub proof fn files_and_tracks_do_not_depend_on_order(
    a: Fs,
    b: Fs,
    config: ConfigView,
    files: Seq<SourceFileView>,
    again: Seq<SourceFileView>,
)
    requires
        are_like_files(a, b, config, files, again),
    ensures
        hold_the_same(files, again),
        files.len() == again.len(),
        hold_the_same(tracks_of(files, config.formats), tracks_of(again, config.formats)),
        tracks_of(files, config.formats).len() == tracks_of(again, config.formats).len(),
{
    assert forall|file: SourceFileView| #[trigger] files.contains(file) <==> again.contains(
        file,
    ) by {
        if files.contains(file) {
            let i = choose|i: int| 0 <= i < files.len() && files[i] == file;
            let j = lemma_same_files_back(a, b, config, files, again, i);
            assert(again[j] == file);
        }
        if again.contains(file) {
            let j = choose|j: int| 0 <= j < again.len() && again[j] == file;
            let i = lemma_same_files(a, b, config, files, again, j);
            assert(files[i] == file);
        }
    }
    assert forall|i: int, j: int| 0 <= i < files.len() && 0 <= j < files.len() && i != j implies files[i]
        != files[j] by {
        assert(files[i].path != files[j].path);
    }
    assert forall|i: int, j: int| 0 <= i < again.len() && 0 <= j < again.len() && i != j implies again[i]
        != again[j] by {
        assert(again[i].path != again[j].path);
    }
    lemma_same_length(files, again);
    let tracks = tracks_of(files, config.formats);
    let tracks_again = tracks_of(again, config.formats);
    assert forall|track: TrackView| #[trigger] tracks.contains(track) <==> tracks_again.contains(
        track,
    ) by {
        if tracks.contains(track) {
            let k = choose|k: int| 0 <= k < tracks.len() && tracks[k] == track;
            let n = lemma_same_track_back(a, b, config, files, again, k);
            assert(tracks_again[n] == track);
        }
        if tracks_again.contains(track) {
            let n = choose|n: int| 0 <= n < tracks_again.len() && tracks_again[n] == track;
            let k = lemma_same_track(a, b, config, files, again, n);
            assert(tracks[k] == track);
        }
    }
    lemma_tracks_are_distinct(files, config.formats);
    lemma_tracks_are_distinct(again, config.formats);
    lemma_same_length(tracks, tracks_again);
}

/// No track is there twice.
proof fn lemma_tracks_are_distinct(files: Seq<SourceFileView>, formats: Seq<Seq<char>>)
    ensures
        tracks_of(files, formats).no_duplicates(),
{
    tracks_hold_the_best_files(files, formats);
    keys_are_distinct_and_complete(files);
    let keys = distinct_keys(files);
    let tracks = tracks_of(files, formats);
    assert forall|i: int, j: int| 0 <= i < tracks.len() && 0 <= j < tracks.len() && i != j implies tracks[i]
        != tracks[j] by {
        assert(is_best(files, formats, keys[i], best_of(files, formats, keys[i])));
        assert(is_best(files, formats, keys[j], best_of(files, formats, keys[j])));
        assert(tracks[i].key == keys[i]);
        assert(tracks[j].key == keys[j]);
    }
}

/// The links that are wanted in each tree do not depend on the order in which the
/// files come up.
pub proof fn wanted_links_do_not_depend_on_order(
    a: Fs,
    b: Fs,
    config: ConfigView,
    files: Seq<SourceFileView>,
    again: Seq<SourceFileView>,
)
    requires
        are_like_files(a, b, config, files, again),
    ensures
        hold_the_same(
            format_links(config.formats_root, files),
            format_links(config.formats_root, again),
        ),
        hold_the_same(
            track_links(config.max_qual_root, tracks_of(files, config.formats)),
            track_links(config.max_qual_root, tracks_of(again, config.formats)),
        ),
        wanted_in_formats(config, files) == wanted_in_formats(config, again),
        wanted_in_tracks(config, files) == wanted_in_tracks(config, again),
{
    let f = config.formats_root;
    let m = config.max_qual_root;
    let formats = format_links(f, files);
    let formats_again = format_links(f, again);
    let tracks = track_links(m, tracks_of(files, config.formats));
    let tracks_again = track_links(m, tracks_of(again, config.formats));
    assert forall|link: LinkView| #[trigger] formats.contains(link) <==> formats_again.contains(
        link,
    ) by {
        if formats.contains(link) {
            let i = choose|i: int| 0 <= i < formats.len() && formats[i] == link;
            let j = lemma_same_files_back(a, b, config, files, again, i);
            assert(formats_again[j] == link);
        }
        if formats_again.contains(link) {
            let j = choose|j: int| 0 <= j < formats_again.len() && formats_again[j] == link;
            let i = lemma_same_files(a, b, config, files, again, j);
            assert(formats[i] == link);
        }
    }
    assert forall|link: LinkView| #[trigger] tracks.contains(link) <==> tracks_again.contains(
        link,
    ) by {
        if tracks.contains(link) {
            let k = choose|k: int| 0 <= k < tracks.len() && tracks[k] == link;
            let n = lemma_same_track_back(a, b, config, files, again, k);
            assert(tracks_again[n] == link);
        }
        if tracks_again.contains(link) {
            let n = choose|n: int| 0 <= n < tracks_again.len() && tracks_again[n] == link;
            let k = lemma_same_track(a, b, config, files, again, n);
            assert(tracks[k] == link);
        }
    }
    lemma_same_dests(formats, formats_again);
    lemma_same_dests(tracks, tracks_again);
}

/// Lists of the same links stand at the same places.
proof fn lemma_same_dests(a: Seq<LinkView>, b: Seq<LinkView>)
    requires
        hold_the_same(a, b),
    ensures
        dests(a) == dests(b),
{
    assert forall|p: Components| dests(a).contains(p) <==> dests(
        b,
    ).contains(p) by {
        lemma_dests(a, p);
        lemma_dests(b, p);
        if is_dest(a, p) {
            let i = choose|i: int| 0 <= i < a.len() && (#[trigger] a[i]).dest == p;
            assert(a.contains(a[i]));
            let j = choose|j: int| 0 <= j < b.len() && b[j] == a[i];
            assert(b[j].dest == p);
        }
        if is_dest(b, p) {
            let j = choose|j: int| 0 <= j < b.len() && (#[trigger] b[j]).dest == p;
            assert(b.contains(b[j]));
            let i = choose|i: int| 0 <= i < a.len() && a[i] == b[j];
            assert(a[i].dest == p);
        }
    }
    assert(dests(a) =~= dests(b));
}

/// What comes of the wanted links does not depend on the order in which the files
/// come up: as many call for each action, and as many are refused.
pub proof fn outcomes_do_not_depend_on_order(
    a: Fs,
    b: Fs,
    config: ConfigView,
    files: Seq<SourceFileView>,
    again: Seq<SourceFileView>,
    fs: Fs,
)
    requires
        is_ready(a, config),
        is_ready(b, config),
        are_like_files(a, b, config, files, again),
    ensures
        hold_the_same(links_of(config, files), links_of(config, again)),
        links_of(config, files).len() == links_of(config, again).len(),
        forall|action: LinkAction| #[trigger]
            count_of(outcomes_in(fs, config, links_of(config, files)), action) == count_of(
                outcomes_in(fs, config, links_of(config, again)),
                action,
            ),
        failures_among(outcomes_in(fs, config, links_of(config, files))).len() == failures_among(
            outcomes_in(fs, config, links_of(config, again)),
        ).len(),
{
    let links = links_of(config, files);
    let links_again = links_of(config, again);
    let f = config.formats_root;
    let m = config.max_qual_root;
    wanted_links_do_not_depend_on_order(a, b, config, files, again);
    assert forall|link: LinkView|
        #![trigger links.contains(link)]
        #![trigger links_again.contains(link)]
        links.contains(link) <==> links_again.contains(link) by {
        lemma_links_in_either(
            format_links(f, files),
            track_links(m, tracks_of(files, config.formats)),
            link,
        );
        lemma_links_in_either(
            format_links(f, again),
            track_links(m, tracks_of(again, config.formats)),
            link,
        );
    }
    lemma_wanted_are_distinct(a, config, files);
    lemma_wanted_are_distinct(b, config, again);
    lemma_same_length(links, links_again);
    assert forall|action: LinkAction| #[trigger]
        count_of(outcomes_in(fs, config, links), action) == count_of(
            outcomes_in(fs, config, links_again),
            action,
        ) by {
        lemma_count_as_set(fs, config, links, action);
        lemma_count_as_set(fs, config, links_again, action);
        assert(calling_for(fs, config, links, action) =~= calling_for(
            fs,
            config,
            links_again,
            action,
        ));
    }
    every_link_is_counted_once(outcomes_in(fs, config, links));
    every_link_is_counted_once(outcomes_in(fs, config, links_again));
}

/// What two lists of links hold together.
proof fn lemma_links_in_either(a: Seq<LinkView>, b: Seq<LinkView>, link: LinkView)
    ensures
        (a + b).contains(link) <==> a.contains(link) || b.contains(link),
{
    if a.contains(link) {
        let i = choose|i: int| 0 <= i < a.len() && a[i] == link;
        assert((a + b)[i] == link);
    }
    if b.contains(link) {
        let i = choose|i: int| 0 <= i < b.len() && b[i] == link;
        assert((a + b)[a.len() + i] == link);
    }
    if (a + b).contains(link) {
        let i = choose|i: int| 0 <= i < (a + b).len() && (a + b)[i] == link;
        if i < a.len() {
            assert(a[i] == link);
        } else {
            assert(b[i - a.len()] == link);
        }
    }
}

/// No link is wanted twice.
proof fn lemma_wanted_are_distinct(a: Fs, config: ConfigView, files: Seq<SourceFileView>)
    requires
        is_ready(a, config),
        are_files_of(a, config, files),
    ensures
        links_of(config, files).no_duplicates(),
{
    let links = links_of(config, files);
    wanted_links_agree(
        a,
        config.source,
        config.formats_root,
        config.max_qual_root,
        config.formats,
        files,
    );
    assert forall|i: int, j: int|
        0 <= i < links.len() && 0 <= j < links.len() && i != j implies links[i] != links[j] by {
        assert(!links[i].dest.is_prefix_of(links[j].dest));
        assert(links[j].dest =~= links[j].dest.subrange(0, links[j].dest.len() as int));
    }
}

/// The links of which an action comes.
spec fn calling_for(
    fs: Fs,
    config: ConfigView,
    links: Seq<LinkView>,
    action: LinkAction,
) -> Set<LinkView> {
    Set::new(
        |link: LinkView|
            links.contains(link) && outcome_of(fs, link, permit_in(fs, config, link)) == Ok::<
                LinkAction,
                Seq<char>,
            >(action),
    )
}

/// The number of links of which an action comes, as the size of a set.
proof fn lemma_count_as_set(fs: Fs, config: ConfigView, links: Seq<LinkView>, action: LinkAction)
    requires
        links.no_duplicates(),
    ensures
        calling_for(fs, config, links, action).finite(),
        count_of(outcomes_in(fs, config, links), action) == calling_for(
            fs,
            config,
            links,
            action,
        ).len(),
    decreases links.len(),
{
    if links.len() == 0 {
        assert(calling_for(fs, config, links, action) =~= Set::empty());
    } else {
        let before = links.drop_last();
        let link = links.last();
        lemma_count_as_set(fs, config, before, action);
        assert(outcomes_in(fs, config, links).drop_last() =~= outcomes_in(fs, config, before));
        assert(links[links.len() - 1] == link);
        if before.contains(link) {
            let i = choose|i: int| 0 <= i < before.len() && before[i] == link;
            assert(links[i] != links[links.len() - 1]);
        }
        assert forall|x: LinkView| links.contains(x) <==> before.contains(x) || x == link by {
            if before.contains(x) {
                let i = choose|i: int| 0 <= i < before.len() && before[i] == x;
                assert(links[i] == x);
            }
            if links.contains(x) && x != link {
                let i = choose|i: int| 0 <= i < links.len() && links[i] == x;
                assert(before[i] == x);
            }
        }
        let old_set = calling_for(fs, config, before, action);
        if outcome_of(fs, link, permit_in(fs, config, link)) == Ok::<LinkAction, Seq<char>>(
            action,
        ) {
            assert(calling_for(fs, config, links, action) =~= old_set.insert(link));
        } else {
            assert(calling_for(fs, config, links, action) =~= old_set);
        }
    }
}

/// One more regular file in the source tree, whose name is text and has no managed
/// extension, outside the output trees: it is counted, and nothing else changes.
/// The same files are found, the same tracks with the same best files, and the same
/// problems.
pub proof fn unmanaged_file_is_only_counted(
    fs: Fs,
    config: ConfigView,
    p: Components,
    node: Node,
    found: FoundView,
    again: FoundView,
)
    requires
        is_sound(fs, config.source),
        found_is_right(fs, config, found),
        found_is_right(fs.insert(p, node), config, again),
        !fs.contains_key(p),
        node is File,
        config.source.is_prefix_of(p),
        !is_excluded(p, output_roots(config)),
        is_named(p),
        !is_managed(
            fs.insert(p, node),
            config.source,
            output_roots(config),
            config.formats,
            p,
        ),
    ensures
        again.regular_files == found.regular_files + 1,
        hold_the_same(found.files, again.files),
        found.files.len() == again.files.len(),
        hold_the_same(found.tracks, again.tracks),
        found.tracks.len() == again.tracks.len(),
        again.errors == found.errors,
{
    let after = fs.insert(p, node);
    let source = config.source;
    let roots = output_roots(config);
    assert(same_managed(fs, after, config));
    files_and_tracks_do_not_depend_on_order(fs, after, config, found.files, again.files);
    assert(regular_files_in(after, source, roots) =~= regular_files_in(fs, source, roots).insert(p));
    assert(unnamed_files_in(after, source, roots) =~= unnamed_files_in(fs, source, roots));
}

} // verus!
