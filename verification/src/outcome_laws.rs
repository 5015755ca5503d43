//! What a file system is like at the end of a run.

use vstd::prelude::*;

use crate::clean::stfolder_name;
use crate::clean_laws::{is_anchor, is_open};
use crate::config::{layout_problem, ConfigView};
use crate::link::LinkView;
use crate::link_laws::{is_above_dest, is_dest};
use crate::model::{
    is_dir, is_real, lemma_longer, lemma_prefix_transitive, lemma_prefixes_nest, place_of, Fs, Node,
};
use crate::path::{strictly_under, written, Components};
use crate::plan::{dests, format_links, track_links};
use crate::prune_laws::is_hollow;
use crate::run::{marker_of, output_roots};
use crate::run_laws::{
    are_files_of, detours_of, is_ready, leads_aside, lemma_above_roots,
    lemma_detours_add_nothing_toward, lemma_detours_of_run, lemma_direct_link, lemma_is_detour,
    lemma_is_direct, lemma_link_of_run, lemma_links_of_run, lemma_outputs_are_apart, links_direct,
    links_of, outcome_of, reconciled, wanted_in_formats, wanted_in_tracks, way_was_clear,
    with_both_cleared, with_detours, with_formats_cleared, with_links, with_roots,
};
use crate::scan::{tracks_of, SourceFileView};
use crate::survey_laws::{lemma_real_place, permit_in, permits_in};
use crate::tree_laws::cleared;

verus! {

/// The places of links, as a set.
pub(crate) proof fn lemma_dests(links: Seq<LinkView>, p: Components)
    ensures
        dests(links).contains(p) <==> is_dest(links, p),
{
    let all = Seq::new(links.len(), |i: int| links[i].dest);
    assert(all.to_set().contains(p) <==> all.contains(p));
    if is_dest(links, p) {
        let i = choose|i: int| 0 <= i < links.len() && (#[trigger] links[i]).dest == p;
        assert(all[i] == p);
    }
    if all.contains(p) {
        let i = choose|i: int| 0 <= i < all.len() && all[i] == p;
        assert(links[i].dest == p);
    }
}

/// The place of a wanted link is wanted in its tree.
pub(crate) proof fn lemma_link_is_wanted(config: ConfigView, files: Seq<SourceFileView>, n: int)
    requires
        0 <= n < links_of(config, files).len(),
    ensures
        n < files.len() ==> wanted_in_formats(config, files).contains(
            links_of(config, files)[n].dest,
        ),
        n >= files.len() ==> wanted_in_tracks(config, files).contains(
            links_of(config, files)[n].dest,
        ),
{
    let of_formats = format_links(config.formats_root, files);
    let of_tracks = track_links(
        config.max_qual_root,
        tracks_of(files, config.formats),
    );
    let dest = links_of(config, files)[n].dest;
    if n < files.len() {
        assert(of_formats[n].dest == dest);
        lemma_dests(of_formats, dest);
    } else {
        assert(of_tracks[n - files.len()].dest == dest);
        lemma_dests(of_tracks, dest);
    }
}

/// A direct link stands after a run.
pub(crate) proof fn lemma_direct_link_stands(
    start: Fs,
    config: ConfigView,
    files: Seq<SourceFileView>,
    i: int,
)
    requires
        is_ready(start, config),
        are_files_of(start, config, files),
        way_was_clear(start, config, files),
        0 <= i < links_direct(with_roots(start, config), config, files).len(),
    ensures
        ({
            let link = links_direct(with_roots(start, config), config, files)[i];
            &&& reconciled(start, config, files).contains_key(link.dest)
            &&& reconciled(start, config, files)[link.dest] == Node::File(link.ino)
        }),
{
    let direct = links_direct(with_roots(start, config), config, files);
    let link = direct[i];
    let dest = link.dest;
    let linked = with_links(start, config, files);
    let first = with_formats_cleared(start, config, files);
    assert(linked.contains_key(dest) && linked[dest] == Node::File(link.ino)) by {
        lemma_links_of_run(start, config, files);
        assert(linked.contains_key(direct[i].dest));
    }
    let n = lemma_direct_link(with_roots(start, config), links_of(config, files), i);
    lemma_link_of_run(start, config, files, n);
    lemma_link_is_wanted(config, files, n);
    if n < files.len() {
        lemma_outputs_are_apart(config, dest);
        lemma_wanted_file_stays(
            linked,
            config.formats_root,
            wanted_in_formats(config, files),
            dest,
        );
        lemma_elsewhere_stays(first, config.max_qual_root, wanted_in_tracks(config, files), dest);
    } else {
        if config.formats_root.is_prefix_of(dest) {
            lemma_outputs_are_apart(config, dest);
        }
        lemma_elsewhere_stays(linked, config.formats_root, wanted_in_formats(config, files), dest);
        lemma_wanted_file_stays(
            first,
            config.max_qual_root,
            wanted_in_tracks(config, files),
            dest,
        );
    }
}

/// What is outside the output trees once links have been created elsewhere stays.
pub(crate) proof fn lemma_aside_stays(
    start: Fs,
    config: ConfigView,
    files: Seq<SourceFileView>,
    p: Components,
)
    requires
        is_ready(start, config),
        are_files_of(start, config, files),
        way_was_clear(start, config, files),
        with_detours(start, config, files).contains_key(p),
        !config.formats_root.is_prefix_of(p),
        !config.max_qual_root.is_prefix_of(p),
    ensures
        reconciled(start, config, files).contains_key(p),
        reconciled(start, config, files)[p] == with_detours(start, config, files)[p],
{
    lemma_links_add_nothing_outside(start, config, files, p);
    assert(with_formats_cleared(start, config, files).contains_key(p));
    assert(with_both_cleared(start, config, files).contains_key(p));
}

/// After a run every wanted link stands that was not refused: the file at the place
/// that it leads to is the source file.
pub proof fn every_wanted_link_stands(
    start: Fs,
    config: ConfigView,
    files: Seq<SourceFileView>,
    n: int,
)
    requires
        is_ready(start, config),
        are_files_of(start, config, files),
        way_was_clear(start, config, files),
        0 <= n < links_of(config, files).len(),
        outcome_of(
            with_roots(start, config),
            links_of(config, files)[n],
            permit_in(with_roots(start, config), config, links_of(config, files)[n]),
        ) is Ok,
    ensures
        ({
            let link = links_of(config, files)[n];
            let place = place_of(with_roots(start, config), link.dest);
            &&& reconciled(start, config, files).contains_key(place)
            &&& reconciled(start, config, files)[place] == Node::File(link.ino)
        }),
{
    let rooted = with_roots(start, config);
    let links = links_of(config, files);
    let permits = permits_in(rooted, config, links);
    let link = links[n];
    let place = place_of(rooted, link.dest);
    if is_real(rooted, link.dest.drop_last()) {
        lemma_real_place(rooted, link.dest);
        let i = lemma_is_direct(rooted, links, n);
        lemma_direct_link_stands(start, config, files, i);
    } else {
        let base = with_detours(start, config, files);
        assert(leads_aside(rooted, config, links[n].dest));
        lemma_detours_of_run(start, config, files);
        if rooted.contains_key(place) {
            assert(base[place] == rooted[place]);
        } else {
            let i = lemma_is_detour(rooted, links, permits, n);
            assert(base.contains_key(detours_of(rooted, config, files)[i].dest));
        }
        lemma_aside_stays(start, config, files, place);
    }
}

/// Clearing a tree keeps wanted files.
proof fn lemma_wanted_file_stays(fs: Fs, root: Components, keep: Set<Components>, p: Components)
    requires
        fs.contains_key(p),
        fs[p] is File,
        keep.contains(p),
    ensures
        cleared(fs, root, keep).contains_key(p),
        cleared(fs, root, keep)[p] == fs[p],
{
}

/// Clearing a tree keeps what is not in it.
proof fn lemma_elsewhere_stays(fs: Fs, root: Components, keep: Set<Components>, p: Components)
    requires
        fs.contains_key(p),
        !strictly_under(p, root),
    ensures
        cleared(fs, root, keep).contains_key(p),
        cleared(fs, root, keep)[p] == fs[p],
{
}

/// After a run the output trees hold no regular file but the wanted links, but
/// for what marker directories hide.
pub proof fn no_other_file_stays(
    start: Fs,
    config: ConfigView,
    files: Seq<SourceFileView>,
    p: Components,
)
    requires
        is_ready(start, config),
        are_files_of(start, config, files),
        way_was_clear(start, config, files),
        reconciled(start, config, files).contains_key(p),
        reconciled(start, config, files)[p] is File,
    ensures
        strictly_under(p, config.formats_root) && is_open(config.formats_root, p.drop_last())
            ==> wanted_in_formats(config, files).contains(p),
        strictly_under(p, config.max_qual_root) && is_open(config.max_qual_root, p.drop_last())
            ==> wanted_in_tracks(config, files).contains(p),
{
    let both = with_both_cleared(start, config, files);
    let first = with_formats_cleared(start, config, files);
    assert(both.contains_key(p) && both[p] is File);
    assert(first.contains_key(p) && first[p] is File);
    assert(with_links(start, config, files).contains_key(p));
}

/// What is added for the marker lies in no output tree but for the marker.
proof fn lemma_marker_adds(config: ConfigView, p: Components)
    requires
        layout_problem(config.source, config.formats_root, config.max_qual_root) is None,
        p.is_prefix_of(marker_of(config)),
    ensures
        !strictly_under(p, config.formats_root),
        strictly_under(p, config.max_qual_root) ==> p == marker_of(config),
        p == marker_of(config) || p.is_prefix_of(config.max_qual_root),
{
    let m = config.max_qual_root;
    let f = config.formats_root;
    let marker = marker_of(config);
    assert(m =~= marker.subrange(0, m.len() as int));
    if p.len() <= m.len() {
        lemma_prefixes_nest(p, m, marker);
        if strictly_under(p, m) {
            lemma_longer(p, m);
        }
        if strictly_under(p, f) {
            lemma_longer(p, f);
            lemma_prefix_transitive(f, p, m);
            assert(strictly_under(m, f));
        }
    } else {
        assert(p =~= marker.subrange(0, p.len() as int));
        assert(p =~= marker);
        if strictly_under(p, f) {
            lemma_outputs_are_apart(config, p);
        }
    }
}

/// What keeps a directory from being pruned survives the clearing of its tree.
proof fn lemma_anchor_stays(fs: Fs, root: Components, keep: Set<Components>, q: Components)
    requires
        is_anchor(fs, keep, q),
        strictly_under(q, root),
    ensures
        is_anchor(cleared(fs, root, keep), keep, q),
{
    lemma_longer(q, root);
    if fs[q] == Node::Dir {
        assert(q[q.len() - 1] == stfolder_name());
        assert(!is_open(root, q));
    }
}

/// After a run no directory of the per-format trees is left without anything to
/// hold, but for what marker directories hide.
pub proof fn no_hollow_directory_stays_in_formats(
    start: Fs,
    config: ConfigView,
    files: Seq<SourceFileView>,
    p: Components,
)
    requires
        is_ready(start, config),
        are_files_of(start, config, files),
        way_was_clear(start, config, files),
        is_dir(reconciled(start, config, files), p),
        strictly_under(p, config.formats_root),
        is_open(config.formats_root, p),
    ensures
        !is_hollow(
            reconciled(start, config, files),
            wanted_in_formats(config, files),
            config.formats_root,
            p,
        ),
{
    let root = config.formats_root;
    let keep = wanted_in_formats(config, files);
    let linked = with_links(start, config, files);
    let first = with_formats_cleared(start, config, files);
    let both = with_both_cleared(start, config, files);
    let end = reconciled(start, config, files);
    if !both.contains_key(p) {
        lemma_marker_adds(config, p);
    }
    assert(is_dir(both, p));
    assert(is_dir(first, p));
    assert(is_dir(linked, p));
    assert(!is_hollow(linked, keep, root, p));
    let q = choose|q: Components| #[trigger] is_anchor(linked, keep, q) && strictly_under(q, p);
    lemma_longer(q, p);
    lemma_longer(p, root);
    lemma_prefix_transitive(root, p, q);
    lemma_anchor_stays(linked, root, keep, q);
    lemma_outputs_are_apart(config, q);
    assert(both.contains_key(q));
    assert(is_anchor(end, keep, q));
}

/// After a run no directory of the best-quality tree is left without anything to
/// hold, but for what marker directories hide.
pub proof fn no_hollow_directory_stays_in_tracks(
    start: Fs,
    config: ConfigView,
    files: Seq<SourceFileView>,
    p: Components,
)
    requires
        is_ready(start, config),
        are_files_of(start, config, files),
        way_was_clear(start, config, files),
        is_dir(reconciled(start, config, files), p),
        strictly_under(p, config.max_qual_root),
        is_open(config.max_qual_root, p),
    ensures
        !is_hollow(
            reconciled(start, config, files),
            wanted_in_tracks(config, files),
            config.max_qual_root,
            p,
        ),
{
    let root = config.max_qual_root;
    let keep = wanted_in_tracks(config, files);
    let first = with_formats_cleared(start, config, files);
    let both = with_both_cleared(start, config, files);
    let end = reconciled(start, config, files);
    lemma_longer(p, root);
    if !both.contains_key(p) {
        lemma_marker_adds(config, p);
        assert(p[p.len() - 1] == stfolder_name());
    }
    assert(is_dir(both, p));
    assert(is_dir(first, p));
    assert(!is_hollow(first, keep, root, p));
    let q = choose|q: Components| #[trigger] is_anchor(first, keep, q) && strictly_under(q, p);
    lemma_longer(q, p);
    lemma_prefix_transitive(root, p, q);
    lemma_anchor_stays(first, root, keep, q);
    assert(is_anchor(end, keep, q));
}

/// The direct links add nothing outside the output trees.
pub(crate) proof fn lemma_links_add_nothing_outside(
    start: Fs,
    config: ConfigView,
    files: Seq<SourceFileView>,
    p: Components,
)
    requires
        is_ready(start, config),
        are_files_of(start, config, files),
        way_was_clear(start, config, files),
        !config.formats_root.is_prefix_of(p),
        !config.max_qual_root.is_prefix_of(p),
    ensures
        with_links(start, config, files).contains_key(p) <==> with_detours(
            start,
            config,
            files,
        ).contains_key(p),
        with_detours(start, config, files).contains_key(p) ==> with_links(start, config, files)[p]
            == with_detours(start, config, files)[p],
{
    let base = with_detours(start, config, files);
    let links = links_direct(with_roots(start, config), config, files);
    let linked = with_links(start, config, files);
    lemma_links_of_run(start, config, files);
    if is_dest(links, p) {
        let i = choose|i: int| 0 <= i < links.len() && (#[trigger] links[i]).dest == p;
        let n = lemma_direct_link(with_roots(start, config), links_of(config, files), i);
        lemma_link_of_run(start, config, files, n);
    }
    if linked.contains_key(p) && !base.contains_key(p) {
        assert(is_above_dest(links, p));
        let i = choose|i: int|
            0 <= i < links.len() && p.len() > 0 && strictly_under((#[trigger] links[i]).dest, p);
        let n = lemma_direct_link(with_roots(start, config), links_of(config, files), i);
        lemma_link_of_run(start, config, files, n);
        let root = if n < files.len() {
            config.formats_root
        } else {
            config.max_qual_root
        };
        lemma_detours_add_nothing_toward(start, config, files, root, links[i].dest, p);
        if p.len() <= root.len() {
            lemma_prefixes_nest(p, root, links[i].dest);
            lemma_above_roots(start, config, p);
        } else {
            lemma_prefixes_nest(root, p, links[i].dest);
        }
    }
}

/// A run changes nothing outside the output trees: whatever was there stays as
/// it was. Nothing is new there but directories above the output roots and, outside
/// the source tree, links that symbolic links lead there and directories above them.
/// So no file of the source tree is written, removed or renamed.
pub proof fn nothing_changes_outside_the_outputs(
    start: Fs,
    config: ConfigView,
    files: Seq<SourceFileView>,
    p: Components,
)
    requires
        is_ready(start, config),
        are_files_of(start, config, files),
        way_was_clear(start, config, files),
        !config.formats_root.is_prefix_of(p),
        !config.max_qual_root.is_prefix_of(p),
    ensures
        start.contains_key(p) ==> reconciled(start, config, files).contains_key(p) && reconciled(
            start,
            config,
            files,
        )[p] == start[p],
        reconciled(start, config, files).contains_key(p) && !start.contains_key(p) ==> {
            ||| {
                &&& reconciled(start, config, files)[p] == Node::Dir
                &&& strictly_under(config.formats_root, p) || strictly_under(
                    config.max_qual_root,
                    p,
                )
            }
            ||| {
                &&& !config.source.is_prefix_of(p)
                &&& !(reconciled(start, config, files)[p] is Link)
                &&& is_dest(detours_of(with_roots(start, config), config, files), p)
                    || is_above_dest(detours_of(with_roots(start, config), config, files), p)
            }
        },
{
    let rooted = with_roots(start, config);
    let base = with_detours(start, config, files);
    let both = with_both_cleared(start, config, files);
    let end = reconciled(start, config, files);
    lemma_links_add_nothing_outside(start, config, files, p);
    lemma_detours_of_run(start, config, files);
    if start.contains_key(p) {
        assert(rooted.contains_key(p) && rooted[p] == start[p]);
    }
    if end.contains_key(p) && !both.contains_key(p) {
        let m = config.max_qual_root;
        lemma_marker_adds(config, p);
        assert(m.is_prefix_of(marker_of(config))) by {
            assert(m =~= marker_of(config).subrange(0, m.len() as int));
        }
        assert(p.is_prefix_of(m));
        assert(rooted.contains_key(p));
        assert(base.contains_key(p));
        lemma_aside_stays(start, config, files, p);
    }
    if both.contains_key(p) && !start.contains_key(p) {
        assert(base.contains_key(p));
        if rooted.contains_key(p) {
            assert(rooted[p] == Node::Dir);
        }
    }
}

/// Ensuring the links leaves everything where none of them is to stand.
proof fn lemma_links_leave_the_rest(
    start: Fs,
    config: ConfigView,
    files: Seq<SourceFileView>,
    p: Components,
)
    requires
        is_ready(start, config),
        are_files_of(start, config, files),
        way_was_clear(start, config, files),
        start.contains_key(p),
        !is_dest(links_of(config, files), p),
    ensures
        with_links(start, config, files).contains_key(p),
        with_links(start, config, files)[p] == start[p],
{
    let base = with_detours(start, config, files);
    let direct = links_direct(with_roots(start, config), config, files);
    lemma_links_of_run(start, config, files);
    lemma_detours_of_run(start, config, files);
    if is_dest(direct, p) {
        let i = choose|i: int| 0 <= i < direct.len() && (#[trigger] direct[i]).dest == p;
        let n = lemma_direct_link(with_roots(start, config), links_of(config, files), i);
        assert(links_of(config, files)[n].dest == p);
    }
    assert(with_roots(start, config).contains_key(p));
    assert(base.contains_key(p) && base[p] == start[p]);
}

/// A run leaves alone what is not its own in the output trees: special files,
/// symbolic links, marker directories and what is in them, unless a wanted link
/// takes the place.
pub proof fn foreign_entries_stay(
    start: Fs,
    config: ConfigView,
    files: Seq<SourceFileView>,
    p: Components,
)
    requires
        is_ready(start, config),
        are_files_of(start, config, files),
        way_was_clear(start, config, files),
        start.contains_key(p),
        !is_dest(links_of(config, files), p),
        forall|root: Components|
            #![trigger is_open(root, p.drop_last())]
            strictly_under(p, root) && output_roots(config).contains(root) ==> {
                ||| start[p] is Other
                ||| start[p] is Link
                ||| start[p] is Dir && p.last() == stfolder_name()
                ||| !is_open(root, p.drop_last())
            },
    ensures
        reconciled(start, config, files).contains_key(p),
        reconciled(start, config, files)[p] == start[p],
{
    let f = config.formats_root;
    let m = config.max_qual_root;
    let roots = output_roots(config);
    lemma_links_leave_the_rest(start, config, files, p);
    assert(roots[0] == f && roots[1] == m);
    assert(roots.contains(f));
    assert(roots.contains(m));
    lemma_foreign_entry_stays(
        with_links(start, config, files),
        f,
        wanted_in_formats(config, files),
        p,
    );
    lemma_foreign_entry_stays(
        with_formats_cleared(start, config, files),
        m,
        wanted_in_tracks(config, files),
        p,
    );
}

/// Clearing a tree leaves alone what is not its own.
proof fn lemma_foreign_entry_stays(fs: Fs, root: Components, keep: Set<Components>, p: Components)
    requires
        fs.contains_key(p),
        strictly_under(p, root) ==> {
            ||| fs[p] is Other
            ||| fs[p] is Link
            ||| fs[p] is Dir && p.last() == stfolder_name()
            ||| !is_open(root, p.drop_last())
        },
    ensures
        cleared(fs, root, keep).contains_key(p),
        cleared(fs, root, keep)[p] == fs[p],
{
    if strictly_under(p, root) {
        lemma_longer(p, root);
        if fs[p] is Dir && p.last() == stfolder_name() {
            assert(p[p.len() - 1] == stfolder_name());
        } else if !is_open(root, p.drop_last()) {
            let i = choose|i: int|
                root.len() <= i < p.drop_last().len() && #[trigger] p.drop_last()[i]
                    == stfolder_name();
            assert(p[i] == stfolder_name());
        }
    }
}

} // verus!
