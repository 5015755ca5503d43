//! What a second run finds to do: nothing.

use vstd::prelude::*;
use vstd::utf8::*;

use crate::clean::stfolder_name;
use crate::config::ConfigView;
use crate::count_laws::every_link_is_counted_once;
use crate::foretelling_laws::{lemma_has_link_above, lemma_no_direct_link_above};
use crate::link::LinkAction;
use crate::link_laws::{ensured_all, is_above_dest, is_dest, standing_links_are_left_alone};
use crate::model::{
    is_dir, is_plain, is_real, is_sound, is_tree, lemma_longer, lemma_prefix_transitive,
    lemma_prefixes_nest, place_of, place_of_dir, real_paths_lead_where_they_say, with_dirs, Fs,
    Node,
};
use crate::order_laws::{
    are_like_files, files_and_tracks_do_not_depend_on_order, hold_the_same,
    outcomes_do_not_depend_on_order, same_managed, wanted_links_do_not_depend_on_order,
};
use crate::outcome_laws::{
    every_wanted_link_stands, lemma_aside_stays, lemma_direct_link_stands,
    lemma_links_add_nothing_outside, no_hollow_directory_stays_in_formats,
    no_hollow_directory_stays_in_tracks, no_other_file_stays, nothing_changes_outside_the_outputs,
};
use crate::path::{strictly_under, Components};
use crate::plan::{count_of, failures_among};
use crate::plan_laws::{
    format_link_mirrors_the_source, is_proper_file, lemma_plain_text, lemma_wanted_link, stands_for,
};
use crate::run::{marker_of, output_roots, RunView};
use crate::run_laws::{
    are_files_of, counts_at_end, detours_of, finished_run_has_reconciled, found_is_right,
    is_on_track, is_ready, leads_aside, lemma_detour, lemma_detours_of_run, lemma_direct_link,
    lemma_is_direct, lemma_link_of_run, lemma_links_of_run, lemma_roots_are_real, links_direct,
    links_of, outcome_of, outcomes_in, reconciled, wanted_in_formats, wanted_in_tracks,
    way_was_clear, with_both_cleared, with_detours, with_formats_cleared, with_links, with_roots,
};
use crate::scan::{FoundView, SourceFileView};
use crate::scan_laws::{is_managed, regular_files_in, unnamed_files_in};
use crate::stats::StatsView;
use crate::survey_laws::{lemma_real_place, permit_in, permits_in};
use crate::tree_laws::{cleared, clearing_keeps_trees, hollow_dirs, is_cleared, unwanted_files};
use crate::walk::is_excluded;

verus! {

/// The managed files are the same after a run.
proof fn lemma_managed_stay_managed(start: Fs, config: ConfigView, files: Seq<SourceFileView>)
    requires
        is_ready(start, config),
        are_files_of(start, config, files),
        way_was_clear(start, config, files),
    ensures
        same_managed(start, reconciled(start, config, files), config),
{
    let end = reconciled(start, config, files);
    let roots = output_roots(config);
    assert(roots[0] == config.formats_root && roots[1] == config.max_qual_root);
    assert forall|p: Components|
        is_managed(start, config.source, roots, config.formats, p) <==> (#[trigger] is_managed(
            end,
            config.source,
            roots,
            config.formats,
            p,
        )) by {
        if !config.formats_root.is_prefix_of(p) && !config.max_qual_root.is_prefix_of(p) {
            nothing_changes_outside_the_outputs(start, config, files, p);
        } else {
            assert(is_excluded(p, roots));
        }
    }
    assert forall|p: Components| #[trigger]
        is_managed(end, config.source, roots, config.formats, p) implies end[p] == start[p] by {
        nothing_changes_outside_the_outputs(start, config, files, p);
    }
}

/// The regular files that a scan counts are the same after a run.
proof fn lemma_regular_stay_regular(start: Fs, config: ConfigView, files: Seq<SourceFileView>)
    requires
        is_ready(start, config),
        are_files_of(start, config, files),
        way_was_clear(start, config, files),
    ensures
        regular_files_in(reconciled(start, config, files), config.source, output_roots(config))
            == regular_files_in(start, config.source, output_roots(config)),
        unnamed_files_in(reconciled(start, config, files), config.source, output_roots(config))
            == unnamed_files_in(start, config.source, output_roots(config)),
{
    let end = reconciled(start, config, files);
    let roots = output_roots(config);
    let before = regular_files_in(start, config.source, roots);
    let after = regular_files_in(end, config.source, roots);
    assert(roots[0] == config.formats_root && roots[1] == config.max_qual_root);
    assert forall|p: Components| before.contains(p) <==> after.contains(p) by {
        if !config.formats_root.is_prefix_of(p) && !config.max_qual_root.is_prefix_of(p) {
            nothing_changes_outside_the_outputs(start, config, files, p);
        } else {
            assert(is_excluded(p, roots));
        }
    }
    assert(before =~= after);
    assert(unnamed_files_in(start, config.source, roots) =~= unnamed_files_in(
        end,
        config.source,
        roots,
    ));
}

/// An output root, and what is above it, are directories before the links are
/// ensured.
proof fn lemma_rooted_dirs(start: Fs, config: ConfigView, files: Seq<SourceFileView>, q: Components)
    requires
        way_was_clear(start, config, files),
        q.len() > 0,
        q.is_prefix_of(config.formats_root) || q.is_prefix_of(config.max_qual_root),
    ensures
        is_dir(with_roots(start, config), q),
{
    let first = with_dirs(start, config.formats_root);
    if q.is_prefix_of(config.formats_root) {
        if start.contains_key(q) {
            assert(start[q] == Node::Dir);
        }
    } else if first.contains_key(q) {
        assert(first[q] == Node::Dir);
    }
}

/// The output roots, and what is above them, are directories after a run.
proof fn lemma_roots_stay(
    start: Fs,
    config: ConfigView,
    files: Seq<SourceFileView>,
    root: Components,
    q: Components,
)
    requires
        is_ready(start, config),
        are_files_of(start, config, files),
        way_was_clear(start, config, files),
        root == config.formats_root || root == config.max_qual_root,
        q.len() > 0,
        q.is_prefix_of(root),
    ensures
        is_dir(with_both_cleared(start, config, files), q),
        is_dir(reconciled(start, config, files), q),
{
    let f = config.formats_root;
    let m = config.max_qual_root;
    let other = if root == f {
        m
    } else {
        f
    };
    let linked = with_links(start, config, files);
    lemma_links_of_run(start, config, files);
    lemma_rooted_dirs(start, config, files, q);
    if other.is_prefix_of(q) {
        lemma_prefix_transitive(other, q, root);
        assert(strictly_under(root, other));
    }
    if root.is_prefix_of(q) {
        assert(q =~= root);
    } else {
        lemma_detours_of_run(start, config, files);
        assert(with_roots(start, config).contains_key(q));
        lemma_links_add_nothing_outside(start, config, files, q);
    }
    assert(is_dir(linked, q));
    assert(!strictly_under(q, f) && !strictly_under(q, m));
    assert(is_dir(with_formats_cleared(start, config, files), q));
    assert(is_dir(with_both_cleared(start, config, files), q));
}

/// All that the marker adds at the end of a run is the marker.
proof fn lemma_end(start: Fs, config: ConfigView, files: Seq<SourceFileView>)
    requires
        is_ready(start, config),
        are_files_of(start, config, files),
        way_was_clear(start, config, files),
        is_dir(reconciled(start, config, files), marker_of(config)),
    ensures
        reconciled(start, config, files) == with_both_cleared(start, config, files).insert(
            marker_of(config),
            Node::Dir,
        ),
{
    let both = with_both_cleared(start, config, files);
    let end = reconciled(start, config, files);
    let marker = marker_of(config);
    let m = config.max_qual_root;
    assert(marker =~= marker.subrange(0, marker.len() as int));
    assert forall|p: Components| end.contains_key(p) <==> both.contains_key(p) || p == marker by {
        if end.contains_key(p) && !both.contains_key(p) && p != marker {
            assert(p.is_prefix_of(marker));
            assert(p.len() <= m.len()) by {
                if p.len() > m.len() {
                    assert(p =~= marker);
                }
            }
            assert(m =~= marker.subrange(0, m.len() as int));
            lemma_prefixes_nest(p, m, marker);
            lemma_roots_stay(start, config, files, m, p);
        }
    }
    assert(end =~= both.insert(marker, Node::Dir));
}

/// A tree is a tree after a run.
proof fn lemma_trees_stay(
    start: Fs,
    config: ConfigView,
    files: Seq<SourceFileView>,
    root: Components,
)
    requires
        is_ready(start, config),
        are_files_of(start, config, files),
        way_was_clear(start, config, files),
        is_dir(reconciled(start, config, files), marker_of(config)),
        is_tree(with_links(start, config, files), root),
    ensures
        is_tree(reconciled(start, config, files), root),
{
    let f = config.formats_root;
    let m = config.max_qual_root;
    let linked = with_links(start, config, files);
    let first = with_formats_cleared(start, config, files);
    let both = with_both_cleared(start, config, files);
    let end = reconciled(start, config, files);
    let marker = marker_of(config);
    lemma_links_of_run(start, config, files);
    clearing_keeps_trees(linked, f, wanted_in_formats(config, files), root);
    clearing_keeps_trees(linked, f, wanted_in_formats(config, files), m);
    clearing_keeps_trees(first, m, wanted_in_tracks(config, files), root);
    lemma_end(start, config, files);
    assert(m =~= m.subrange(0, m.len() as int));
    lemma_roots_stay(start, config, files, m, m);
    assert(marker.drop_last() =~= m);
    assert forall|p: Components| #[trigger]
        end.contains_key(p) && strictly_under(p, root) implies is_dir(end, p.drop_last()) by {
        if p != marker {
            assert(both.contains_key(p));
            assert(is_dir(both, p.drop_last()));
        }
    }
}

/// The marker has a proper name.
proof fn lemma_marker_is_plain()
    ensures
        is_plain(stfolder_name()),
{
    reveal_strlit(".stfolder");
    lemma_plain_text(".stfolder"@);
}

/// Below its output root a wanted link is reached through proper names.
#[verifier::rlimit(40)]
proof fn lemma_dest_names(
    start: Fs,
    config: ConfigView,
    files: Seq<SourceFileView>,
    n: int,
    i: int,
)
    requires
        is_sound(start, config.source),
        are_files_of(start, config, files),
        0 <= n < links_of(config, files).len(),
        i < links_of(config, files)[n].dest.len(),
        n < files.len() ==> i >= config.formats_root.len(),
        n >= files.len() ==> i >= config.max_qual_root.len(),
    ensures
        is_plain(links_of(config, files)[n].dest[i]),
{
    lemma_wanted_link(
        start,
        config.source,
        config.formats_root,
        config.max_qual_root,
        config.formats,
        files,
        n,
    );
    let file = files[stands_for(files, config.formats, n)];
    let dest = links_of(config, files)[n].dest;
    assert(is_proper_file(config.source, file));
    if n < files.len() {
        let f = config.formats_root;
        format_link_mirrors_the_source(config.source, f, file);
        if i > f.len() {
            assert(dest[i] == file.rel[i - f.len() - 1]);
        } else {
            assert(dest[i] == encode_utf8(file.ext));
        }
    } else {
        assert(dest[i] == file.rel[i - config.max_qual_root.len()]);
    }
}

/// What a direct link adds below its output root has a proper name.
proof fn lemma_names_toward_dest(
    start: Fs,
    config: ConfigView,
    files: Seq<SourceFileView>,
    n: int,
    p: Components,
)
    requires
        is_sound(start, config.source),
        are_files_of(start, config, files),
        0 <= n < links_of(config, files).len(),
        p.is_prefix_of(links_of(config, files)[n].dest),
        p.len() > 0,
        n < files.len() ==> p.len() > config.formats_root.len(),
        n >= files.len() ==> p.len() > config.max_qual_root.len(),
    ensures
        is_plain(p.last()),
{
    let dest = links_of(config, files)[n].dest;
    assert(p =~= dest.subrange(0, p.len() as int));
    assert(p.last() == dest[p.len() - 1]);
    lemma_dest_names(start, config, files, n, p.len() - 1);
}

/// What direct links add has a proper name.
proof fn lemma_linked_names_are_plain(
    start: Fs,
    config: ConfigView,
    files: Seq<SourceFileView>,
    p: Components,
)
    requires
        is_ready(start, config),
        are_files_of(start, config, files),
        way_was_clear(start, config, files),
        with_links(start, config, files).contains_key(p),
        !with_detours(start, config, files).contains_key(p),
        p.len() > 0,
    ensures
        is_plain(p.last()),
{
    let rooted = with_roots(start, config);
    let direct = links_direct(rooted, config, files);
    lemma_links_of_run(start, config, files);
    let i = if is_dest(direct, p) {
        choose|i: int| 0 <= i < direct.len() && (#[trigger] direct[i]).dest == p
    } else {
        assert(is_above_dest(direct, p));
        choose|i: int|
            0 <= i < direct.len() && p.len() > 0 && strictly_under((#[trigger] direct[i]).dest, p)
    };
    let dest = direct[i].dest;
    let n = lemma_direct_link(rooted, links_of(config, files), i);
    assert(p.is_prefix_of(dest)) by {
        assert(dest =~= dest.subrange(0, dest.len() as int));
    }
    lemma_link_of_run(start, config, files, n);
    let root = if n < files.len() {
        config.formats_root
    } else {
        config.max_qual_root
    };
    if p.len() <= root.len() {
        lemma_prefixes_nest(p, root, dest);
        lemma_rooted_dirs(start, config, files, p);
        lemma_detours_of_run(start, config, files);
    }
    lemma_names_toward_dest(start, config, files, n, p);
}

/// What creating the output roots adds to the source tree has a proper name.
proof fn lemma_rooted_names_are_plain(start: Fs, config: ConfigView, p: Components)
    requires
        is_ready(start, config),
        with_roots(start, config).contains_key(p),
        !start.contains_key(p),
        strictly_under(p, config.source),
    ensures
        is_plain(p.last()),
{
    let f = config.formats_root;
    let m = config.max_qual_root;
    let root = if p.is_prefix_of(f) {
        f
    } else {
        m
    };
    lemma_longer(p, config.source);
    assert(p =~= root.subrange(0, p.len() as int));
    lemma_prefix_transitive(config.source, p, root);
    assert(p.last() == root[p.len() - 1]);
}

/// What is new in the source tree after a run has a proper name.
proof fn lemma_new_names_are_plain(
    start: Fs,
    config: ConfigView,
    files: Seq<SourceFileView>,
    p: Components,
)
    requires
        is_ready(start, config),
        are_files_of(start, config, files),
        way_was_clear(start, config, files),
        is_dir(reconciled(start, config, files), marker_of(config)),
        reconciled(start, config, files).contains_key(p),
        !start.contains_key(p),
        strictly_under(p, config.source),
    ensures
        is_plain(p.last()),
{
    lemma_longer(p, config.source);
    if p == marker_of(config) {
        lemma_marker_is_plain();
    } else if with_roots(start, config).contains_key(p) {
        lemma_rooted_names_are_plain(start, config, p);
    } else {
        assert(with_links(start, config, files).contains_key(p)) by {
            lemma_end(start, config, files);
            assert(with_both_cleared(start, config, files).contains_key(p));
        }
        assert(!with_detours(start, config, files).contains_key(p)) by {
            lemma_detours_of_run(start, config, files);
        }
        lemma_linked_names_are_plain(start, config, files, p);
    }
}

/// After a run, another one can start.
pub proof fn another_run_can_start(start: Fs, config: ConfigView, files: Seq<SourceFileView>)
    requires
        is_ready(start, config),
        are_files_of(start, config, files),
        way_was_clear(start, config, files),
        is_dir(reconciled(start, config, files), marker_of(config)),
    ensures
        is_ready(reconciled(start, config, files), config),
{
    let end = reconciled(start, config, files);
    let source = config.source;
    lemma_links_of_run(start, config, files);
    lemma_trees_stay(start, config, files, source);
    lemma_trees_stay(start, config, files, config.formats_root);
    lemma_trees_stay(start, config, files, config.max_qual_root);
    lemma_no_link_above_roots(start, config, files, config.formats_root);
    lemma_no_link_above_roots(start, config, files, config.max_qual_root);
    nothing_changes_outside_the_outputs(start, config, files, source);
    assert forall|p: Components| #[trigger]
        end.contains_key(p) && strictly_under(p, source) implies is_plain(p.last()) by {
        if !start.contains_key(p) {
            lemma_new_names_are_plain(start, config, files, p);
        }
    }
}

/// No symbolic link is new after a run.
proof fn lemma_no_new_links(
    start: Fs,
    config: ConfigView,
    files: Seq<SourceFileView>,
    p: Components,
)
    requires
        is_ready(start, config),
        are_files_of(start, config, files),
        way_was_clear(start, config, files),
        reconciled(start, config, files).contains_key(p),
        reconciled(start, config, files)[p] is Link,
    ensures
        with_roots(start, config).contains_key(p),
        with_roots(start, config)[p] == reconciled(start, config, files)[p],
{
    let direct = links_direct(with_roots(start, config), config, files);
    let base = with_detours(start, config, files);
    let linked = with_links(start, config, files);
    assert(with_both_cleared(start, config, files).contains_key(p));
    assert(linked.contains_key(p) && linked[p] is Link);
    lemma_links_of_run(start, config, files);
    lemma_detours_of_run(start, config, files);
    if is_dest(direct, p) {
        let i = choose|i: int| 0 <= i < direct.len() && (#[trigger] direct[i]).dest == p;
        assert(linked[direct[i].dest] == Node::File(direct[i].ino));
    }
    if !base.contains_key(p) {
        assert(linked[p] == Node::Dir);
    }
    assert(base.contains_key(p) && base[p] == linked[p]);
}

/// After a run no output root is reached through a symbolic link.
proof fn lemma_no_link_above_roots(
    start: Fs,
    config: ConfigView,
    files: Seq<SourceFileView>,
    root: Components,
)
    requires
        is_ready(start, config),
        are_files_of(start, config, files),
        way_was_clear(start, config, files),
        root == config.formats_root || root == config.max_qual_root,
    ensures
        is_real(reconciled(start, config, files), root),
{
    let end = reconciled(start, config, files);
    lemma_roots_are_real(start, config);
    assert forall|q: Components| #[trigger] end.contains_key(q) && q.is_prefix_of(root) implies !(
    end[q] is Link) by {
        if end[q] is Link {
            lemma_no_new_links(start, config, files, q);
        }
    }
}

/// A symbolic link on the way to a wanted link stays.
proof fn lemma_link_on_the_way_stays(
    start: Fs,
    config: ConfigView,
    files: Seq<SourceFileView>,
    n: int,
    q: Components,
)
    requires
        is_ready(start, config),
        are_files_of(start, config, files),
        way_was_clear(start, config, files),
        0 <= n < links_of(config, files).len(),
        strictly_under(links_of(config, files)[n].dest, q),
        with_roots(start, config).contains_key(q),
        with_roots(start, config)[q] is Link,
    ensures
        reconciled(start, config, files).contains_key(q),
        reconciled(start, config, files)[q] == with_roots(start, config)[q],
{
    let linked = with_links(start, config, files);
    let rooted = with_roots(start, config);
    assert(linked.contains_key(q) && linked[q] == rooted[q]) by {
        lemma_links_of_run(start, config, files);
        lemma_detours_of_run(start, config, files);
        lemma_no_direct_link_above(start, config, files, n, q);
        assert(with_detours(start, config, files).contains_key(q));
    }
    let first = with_formats_cleared(start, config, files);
    assert(first.contains_key(q) && first[q] == rooted[q]);
    let both = with_both_cleared(start, config, files);
    assert(both.contains_key(q) && both[q] == rooted[q]);
}

/// A symbolic link that is in no output tree stays.
proof fn lemma_link_aside_stays(
    start: Fs,
    config: ConfigView,
    files: Seq<SourceFileView>,
    p: Components,
)
    requires
        is_ready(start, config),
        are_files_of(start, config, files),
        way_was_clear(start, config, files),
        !strictly_under(p, config.formats_root),
        !strictly_under(p, config.max_qual_root),
        with_roots(start, config).contains_key(p),
        with_roots(start, config)[p] is Link,
    ensures
        reconciled(start, config, files).contains_key(p),
        reconciled(start, config, files)[p] == with_roots(start, config)[p],
{
    let f = config.formats_root;
    let m = config.max_qual_root;
    assert(f =~= f.subrange(0, f.len() as int));
    assert(m =~= m.subrange(0, m.len() as int));
    lemma_rooted_dirs(start, config, files, f);
    lemma_rooted_dirs(start, config, files, m);
    lemma_detours_of_run(start, config, files);
    assert(with_detours(start, config, files).contains_key(p));
    lemma_aside_stays(start, config, files, p);
}

/// The directories on the way to a wanted link lead where they led.
proof fn lemma_way_stays(
    start: Fs,
    config: ConfigView,
    files: Seq<SourceFileView>,
    n: int,
    k: int,
)
    requires
        is_ready(start, config),
        are_files_of(start, config, files),
        way_was_clear(start, config, files),
        0 <= n < links_of(config, files).len(),
        0 <= k < links_of(config, files)[n].dest.len(),
        leads_aside(with_roots(start, config), config, links_of(config, files)[n].dest),
    ensures
        place_of_dir(reconciled(start, config, files), links_of(config, files)[n].dest.take(k))
            == place_of_dir(with_roots(start, config), links_of(config, files)[n].dest.take(k)),
    decreases k,
{
    let rooted = with_roots(start, config);
    let end = reconciled(start, config, files);
    let dest = links_of(config, files)[n].dest;
    if k > 0 {
        lemma_way_stays(start, config, files, n, k - 1);
        let dir = dest.take(k - 1);
        let here = dest.take(k);
        assert(here.drop_last() =~= dir);
        let p = place_of_dir(rooted, dir).push(here.last());
        if end.contains_key(p) && end[p] is Link {
            lemma_no_new_links(start, config, files, p);
        } else if rooted.contains_key(p) && rooted[p] is Link {
            if is_real(rooted, dir) {
                real_paths_lead_where_they_say(rooted, dir);
                assert(p =~= here);
                assert(here.is_prefix_of(dest));
                lemma_link_on_the_way_stays(start, config, files, n, p);
            } else {
                let before = place_of_dir(rooted, dest.take(k - 1));
                assert(!config.formats_root.is_prefix_of(before));
                assert(!config.max_qual_root.is_prefix_of(before));
                lemma_entry_is_not_below(before, here.last(), config.formats_root);
                lemma_entry_is_not_below(before, here.last(), config.max_qual_root);
                lemma_link_aside_stays(start, config, files, p);
            }
        }
    }
}

/// An entry of a directory that is not in a tree is not strictly below its root.
proof fn lemma_entry_is_not_below(dir: Components, name: Seq<u8>, root: Components)
    requires
        !root.is_prefix_of(dir),
    ensures
        !strictly_under(dir.push(name), root),
{
    let p = dir.push(name);
    if strictly_under(p, root) {
        lemma_longer(p, root);
        assert(dir =~= p.subrange(0, dir.len() as int));
        lemma_prefixes_nest(root, dir, p);
    }
}

/// A wanted link leads where it led, and has a symbolic link on its way exactly
/// where it had one.
proof fn lemma_place_stays(start: Fs, config: ConfigView, files: Seq<SourceFileView>, n: int)
    requires
        is_ready(start, config),
        are_files_of(start, config, files),
        way_was_clear(start, config, files),
        0 <= n < links_of(config, files).len(),
    ensures
        ({
            let rooted = with_roots(start, config);
            let end = reconciled(start, config, files);
            let dest = links_of(config, files)[n].dest;
            &&& dest.len() > 0
            &&& place_of(end, dest) == place_of(rooted, dest)
            &&& is_real(end, dest.drop_last()) <==> is_real(rooted, dest.drop_last())
        }),
{
    let rooted = with_roots(start, config);
    let end = reconciled(start, config, files);
    let dest = links_of(config, files)[n].dest;
    let dir = dest.drop_last();
    lemma_link_of_run(start, config, files, n);
    if n < files.len() {
        lemma_longer(dest, config.formats_root);
    } else {
        lemma_longer(dest, config.max_qual_root);
    }
    assert(dir =~= dest.take(dest.len() - 1));
    if is_real(rooted, dir) {
        assert forall|q: Components| #[trigger] end.contains_key(q) && q.is_prefix_of(dir) implies !(
        end[q] is Link) by {
            if end[q] is Link {
                lemma_no_new_links(start, config, files, q);
            }
        }
        lemma_real_place(rooted, dest);
        lemma_real_place(end, dest);
    } else {
        let q = lemma_has_link_above(rooted, dest);
        lemma_link_on_the_way_stays(start, config, files, n, q);
        lemma_longer(dest, q);
        assert(q.is_prefix_of(dir)) by {
            assert(dir =~= dest.subrange(0, dir.len() as int));
            lemma_prefixes_nest(q, dir, dest);
        }
        assert(!is_real(end, dir));
        assert(leads_aside(rooted, config, links_of(config, files)[n].dest));
        lemma_way_stays(start, config, files, n, dest.len() - 1);
    }
}

/// What comes of a wanted link in a second run: it is up to date, unless it was
/// refused, and then it is refused again.
proof fn lemma_second_outcome(start: Fs, config: ConfigView, files: Seq<SourceFileView>, n: int)
    requires
        is_ready(start, config),
        are_files_of(start, config, files),
        way_was_clear(start, config, files),
        0 <= n < links_of(config, files).len(),
    ensures
        ({
            let rooted = with_roots(start, config);
            let end = reconciled(start, config, files);
            let link = links_of(config, files)[n];
            let first = outcome_of(rooted, link, permit_in(rooted, config, link));
            let second = outcome_of(end, link, permit_in(end, config, link));
            &&& first is Ok ==> second == Ok::<LinkAction, Seq<char>>(LinkAction::UpToDate)
            &&& first is Err ==> second == first
        }),
{
    let rooted = with_roots(start, config);
    let end = reconciled(start, config, files);
    let link = links_of(config, files)[n];
    let place = place_of(rooted, link.dest);
    lemma_place_stays(start, config, files, n);
    let permit = permit_in(rooted, config, link);
    if outcome_of(rooted, link, permit) is Ok {
        every_wanted_link_stands(start, config, files, n);
    } else {
        if is_real(rooted, link.dest.drop_last()) {
            lemma_real_place(rooted, link.dest);
            lemma_link_of_run(start, config, files, n);
        }
        assert(leads_aside(rooted, config, links_of(config, files)[n].dest));
        if rooted.contains_key(place) {
            lemma_detours_of_run(start, config, files);
            assert(with_detours(start, config, files).contains_key(place));
            lemma_aside_stays(start, config, files, place);
        } else {
            assert(!start.contains_key(place));
            nothing_changes_outside_the_outputs(start, config, files, place);
            assert(!end.contains_key(place));
        }
    }
}

/// Where every link that succeeded is up to date, and every other one fails again.
proof fn lemma_counts_again(
    first: Seq<Result<LinkAction, Seq<char>>>,
    second: Seq<Result<LinkAction, Seq<char>>>,
)
    requires
        first.len() == second.len(),
        forall|i: int|
            0 <= i < first.len() ==> {
                &&& (#[trigger] first[i]) is Ok ==> second[i] == Ok::<LinkAction, Seq<char>>(
                    LinkAction::UpToDate,
                )
                &&& first[i] is Err ==> second[i] is Err
            },
    ensures
        count_of(second, LinkAction::Created) == 0,
        count_of(second, LinkAction::Replaced) == 0,
        failures_among(second).len() == failures_among(first).len(),
    decreases first.len(),
{
    if first.len() > 0 {
        let a = first.drop_last();
        let b = second.drop_last();
        assert forall|i: int| 0 <= i < a.len() implies {
            &&& (#[trigger] a[i]) is Ok ==> b[i] == Ok::<LinkAction, Seq<char>>(
                LinkAction::UpToDate,
            )
            &&& a[i] is Err ==> b[i] is Err
        } by {
            assert(a[i] == first[i] && b[i] == second[i]);
        }
        lemma_counts_again(a, b);
        assert(first[first.len() - 1] == first.last());
    }
}

/// Nothing of a file system after a run is to be cleared.
proof fn lemma_nothing_to_clear(start: Fs, config: ConfigView, files: Seq<SourceFileView>)
    requires
        is_ready(start, config),
        are_files_of(start, config, files),
        way_was_clear(start, config, files),
    ensures
        ({
            let end = reconciled(start, config, files);
            let in_formats = wanted_in_formats(config, files);
            let in_tracks = wanted_in_tracks(config, files);
            &&& cleared(end, config.formats_root, in_formats) == end
            &&& cleared(end, config.max_qual_root, in_tracks) == end
            &&& unwanted_files(end, config.formats_root, in_formats).len() == 0
            &&& unwanted_files(end, config.max_qual_root, in_tracks).len() == 0
            &&& hollow_dirs(end, config.formats_root, in_formats).len() == 0
            &&& hollow_dirs(end, config.max_qual_root, in_tracks).len() == 0
        }),
{
    let end = reconciled(start, config, files);
    let f = config.formats_root;
    let m = config.max_qual_root;
    let in_formats = wanted_in_formats(config, files);
    let in_tracks = wanted_in_tracks(config, files);
    assert forall|p: Components| !is_cleared(end, f, in_formats, p) by {
        if is_cleared(end, f, in_formats, p) {
            if is_dir(end, p) {
                no_hollow_directory_stays_in_formats(start, config, files, p);
            } else {
                no_other_file_stays(start, config, files, p);
            }
        }
    }
    assert forall|p: Components| !is_cleared(end, m, in_tracks, p) by {
        if is_cleared(end, m, in_tracks, p) {
            if is_dir(end, p) {
                no_hollow_directory_stays_in_tracks(start, config, files, p);
            } else {
                no_other_file_stays(start, config, files, p);
            }
        }
    }
    assert(cleared(end, f, in_formats) =~= end);
    assert(cleared(end, m, in_tracks) =~= end);
    lemma_no_sets(end, f, in_formats);
    lemma_no_sets(end, m, in_tracks);
}

/// Where nothing is to be cleared, nothing is unwanted and nothing is hollow.
proof fn lemma_no_sets(fs: Fs, root: Components, keep: Set<Components>)
    requires
        forall|p: Components| !is_cleared(fs, root, keep, p),
    ensures
        unwanted_files(fs, root, keep).len() == 0,
        hollow_dirs(fs, root, keep).len() == 0,
{
    assert forall|p: Components| !unwanted_files(fs, root, keep).contains(p) by {
        assert(!is_cleared(fs, root, keep, p));
    }
    assert forall|p: Components| !hollow_dirs(fs, root, keep).contains(p) by {
        assert(!is_cleared(fs, root, keep, p));
    }
    assert(unwanted_files(fs, root, keep) =~= Set::empty());
    assert(hollow_dirs(fs, root, keep) =~= Set::empty());
}

/// A second run makes nothing of the links: none is created elsewhere, and the
/// direct ones stand.
proof fn lemma_links_of_second_run(
    start: Fs,
    config: ConfigView,
    files: Seq<SourceFileView>,
    again: Seq<SourceFileView>,
)
    requires
        is_ready(start, config),
        are_files_of(start, config, files),
        way_was_clear(start, config, files),
        hold_the_same(links_of(config, files), links_of(config, again)),
    ensures
        ({
            let end = reconciled(start, config, files);
            &&& detours_of(end, config, again).len() == 0
            &&& ensured_all(end, links_direct(end, config, again)) == end
        }),
{
    let end = reconciled(start, config, files);
    let links = links_of(config, files);
    let links_again = links_of(config, again);
    let direct = links_direct(end, config, again);
    if detours_of(end, config, again).len() > 0 {
        let j = lemma_detour(end, links_again, permits_in(end, config, links_again), 0);
        assert(links_again.contains(links_again[j]));
        let n = choose|n: int| 0 <= n < links.len() && links[n] == links_again[j];
        lemma_second_outcome(start, config, files, n);
    }
    assert forall|i: int| 0 <= i < direct.len() implies end.contains_key((#[trigger] direct[i]).dest)
        && end[direct[i].dest] == Node::File(direct[i].ino) by {
        let j = lemma_direct_link(end, links_again, i);
        assert(links_again.contains(links_again[j]));
        let n = choose|n: int| 0 <= n < links.len() && links[n] == links_again[j];
        lemma_place_stays(start, config, files, n);
        let k = lemma_is_direct(with_roots(start, config), links, n);
        lemma_direct_link_stands(start, config, files, k);
    }
    standing_links_are_left_alone(end, direct);
}

/// A second run finds nothing to do: the file system stays as it is, nothing is
/// created, replaced or removed, every link that the first run made is up to date,
/// the same files, tracks and regular files are counted, and as many problems
/// reported. Where the first run had no problem, every wanted link is up to date.
pub proof fn second_run_finds_nothing_to_do(
    start: Fs,
    config: ConfigView,
    end: Fs,
    first: StatsView,
    last: Fs,
    second: StatsView,
)
    requires
        is_ready(start, config),
        is_on_track(start, config, end, RunView::Finished(first)),
        is_on_track(end, config, last, RunView::Finished(second)),
    ensures
        is_ready(end, config),
        last == end,
        second.links_created == 0,
        second.links_replaced == 0,
        second.files_removed == 0,
        second.dirs_removed == 0,
        second.links_up_to_date == first.links_created + first.links_replaced
            + first.links_up_to_date,
        second.regular_files == first.regular_files,
        second.managed_files == first.managed_files,
        second.tracks == first.tracks,
        second.errors.len() == first.errors.len(),
        first.errors.len() == 0 ==> second.links_up_to_date == second.managed_files + second.tracks,
{
    let found = finished_run_has_reconciled(start, config, end, first);
    let again = finished_run_has_reconciled(end, config, last, second);
    let files = found.files;
    another_run_can_start(start, config, files);
    lemma_managed_stay_managed(start, config, files);
    lemma_regular_stay_regular(start, config, files);
    assert(are_like_files(start, end, config, files, again.files));
    files_and_tracks_do_not_depend_on_order(start, end, config, files, again.files);
    lemma_second_counters(start, config, found, again);
}

/// The counters of a second run.
proof fn lemma_second_counters(
    start: Fs,
    config: ConfigView,
    found: FoundView,
    again: FoundView,
)
    requires
        is_ready(start, config),
        found_is_right(start, config, found),
        way_was_clear(start, config, found.files),
        is_dir(reconciled(start, config, found.files), marker_of(config)),
        is_ready(reconciled(start, config, found.files), config),
        are_like_files(
            start,
            reconciled(start, config, found.files),
            config,
            found.files,
            again.files,
        ),
    ensures
        ({
            let end = reconciled(start, config, found.files);
            let first = counts_at_end(start, config, found);
            let second = counts_at_end(end, config, again);
            let links = links_of(config, found.files);
            &&& reconciled(end, config, again.files) == end
            &&& second.links_created == 0
            &&& second.links_replaced == 0
            &&& second.links_up_to_date == first.links_created + first.links_replaced
                + first.links_up_to_date
            &&& second.files_removed == 0
            &&& second.dirs_removed == 0
            &&& second.errors.len() - again.errors.len() == first.errors.len() - found.errors.len()
            &&& second.links_up_to_date + second.errors.len() - again.errors.len() == links.len()
        }),
{
    let files = found.files;
    let end = reconciled(start, config, files);
    let rooted = with_roots(start, config);
    let links = links_of(config, files);
    lemma_roots_are_there(start, config, files);
    outcomes_do_not_depend_on_order(start, end, config, files, again.files, end);
    wanted_links_do_not_depend_on_order(start, end, config, files, again.files);
    lemma_links_of_second_run(start, config, files, again.files);
    assert(detours_of(end, config, again.files) =~= seq![]);
    assert(with_detours(end, config, again.files) == end);
    lemma_nothing_to_clear(start, config, files);
    let before = outcomes_in(rooted, config, links);
    let after = outcomes_in(end, config, links);
    let after_again = outcomes_in(end, config, links_of(config, again.files));
    assert forall|n: int| 0 <= n < before.len() implies {
        &&& (#[trigger] before[n]) is Ok ==> after[n] == Ok::<LinkAction, Seq<char>>(
            LinkAction::UpToDate,
        )
        &&& before[n] is Err ==> after[n] is Err
    } by {
        lemma_second_outcome(start, config, files, n);
    }
    lemma_counts_again(before, after);
    every_link_is_counted_once(before);
    every_link_is_counted_once(after);
    assert(count_of(after_again, LinkAction::Created) == count_of(after, LinkAction::Created));
    assert(count_of(after_again, LinkAction::Replaced) == count_of(after, LinkAction::Replaced));
    assert(count_of(after_again, LinkAction::UpToDate) == count_of(after, LinkAction::UpToDate));
}

/// After a run the output roots need not be created.
proof fn lemma_roots_are_there(start: Fs, config: ConfigView, files: Seq<SourceFileView>)
    requires
        is_ready(start, config),
        are_files_of(start, config, files),
        way_was_clear(start, config, files),
    ensures
        with_roots(reconciled(start, config, files), config) == reconciled(start, config, files),
{
    let end = reconciled(start, config, files);
    let f = config.formats_root;
    let m = config.max_qual_root;
    assert forall|q: Components| q.len() > 0 && q.is_prefix_of(f) implies end.contains_key(q) by {
        lemma_roots_stay(start, config, files, f, q);
    }
    assert forall|q: Components| q.len() > 0 && q.is_prefix_of(m) implies end.contains_key(q) by {
        lemma_roots_stay(start, config, files, m, q);
    }
    assert(with_dirs(end, f) =~= end);
    assert(with_dirs(end, m) =~= end);
}

} // verus!
