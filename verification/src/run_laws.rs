//! What a run does to a file system, from its start to its end.

use vstd::prelude::*;

use crate::clean::{removal_failures, removed_count, unremoved, unwanted_in};
use crate::clean_laws::{tree_is_faithful, tree_starts_faithful, tree_stays_faithful};
use crate::config::{layout_problem, ConfigView};
use crate::link::{allows, refusal_line, InodeRef, LinkAction, LinkView, Permit};
use crate::link_laws::{
    action_in, ensured_all, ensuring_links_makes_them_all, has_links, is_dest, link_fits,
    links_agree, links_fit,
};
use crate::model::{
    is_dir, is_plain, is_real, is_sound, is_tree, lemma_longer, lemma_prefix_transitive,
    lemma_prefixes_nest, lists, place_of, place_of_dir, way_is_clear, with_dirs, Fs, Node,
};
use crate::path::{strictly_under, Components};
use crate::path_set::above;
use crate::plan::{dests, format_links, stats_with_links, track_links};
use crate::plan_laws::{all_links, lemma_wanted_link, wanted_links_agree};
use crate::prune::{attempted, unpruned, PruneView, RmdirReply};
use crate::prune_laws::{
    above_is_closed_upward, pruning_is_right, pruning_starts_right, pruning_stays_right,
};
use crate::run::{
    after_checking, after_identifying, after_linking, after_marker, after_marking, after_pruning,
    after_reading, after_removing, after_root, after_survey, after_walk, dir_to_remove, dirs_asked,
    links_wanted, marker_of, output_roots, pruning_or_done, root_at_hand, root_to_create,
    started_run, with_errors, with_removed, CheckingView, CreatingRootView, IdentifyingView,
    LinkingView, PruningView, ReadingView, RestView, RunView, SurveyingView, WalkingView,
};
use crate::scan::{candidates_among, judged_all, tracks_of, FoundView, SourceFileView};
use crate::scan_laws::{
    are_the_managed_files, inos_are_true, is_true_find, scan_finds_the_managed_files,
};
use crate::stats::StatsView;
use crate::survey_laws::{permits_follow_from_where_links_lead, permits_in, told};
use crate::tree_laws::{
    cleared, creating_directories_keeps_trees, ensuring_links_keeps_trees, hollow_dirs,
    is_empty_dir, is_order_of_tree, next_directory_is_empty, partly_cleared, pruned_tree_is_cleared,
    pruning_covers_the_tree, removing_a_directory_clears_on, removing_files_clears_partly,
    unwanted_files, unwanted_files_are_counted,
};
use crate::walk::{advanced, ListingView, WalkView};
use crate::walk_laws::{walk_is_faithful, walk_starts_faithful, walk_stays_faithful};

verus! {

/// True when listings tell all of the directories that are to be read.
pub open spec fn lists_all(fs: Fs, dirs: Seq<Components>, listings: Seq<ListingView>) -> bool {
    &&& listings.len() == dirs.len()
    &&& forall|k: int| 0 <= k < dirs.len() ==> lists(fs, dirs[k], #[trigger] listings[k])
}

/// All links that a run wants, those of the per-format trees first.
pub open spec fn links_of(config: ConfigView, files: Seq<SourceFileView>) -> Seq<LinkView> {
    all_links(config.formats_root, config.max_qual_root, files, config.formats)
}

/// The links that have no symbolic link on their way, in order.
pub open spec fn direct_links(fs: Fs, links: Seq<LinkView>) -> Seq<LinkView>
    decreases links.len(),
{
    if links.len() == 0 {
        seq![]
    } else {
        let before = direct_links(fs, links.drop_last());
        if is_real(fs, links.last().dest.drop_last()) {
            before.push(links.last())
        } else {
            before
        }
    }
}

/// The wanted links that have no symbolic link on their way.
pub open spec fn links_direct(fs: Fs, config: ConfigView, files: Seq<SourceFileView>) -> Seq<
    LinkView,
> {
    direct_links(fs, links_of(config, files))
}

/// A link at the place that it leads to.
pub open spec fn placed(fs: Fs, link: LinkView) -> LinkView {
    LinkView { dest: place_of(fs, link.dest), ..link }
}

/// What comes of a link: what is at the place that it leads to calls for an action,
/// which is taken where it is permitted.
pub open spec fn outcome_of(fs: Fs, link: LinkView, permit: Permit) -> Result<
    LinkAction,
    Seq<char>,
> {
    let action = action_in(fs, placed(fs, link));
    if allows(permit, action) {
        Ok(action)
    } else {
        Err(refusal_line(link, permit))
    }
}

/// What comes of each link.
pub open spec fn outcomes_of(fs: Fs, links: Seq<LinkView>, permits: Seq<Permit>) -> Seq<
    Result<LinkAction, Seq<char>>,
> {
    Seq::new(links.len(), |i: int| outcome_of(fs, links[i], permits[i]))
}

/// The links that symbolic links lead elsewhere and that are created there, each at
/// the place that it leads to.
pub open spec fn detours(fs: Fs, links: Seq<LinkView>, permits: Seq<Permit>) -> Seq<LinkView>
    decreases links.len(),
{
    if links.len() == 0 {
        seq![]
    } else {
        let before = detours(fs, links.drop_last(), permits.drop_last());
        let link = links.last();
        if !is_real(fs, link.dest.drop_last()) && outcome_of(fs, link, permits.last()) == Ok::<
            LinkAction,
            Seq<char>,
        >(LinkAction::Created) {
            before.push(placed(fs, link))
        } else {
            before
        }
    }
}

/// The wanted links that are created elsewhere.
pub open spec fn detours_of(fs: Fs, config: ConfigView, files: Seq<SourceFileView>) -> Seq<
    LinkView,
> {
    let links = links_of(config, files);
    detours(fs, links, permits_in(fs, config, links))
}

/// True when what `path` leads to, by way of symbolic links, is neither in an output
/// tree nor above one or the source tree, and from the first symbolic link on no part
/// of the way lies in an output tree.
pub open spec fn leads_aside(fs: Fs, config: ConfigView, path: Components) -> bool {
    let place = place_of(fs, path);
    let f = config.formats_root;
    let m = config.max_qual_root;
    &&& place.len() > 1
    &&& !f.is_prefix_of(place)
    &&& !m.is_prefix_of(place)
    &&& !place.is_prefix_of(f)
    &&& !place.is_prefix_of(m)
    &&& !place.is_prefix_of(config.source)
    &&& forall|k: int|
        0 <= k < path.len() ==> is_real(fs, #[trigger] path.take(k)) || (!f.is_prefix_of(
            place_of_dir(fs, path.take(k)),
        ) && !m.is_prefix_of(place_of_dir(fs, path.take(k))))
}

/// True when nothing stands where a link is to stand, or above it, that cannot
/// be replaced.
pub open spec fn is_clear_for(fs: Fs, link: LinkView) -> bool {
    !is_dir(fs, link.dest) && way_is_clear(fs, link.dest.drop_last())
}

/// True when nothing is in the way of links: each can be ensured where it leads,
/// those that symbolic links lead elsewhere do not get in each other's way, and none
/// of them is led into an output tree.
pub open spec fn nothing_is_in_the_way(
    fs: Fs,
    config: ConfigView,
    links: Seq<LinkView>,
    permits: Seq<Permit>,
) -> bool {
    &&& forall|i: int|
        0 <= i < direct_links(fs, links).len() ==> is_clear_for(
            fs,
            #[trigger] direct_links(fs, links)[i],
        )
    &&& forall|i: int|
        0 <= i < detours(fs, links, permits).len() ==> is_clear_for(
            fs,
            #[trigger] detours(fs, links, permits)[i],
        )
    &&& links_agree(detours(fs, links, permits))
    &&& forall|i: int|
        0 <= i < links.len() ==> is_real(fs, (#[trigger] links[i]).dest.drop_last())
            || leads_aside(fs, config, links[i].dest)
}

/// True when every removal succeeded.
pub open spec fn all_went_well(outcomes: Seq<Result<(), String>>, count: nat) -> bool {
    &&& outcomes.len() == count
    &&& forall|i: int| 0 <= i < count ==> (#[trigger] outcomes[i]) is Ok
}

/// One undisturbed step of a run: it is told the truth, nothing is in its way,
/// and what it asks for is done, or only planned in a dry run.
pub open spec fn is_step(fs: Fs, run: RunView, next_fs: Fs, next: RunView) -> bool {
    match run {
        RunView::Walking(stage) => {
            &&& next_fs == fs
            &&& exists|listings: Seq<ListingView>| #[trigger]
                lists_all(fs, stage.walk.level, listings) && next == after_walk(stage, listings)
        },
        RunView::Identifying(stage) => {
            &&& next_fs == fs
            &&& exists|inos: Seq<Result<InodeRef, Seq<char>>>| #[trigger]
                inos_are_true(fs, candidates_among(stage.judged), inos) && next
                    == after_identifying(stage, inos)
        },
        RunView::CreatingRoot(stage) => {
            &&& way_is_clear(fs, root_to_create(stage))
            &&& next_fs == with_dirs(fs, root_to_create(stage))
            &&& next == after_root(stage, Ok(()))
        },
        RunView::Surveying(stage) => {
            &&& next_fs == fs
            &&& next == after_survey(stage, told(fs, dirs_asked(stage)))
        },
        RunView::Linking(stage) => {
            let links = links_wanted(stage.config, stage.found);
            &&& nothing_is_in_the_way(fs, stage.config, links, stage.permits)
            &&& next_fs == (if stage.config.dry_run {
                fs
            } else {
                ensured_all(
                    ensured_all(fs, detours(fs, links, stage.permits)),
                    direct_links(fs, links),
                )
            })
            &&& next == after_linking(stage, outcomes_of(fs, links, stage.permits))
        },
        RunView::Checking(stage) => {
            &&& next_fs == fs
            &&& next == after_checking(stage, is_dir(fs, root_at_hand(stage.rest)))
        },
        RunView::Reading(stage) => {
            &&& next_fs == fs
            &&& exists|listings: Seq<ListingView>| #[trigger]
                lists_all(fs, stage.tree.level, listings) && next == after_reading(stage, listings)
        },
        RunView::Removing(stage) => {
            let files = unwanted_in(stage.tree.scans);
            &&& next_fs == (if stage.rest.config.dry_run {
                fs
            } else {
                fs.remove_keys(files.to_set())
            })
            &&& exists|outcomes: Seq<Result<(), String>>| #[trigger]
                all_went_well(outcomes, files.len()) && next == after_removing(stage, outcomes)
        },
        RunView::Pruning(stage) => if is_empty_dir(fs, dir_to_remove(stage)) {
            &&& next_fs == fs.remove(dir_to_remove(stage))
            &&& next == after_pruning(stage, RmdirReply::Removed)
        } else {
            &&& next_fs == fs
            &&& next == after_pruning(stage, RmdirReply::Left)
        },
        RunView::Marking(stage) => {
            &&& next_fs == fs
            &&& next == after_marking(stage, is_dir(fs, marker_of(stage.config)))
        },
        RunView::CreatingMarker(stage) => {
            &&& way_is_clear(fs, marker_of(stage.config))
            &&& next_fs == with_dirs(fs, marker_of(stage.config))
            &&& next == after_marker(stage, Ok(()))
        },
        RunView::Finished(_) => false,
        RunView::Failed(_) => false,
    }
}

/// True when `root`, where it lies below `source`, is reached through proper names.
pub open spec fn is_named_below(source: Components, root: Components) -> bool {
    source.is_prefix_of(root) ==> forall|i: int|
        source.len() <= i < root.len() ==> is_plain(#[trigger] root[i])
}

/// True of a configuration and a file system that a run can start from: the
/// source tree is sound, the layout is an accepted one, no output root is reached
/// through a symbolic link, what is below the output roots, if anything, stands in
/// directories, and an output root in the source tree is named properly.
pub open spec fn is_ready(fs: Fs, config: ConfigView) -> bool {
    &&& is_sound(fs, config.source)
    &&& config.source.len() > 0
    &&& is_named_below(config.source, config.formats_root)
    &&& is_named_below(config.source, config.max_qual_root)
    &&& layout_problem(config.source, config.formats_root, config.max_qual_root) is None
    &&& config.formats_root.len() > 0
    &&& config.max_qual_root.len() > 0
    &&& is_real(fs, config.formats_root)
    &&& is_real(fs, config.max_qual_root)
    &&& is_tree(fs, config.formats_root)
    &&& is_tree(fs, config.max_qual_root)
}

/// True when `files` are the managed files of the source tree.
pub open spec fn are_files_of(fs: Fs, config: ConfigView, files: Seq<SourceFileView>) -> bool {
    are_the_managed_files(fs, config.source, output_roots(config), config.formats, files)
}

/// A file system once the output roots have been created.
pub open spec fn with_roots(fs: Fs, config: ConfigView) -> Fs {
    with_dirs(with_dirs(fs, config.formats_root), config.max_qual_root)
}

/// A file system once the links that symbolic links lead elsewhere have been ensured
/// too.
pub open spec fn with_detours(fs: Fs, config: ConfigView, files: Seq<SourceFileView>) -> Fs {
    ensured_all(with_roots(fs, config), detours_of(with_roots(fs, config), config, files))
}

/// A file system once all links have been ensured.
pub open spec fn with_links(fs: Fs, config: ConfigView, files: Seq<SourceFileView>) -> Fs {
    ensured_all(
        with_detours(fs, config, files),
        links_direct(with_roots(fs, config), config, files),
    )
}

/// The files wanted in the per-format trees.
pub open spec fn wanted_in_formats(config: ConfigView, files: Seq<SourceFileView>) -> Set<
    Components,
> {
    dests(format_links(config.formats_root, files))
}

/// The files wanted in the best-quality tree.
pub open spec fn wanted_in_tracks(config: ConfigView, files: Seq<SourceFileView>) -> Set<
    Components,
> {
    dests(track_links(config.max_qual_root, tracks_of(files, config.formats)))
}

/// A file system once the per-format trees have been cleared too.
pub open spec fn with_formats_cleared(
    fs: Fs,
    config: ConfigView,
    files: Seq<SourceFileView>,
) -> Fs {
    cleared(with_links(fs, config, files), config.formats_root, wanted_in_formats(config, files))
}

/// A file system once the best-quality tree has been cleared too.
pub open spec fn with_both_cleared(fs: Fs, config: ConfigView, files: Seq<SourceFileView>) -> Fs {
    cleared(
        with_formats_cleared(fs, config, files),
        config.max_qual_root,
        wanted_in_tracks(config, files),
    )
}

/// A file system at the end of a run.
pub open spec fn reconciled(fs: Fs, config: ConfigView, files: Seq<SourceFileView>) -> Fs {
    let both = with_both_cleared(fs, config, files);
    if is_dir(both, marker_of(config)) {
        both
    } else {
        with_dirs(both, marker_of(config))
    }
}

/// True when both output roots could be created and nothing was in the way of a
/// link.
pub open spec fn way_was_clear(fs: Fs, config: ConfigView, files: Seq<SourceFileView>) -> bool {
    let rooted = with_roots(fs, config);
    let links = links_of(config, files);
    &&& way_is_clear(fs, config.formats_root)
    &&& way_is_clear(with_dirs(fs, config.formats_root), config.max_qual_root)
    &&& nothing_is_in_the_way(rooted, config, links, permits_in(rooted, config, links))
}

/// What comes of each link, as far as the place that it leads to permits.
pub open spec fn outcomes_in(fs: Fs, config: ConfigView, links: Seq<LinkView>) -> Seq<
    Result<LinkAction, Seq<char>>,
> {
    outcomes_of(fs, links, permits_in(fs, config, links))
}

/// The counters that looking at the places of all links leads to.
pub open spec fn counts_by_links(fs: Fs, config: ConfigView, found: FoundView) -> StatsView {
    stats_with_links(found, outcomes_in(fs, config, links_of(config, found.files)))
}

/// The counters once the links have been ensured.
pub open spec fn counts_with_links(start: Fs, config: ConfigView, found: FoundView) -> StatsView {
    counts_by_links(with_roots(start, config), config, found)
}

/// The counters once the per-format trees have been cleared too.
pub open spec fn counts_with_formats(start: Fs, config: ConfigView, found: FoundView) -> StatsView {
    let fs = with_links(start, config, found.files);
    let keep = wanted_in_formats(config, found.files);
    with_removed(
        counts_with_links(start, config, found),
        unwanted_files(fs, config.formats_root, keep).len(),
        hollow_dirs(fs, config.formats_root, keep).len(),
    )
}

/// The counters at the end of a run.
pub open spec fn counts_at_end(start: Fs, config: ConfigView, found: FoundView) -> StatsView {
    let fs = with_formats_cleared(start, config, found.files);
    let keep = wanted_in_tracks(config, found.files);
    with_removed(
        counts_with_formats(start, config, found),
        unwanted_files(fs, config.max_qual_root, keep).len(),
        hollow_dirs(fs, config.max_qual_root, keep).len(),
    )
}

/// The counters that the clearing of the tree at hand starts from.
pub open spec fn counts_before(
    start: Fs,
    config: ConfigView,
    found: FoundView,
    rest: RestView,
) -> StatsView {
    match rest.tracks {
        Some(_) => counts_with_links(start, config, found),
        None => counts_with_formats(start, config, found),
    }
}

/// True when `rest` belongs to a run with this configuration, and tells which
/// tree is being cleared.
pub open spec fn rest_is_right(config: ConfigView, found: FoundView, rest: RestView) -> bool {
    &&& rest.config == config
    &&& rest.tracks matches Some(keep) ==> keep == wanted_in_tracks(config, found.files)
}

/// The file system that the clearing of the tree at hand starts from.
pub open spec fn before_clearing(
    fs: Fs,
    config: ConfigView,
    files: Seq<SourceFileView>,
    rest: RestView,
) -> Fs {
    match rest.tracks {
        Some(_) => with_links(fs, config, files),
        None => with_formats_cleared(fs, config, files),
    }
}

/// The files wanted in the tree at hand.
pub open spec fn wanted_at_hand(
    config: ConfigView,
    files: Seq<SourceFileView>,
    rest: RestView,
) -> Set<Components> {
    match rest.tracks {
        Some(_) => wanted_in_formats(config, files),
        None => wanted_in_tracks(config, files),
    }
}

/// True when a walk is over and this is what its reports were judged to be.
pub open spec fn is_judged_walk(
    fs: Fs,
    config: ConfigView,
    walk: WalkView,
    stage: IdentifyingView,
) -> bool {
    &&& walk.root == config.source
    &&& walk.excluded == output_roots(config)
    &&& walk.level.len() == 0
    &&& walk_is_faithful(fs, walk)
    &&& stage.judged == judged_all(
        walk.seen,
        config.source,
        output_roots(config),
        config.formats,
    )
}

/// True when the scan found what the source tree holds.
pub open spec fn found_is_right(fs: Fs, config: ConfigView, found: FoundView) -> bool {
    is_true_find(fs, config.source, output_roots(config), config.formats, found)
}

/// What holds at a stage after linking, given what the scan found.
pub open spec fn clearing_is_on_track(
    start: Fs,
    config: ConfigView,
    found: FoundView,
    fs: Fs,
    run: RunView,
) -> bool {
    let files = found.files;
    match run {
        RunView::Checking(stage) => {
            &&& rest_is_right(config, found, stage.rest)
            &&& stage.rest.stats == counts_before(start, config, found, stage.rest)
            &&& stage.keep == wanted_at_hand(config, files, stage.rest)
            &&& fs == before_clearing(start, config, files, stage.rest)
        },
        RunView::Reading(stage) => {
            &&& rest_is_right(config, found, stage.rest)
            &&& stage.rest.stats == counts_before(start, config, found, stage.rest)
            &&& stage.tree.root == root_at_hand(stage.rest)
            &&& stage.tree.keep == wanted_at_hand(config, files, stage.rest)
            &&& fs == before_clearing(start, config, files, stage.rest)
            &&& tree_is_faithful(fs, stage.tree)
        },
        RunView::Removing(stage) => {
            &&& rest_is_right(config, found, stage.rest)
            &&& stage.rest.stats == counts_before(start, config, found, stage.rest)
            &&& stage.tree.root == root_at_hand(stage.rest)
            &&& stage.tree.keep == wanted_at_hand(config, files, stage.rest)
            &&& stage.tree.level.len() == 0
            &&& fs == before_clearing(start, config, files, stage.rest)
            &&& tree_is_faithful(fs, stage.tree)
        },
        RunView::Pruning(stage) => {
            let base = before_clearing(start, config, files, stage.rest);
            let keep = wanted_at_hand(config, files, stage.rest);
            &&& rest_is_right(config, found, stage.rest)
            &&& stage.rest.stats == with_removed(
                counts_before(start, config, found, stage.rest),
                unwanted_files(base, stage.prune.root, keep).len(),
                0,
            )
            &&& stage.prune.root == root_at_hand(stage.rest)
            &&& stage.prune.held == Set::<Components>::empty()
            &&& stage.prune.next < stage.prune.order.len()
            &&& pruning_is_right(base, keep, stage.prune)
            &&& is_order_of_tree(base, stage.prune)
            &&& fs == partly_cleared(base, stage.prune.root, keep, stage.prune.gone)
        },
        RunView::Marking(stage) => {
            &&& stage.config == config
            &&& stage.stats == counts_at_end(start, config, found)
            &&& fs == with_both_cleared(start, config, files)
        },
        RunView::CreatingMarker(stage) => {
            &&& stage.config == config
            &&& stage.stats == counts_at_end(start, config, found)
            &&& fs == with_both_cleared(start, config, files)
            &&& !is_dir(fs, marker_of(config))
        },
        RunView::Finished(stats) => {
            &&& stats == counts_at_end(start, config, found)
            &&& fs == reconciled(start, config, files)
            &&& is_dir(fs, marker_of(config))
        },
        _ => false,
    }
}

/// What holds of a run at any time: how far it has come, from the file system
/// that it started with.
pub open spec fn is_on_track(start: Fs, config: ConfigView, fs: Fs, run: RunView) -> bool {
    match run {
        RunView::Walking(stage) => {
            &&& stage.config == config
            &&& fs == start
            &&& stage.walk.root == config.source
            &&& stage.walk.excluded == output_roots(config)
            &&& walk_is_faithful(start, stage.walk)
        },
        RunView::Identifying(stage) => {
            &&& stage.config == config
            &&& fs == start
            &&& exists|walk: WalkView| #[trigger] is_judged_walk(start, config, walk, stage)
        },
        RunView::CreatingRoot(stage) => {
            &&& stage.config == config
            &&& found_is_right(start, config, stage.found)
            &&& if stage.formats_done {
                fs == with_dirs(start, config.formats_root) && way_is_clear(
                    start,
                    config.formats_root,
                )
            } else {
                fs == start
            }
        },
        RunView::Surveying(stage) => {
            &&& stage.config == config
            &&& found_is_right(start, config, stage.found)
            &&& fs == with_roots(start, config)
            &&& way_is_clear(start, config.formats_root)
            &&& way_is_clear(with_dirs(start, config.formats_root), config.max_qual_root)
        },
        RunView::Linking(stage) => {
            &&& stage.config == config
            &&& found_is_right(start, config, stage.found)
            &&& fs == with_roots(start, config)
            &&& way_is_clear(start, config.formats_root)
            &&& way_is_clear(with_dirs(start, config.formats_root), config.max_qual_root)
            &&& stage.permits == permits_in(fs, config, links_of(config, stage.found.files))
        },
        RunView::Failed(_) => false,
        _ => exists|found: FoundView|
            {
                &&& #[trigger] found_is_right(start, config, found)
                &&& way_was_clear(start, config, found.files)
                &&& clearing_is_on_track(start, config, found, fs, run)
            },
    }
}

/// A run starts on track.
pub proof fn run_starts_on_track(fs: Fs, config: ConfigView)
    requires
        is_ready(fs, config),
    ensures
        is_on_track(fs, config, fs, started_run(config)),
{
    walk_starts_faithful(fs, config.source, output_roots(config));
}

/// Nothing lies in both output trees.
pub(crate) proof fn lemma_outputs_are_apart(config: ConfigView, p: Components)
    requires
        layout_problem(config.source, config.formats_root, config.max_qual_root) is None,
        config.formats_root.is_prefix_of(p),
    ensures
        !config.max_qual_root.is_prefix_of(p),
{
    let f = config.formats_root;
    let m = config.max_qual_root;
    if m.is_prefix_of(p) {
        if f.len() <= m.len() {
            lemma_prefixes_nest(f, m, p);
        } else {
            lemma_prefixes_nest(m, f, p);
        }
    }
}

/// The output roots stand once they have been created.
proof fn lemma_roots_stand(start: Fs, config: ConfigView)
    requires
        is_ready(start, config),
        way_is_clear(start, config.formats_root),
        way_is_clear(with_dirs(start, config.formats_root), config.max_qual_root),
    ensures
        is_tree(with_roots(start, config), config.source),
        is_dir(with_roots(start, config), config.source),
        is_tree(with_roots(start, config), config.formats_root),
        is_tree(with_roots(start, config), config.max_qual_root),
        is_dir(with_roots(start, config), config.formats_root),
        is_dir(with_roots(start, config), config.max_qual_root),
{
    let f = config.formats_root;
    let m = config.max_qual_root;
    let first = with_dirs(start, f);
    assert(f =~= f.subrange(0, f.len() as int));
    assert(m =~= m.subrange(0, m.len() as int));
    creating_directories_keeps_trees(start, config.source, f);
    creating_directories_keeps_trees(first, config.source, m);
    creating_directories_keeps_trees(start, f, f);
    creating_directories_keeps_trees(start, m, f);
    creating_directories_keeps_trees(first, f, m);
    creating_directories_keeps_trees(first, m, m);
}

/// Where a wanted link stands and what it links to.
pub(crate) proof fn lemma_link_of_run(
    start: Fs,
    config: ConfigView,
    files: Seq<SourceFileView>,
    n: int,
)
    requires
        is_sound(start, config.source),
        are_files_of(start, config, files),
        0 <= n < links_of(config, files).len(),
    ensures
        ({
            let link = links_of(config, files)[n];
            &&& start.contains_key(link.src)
            &&& start[link.src] == Node::File(link.ino)
            &&& is_plain(link.dest.last())
            &&& !config.formats_root.is_prefix_of(link.src)
            &&& !config.max_qual_root.is_prefix_of(link.src)
            &&& n < files.len() ==> strictly_under(link.dest, config.formats_root)
            &&& n >= files.len() ==> strictly_under(link.dest, config.max_qual_root)
        }),
{
    lemma_wanted_link(
        start,
        config.source,
        config.formats_root,
        config.max_qual_root,
        config.formats,
        files,
        n,
    );
}

/// A direct link is one of the links.
pub(crate) proof fn lemma_direct_link(fs: Fs, links: Seq<LinkView>, i: int) -> (n: int)
    requires
        0 <= i < direct_links(fs, links).len(),
    ensures
        0 <= n < links.len(),
        links[n] == direct_links(fs, links)[i],
        is_real(fs, links[n].dest.drop_last()),
    decreases links.len(),
{
    let before = links.drop_last();
    let some = direct_links(fs, before);
    if i < some.len() {
        let n = lemma_direct_link(fs, before, i);
        assert(links[n] == before[n]);
        n
    } else {
        links.len() - 1
    }
}

/// A link without a symbolic link on its way is among the direct ones.
pub(crate) proof fn lemma_is_direct(fs: Fs, links: Seq<LinkView>, n: int) -> (i: int)
    requires
        0 <= n < links.len(),
        is_real(fs, links[n].dest.drop_last()),
    ensures
        0 <= i < direct_links(fs, links).len(),
        direct_links(fs, links)[i] == links[n],
    decreases links.len(),
{
    let before = links.drop_last();
    let some = direct_links(fs, before);
    if n < before.len() {
        assert(before[n] == links[n]);
        let i = lemma_is_direct(fs, before, n);
        assert(direct_links(fs, links)[i] == some[i]);
        i
    } else {
        some.len() as int
    }
}

/// Of links that do not get in each other's way, the direct ones do not either.
proof fn lemma_direct_links_agree(fs: Fs, links: Seq<LinkView>)
    requires
        links_agree(links),
    ensures
        links_agree(direct_links(fs, links)),
    decreases links.len(),
{
    let direct = direct_links(fs, links);
    if links.len() > 0 {
        let before = links.drop_last();
        let some = direct_links(fs, before);
        let last = links.len() - 1;
        assert forall|i: int| 0 <= i < before.len() implies before[i] == links[i] by {}
        assert(links_agree(before));
        lemma_direct_links_agree(fs, before);
        assert forall|i: int, j: int|
            0 <= i < direct.len() && 0 <= j < direct.len() && i != j implies !(
        #[trigger] direct[i]).dest.is_prefix_of((#[trigger] direct[j]).dest) by {
            if i < some.len() {
                assert(direct[i] == some[i]);
            }
            if j < some.len() {
                assert(direct[j] == some[j]);
            }
            if i < some.len() && j >= some.len() {
                let k = lemma_direct_link(fs, before, i);
                assert(!links[k].dest.is_prefix_of(links[last].dest));
            }
            if i >= some.len() && j < some.len() {
                let k = lemma_direct_link(fs, before, j);
                assert(!links[last].dest.is_prefix_of(links[k].dest));
            }
        }
        assert forall|i: int, j: int| 0 <= i < direct.len() && 0 <= j < direct.len() implies (
        #[trigger] direct[i]).dest != (#[trigger] direct[j]).src by {
            let k = lemma_direct_link(fs, links, i);
            let m = lemma_direct_link(fs, links, j);
            assert(links[k].dest != links[m].src);
        }
    }
}

/// A link that is created elsewhere is one of the links.
pub(crate) proof fn lemma_detour(fs: Fs, links: Seq<LinkView>, permits: Seq<Permit>, i: int) -> (n:
    int)
    requires
        links.len() == permits.len(),
        0 <= i < detours(fs, links, permits).len(),
    ensures
        0 <= n < links.len(),
        detours(fs, links, permits)[i] == placed(fs, links[n]),
        !is_real(fs, links[n].dest.drop_last()),
        outcome_of(fs, links[n], permits[n]) == Ok::<LinkAction, Seq<char>>(LinkAction::Created),
    decreases links.len(),
{
    let before = links.drop_last();
    let some = detours(fs, before, permits.drop_last());
    if i < some.len() {
        let n = lemma_detour(fs, before, permits.drop_last(), i);
        assert(links[n] == before[n]);
        assert(permits[n] == permits.drop_last()[n]);
        n
    } else {
        links.len() - 1
    }
}

/// A link that is created elsewhere is among them.
pub(crate) proof fn lemma_is_detour(
    fs: Fs,
    links: Seq<LinkView>,
    permits: Seq<Permit>,
    n: int,
) -> (i: int)
    requires
        links.len() == permits.len(),
        0 <= n < links.len(),
        !is_real(fs, links[n].dest.drop_last()),
        outcome_of(fs, links[n], permits[n]) == Ok::<LinkAction, Seq<char>>(LinkAction::Created),
    ensures
        0 <= i < detours(fs, links, permits).len(),
        detours(fs, links, permits)[i] == placed(fs, links[n]),
    decreases links.len(),
{
    let before = links.drop_last();
    let some = detours(fs, before, permits.drop_last());
    if n < before.len() {
        assert(before[n] == links[n]);
        assert(permits[n] == permits.drop_last()[n]);
        let i = lemma_is_detour(fs, before, permits.drop_last(), n);
        assert(detours(fs, links, permits)[i] == some[i]);
        i
    } else {
        some.len() as int
    }
}

/// What a link that is created elsewhere is like.
pub(crate) proof fn lemma_detour_of_run(
    start: Fs,
    config: ConfigView,
    files: Seq<SourceFileView>,
    i: int,
) -> (n: int)
    requires
        is_ready(start, config),
        are_files_of(start, config, files),
        way_was_clear(start, config, files),
        0 <= i < detours_of(with_roots(start, config), config, files).len(),
    ensures
        ({
            let rooted = with_roots(start, config);
            let link = detours_of(rooted, config, files)[i];
            &&& 0 <= n < links_of(config, files).len()
            &&& link == placed(rooted, links_of(config, files)[n])
            &&& !is_real(rooted, links_of(config, files)[n].dest.drop_last())
            &&& leads_aside(rooted, config, links_of(config, files)[n].dest)
            &&& !rooted.contains_key(link.dest)
            &&& !config.formats_root.is_prefix_of(link.dest)
            &&& !config.max_qual_root.is_prefix_of(link.dest)
            &&& !config.source.is_prefix_of(link.dest)
            &&& link_fits(rooted, link)
        }),
{
    let rooted = with_roots(start, config);
    let links = links_of(config, files);
    let permits = permits_in(rooted, config, links);
    let link = detours(rooted, links, permits)[i];
    let n = lemma_detour(rooted, links, permits, i);
    assert(is_real(rooted, links[n].dest.drop_last()) || leads_aside(
        rooted,
        config,
        links[n].dest,
    ));
    lemma_link_of_run(start, config, files, n);
    assert(permits[n] != Permit::Nothing);
    assert(is_clear_for(rooted, link));
    assert(links[n].dest.len() > 0);
    assert(link.dest.last() == links[n].dest.last());
    n
}

/// What the links that are created elsewhere add: nothing to the source tree and
/// nothing to an output tree.
pub(crate) proof fn lemma_detours_of_run(start: Fs, config: ConfigView, files: Seq<SourceFileView>)
    requires
        is_ready(start, config),
        are_files_of(start, config, files),
        way_was_clear(start, config, files),
    ensures
        ({
            let rooted = with_roots(start, config);
            let after = with_detours(start, config, files);
            &&& has_links(rooted, after, detours_of(rooted, config, files))
            &&& forall|p: Components| #[trigger]
                rooted.contains_key(p) ==> after.contains_key(p) && after[p] == rooted[p]
            &&& forall|p: Components| #[trigger]
                after.contains_key(p) && !rooted.contains_key(p) ==> {
                    &&& !(after[p] is Link)
                    &&& !config.formats_root.is_prefix_of(p)
                    &&& !config.max_qual_root.is_prefix_of(p)
                    &&& !config.source.is_prefix_of(p)
                }
        }),
{
    let rooted = with_roots(start, config);
    let links = detours_of(rooted, config, files);
    let after = with_detours(start, config, files);
    assert forall|i: int| 0 <= i < links.len() implies link_fits(rooted, #[trigger] links[i]) by {
        let n = lemma_detour_of_run(start, config, files, i);
    }
    ensuring_links_makes_them_all(rooted, links);
    assert forall|p: Components| #[trigger] rooted.contains_key(p) implies after.contains_key(p)
        && after[p] == rooted[p] by {
        if is_dest(links, p) {
            let i = choose|i: int| 0 <= i < links.len() && (#[trigger] links[i]).dest == p;
            let n = lemma_detour_of_run(start, config, files, i);
        }
    }
    assert forall|p: Components| #[trigger]
        after.contains_key(p) && !rooted.contains_key(p) implies {
        &&& !(after[p] is Link)
        &&& !config.formats_root.is_prefix_of(p)
        &&& !config.max_qual_root.is_prefix_of(p)
        &&& !config.source.is_prefix_of(p)
    } by {
        let i = if is_dest(links, p) {
            choose|i: int| 0 <= i < links.len() && (#[trigger] links[i]).dest == p
        } else {
            choose|i: int|
                0 <= i < links.len() && p.len() > 0 && strictly_under((#[trigger] links[i]).dest, p)
        };
        let dest = links[i].dest;
        let n = lemma_detour_of_run(start, config, files, i);
        assert(after[links[i].dest] == Node::File(links[i].ino));
        assert(p.is_prefix_of(dest)) by {
            assert(dest =~= dest.subrange(0, dest.len() as int));
        }
        if config.formats_root.is_prefix_of(p) {
            lemma_prefix_transitive(config.formats_root, p, dest);
        }
        if config.max_qual_root.is_prefix_of(p) {
            lemma_prefix_transitive(config.max_qual_root, p, dest);
        }
        if config.source.is_prefix_of(p) {
            lemma_prefix_transitive(config.source, p, dest);
        }
    }
}

/// A tree of the run stays a tree when links are created elsewhere.
proof fn lemma_detours_keep_trees(
    start: Fs,
    config: ConfigView,
    files: Seq<SourceFileView>,
    root: Components,
)
    requires
        is_ready(start, config),
        are_files_of(start, config, files),
        way_was_clear(start, config, files),
        root == config.source || root == config.formats_root || root == config.max_qual_root,
        is_tree(with_roots(start, config), root),
        is_dir(with_roots(start, config), root),
    ensures
        is_tree(with_detours(start, config, files), root),
        is_dir(with_detours(start, config, files), root),
{
    let rooted = with_roots(start, config);
    let after = with_detours(start, config, files);
    lemma_detours_of_run(start, config, files);
    assert(rooted.contains_key(root));
    assert forall|p: Components| #[trigger]
        after.contains_key(p) && strictly_under(p, root) implies is_dir(after, p.drop_last()) by {
        assert(rooted.contains_key(p));
        assert(is_dir(rooted, p.drop_last()));
        assert(rooted.contains_key(p.drop_last()));
    }
}

/// What is above an output root is there once the roots have been created.
pub(crate) proof fn lemma_above_roots(start: Fs, config: ConfigView, q: Components)
    requires
        q.len() > 0,
        q.is_prefix_of(config.formats_root) || q.is_prefix_of(config.max_qual_root),
    ensures
        with_roots(start, config).contains_key(q),
{
    let first = with_dirs(start, config.formats_root);
    assert(first.contains_key(q) || q.is_prefix_of(config.max_qual_root));
}

/// On the way to an output tree, and in it, nothing is new when links are created
/// elsewhere.
pub(crate) proof fn lemma_detours_add_nothing_toward(
    start: Fs,
    config: ConfigView,
    files: Seq<SourceFileView>,
    root: Components,
    dest: Components,
    q: Components,
)
    requires
        is_ready(start, config),
        are_files_of(start, config, files),
        way_was_clear(start, config, files),
        root == config.formats_root || root == config.max_qual_root,
        root.is_prefix_of(dest),
        q.is_prefix_of(dest),
    ensures
        with_detours(start, config, files).contains_key(q) <==> with_roots(
            start,
            config,
        ).contains_key(q),
        with_roots(start, config).contains_key(q) ==> with_detours(start, config, files)[q]
            == with_roots(start, config)[q],
{
    lemma_detours_of_run(start, config, files);
    if q.len() == 0 {
        lemma_nothing_is_nameless(start, config, files);
        assert(q =~= Seq::empty());
    } else if q.len() <= root.len() {
        lemma_prefixes_nest(q, root, dest);
        lemma_above_roots(start, config, q);
    } else {
        lemma_prefixes_nest(root, q, dest);
    }
}

/// A direct link fits, although others have been created elsewhere.
proof fn lemma_direct_link_fits(
    start: Fs,
    config: ConfigView,
    files: Seq<SourceFileView>,
    i: int,
)
    requires
        is_ready(start, config),
        are_files_of(start, config, files),
        way_was_clear(start, config, files),
        0 <= i < links_direct(with_roots(start, config), config, files).len(),
    ensures
        link_fits(
            with_detours(start, config, files),
            links_direct(with_roots(start, config), config, files)[i],
        ),
{
    let rooted = with_roots(start, config);
    let after = with_detours(start, config, files);
    let link = links_direct(rooted, config, files)[i];
    let dest = link.dest;
    let dir = dest.drop_last();
    let n = lemma_direct_link(rooted, links_of(config, files), i);
    let root = if n < files.len() {
        config.formats_root
    } else {
        config.max_qual_root
    };
    lemma_link_of_run(start, config, files, n);
    lemma_longer(dest, root);
    assert(is_clear_for(rooted, links_direct(rooted, config, files)[i]));
    assert(after.contains_key(link.src) && after[link.src] == Node::File(link.ino)) by {
        lemma_detours_of_run(start, config, files);
        assert(rooted.contains_key(link.src));
    }
    assert(dest =~= dest.subrange(0, dest.len() as int));
    lemma_detours_add_nothing_toward(start, config, files, root, dest, dest);
    assert(dir =~= dest.subrange(0, dir.len() as int));
    assert(way_is_clear(after, dir)) by {
        assert forall|q: Components| #[trigger]
            after.contains_key(q) && q.is_prefix_of(dir) implies after[q] == Node::Dir by {
            lemma_prefix_transitive(q, dir, dest);
            lemma_detours_add_nothing_toward(start, config, files, root, dest, q);
            assert(rooted.contains_key(q));
        }
    }
}

/// No link that is created elsewhere adds an entry with an empty path.
proof fn lemma_nothing_is_nameless(start: Fs, config: ConfigView, files: Seq<SourceFileView>)
    requires
        is_ready(start, config),
        are_files_of(start, config, files),
        way_was_clear(start, config, files),
    ensures
        with_detours(start, config, files).contains_key(Seq::empty()) ==> with_roots(
            start,
            config,
        ).contains_key(Seq::empty()),
{
    let rooted = with_roots(start, config);
    let links = detours_of(rooted, config, files);
    let p = Seq::<Seq<u8>>::empty();
    lemma_detours_of_run(start, config, files);
    if is_dest(links, p) {
        let i = choose|i: int| 0 <= i < links.len() && (#[trigger] links[i]).dest == p;
        let n = lemma_detour_of_run(start, config, files, i);
    }
}

/// The links that a run makes can be ensured, and leave the source tree and both
/// output trees standing.
pub(crate) proof fn lemma_links_of_run(start: Fs, config: ConfigView, files: Seq<SourceFileView>)
    requires
        is_ready(start, config),
        are_files_of(start, config, files),
        way_was_clear(start, config, files),
    ensures
        links_fit(
            with_detours(start, config, files),
            links_direct(with_roots(start, config), config, files),
        ),
        has_links(
            with_detours(start, config, files),
            with_links(start, config, files),
            links_direct(with_roots(start, config), config, files),
        ),
        is_tree(with_links(start, config, files), config.source),
        is_tree(with_links(start, config, files), config.formats_root),
        is_tree(with_links(start, config, files), config.max_qual_root),
        is_dir(with_links(start, config, files), config.formats_root),
        is_dir(with_links(start, config, files), config.max_qual_root),
{
    let rooted = with_roots(start, config);
    let base = with_detours(start, config, files);
    let direct = links_direct(rooted, config, files);
    lemma_roots_stand(start, config);
    lemma_detours_keep_trees(start, config, files, config.source);
    lemma_detours_keep_trees(start, config, files, config.formats_root);
    lemma_detours_keep_trees(start, config, files, config.max_qual_root);
    wanted_links_agree(
        start,
        config.source,
        config.formats_root,
        config.max_qual_root,
        config.formats,
        files,
    );
    lemma_direct_links_agree(rooted, links_of(config, files));
    assert forall|i: int| 0 <= i < direct.len() implies link_fits(base, #[trigger] direct[i]) by {
        lemma_direct_link_fits(start, config, files, i);
    }
    ensuring_links_makes_them_all(base, direct);
    ensuring_links_keeps_trees(base, config.source, direct);
    ensuring_links_keeps_trees(base, config.formats_root, direct);
    ensuring_links_keeps_trees(base, config.max_qual_root, direct);
}

/// The tree that is about to be cleared stands.
proof fn lemma_tree_at_hand_stands(
    start: Fs,
    config: ConfigView,
    files: Seq<SourceFileView>,
    rest: RestView,
)
    requires
        is_ready(start, config),
        are_files_of(start, config, files),
        way_was_clear(start, config, files),
        rest.config == config,
    ensures
        is_tree(before_clearing(start, config, files, rest), root_at_hand(rest)),
        is_dir(before_clearing(start, config, files, rest), root_at_hand(rest)),
{
    lemma_links_of_run(start, config, files);
    if rest.tracks is None {
        let f = config.formats_root;
        let m = config.max_qual_root;
        let fs = with_links(start, config, files);
        let after = with_formats_cleared(start, config, files);
        assert forall|p: Components| #[trigger] fs.contains_key(p) && m.is_prefix_of(p) implies
            after.contains_key(p) && after[p] == fs[p] by {
            if f.is_prefix_of(p) {
                lemma_outputs_are_apart(config, p);
            }
        }
        assert(m =~= m.subrange(0, m.len() as int));
        assert forall|p: Components| #[trigger]
            after.contains_key(p) && strictly_under(p, m) implies is_dir(after, p.drop_last()) by {
            assert(is_dir(fs, p.drop_last()));
            let q = p.drop_last();
            lemma_longer(p, m);
            assert(q =~= p.subrange(0, q.len() as int));
            lemma_prefixes_nest(m, q, p);
        }
    }
}

proof fn step_walking(
    start: Fs,
    config: ConfigView,
    fs: Fs,
    stage: WalkingView,
    next_fs: Fs,
    next: RunView,
)
    requires
        is_ready(start, config),
        is_on_track(start, config, fs, RunView::Walking(stage)),
        is_step(fs, RunView::Walking(stage), next_fs, next),
    ensures
        is_on_track(start, config, next_fs, next),
{
    let listings = choose|listings: Seq<ListingView>| #[trigger]
        lists_all(fs, stage.walk.level, listings) && next == after_walk(stage, listings);
    walk_stays_faithful(fs, stage.walk, listings);
    let walk = advanced(stage.walk, listings);
    if walk.level.len() == 0 {
        assert(is_judged_walk(start, config, walk, next->Identifying_0));
    }
}

proof fn step_identifying(
    start: Fs,
    config: ConfigView,
    fs: Fs,
    stage: IdentifyingView,
    next_fs: Fs,
    next: RunView,
)
    requires
        !config.dry_run,
        is_on_track(start, config, fs, RunView::Identifying(stage)),
        is_step(fs, RunView::Identifying(stage), next_fs, next),
    ensures
        is_on_track(start, config, next_fs, next),
{
    let walk = choose|walk: WalkView| #[trigger] is_judged_walk(start, config, walk, stage);
    let inos = choose|inos: Seq<Result<InodeRef, Seq<char>>>| #[trigger]
        inos_are_true(fs, candidates_among(stage.judged), inos) && next == after_identifying(
            stage,
            inos,
        );
    scan_finds_the_managed_files(fs, walk, config.formats, inos);
}

/// No output root is reached through a symbolic link once it has been created.
pub(crate) proof fn lemma_roots_are_real(start: Fs, config: ConfigView)
    requires
        is_ready(start, config),
    ensures
        is_real(with_roots(start, config), config.formats_root),
        is_real(with_roots(start, config), config.max_qual_root),
{
}

proof fn step_surveying(
    start: Fs,
    config: ConfigView,
    fs: Fs,
    stage: SurveyingView,
    next_fs: Fs,
    next: RunView,
)
    requires
        is_ready(start, config),
        is_on_track(start, config, fs, RunView::Surveying(stage)),
        is_step(fs, RunView::Surveying(stage), next_fs, next),
    ensures
        is_on_track(start, config, next_fs, next),
{
    lemma_roots_are_real(start, config);
    permits_follow_from_where_links_lead(fs, stage);
    assert(links_wanted(config, stage.found) == links_of(config, stage.found.files));
}

proof fn step_linking(
    start: Fs,
    config: ConfigView,
    fs: Fs,
    stage: LinkingView,
    next_fs: Fs,
    next: RunView,
)
    requires
        !config.dry_run,
        is_on_track(start, config, fs, RunView::Linking(stage)),
        is_step(fs, RunView::Linking(stage), next_fs, next),
    ensures
        is_on_track(start, config, next_fs, next),
{
    let found = stage.found;
    assert(links_wanted(config, found) == links_of(config, found.files));
    assert(found_is_right(start, config, found));
    assert(way_was_clear(start, config, found.files));
    assert(clearing_is_on_track(start, config, found, next_fs, next));
}

proof fn step_checking(
    start: Fs,
    config: ConfigView,
    found: FoundView,
    fs: Fs,
    stage: CheckingView,
    next_fs: Fs,
    next: RunView,
)
    requires
        is_ready(start, config),
        found_is_right(start, config, found),
        way_was_clear(start, config, found.files),
        clearing_is_on_track(start, config, found, fs, RunView::Checking(stage)),
        is_step(fs, RunView::Checking(stage), next_fs, next),
    ensures
        clearing_is_on_track(start, config, found, next_fs, next),
{
    lemma_tree_at_hand_stands(start, config, found.files, stage.rest);
    tree_starts_faithful(fs, root_at_hand(stage.rest), stage.keep);
}

proof fn step_reading(
    start: Fs,
    config: ConfigView,
    found: FoundView,
    fs: Fs,
    stage: ReadingView,
    next_fs: Fs,
    next: RunView,
)
    requires
        is_ready(start, config),
        found_is_right(start, config, found),
        way_was_clear(start, config, found.files),
        clearing_is_on_track(start, config, found, fs, RunView::Reading(stage)),
        is_step(fs, RunView::Reading(stage), next_fs, next),
    ensures
        clearing_is_on_track(start, config, found, next_fs, next),
{
    let listings = choose|listings: Seq<ListingView>| #[trigger]
        lists_all(fs, stage.tree.level, listings) && next == after_reading(stage, listings);
    lemma_tree_at_hand_stands(start, config, found.files, stage.rest);
    tree_stays_faithful(fs, stage.tree, listings);
}

/// Removals that all succeed are all counted, and nothing stays of them.
pub(crate) proof fn lemma_no_failure(files: Seq<Components>, outcomes: Seq<Result<(), String>>)
    requires
        all_went_well(outcomes, files.len()),
    ensures
        removed_count(outcomes) == files.len(),
        removal_failures(files, outcomes) == Seq::<Seq<char>>::empty(),
        unremoved(files, outcomes) == Set::<Components>::empty(),
    decreases files.len(),
{
    if files.len() > 0 {
        let fewer = outcomes.drop_last();
        assert forall|i: int| 0 <= i < fewer.len() implies (#[trigger] fewer[i]) is Ok by {
            assert(fewer[i] == outcomes[i]);
        }
        lemma_no_failure(files.drop_last(), fewer);
        assert(outcomes[outcomes.len() - 1] is Ok);
    }
}

/// What follows once a tree is partly cleared, as far as pruning has come.
proof fn lemma_pruning_or_done(
    start: Fs,
    config: ConfigView,
    found: FoundView,
    rest: RestView,
    prune: PruneView,
)
    requires
        is_ready(start, config),
        found_is_right(start, config, found),
        way_was_clear(start, config, found.files),
        rest_is_right(config, found, rest),
        prune.root == root_at_hand(rest),
        prune.held == Set::<Components>::empty(),
        rest.stats == with_removed(
            counts_before(start, config, found, rest),
            unwanted_files(
                before_clearing(start, config, found.files, rest),
                prune.root,
                wanted_at_hand(config, found.files, rest),
            ).len(),
            0,
        ),
        pruning_is_right(
            before_clearing(start, config, found.files, rest),
            wanted_at_hand(config, found.files, rest),
            prune,
        ),
        is_order_of_tree(before_clearing(start, config, found.files, rest), prune),
    ensures
        clearing_is_on_track(
            start,
            config,
            found,
            partly_cleared(
                before_clearing(start, config, found.files, rest),
                prune.root,
                wanted_at_hand(config, found.files, rest),
                prune.gone,
            ),
            pruning_or_done(rest, prune),
        ),
{
    if prune.next >= prune.order.len() {
        let base = before_clearing(start, config, found.files, rest);
        let keep = wanted_at_hand(config, found.files, rest);
        assert(partly_cleared(base, prune.root, keep, prune.gone) == cleared(
            base,
            prune.root,
            keep,
        ) && prune.removed == hollow_dirs(base, prune.root, keep).len()) by {
            lemma_tree_at_hand_stands(start, config, found.files, rest);
            pruned_tree_is_cleared(base, keep, prune);
        }
    }
}

proof fn step_removing(
    start: Fs,
    config: ConfigView,
    found: FoundView,
    fs: Fs,
    stage: ReadingView,
    next_fs: Fs,
    next: RunView,
)
    requires
        !config.dry_run,
        is_ready(start, config),
        found_is_right(start, config, found),
        way_was_clear(start, config, found.files),
        clearing_is_on_track(start, config, found, fs, RunView::Removing(stage)),
        is_step(fs, RunView::Removing(stage), next_fs, next),
    ensures
        clearing_is_on_track(start, config, found, next_fs, next),
{
    let removed = unwanted_in(stage.tree.scans);
    let outcomes = choose|outcomes: Seq<Result<(), String>>| #[trigger]
        all_went_well(outcomes, removed.len()) && next == after_removing(stage, outcomes);
    lemma_no_failure(removed, outcomes);
    lemma_tree_at_hand_stands(start, config, found.files, stage.rest);
    removing_files_clears_partly(fs, stage.tree);
    unwanted_files_are_counted(fs, stage.tree);
    let none = Set::<Components>::empty();
    let held = above(none);
    assert(held =~= none);
    above_is_closed_upward(none);
    pruning_starts_right(fs, stage.tree, held);
    pruning_covers_the_tree(fs, stage.tree, held);
    let counted = with_removed(stage.rest.stats, removed.len(), 0);
    let rest = RestView { stats: with_errors(counted, seq![]), ..stage.rest };
    assert(counted.errors + seq![] =~= counted.errors);
    lemma_pruning_or_done(
        start,
        config,
        found,
        rest,
        unpruned(stage.tree.root, stage.tree.scans, held),
    );
}

proof fn step_pruning(
    start: Fs,
    config: ConfigView,
    found: FoundView,
    fs: Fs,
    stage: PruningView,
    next_fs: Fs,
    next: RunView,
)
    requires
        is_ready(start, config),
        found_is_right(start, config, found),
        way_was_clear(start, config, found.files),
        clearing_is_on_track(start, config, found, fs, RunView::Pruning(stage)),
        is_step(fs, RunView::Pruning(stage), next_fs, next),
    ensures
        clearing_is_on_track(start, config, found, next_fs, next),
{
    let base = before_clearing(start, config, found.files, stage.rest);
    let keep = wanted_at_hand(config, found.files, stage.rest);
    lemma_tree_at_hand_stands(start, config, found.files, stage.rest);
    pruning_stays_right(base, keep, stage.prune);
    next_directory_is_empty(base, keep, stage.prune);
    removing_a_directory_clears_on(
        base,
        stage.prune.root,
        keep,
        stage.prune.gone,
        dir_to_remove(stage),
    );
    lemma_pruning_or_done(start, config, found, stage.rest, attempted(stage.prune, true));
}

proof fn step_creating_root(
    start: Fs,
    config: ConfigView,
    fs: Fs,
    stage: CreatingRootView,
    next_fs: Fs,
    next: RunView,
)
    requires
        is_on_track(start, config, fs, RunView::CreatingRoot(stage)),
        is_step(fs, RunView::CreatingRoot(stage), next_fs, next),
    ensures
        is_on_track(start, config, next_fs, next),
{
}

proof fn step_marking(
    start: Fs,
    config: ConfigView,
    found: FoundView,
    fs: Fs,
    run: RunView,
    next_fs: Fs,
    next: RunView,
)
    requires
        !config.dry_run,
        run is Marking || run is CreatingMarker,
        clearing_is_on_track(start, config, found, fs, run),
        is_step(fs, run, next_fs, next),
    ensures
        clearing_is_on_track(start, config, found, next_fs, next),
{
    let marker = marker_of(config);
    assert(marker =~= marker.subrange(0, marker.len() as int));
}

/// An undisturbed step after linking.
proof fn step_clearing(
    start: Fs,
    config: ConfigView,
    found: FoundView,
    fs: Fs,
    run: RunView,
    next_fs: Fs,
    next: RunView,
)
    requires
        !config.dry_run,
        is_ready(start, config),
        found_is_right(start, config, found),
        way_was_clear(start, config, found.files),
        clearing_is_on_track(start, config, found, fs, run),
        is_step(fs, run, next_fs, next),
    ensures
        clearing_is_on_track(start, config, found, next_fs, next),
{
    match run {
        RunView::Checking(stage) => {
            step_checking(start, config, found, fs, stage, next_fs, next);
        },
        RunView::Reading(stage) => {
            step_reading(start, config, found, fs, stage, next_fs, next);
        },
        RunView::Removing(stage) => {
            step_removing(start, config, found, fs, stage, next_fs, next);
        },
        RunView::Pruning(stage) => {
            step_pruning(start, config, found, fs, stage, next_fs, next);
        },
        _ => {
            step_marking(start, config, found, fs, run, next_fs, next);
        },
    }
}

/// Once the links have been ensured, being on track rests on what the scan found.
proof fn lemma_clearing_is_on_track(
    start: Fs,
    config: ConfigView,
    found: FoundView,
    fs: Fs,
    run: RunView,
)
    requires
        found_is_right(start, config, found),
        way_was_clear(start, config, found.files),
        clearing_is_on_track(start, config, found, fs, run),
    ensures
        is_on_track(start, config, fs, run),
{
}

/// An undisturbed step keeps a run on track.
pub proof fn run_stays_on_track(
    start: Fs,
    config: ConfigView,
    fs: Fs,
    run: RunView,
    next_fs: Fs,
    next: RunView,
)
    requires
        !config.dry_run,
        is_ready(start, config),
        is_on_track(start, config, fs, run),
        is_step(fs, run, next_fs, next),
    ensures
        is_on_track(start, config, next_fs, next),
{
    match run {
        RunView::Walking(stage) => {
            step_walking(start, config, fs, stage, next_fs, next);
        },
        RunView::Identifying(stage) => {
            step_identifying(start, config, fs, stage, next_fs, next);
        },
        RunView::CreatingRoot(stage) => {
            step_creating_root(start, config, fs, stage, next_fs, next);
        },
        RunView::Surveying(stage) => {
            step_surveying(start, config, fs, stage, next_fs, next);
        },
        RunView::Linking(stage) => {
            step_linking(start, config, fs, stage, next_fs, next);
        },
        _ => {
            let found = choose|found: FoundView|
                {
                    &&& #[trigger] found_is_right(start, config, found)
                    &&& way_was_clear(start, config, found.files)
                    &&& clearing_is_on_track(start, config, found, fs, run)
                };
            step_clearing(start, config, found, fs, run, next_fs, next);
            lemma_clearing_is_on_track(start, config, found, next_fs, next);
        },
    }
}

/// A run that has finished on track has made of the file system what it was to
/// make of it, and its counters tell what it did.
pub proof fn finished_run_has_reconciled(
    start: Fs,
    config: ConfigView,
    fs: Fs,
    stats: StatsView,
) -> (found: FoundView)
    requires
        is_on_track(start, config, fs, RunView::Finished(stats)),
    ensures
        found_is_right(start, config, found),
        way_was_clear(start, config, found.files),
        stats == counts_at_end(start, config, found),
        fs == reconciled(start, config, found.files),
        is_dir(fs, marker_of(config)),
{
    choose|found: FoundView|
        {
            &&& #[trigger] found_is_right(start, config, found)
            &&& way_was_clear(start, config, found.files)
            &&& clearing_is_on_track(start, config, found, fs, RunView::Finished(stats))
        }
}

} // verus!
