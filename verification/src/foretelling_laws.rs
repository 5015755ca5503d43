//! What a dry run foretells: what a run that is not disturbed does.

use vstd::prelude::*;

use crate::clean::{unread_tree, unwanted_in, TreeScanView};
use crate::clean_laws::{
    is_anchor, is_unwanted, tree_is_faithful, tree_starts_faithful, tree_stays_faithful,
};
use crate::config::ConfigView;
use crate::link::InodeRef;
use crate::link_laws::{is_above_dest, is_dest, link_fits};
use crate::model::{
    is_dir, is_real, is_tree, lemma_longer, lemma_prefix_is_dir, lemma_prefix_transitive,
    lemma_prefixes_nest, place_of, with_dirs, Fs, Node,
};
use crate::order_laws::{
    are_like_files, files_and_tracks_do_not_depend_on_order, outcomes_do_not_depend_on_order,
    wanted_links_do_not_depend_on_order,
};
use crate::outcome_laws::{lemma_dests, lemma_link_is_wanted};
use crate::path::{strictly_under, Components};
use crate::path_set::above;
use crate::plan::{format_links, track_links};
use crate::plan_laws::wanted_links_agree;
use crate::prune::{fully_pruned, pruning_start, unpruned};
use crate::prune_laws::{
    above_is_closed_upward, is_hollow, pruning_removes_the_vacant_directories, pruning_starts_right,
};
use crate::run::{
    after_identifying, after_reading, after_removing, after_walk, links_wanted, output_roots,
    root_at_hand, started_run, with_removed, CheckingView, IdentifyingView, LinkingView,
    MarkingView, ReadingView, RestView, RunView, SurveyingView, WalkingView,
};
use crate::run_laws::{
    all_went_well, are_files_of, counts_at_end, counts_by_links, counts_with_formats,
    counts_with_links, finished_run_has_reconciled, found_is_right, is_judged_walk, is_on_track,
    is_ready, is_step, leads_aside, lemma_detours_add_nothing_toward, lemma_detours_of_run,
    lemma_direct_link, lemma_is_direct, lemma_link_of_run, lemma_links_of_run, lemma_no_failure,
    lemma_outputs_are_apart, links_direct, links_of, lists_all, outcome_of, outcomes_in,
    rest_is_right, wanted_at_hand, wanted_in_formats, wanted_in_tracks, way_was_clear, with_detours,
    with_formats_cleared, with_links, with_roots,
};
use crate::scan::{candidates_among, tracks_of, FoundView, SourceFileView};
use crate::scan_laws::{inos_are_true, scan_finds_the_managed_files};
use crate::stats::StatsView;
use crate::survey_laws::{
    lemma_real_place, lemma_same_places, permit_in, permits_follow_from_where_links_lead,
    permits_in,
};
use crate::tree_laws::{
    hollow_dirs, pruning_covers_the_tree, unwanted_files, unwanted_files_are_counted,
    vacant_directories_are_counted, vacant_dirs,
};
use crate::walk::{advanced, ListingView, WalkView};
use crate::walk_laws::{walk_starts_faithful, walk_stays_faithful};

verus! {

/// Creating the output roots makes no path lead elsewhere.
proof fn lemma_roots_keep_places(start: Fs, config: ConfigView, dest: Components)
    ensures
        place_of(start, dest) == place_of(with_roots(start, config), dest),
        is_real(start, dest) == is_real(with_roots(start, config), dest),
{
    let rooted = with_roots(start, config);
    if dest.len() > 0 {
        lemma_same_places(start, rooted, dest.drop_last());
    }
    assert forall|q: Components| start.contains_key(q) && start[q] is Link <==> (
    #[trigger] rooted.contains_key(q)) && rooted[q] is Link by {
        assert(start.contains_key(q) || !start.contains_key(q));
    }
    assert forall|q: Components| #[trigger] start.contains_key(q) implies rooted.contains_key(q) by {
    }
}

/// A dry run foretells what becomes of each link: creating the roots changes
/// nothing about it.
pub proof fn dry_run_foretells_links(
    start: Fs,
    config: ConfigView,
    files: Seq<SourceFileView>,
    n: int,
)
    requires
        is_ready(start, config),
        are_files_of(start, config, files),
        way_was_clear(start, config, files),
        0 <= n < links_of(config, files).len(),
    ensures
        ({
            let link = links_of(config, files)[n];
            let rooted = with_roots(start, config);
            outcome_of(start, link, permit_in(start, config, link)) == outcome_of(
                rooted,
                link,
                permit_in(rooted, config, link),
            )
        }),
{
    let rooted = with_roots(start, config);
    let dest = links_of(config, files)[n].dest;
    let f = config.formats_root;
    let m = config.max_qual_root;
    lemma_roots_keep_places(start, config, dest);
    lemma_link_of_run(start, config, files, n);
    let root = if n < files.len() {
        f
    } else {
        m
    };
    let place = place_of(rooted, dest);
    if is_real(rooted, dest.drop_last()) {
        lemma_real_place(rooted, dest);
        lemma_base_below(start, config, files, root, dest);
        assert(rooted.contains_key(dest) <==> start.contains_key(dest)) by {
            lemma_detours_of_run(start, config, files);
            assert(start.contains_key(dest) ==> rooted.contains_key(dest));
        }
    } else {
        assert(leads_aside(rooted, config, links_of(config, files)[n].dest));
        assert(start.contains_key(place) <==> rooted.contains_key(place));
    }
}

/// Strictly below an output root nothing changes before the direct links are
/// ensured.
proof fn lemma_base_below(
    start: Fs,
    config: ConfigView,
    files: Seq<SourceFileView>,
    root: Components,
    q: Components,
)
    requires
        is_ready(start, config),
        are_files_of(start, config, files),
        way_was_clear(start, config, files),
        root == config.formats_root || root == config.max_qual_root,
        strictly_under(q, root),
    ensures
        with_detours(start, config, files).contains_key(q) <==> start.contains_key(q),
        start.contains_key(q) ==> with_detours(start, config, files)[q] == start[q],
{
    let f = config.formats_root;
    let m = config.max_qual_root;
    lemma_longer(q, root);
    if q.is_prefix_of(f) && root != f {
        lemma_prefix_transitive(root, q, f);
        assert(strictly_under(f, m));
    }
    if q.is_prefix_of(m) && root != m {
        lemma_prefix_transitive(root, q, m);
        assert(strictly_under(m, f));
    }
    assert(q =~= q.subrange(0, q.len() as int));
    lemma_detours_add_nothing_toward(start, config, files, root, q, q);
    assert(with_roots(start, config).contains_key(q) <==> start.contains_key(q));
}

/// A dry run foretells which files are removed: ensuring the links makes no other
/// file unwanted, and none wanted.
pub proof fn dry_run_foretells_removals(
    start: Fs,
    config: ConfigView,
    files: Seq<SourceFileView>,
    p: Components,
)
    requires
        is_ready(start, config),
        are_files_of(start, config, files),
        way_was_clear(start, config, files),
    ensures
        strictly_under(p, config.formats_root) ==> (is_unwanted(
            start,
            wanted_in_formats(config, files),
            p,
        ) <==> is_unwanted(
            with_links(start, config, files),
            wanted_in_formats(config, files),
            p,
        )),
        strictly_under(p, config.max_qual_root) ==> (is_unwanted(
            start,
            wanted_in_tracks(config, files),
            p,
        ) <==> is_unwanted(
            with_links(start, config, files),
            wanted_in_tracks(config, files),
            p,
        )),
{
    let base = with_detours(start, config, files);
    let links = links_direct(with_roots(start, config), config, files);
    lemma_links_of_run(start, config, files);
    if is_dest(links, p) {
        let i = choose|i: int| 0 <= i < links.len() && (#[trigger] links[i]).dest == p;
        let n = lemma_direct_link(with_roots(start, config), links_of(config, files), i);
        lemma_link_is_wanted(config, files, n);
        lemma_link_of_run(start, config, files, n);
        if config.formats_root.is_prefix_of(p) {
            lemma_outputs_are_apart(config, p);
        }
    } else {
        if strictly_under(p, config.formats_root) {
            lemma_base_below(start, config, files, config.formats_root, p);
        }
        if strictly_under(p, config.max_qual_root) {
            lemma_base_below(start, config, files, config.max_qual_root, p);
        }
        assert(base.contains_key(p) || !base.contains_key(p));
    }
}

/// Counters with what clearing one tree would remove: the unwanted files, and the
/// hollow directories above no wanted file.
pub open spec fn with_tree_foretold(
    stats: StatsView,
    fs: Fs,
    root: Components,
    keep: Set<Components>,
) -> StatsView {
    with_removed(
        stats,
        unwanted_files(fs, root, keep).len(),
        vacant_dirs(fs, root, keep, above(keep)).len(),
    )
}

/// The counters that a dry run foretells once the per-format trees have been read.
pub open spec fn foretold_formats(fs: Fs, config: ConfigView, found: FoundView) -> StatsView {
    with_tree_foretold(
        counts_by_links(fs, config, found),
        fs,
        config.formats_root,
        wanted_in_formats(config, found.files),
    )
}

/// The counters that a dry run foretells.
pub open spec fn foretold_counts(fs: Fs, config: ConfigView, found: FoundView) -> StatsView {
    with_tree_foretold(
        foretold_formats(fs, config, found),
        fs,
        config.max_qual_root,
        wanted_in_tracks(config, found.files),
    )
}

/// The counters that reading the tree at hand starts from.
pub open spec fn foretold_before(
    fs: Fs,
    config: ConfigView,
    found: FoundView,
    rest: RestView,
) -> StatsView {
    match rest.tracks {
        Some(_) => counts_by_links(fs, config, found),
        None => foretold_formats(fs, config, found),
    }
}

/// What holds of a dry run at a stage after the links have been looked at, given
/// what the scan found.
pub open spec fn reading_is_foretelling(
    fs: Fs,
    config: ConfigView,
    found: FoundView,
    run: RunView,
) -> bool {
    match run {
        RunView::Checking(stage) => {
            &&& rest_is_right(config, found, stage.rest)
            &&& stage.rest.stats == foretold_before(fs, config, found, stage.rest)
            &&& stage.keep == wanted_at_hand(config, found.files, stage.rest)
        },
        RunView::Reading(stage) => {
            &&& rest_is_right(config, found, stage.rest)
            &&& stage.rest.stats == foretold_before(fs, config, found, stage.rest)
            &&& stage.tree.root == root_at_hand(stage.rest)
            &&& stage.tree.keep == wanted_at_hand(config, found.files, stage.rest)
            &&& tree_is_faithful(fs, stage.tree)
        },
        RunView::Removing(stage) => {
            &&& rest_is_right(config, found, stage.rest)
            &&& stage.rest.stats == foretold_before(fs, config, found, stage.rest)
            &&& stage.tree.root == root_at_hand(stage.rest)
            &&& stage.tree.keep == wanted_at_hand(config, found.files, stage.rest)
            &&& stage.tree.level.len() == 0
            &&& tree_is_faithful(fs, stage.tree)
        },
        RunView::Marking(stage) => {
            &&& stage.config == config
            &&& stage.stats == foretold_counts(fs, config, found)
        },
        RunView::Finished(stats) => stats == foretold_counts(fs, config, found),
        _ => false,
    }
}

/// What holds of a dry run at any time. The file system stays as it is.
pub open spec fn is_foretelling(fs: Fs, config: ConfigView, run: RunView) -> bool {
    match run {
        RunView::Walking(_) => is_on_track(fs, config, fs, run),
        RunView::Identifying(_) => is_on_track(fs, config, fs, run),
        RunView::Surveying(stage) => {
            &&& stage.config == config
            &&& found_is_right(fs, config, stage.found)
        },
        RunView::Linking(stage) => {
            &&& stage.config == config
            &&& found_is_right(fs, config, stage.found)
            &&& stage.permits == permits_in(fs, config, links_of(config, stage.found.files))
        },
        _ => exists|found: FoundView| #[trigger]
            found_is_right(fs, config, found) && reading_is_foretelling(fs, config, found, run),
    }
}

/// A dry run starts so.
pub proof fn dry_run_starts_foretelling(fs: Fs, config: ConfigView)
    requires
        is_ready(fs, config),
    ensures
        is_foretelling(fs, config, started_run(config)),
{
    walk_starts_faithful(fs, config.source, output_roots(config));
}

proof fn dry_step_walking(fs: Fs, config: ConfigView, stage: WalkingView, next_fs: Fs, next: RunView)
    requires
        is_ready(fs, config),
        is_foretelling(fs, config, RunView::Walking(stage)),
        is_step(fs, RunView::Walking(stage), next_fs, next),
    ensures
        next_fs == fs,
        is_foretelling(fs, config, next),
{
    let listings = choose|listings: Seq<ListingView>| #[trigger]
        lists_all(fs, stage.walk.level, listings) && next == after_walk(stage, listings);
    walk_stays_faithful(fs, stage.walk, listings);
    let walk = advanced(stage.walk, listings);
    if walk.level.len() == 0 {
        assert(is_judged_walk(fs, config, walk, next->Identifying_0));
    }
}

proof fn dry_step_identifying(
    fs: Fs,
    config: ConfigView,
    stage: IdentifyingView,
    next_fs: Fs,
    next: RunView,
)
    requires
        config.dry_run,
        is_foretelling(fs, config, RunView::Identifying(stage)),
        is_step(fs, RunView::Identifying(stage), next_fs, next),
    ensures
        next_fs == fs,
        is_foretelling(fs, config, next),
{
    let walk = choose|walk: WalkView| #[trigger] is_judged_walk(fs, config, walk, stage);
    let inos = choose|inos: Seq<Result<InodeRef, Seq<char>>>| #[trigger]
        inos_are_true(fs, candidates_among(stage.judged), inos) && next == after_identifying(
            stage,
            inos,
        );
    scan_finds_the_managed_files(fs, walk, config.formats, inos);
}

proof fn dry_step_surveying(
    fs: Fs,
    config: ConfigView,
    stage: SurveyingView,
    next_fs: Fs,
    next: RunView,
)
    requires
        is_ready(fs, config),
        is_foretelling(fs, config, RunView::Surveying(stage)),
        is_step(fs, RunView::Surveying(stage), next_fs, next),
    ensures
        next_fs == fs,
        is_foretelling(fs, config, next),
{
    permits_follow_from_where_links_lead(fs, stage);
    assert(links_wanted(config, stage.found) == links_of(config, stage.found.files));
}

proof fn dry_step_linking(fs: Fs, config: ConfigView, stage: LinkingView, next_fs: Fs, next: RunView)
    requires
        config.dry_run,
        is_foretelling(fs, config, RunView::Linking(stage)),
        is_step(fs, RunView::Linking(stage), next_fs, next),
    ensures
        next_fs == fs,
        is_foretelling(fs, config, next),
{
    let found = stage.found;
    assert(links_wanted(config, found) == links_of(config, found.files));
    assert(reading_is_foretelling(fs, config, found, next));
}

/// Where the root is no directory, nothing is below it.
proof fn lemma_no_tree(fs: Fs, root: Components, keep: Set<Components>)
    requires
        is_tree(fs, root),
        !is_dir(fs, root),
    ensures
        tree_is_faithful(fs, unread_tree(root, keep, false)),
{
    let tree = unread_tree(root, keep, false);
    assert forall|p: Components| !(#[trigger] is_dir(fs, p) && root.is_prefix_of(p)) by {
        if is_dir(fs, p) && root.is_prefix_of(p) && p != root {
            assert(root =~= root.subrange(0, root.len() as int));
            lemma_prefix_is_dir(fs, root, p, root);
        }
    }
}

proof fn dry_step_checking(
    fs: Fs,
    config: ConfigView,
    found: FoundView,
    stage: CheckingView,
    next_fs: Fs,
    next: RunView,
)
    requires
        is_ready(fs, config),
        reading_is_foretelling(fs, config, found, RunView::Checking(stage)),
        is_step(fs, RunView::Checking(stage), next_fs, next),
    ensures
        next_fs == fs,
        reading_is_foretelling(fs, config, found, next),
{
    let root = root_at_hand(stage.rest);
    if is_dir(fs, root) {
        tree_starts_faithful(fs, root, stage.keep);
    } else {
        lemma_no_tree(fs, root, stage.keep);
    }
}

proof fn dry_step_reading(
    fs: Fs,
    config: ConfigView,
    found: FoundView,
    stage: ReadingView,
    next_fs: Fs,
    next: RunView,
)
    requires
        is_ready(fs, config),
        reading_is_foretelling(fs, config, found, RunView::Reading(stage)),
        is_step(fs, RunView::Reading(stage), next_fs, next),
    ensures
        next_fs == fs,
        reading_is_foretelling(fs, config, found, next),
{
    let listings = choose|listings: Seq<ListingView>| #[trigger]
        lists_all(fs, stage.tree.level, listings) && next == after_reading(stage, listings);
    tree_stays_faithful(fs, stage.tree, listings);
}

/// What a dry run says that pruning a tree that has been read removes.
proof fn lemma_foretold_prune(fs: Fs, tree: TreeScanView, unremoved: Set<Components>)
    requires
        is_tree(fs, tree.root),
        tree_is_faithful(fs, tree),
        tree.level.len() == 0,
        unremoved == Set::<Components>::empty(),
    ensures
        ({
            let prune = fully_pruned(pruning_start(tree, unremoved, true));
            &&& prune.next == prune.order.len()
            &&& prune.removed == vacant_dirs(fs, tree.root, tree.keep, above(tree.keep)).len()
        }),
{
    assert(tree.keep.union(unremoved) =~= tree.keep);
    lemma_pruned_dirs(fs, tree, tree.keep);
}

/// Where every wanted file of a tree stands, a dry clearing of the tree foretells
/// the clearing: the same directories, and as many.
pub proof fn dry_clearing_foretells_the_clearing(fs: Fs, tree: TreeScanView)
    requires
        is_tree(fs, tree.root),
        tree_is_faithful(fs, tree),
        tree.level.len() == 0,
        forall|k: Components| #[trigger]
            tree.keep.contains(k) && strictly_under(k, tree.root) ==> fs.contains_key(k)
                && fs[k] is File,
    ensures
        ({
            let foretold = fully_pruned(pruning_start(tree, Set::empty(), true));
            let done = fully_pruned(pruning_start(tree, Set::empty(), false));
            &&& foretold.gone == done.gone
            &&& foretold.removed == done.removed
        }),
{
    let root = tree.root;
    let keep = tree.keep;
    let none = Set::<Components>::empty();
    let held = above(none);
    assert(held =~= none);
    assert(keep.union(none) =~= keep);
    lemma_pruned_dirs(fs, tree, keep);
    lemma_pruned_dirs(fs, tree, none);
    let foretold = vacant_dirs(fs, root, keep, above(keep));
    let done = vacant_dirs(fs, root, keep, held);
    assert forall|p: Components| foretold.contains(p) <==> done.contains(p) by {
        if done.contains(p) && above(keep).contains(p) {
            let k = choose|k: Components| #[trigger] keep.contains(k) && strictly_under(k, p);
            lemma_longer(k, p);
            lemma_prefix_transitive(root, p, k);
            assert(strictly_under(k, root));
            assert(is_anchor(fs, keep, k));
        }
    }
    assert(foretold =~= done);
}

/// What pruning removes from a tree that has been read, where the directories above
/// some paths are held.
proof fn lemma_pruned_dirs(fs: Fs, tree: TreeScanView, paths: Set<Components>)
    requires
        is_tree(fs, tree.root),
        tree_is_faithful(fs, tree),
        tree.level.len() == 0,
    ensures
        ({
            let prune = fully_pruned(unpruned(tree.root, tree.scans, above(paths)));
            let vacant = vacant_dirs(fs, tree.root, tree.keep, above(paths));
            &&& prune.next == prune.order.len()
            &&& prune.gone == vacant
            &&& prune.removed == vacant.len()
        }),
{
    let held = above(paths);
    above_is_closed_upward(paths);
    pruning_starts_right(fs, tree, held);
    pruning_covers_the_tree(fs, tree, held);
    let prune = unpruned(tree.root, tree.scans, held);
    pruning_removes_the_vacant_directories(fs, tree.keep, prune);
    vacant_directories_are_counted(fs, tree.keep, fully_pruned(prune));
}

proof fn dry_step_removing(
    fs: Fs,
    config: ConfigView,
    found: FoundView,
    stage: ReadingView,
    next_fs: Fs,
    next: RunView,
)
    requires
        config.dry_run,
        is_ready(fs, config),
        reading_is_foretelling(fs, config, found, RunView::Removing(stage)),
        is_step(fs, RunView::Removing(stage), next_fs, next),
    ensures
        next_fs == fs,
        reading_is_foretelling(fs, config, found, next),
{
    let files = unwanted_in(stage.tree.scans);
    let outcomes = choose|outcomes: Seq<Result<(), String>>| #[trigger]
        all_went_well(outcomes, files.len()) && next == after_removing(stage, outcomes);
    lemma_no_failure(files, outcomes);
    unwanted_files_are_counted(fs, stage.tree);
    lemma_foretold_prune(fs, stage.tree, Set::empty());
    let counted = with_removed(stage.rest.stats, files.len(), 0);
    assert(counted.errors + seq![] =~= counted.errors);
}

proof fn dry_step_marking(
    fs: Fs,
    config: ConfigView,
    found: FoundView,
    stage: MarkingView,
    next_fs: Fs,
    next: RunView,
)
    requires
        config.dry_run,
        reading_is_foretelling(fs, config, found, RunView::Marking(stage)),
        is_step(fs, RunView::Marking(stage), next_fs, next),
    ensures
        next_fs == fs,
        reading_is_foretelling(fs, config, found, next),
{
}

/// An undisturbed step of a dry run after the links have been looked at.
proof fn dry_step_clearing(
    fs: Fs,
    config: ConfigView,
    found: FoundView,
    run: RunView,
    next_fs: Fs,
    next: RunView,
)
    requires
        config.dry_run,
        is_ready(fs, config),
        reading_is_foretelling(fs, config, found, run),
        is_step(fs, run, next_fs, next),
    ensures
        next_fs == fs,
        reading_is_foretelling(fs, config, found, next),
{
    match run {
        RunView::Checking(stage) => {
            dry_step_checking(fs, config, found, stage, next_fs, next);
        },
        RunView::Reading(stage) => {
            dry_step_reading(fs, config, found, stage, next_fs, next);
        },
        RunView::Removing(stage) => {
            dry_step_removing(fs, config, found, stage, next_fs, next);
        },
        RunView::Marking(stage) => {
            dry_step_marking(fs, config, found, stage, next_fs, next);
        },
        _ => {},
    }
}

/// Once the links have been looked at, foretelling rests on what the scan found.
proof fn lemma_is_foretelling(fs: Fs, config: ConfigView, found: FoundView, run: RunView)
    requires
        found_is_right(fs, config, found),
        reading_is_foretelling(fs, config, found, run),
    ensures
        is_foretelling(fs, config, run),
{
}

/// An undisturbed step of a dry run changes nothing and goes on foretelling.
pub proof fn dry_run_goes_on_foretelling(
    fs: Fs,
    config: ConfigView,
    run: RunView,
    next_fs: Fs,
    next: RunView,
)
    requires
        config.dry_run,
        is_ready(fs, config),
        is_foretelling(fs, config, run),
        is_step(fs, run, next_fs, next),
    ensures
        next_fs == fs,
        is_foretelling(fs, config, next),
{
    match run {
        RunView::Walking(stage) => {
            dry_step_walking(fs, config, stage, next_fs, next);
        },
        RunView::Identifying(stage) => {
            dry_step_identifying(fs, config, stage, next_fs, next);
        },
        RunView::Surveying(stage) => {
            dry_step_surveying(fs, config, stage, next_fs, next);
        },
        RunView::Linking(stage) => {
            dry_step_linking(fs, config, stage, next_fs, next);
        },
        _ => {
            let found = choose|found: FoundView| #[trigger]
                found_is_right(fs, config, found) && reading_is_foretelling(
                    fs,
                    config,
                    found,
                    run,
                );
            dry_step_clearing(fs, config, found, run, next_fs, next);
            lemma_is_foretelling(fs, config, found, next);
        },
    }
}

/// A dry run foretells what becomes of the links.
proof fn lemma_links_foretold(start: Fs, config: ConfigView, found: FoundView)
    requires
        is_ready(start, config),
        are_files_of(start, config, found.files),
        way_was_clear(start, config, found.files),
    ensures
        counts_by_links(start, config, found) == counts_with_links(start, config, found),
{
    let links = links_of(config, found.files);
    let rooted = with_roots(start, config);
    assert forall|n: int| 0 <= n < links.len() implies #[trigger] outcomes_in(
        start,
        config,
        links,
    )[n] == outcomes_in(rooted, config, links)[n] by {
        dry_run_foretells_links(start, config, found.files, n);
    }
    assert(outcomes_in(start, config, links) =~= outcomes_in(rooted, config, links));
}

/// What is wanted in a tree is where the links of that tree are to stand.
proof fn lemma_wanted_is_dest(
    start: Fs,
    config: ConfigView,
    files: Seq<SourceFileView>,
    k: Components,
)
    requires
        is_ready(start, config),
        are_files_of(start, config, files),
        wanted_in_formats(config, files).contains(k) || wanted_in_tracks(config, files).contains(k),
    ensures
        is_dest(links_of(config, files), k),
{
    let links = links_of(config, files);
    let formats = format_links(config.formats_root, files);
    let tracks = track_links(config.max_qual_root, tracks_of(files, config.formats));
    lemma_dests(formats, k);
    lemma_dests(tracks, k);
    if is_dest(formats, k) {
        let i = choose|i: int| 0 <= i < formats.len() && (#[trigger] formats[i]).dest == k;
        assert(links[i].dest == k);
    } else {
        let i = choose|i: int| 0 <= i < tracks.len() && (#[trigger] tracks[i]).dest == k;
        assert(links[formats.len() + i].dest == k);
    }
}

/// A direct link is wanted in the tree that it stands in.
proof fn lemma_direct_is_wanted(
    start: Fs,
    config: ConfigView,
    files: Seq<SourceFileView>,
    root: Components,
    keep: Set<Components>,
    i: int,
)
    requires
        is_ready(start, config),
        are_files_of(start, config, files),
        is_tree_of(config, files, root, keep),
        0 <= i < links_direct(with_roots(start, config), config, files).len(),
        strictly_under(links_direct(with_roots(start, config), config, files)[i].dest, root),
    ensures
        keep.contains(links_direct(with_roots(start, config), config, files)[i].dest),
{
    let rooted = with_roots(start, config);
    let dest = links_direct(rooted, config, files)[i].dest;
    let n = lemma_direct_link(rooted, links_of(config, files), i);
    lemma_link_of_run(start, config, files, n);
    lemma_link_is_wanted(config, files, n);
    if config.formats_root.is_prefix_of(dest) {
        lemma_outputs_are_apart(config, dest);
    }
}

/// True of an output tree and the files wanted in it.
spec fn is_tree_of(
    config: ConfigView,
    files: Seq<SourceFileView>,
    root: Components,
    keep: Set<Components>,
) -> bool {
    ||| root == config.formats_root && keep == wanted_in_formats(config, files)
    ||| root == config.max_qual_root && keep == wanted_in_tracks(config, files)
}

/// A directory that a dry run takes for one to remove is hollow once the links
/// stand.
proof fn lemma_vacant_becomes_hollow(
    start: Fs,
    config: ConfigView,
    files: Seq<SourceFileView>,
    root: Components,
    keep: Set<Components>,
    p: Components,
)
    requires
        is_ready(start, config),
        are_files_of(start, config, files),
        way_was_clear(start, config, files),
        is_tree_of(config, files, root, keep),
        vacant_dirs(start, root, keep, above(keep)).contains(p),
    ensures
        hollow_dirs(with_links(start, config, files), root, keep).contains(p),
{
    let rooted = with_roots(start, config);
    let base = with_detours(start, config, files);
    let linked = with_links(start, config, files);
    let direct = links_direct(rooted, config, files);
    lemma_links_of_run(start, config, files);
    lemma_base_below(start, config, files, root, p);
    assert(is_dir(base, p));
    if is_dest(direct, p) {
        let i = choose|i: int| 0 <= i < direct.len() && (#[trigger] direct[i]).dest == p;
        assert(link_fits(base, direct[i]));
    }
    assert(is_dir(linked, p));
    assert forall|q: Components| #[trigger] is_anchor(linked, keep, q) implies !strictly_under(
        q,
        p,
    ) by {
        if strictly_under(q, p) {
            lemma_longer(q, p);
            lemma_prefix_transitive(root, p, q);
            assert(root.len() <= p.len());
            lemma_base_below(start, config, files, root, q);
            if is_dest(direct, q) {
                let i = choose|i: int| 0 <= i < direct.len() && (#[trigger] direct[i]).dest == q;
                lemma_direct_is_wanted(start, config, files, root, keep, i);
                assert(keep.contains(q));
            } else if base.contains_key(q) {
                assert(is_anchor(start, keep, q));
            } else {
                assert(is_above_dest(direct, q));
                let i = choose|i: int|
                    0 <= i < direct.len() && q.len() > 0 && strictly_under((#[trigger] direct[i]).dest, q);
                let dest = direct[i].dest;
                lemma_longer(dest, q);
                lemma_prefix_transitive(p, q, dest);
                lemma_prefix_transitive(root, q, dest);
                lemma_direct_is_wanted(start, config, files, root, keep, i);
                assert(keep.contains(dest) && strictly_under(dest, p));
            }
        }
    }
}

/// A link that is not direct has a symbolic link above it.
pub(crate) proof fn lemma_has_link_above(fs: Fs, dest: Components) -> (q: Components)
    requires
        dest.len() > 0,
        !is_real(fs, dest.drop_last()),
    ensures
        fs.contains_key(q),
        fs[q] is Link,
        strictly_under(dest, q),
{
    let dir = dest.drop_last();
    let q = choose|q: Components| #[trigger]
        fs.contains_key(q) && q.is_prefix_of(dir) && fs[q] is Link;
    assert(dir =~= dest.subrange(0, dir.len() as int));
    lemma_prefix_transitive(q, dir, dest);
    assert(q.len() <= dir.len());
    q
}

/// No wanted link stands above another one.
proof fn lemma_no_wanted_link_above(
    start: Fs,
    config: ConfigView,
    files: Seq<SourceFileView>,
    n: int,
    k: int,
)
    requires
        is_ready(start, config),
        are_files_of(start, config, files),
        0 <= n < links_of(config, files).len(),
        0 <= k < links_of(config, files).len(),
    ensures
        !strictly_under(links_of(config, files)[n].dest, links_of(config, files)[k].dest),
{
    wanted_links_agree(
        start,
        config.source,
        config.formats_root,
        config.max_qual_root,
        config.formats,
        files,
    );
    let links = links_of(config, files);
    assert(k != n ==> !links[k].dest.is_prefix_of(links[n].dest));
}

/// No direct link stands above another wanted one.
pub(crate) proof fn lemma_no_direct_link_above(
    start: Fs,
    config: ConfigView,
    files: Seq<SourceFileView>,
    n: int,
    q: Components,
)
    requires
        is_ready(start, config),
        are_files_of(start, config, files),
        0 <= n < links_of(config, files).len(),
        strictly_under(links_of(config, files)[n].dest, q),
    ensures
        !is_dest(links_direct(with_roots(start, config), config, files), q),
{
    let direct = links_direct(with_roots(start, config), config, files);
    if is_dest(direct, q) {
        let i = choose|i: int| 0 <= i < direct.len() && (#[trigger] direct[i]).dest == q;
        let k = lemma_direct_link(with_roots(start, config), links_of(config, files), i);
        lemma_no_wanted_link_above(start, config, files, n, k);
    }
}

/// A symbolic link above a wanted link keeps the directories above it.
proof fn lemma_link_above_is_anchor(
    start: Fs,
    config: ConfigView,
    files: Seq<SourceFileView>,
    root: Components,
    keep: Set<Components>,
    p: Components,
    n: int,
    q: Components,
)
    requires
        is_ready(start, config),
        are_files_of(start, config, files),
        way_was_clear(start, config, files),
        is_tree_of(config, files, root, keep),
        is_dir(with_links(start, config, files), p),
        strictly_under(p, root),
        0 <= n < links_of(config, files).len(),
        strictly_under(links_of(config, files)[n].dest, p),
        strictly_under(links_of(config, files)[n].dest, q),
        with_roots(start, config).contains_key(q),
        with_roots(start, config)[q] is Link,
    ensures
        is_anchor(with_links(start, config, files), keep, q),
        strictly_under(q, p),
{
    let linked = with_links(start, config, files);
    let dest = links_of(config, files)[n].dest;
    assert(linked.contains_key(q) && linked[q] is Link) by {
        lemma_links_of_run(start, config, files);
        lemma_detours_of_run(start, config, files);
        lemma_no_direct_link_above(start, config, files, n, q);
        assert(with_detours(start, config, files).contains_key(q));
    }
    assert(is_tree(linked, root)) by {
        lemma_links_of_run(start, config, files);
    }
    if q.is_prefix_of(root) {
        lemma_root_ways_are_dirs(start, config, files, q);
    }
    lemma_link_is_below(linked, root, p, dest, q);
}

/// A symbolic link on the way to a path, and not above the tree, lies below every
/// directory of the tree on that way.
proof fn lemma_link_is_below(
    fs: Fs,
    root: Components,
    p: Components,
    dest: Components,
    q: Components,
)
    requires
        is_tree(fs, root),
        is_dir(fs, p),
        strictly_under(p, root),
        strictly_under(dest, p),
        strictly_under(dest, q),
        fs.contains_key(q),
        fs[q] is Link,
        !q.is_prefix_of(root),
    ensures
        strictly_under(q, p),
{
    lemma_longer(p, root);
    if q.len() <= p.len() {
        lemma_prefixes_nest(q, p, dest);
        if q.len() == p.len() {
            assert(q =~= p.subrange(0, q.len() as int));
            assert(q =~= p);
        } else if q.len() >= root.len() {
            lemma_prefixes_nest(root, q, p);
            lemma_prefix_is_dir(fs, root, p, q);
        } else {
            lemma_prefixes_nest(q, root, p);
        }
    } else {
        lemma_prefixes_nest(p, q, dest);
    }
}

/// Nothing above an output root is a symbolic link.
pub(crate) proof fn lemma_root_ways_are_dirs(
    start: Fs,
    config: ConfigView,
    files: Seq<SourceFileView>,
    q: Components,
)
    requires
        way_was_clear(start, config, files),
        q.is_prefix_of(config.formats_root) || q.is_prefix_of(config.max_qual_root),
        with_roots(start, config).contains_key(q),
    ensures
        with_roots(start, config)[q] == Node::Dir,
{
    let first = with_dirs(start, config.formats_root);
    if first.contains_key(q) {
        if q.is_prefix_of(config.formats_root) {
            if start.contains_key(q) {
                assert(start[q] == Node::Dir);
            }
        } else {
            assert(first[q] == Node::Dir);
        }
    }
}

/// A directory that is hollow once the links stand is one that a dry run takes for
/// one to remove.
proof fn lemma_hollow_was_vacant(
    start: Fs,
    config: ConfigView,
    files: Seq<SourceFileView>,
    root: Components,
    keep: Set<Components>,
    p: Components,
)
    requires
        is_ready(start, config),
        are_files_of(start, config, files),
        way_was_clear(start, config, files),
        is_tree_of(config, files, root, keep),
        hollow_dirs(with_links(start, config, files), root, keep).contains(p),
    ensures
        vacant_dirs(start, root, keep, above(keep)).contains(p),
{
    let rooted = with_roots(start, config);
    let base = with_detours(start, config, files);
    let linked = with_links(start, config, files);
    let direct = links_direct(rooted, config, files);
    lemma_links_of_run(start, config, files);
    assert(strictly_under(p, root));
    lemma_longer(p, root);
    lemma_base_below(start, config, files, root, p);
    assert forall|k: Components| #[trigger] keep.contains(k) implies !strictly_under(k, p) by {
        if strictly_under(k, p) {
            lemma_wanted_is_dest(start, config, files, k);
            let links = links_of(config, files);
            let n = choose|n: int| 0 <= n < links.len() && (#[trigger] links[n]).dest == k;
            if is_real(rooted, links[n].dest.drop_last()) {
                let i = lemma_is_direct(rooted, links, n);
                assert(linked.contains_key(direct[i].dest));
                assert(is_anchor(linked, keep, k));
            } else {
                lemma_longer(k, p);
                let q = lemma_has_link_above(rooted, k);
                lemma_link_above_is_anchor(start, config, files, root, keep, p, n, q);
            }
        }
    }
    assert(!above(keep).contains(p));
    if !base.contains_key(p) {
        if is_dest(direct, p) {
            let i = choose|i: int| 0 <= i < direct.len() && (#[trigger] direct[i]).dest == p;
            assert(linked[direct[i].dest] == Node::File(direct[i].ino));
        } else {
            assert(is_above_dest(direct, p));
            let i = choose|i: int|
                0 <= i < direct.len() && p.len() > 0 && strictly_under((#[trigger] direct[i]).dest, p);
            lemma_longer(direct[i].dest, p);
            lemma_prefix_transitive(root, p, direct[i].dest);
            lemma_direct_is_wanted(start, config, files, root, keep, i);
        }
    }
    if is_dest(direct, p) {
        let i = choose|i: int| 0 <= i < direct.len() && (#[trigger] direct[i]).dest == p;
        assert(linked[direct[i].dest] == Node::File(direct[i].ino));
    }
    assert(is_dir(start, p));
    assert forall|q: Components| #[trigger] is_anchor(start, keep, q) implies !strictly_under(
        q,
        p,
    ) by {
        if strictly_under(q, p) {
            lemma_longer(q, p);
            lemma_prefix_transitive(root, p, q);
            lemma_base_below(start, config, files, root, q);
            assert(base.contains_key(q));
            if is_dest(direct, q) {
                let i = choose|i: int| 0 <= i < direct.len() && (#[trigger] direct[i]).dest == q;
                lemma_direct_is_wanted(start, config, files, root, keep, i);
            } else {
                assert(is_anchor(linked, keep, q));
            }
        }
    }
}

/// A dry run foretells what clearing one tree removes, once the links stand.
proof fn lemma_tree_foretold(
    start: Fs,
    config: ConfigView,
    files: Seq<SourceFileView>,
    root: Components,
    keep: Set<Components>,
)
    requires
        is_ready(start, config),
        are_files_of(start, config, files),
        way_was_clear(start, config, files),
        is_tree_of(config, files, root, keep),
    ensures
        unwanted_files(start, root, keep) == unwanted_files(
            with_links(start, config, files),
            root,
            keep,
        ),
        vacant_dirs(start, root, keep, above(keep)) == hollow_dirs(
            with_links(start, config, files),
            root,
            keep,
        ),
{
    let linked = with_links(start, config, files);
    let vacant = vacant_dirs(start, root, keep, above(keep));
    let hollow = hollow_dirs(linked, root, keep);
    assert forall|p: Components| vacant.contains(p) <==> hollow.contains(p) by {
        if vacant.contains(p) {
            lemma_vacant_becomes_hollow(start, config, files, root, keep, p);
        }
        if hollow.contains(p) {
            lemma_hollow_was_vacant(start, config, files, root, keep, p);
        }
    }
    assert(vacant =~= hollow);
    assert forall|p: Components| unwanted_files(start, root, keep).contains(p) <==> unwanted_files(
        linked,
        root,
        keep,
    ).contains(p) by {
        dry_run_foretells_removals(start, config, files, p);
    }
    assert(unwanted_files(start, root, keep) =~= unwanted_files(linked, root, keep));
}

/// Clearing the per-format trees changes nothing in the best-quality tree.
proof fn lemma_second_tree_untouched(start: Fs, config: ConfigView, files: Seq<SourceFileView>)
    requires
        is_ready(start, config),
    ensures
        ({
            let linked = with_links(start, config, files);
            let first = with_formats_cleared(start, config, files);
            let keep = wanted_in_tracks(config, files);
            let m = config.max_qual_root;
            &&& unwanted_files(first, m, keep) == unwanted_files(linked, m, keep)
            &&& hollow_dirs(first, m, keep) == hollow_dirs(linked, m, keep)
        }),
{
    let linked = with_links(start, config, files);
    let first = with_formats_cleared(start, config, files);
    let keep = wanted_in_tracks(config, files);
    let m = config.max_qual_root;
    assert forall|p: Components| m.is_prefix_of(p) implies (#[trigger] first.contains_key(p)
        <==> linked.contains_key(p)) && (first.contains_key(p) ==> first[p] == linked[p]) by {
        if config.formats_root.is_prefix_of(p) {
            lemma_outputs_are_apart(config, p);
        }
    }
    assert(unwanted_files(first, m, keep) =~= unwanted_files(linked, m, keep));
    assert forall|p: Components| m.is_prefix_of(p) implies is_hollow(first, keep, m, p)
        == is_hollow(linked, keep, m, p) by {
        assert forall|q: Components| strictly_under(q, p) implies is_anchor(first, keep, q)
            == is_anchor(linked, keep, q) by {
            lemma_prefix_transitive(m, p, q);
            assert(first.contains_key(q) || !first.contains_key(q));
        }
        if is_hollow(first, keep, m, p) {
            assert forall|q: Components| #[trigger] is_anchor(linked, keep, q) implies
                !strictly_under(q, p) by {
                assert(strictly_under(q, p) ==> is_anchor(first, keep, q));
            }
        }
        if is_hollow(linked, keep, m, p) {
            assert forall|q: Components| #[trigger] is_anchor(first, keep, q) implies
                !strictly_under(q, p) by {
                assert(strictly_under(q, p) ==> is_anchor(linked, keep, q));
            }
        }
    }
    assert forall|p: Components| hollow_dirs(first, m, keep).contains(p) <==> hollow_dirs(
        linked,
        m,
        keep,
    ).contains(p) by {
        if m.is_prefix_of(p) {
            assert(first.contains_key(p) || !first.contains_key(p));
        }
    }
    assert(hollow_dirs(first, m, keep) =~= hollow_dirs(linked, m, keep));
}

/// What a dry run foretells is what an undisturbed run that finds the same does.
pub proof fn foretold_counts_are_those_of_the_run(
    start: Fs,
    config: ConfigView,
    found: FoundView,
)
    requires
        is_ready(start, config),
        found_is_right(start, config, found),
        way_was_clear(start, config, found.files),
    ensures
        foretold_counts(start, config, found) == counts_at_end(start, config, found),
{
    let files = found.files;
    lemma_links_foretold(start, config, found);
    lemma_tree_foretold(
        start,
        config,
        files,
        config.formats_root,
        wanted_in_formats(config, files),
    );
    lemma_tree_foretold(
        start,
        config,
        files,
        config.max_qual_root,
        wanted_in_tracks(config, files),
    );
    lemma_second_tree_untouched(start, config, files);
    assert(foretold_formats(start, config, found) == counts_with_formats(start, config, found));
}

/// True when two configurations call for the same: they may differ in what is
/// written and announced.
pub open spec fn call_for_the_same(a: ConfigView, b: ConfigView) -> bool {
    &&& a.source == b.source
    &&& a.formats_root == b.formats_root
    &&& a.max_qual_root == b.max_qual_root
    &&& a.formats == b.formats
}

/// What is foretold does not depend on what is written and announced.
proof fn lemma_same_foretold(fs: Fs, a: ConfigView, b: ConfigView, found: FoundView)
    requires
        call_for_the_same(a, b),
    ensures
        found_is_right(fs, a, found) == found_is_right(fs, b, found),
        foretold_counts(fs, a, found) == foretold_counts(fs, b, found),
{
    assert(output_roots(a) == output_roots(b));
    assert(wanted_in_formats(a, found.files) == wanted_in_formats(b, found.files));
    assert(wanted_in_tracks(a, found.files) == wanted_in_tracks(b, found.files));
    let links = links_of(a, found.files);
    assert(links == links_of(b, found.files));
    assert(permits_in(fs, a, links) =~= permits_in(fs, b, links));
    assert(counts_by_links(fs, a, found) == counts_by_links(fs, b, found));
    assert(foretold_formats(fs, a, found) == foretold_formats(fs, b, found));
}

/// The counters that a dry run ends with are those that an undisturbed run, started
/// on the same file system, ends with: as many files, tracks and regular files, as
/// many links created, replaced and up to date, as many files and directories
/// removed, and as many problems.
pub proof fn dry_run_foretells_the_counters(
    start: Fs,
    dry: ConfigView,
    foretold: StatsView,
    config: ConfigView,
    end: Fs,
    done: StatsView,
)
    requires
        is_ready(start, config),
        call_for_the_same(dry, config),
        is_foretelling(start, dry, RunView::Finished(foretold)),
        is_on_track(start, config, end, RunView::Finished(done)),
    ensures
        foretold.regular_files == done.regular_files,
        foretold.managed_files == done.managed_files,
        foretold.tracks == done.tracks,
        foretold.links_created == done.links_created,
        foretold.links_replaced == done.links_replaced,
        foretold.links_up_to_date == done.links_up_to_date,
        foretold.files_removed == done.files_removed,
        foretold.dirs_removed == done.dirs_removed,
        foretold.errors.len() == done.errors.len(),
{
    let found = finished_run_has_reconciled(start, config, end, done);
    let again = choose|again: FoundView| #[trigger]
        found_is_right(start, dry, again) && reading_is_foretelling(
            start,
            dry,
            again,
            RunView::Finished(foretold),
        );
    lemma_same_foretold(start, dry, config, again);
    assert(are_like_files(start, start, config, found.files, again.files));
    files_and_tracks_do_not_depend_on_order(start, start, config, found.files, again.files);
    wanted_links_do_not_depend_on_order(start, start, config, found.files, again.files);
    outcomes_do_not_depend_on_order(start, start, config, found.files, again.files, start);
    foretold_counts_are_those_of_the_run(start, config, found);
}

} // verus!
