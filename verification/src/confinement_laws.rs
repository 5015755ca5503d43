//! What a run never does, whatever the disk answers.

use vstd::prelude::*;
use vstd::utf8::*;

use crate::clean::{
    read_level, removal_failure, removal_failures, scanned_all, scanned_items, subdirs_of,
    unremoved, unwanted_in, DirScanView, TreeScanView,
};
use crate::config::ConfigView;
use crate::link::{InodeRef, LinkAction};
use crate::model::{is_plain, lemma_child, lemma_longer, lemma_prefix_transitive};
use crate::path::{strictly_under, Components};
use crate::path_set::above;
use crate::plan_laws::{
    format_link_mirrors_the_source, format_link_stays_in_its_tree, is_proper_file,
    track_link_mirrors_the_source, track_link_stays_in_its_tree, tracks_hold_the_best_files,
};
use crate::prune::{
    attempted, deepest_first, fully_pruned, lemma_seek, pruning_start, unpruned, PruneView,
    RmdirReply,
};
use crate::prune_laws::pruning_order_is_deepest_first;
use crate::run::{
    after_checking, after_identifying, after_linking, after_marker, after_marking, after_pruning,
    after_reading, after_removing, after_root, after_survey, after_walk, dir_to_remove, files_left,
    formats_wanted, links_wanted, output_roots, root_at_hand, started_run, tracks_wanted,
    LinkingView, ReadingView, RunView,
};
use crate::scan::{
    best_of, distinct_keys, files_among, is_best, judged, settled, track_with_best, tracks_of,
    FoundView, JudgedView, OutcomeView, SourceFileView,
};
use crate::survey::WayView;
use crate::walk::{
    dirs_among, seen_in, seen_in_all, seen_items, Kind, ListedView, ListingView, SeenView,
};

verus! {

/// True when `next` is what some answer makes of `run`, be it true or not.
pub open spec fn can_follow(run: RunView, next: RunView) -> bool {
    match run {
        RunView::Walking(stage) => exists|listings: Seq<ListingView>|
            listings.len() == stage.walk.level.len() && next == #[trigger] after_walk(
                stage,
                listings,
            ),
        RunView::Identifying(stage) => exists|inos: Seq<Result<InodeRef, Seq<char>>>|
            next == #[trigger] after_identifying(stage, inos),
        RunView::CreatingRoot(stage) => exists|outcome: Result<(), Seq<char>>|
            next == #[trigger] after_root(stage, outcome),
        RunView::Surveying(stage) => exists|replies: Seq<WayView>|
            next == #[trigger] after_survey(stage, replies),
        RunView::Linking(stage) => exists|results: Seq<Result<LinkAction, Seq<char>>>|
            results.len() == links_wanted(stage.config, stage.found).len() && next
                == #[trigger] after_linking(stage, results),
        RunView::Checking(stage) => exists|is_dir: bool|
            next == #[trigger] after_checking(stage, is_dir),
        RunView::Reading(stage) => exists|listings: Seq<ListingView>|
            listings.len() == stage.tree.level.len() && next == #[trigger] after_reading(
                stage,
                listings,
            ),
        RunView::Removing(stage) => exists|outcomes: Seq<Result<(), String>>|
            next == #[trigger] after_removing(stage, outcomes),
        RunView::Pruning(stage) => exists|reply: RmdirReply|
            next == #[trigger] after_pruning(stage, reply),
        RunView::Marking(stage) => exists|is_dir: bool|
            next == #[trigger] after_marking(stage, is_dir),
        RunView::CreatingMarker(stage) => exists|outcome: Result<(), Seq<char>>|
            next == #[trigger] after_marker(stage, outcome),
        RunView::Finished(_) => false,
        RunView::Failed(_) => false,
    }
}

/// True of a dry run that calls for no change of the disk: it creates no root,
/// prunes no directory and creates no marker.
pub open spec fn only_plans(run: RunView) -> bool {
    match run {
        RunView::Walking(stage) => stage.config.dry_run,
        RunView::Identifying(stage) => stage.config.dry_run,
        RunView::CreatingRoot(_) => false,
        RunView::Surveying(stage) => stage.config.dry_run,
        RunView::Linking(stage) => stage.config.dry_run,
        RunView::Checking(stage) => stage.rest.config.dry_run,
        RunView::Reading(stage) => stage.rest.config.dry_run,
        RunView::Removing(stage) => stage.rest.config.dry_run,
        RunView::Pruning(_) => false,
        RunView::Marking(stage) => stage.config.dry_run,
        RunView::CreatingMarker(_) => false,
        RunView::Finished(_) => true,
        RunView::Failed(_) => true,
    }
}

/// Pruning that goes through to its end has an end.
proof fn lemma_fully_pruned_ends(prune: PruneView)
    requires
        prune.next <= prune.order.len(),
    ensures
        fully_pruned(prune).next >= fully_pruned(prune).order.len(),
    decreases prune.order.len() - prune.next,
{
    if prune.next < prune.order.len() {
        lemma_seek(
            prune.root,
            prune.order,
            prune.held,
            attempted(prune, true).gone,
            prune.next + 1,
        );
        lemma_fully_pruned_ends(attempted(prune, true));
    }
}

/// A dry run starts as one that only plans.
pub proof fn dry_run_starts_planning(config: ConfigView)
    requires
        config.dry_run,
    ensures
        only_plans(started_run(config)),
{
}

/// A dry run never calls for a change of the disk, whatever it is told.
pub proof fn dry_run_only_plans(run: RunView, next: RunView)
    requires
        only_plans(run),
        can_follow(run, next),
    ensures
        only_plans(next),
{
    if let RunView::Removing(stage) = run {
        let outcomes = choose|outcomes: Seq<Result<(), String>>|
            next == #[trigger] after_removing(stage, outcomes);
        let start = pruning_start(stage.tree, files_left(stage, outcomes), true);
        lemma_seek(start.root, start.order, start.held, Set::empty(), 0);
        lemma_fully_pruned_ends(start);
    }
}

/// True when everything that has been read of a tree, or is to be read or
/// removed, lies in it.
pub open spec fn stays_in_tree(tree: TreeScanView) -> bool {
    &&& forall|i: int|
        0 <= i < tree.scans.len() ==> is_scan_within(tree.root, #[trigger] tree.scans[i])
    &&& forall|k: int|
        0 <= k < tree.level.len() ==> tree.root.is_prefix_of(#[trigger] tree.level[k])
}

/// True when a directory lies in a tree, and what its scan names below it.
pub open spec fn is_scan_within(root: Components, scan: DirScanView) -> bool {
    &&& root.is_prefix_of(scan.path)
    &&& forall|i: int|
        0 <= i < scan.subdirs.len() ==> strictly_under(#[trigger] scan.subdirs[i], scan.path)
    &&& forall|i: int|
        0 <= i < scan.unwanted.len() ==> strictly_under(#[trigger] scan.unwanted[i], scan.path)
}

proof fn lemma_items_within(
    root: Components,
    dir: Components,
    items: Seq<Result<ListedView, Seq<char>>>,
    keep: Set<Components>,
)
    requires
        root.is_prefix_of(dir),
    ensures
        scanned_items(dir, items, keep) matches Ok(scan) ==> scan.path == dir && is_scan_within(
            root,
            scan,
        ),
    decreases items.len(),
{
    if items.len() > 0 {
        lemma_items_within(root, dir, items.drop_last(), keep);
        if scanned_items(dir, items, keep) is Ok {
            let before = scanned_items(dir, items.drop_last(), keep)->Ok_0;
            let scan = scanned_items(dir, items, keep)->Ok_0;
            let name = items.last()->Ok_0.name;
            lemma_child(dir, name);
            assert forall|i: int| 0 <= i < scan.subdirs.len() implies strictly_under(
                #[trigger] scan.subdirs[i],
                scan.path,
            ) by {
                if i < before.subdirs.len() {
                    assert(scan.subdirs[i] == before.subdirs[i]);
                }
            }
            assert forall|i: int| 0 <= i < scan.unwanted.len() implies strictly_under(
                #[trigger] scan.unwanted[i],
                scan.path,
            ) by {
                if i < before.unwanted.len() {
                    assert(scan.unwanted[i] == before.unwanted[i]);
                }
            }
        }
    }
}

proof fn lemma_all_within(
    root: Components,
    dirs: Seq<Components>,
    listings: Seq<ListingView>,
    keep: Set<Components>,
)
    requires
        dirs.len() == listings.len(),
        forall|k: int| 0 <= k < dirs.len() ==> root.is_prefix_of(#[trigger] dirs[k]),
    ensures
        scanned_all(dirs, listings, keep) matches Ok(scans) ==> forall|i: int|
            0 <= i < scans.len() ==> is_scan_within(root, #[trigger] scans[i]),
    decreases dirs.len(),
{
    if dirs.len() > 0 {
        let n = dirs.len() - 1;
        let some = dirs.drop_last();
        assert forall|k: int| 0 <= k < some.len() implies root.is_prefix_of(#[trigger] some[k]) by {
            assert(some[k] == dirs[k]);
        }
        lemma_all_within(root, some, listings.drop_last(), keep);
        assert(root.is_prefix_of(dirs[n]));
        if listings.last() is Ok {
            lemma_items_within(root, dirs[n], listings.last()->Ok_0, keep);
        }
    }
}

proof fn lemma_subdirs_within(root: Components, scans: Seq<DirScanView>)
    requires
        forall|i: int| 0 <= i < scans.len() ==> is_scan_within(root, #[trigger] scans[i]),
    ensures
        forall|k: int|
            0 <= k < subdirs_of(scans).len() ==> strictly_under(
                #[trigger] subdirs_of(scans)[k],
                root,
            ),
    decreases scans.len(),
{
    if scans.len() > 0 {
        let before = scans.drop_last();
        let n = scans.len() - 1;
        assert forall|i: int| 0 <= i < before.len() implies is_scan_within(
            root,
            #[trigger] before[i],
        ) by {
            assert(before[i] == scans[i]);
        }
        lemma_subdirs_within(root, before);
        assert(is_scan_within(root, scans[n]));
        let earlier = subdirs_of(before);
        let all = subdirs_of(scans);
        assert forall|k: int| 0 <= k < all.len() implies strictly_under(#[trigger] all[k], root) by {
            if k < earlier.len() {
                assert(all[k] == earlier[k]);
            } else {
                let sub = scans[n].subdirs[k - earlier.len()];
                assert(all[k] == sub);
                lemma_deeper(root, scans[n].path, sub);
            }
        }
    }
}

proof fn lemma_unwanted_within(root: Components, scans: Seq<DirScanView>)
    requires
        forall|i: int| 0 <= i < scans.len() ==> is_scan_within(root, #[trigger] scans[i]),
    ensures
        forall|k: int|
            0 <= k < unwanted_in(scans).len() ==> strictly_under(
                #[trigger] unwanted_in(scans)[k],
                root,
            ),
    decreases scans.len(),
{
    if scans.len() > 0 {
        let before = scans.drop_last();
        let n = scans.len() - 1;
        assert forall|i: int| 0 <= i < before.len() implies is_scan_within(
            root,
            #[trigger] before[i],
        ) by {
            assert(before[i] == scans[i]);
        }
        lemma_unwanted_within(root, before);
        assert(is_scan_within(root, scans[n]));
        let earlier = unwanted_in(before);
        let all = unwanted_in(scans);
        assert forall|k: int| 0 <= k < all.len() implies strictly_under(#[trigger] all[k], root) by {
            if k < earlier.len() {
                assert(all[k] == earlier[k]);
            } else {
                let file = scans[n].unwanted[k - earlier.len()];
                assert(all[k] == file);
                lemma_deeper(root, scans[n].path, file);
            }
        }
    }
}

/// What lies strictly below a directory of a tree lies strictly below its root.
proof fn lemma_deeper(root: Components, dir: Components, p: Components)
    requires
        root.is_prefix_of(dir),
        strictly_under(p, dir),
    ensures
        strictly_under(p, root),
{
    lemma_longer(p, dir);
    lemma_prefix_transitive(root, dir, p);
}

/// Reading a tree never leaves it, whatever it is told.
pub proof fn reading_stays_in_the_tree(tree: TreeScanView, listings: Seq<ListingView>)
    requires
        stays_in_tree(tree),
        listings.len() == tree.level.len(),
    ensures
        read_level(tree, listings) matches Ok(next) ==> stays_in_tree(next) && next.root
            == tree.root,
{
    lemma_all_within(tree.root, tree.level, listings, tree.keep);
    if read_level(tree, listings) is Ok {
        let added = scanned_all(tree.level, listings, tree.keep)->Ok_0;
        let next = read_level(tree, listings)->Ok_0;
        lemma_subdirs_within(tree.root, added);
        assert forall|i: int| 0 <= i < next.scans.len() implies is_scan_within(
            tree.root,
            #[trigger] next.scans[i],
        ) by {
            if i < tree.scans.len() {
                assert(next.scans[i] == tree.scans[i]);
            } else {
                assert(next.scans[i] == added[i - tree.scans.len()]);
            }
        }
    }
}

/// True when what a run would remove lies strictly below the output root at
/// hand.
pub open spec fn removes_in_outputs_only(run: RunView) -> bool {
    match run {
        RunView::Reading(stage) => {
            stage.tree.root == root_at_hand(stage.rest) && stays_in_tree(stage.tree)
        },
        RunView::Removing(stage) => {
            &&& stage.tree.root == root_at_hand(stage.rest)
            &&& stays_in_tree(stage.tree)
            &&& forall|k: int|
                0 <= k < unwanted_in(stage.tree.scans).len() ==> strictly_under(
                    #[trigger] unwanted_in(stage.tree.scans)[k],
                    root_at_hand(stage.rest),
                )
        },
        RunView::Pruning(stage) => {
            &&& prunes_in_tree(stage.prune)
            &&& stage.prune.root == root_at_hand(stage.rest)
            &&& strictly_under(dir_to_remove(stage), root_at_hand(stage.rest))
        },
        _ => true,
    }
}

/// True when the directories to prune lie in the tree, and the next one is neither
/// its root nor above something that stays.
pub open spec fn prunes_in_tree(prune: PruneView) -> bool {
    &&& forall|i: int|
        0 <= i < prune.order.len() ==> prune.root.is_prefix_of((#[trigger] prune.order[i]).path)
    &&& prune.next < prune.order.len() ==> {
        &&& prune.order[prune.next as int].path != prune.root
        &&& !prune.held.contains(prune.order[prune.next as int].path)
    }
}

proof fn lemma_attempted_in_tree(prune: PruneView, removed: bool)
    requires
        prunes_in_tree(prune),
        prune.next < prune.order.len(),
    ensures
        prunes_in_tree(attempted(prune, removed)),
{
    lemma_seek(
        prune.root,
        prune.order,
        prune.held,
        attempted(prune, removed).gone,
        prune.next + 1,
    );
}

proof fn lemma_fully_pruned_in_tree(prune: PruneView)
    requires
        prunes_in_tree(prune),
        prune.next <= prune.order.len(),
    ensures
        prunes_in_tree(fully_pruned(prune)),
        fully_pruned(prune).root == prune.root,
    decreases prune.order.len() - prune.next,
{
    if prune.next < prune.order.len() {
        lemma_seek(
            prune.root,
            prune.order,
            prune.held,
            attempted(prune, true).gone,
            prune.next + 1,
        );
        lemma_attempted_in_tree(prune, true);
        lemma_fully_pruned_in_tree(attempted(prune, true));
    }
}

/// The pruning of a tree that has been read stays in the tree.
proof fn lemma_pruning_in_tree(tree: TreeScanView, held: Set<Components>)
    requires
        stays_in_tree(tree),
    ensures
        prunes_in_tree(unpruned(tree.root, tree.scans, held)),
        unpruned(tree.root, tree.scans, held).next <= unpruned(
            tree.root,
            tree.scans,
            held,
        ).order.len(),
{
    let prune = unpruned(tree.root, tree.scans, held);
    pruning_order_is_deepest_first(tree.scans);
    lemma_seek(prune.root, prune.order, held, Set::empty(), 0);
    assert forall|i: int| 0 <= i < prune.order.len() implies tree.root.is_prefix_of(
        (#[trigger] prune.order[i]).path,
    ) by {
        assert(tree.scans.contains(deepest_first(tree.scans)[i]));
        let k = choose|k: int| 0 <= k < tree.scans.len() && tree.scans[k] == prune.order[i];
        assert(is_scan_within(tree.root, tree.scans[k]));
    }
}

/// What a run removes, files or directories, lies strictly below an output root,
/// whatever the run is told.
pub proof fn run_removes_in_outputs_only(run: RunView, next: RunView)
    requires
        removes_in_outputs_only(run),
        can_follow(run, next),
    ensures
        removes_in_outputs_only(next),
{
    match run {
        RunView::Checking(stage) => {
            let root = root_at_hand(stage.rest);
            assert(root =~= root.subrange(0, root.len() as int));
            assert(unwanted_in(Seq::<DirScanView>::empty()).len() == 0);
        },
        RunView::Reading(stage) => {
            let listings = choose|listings: Seq<ListingView>|
                listings.len() == stage.tree.level.len() && next == #[trigger] after_reading(
                    stage,
                    listings,
                );
            reading_stays_in_the_tree(stage.tree, listings);
            if read_level(stage.tree, listings) is Ok {
                let tree = read_level(stage.tree, listings)->Ok_0;
                lemma_unwanted_within(tree.root, tree.scans);
            }
        },
        RunView::Removing(stage) => {
            let outcomes = choose|outcomes: Seq<Result<(), String>>|
                next == #[trigger] after_removing(stage, outcomes);
            let dry_run = stage.rest.config.dry_run;
            let start = pruning_start(stage.tree, files_left(stage, outcomes), dry_run);
            lemma_pruning_in_tree(stage.tree, start.held);
            lemma_fully_pruned_in_tree(start);
        },
        RunView::Pruning(stage) => {
            if stage.prune.next < stage.prune.order.len() {
                lemma_attempted_in_tree(stage.prune, true);
                lemma_attempted_in_tree(stage.prune, false);
            }
        },
        _ => {},
    }
}

/// A file that could not be removed ends no run: it is reported, counted among no
/// removed files, and the directories above it are not removed.
pub proof fn unremoved_file_is_reported_and_kept(
    stage: ReadingView,
    outcomes: Seq<Result<(), String>>,
    k: int,
)
    requires
        0 <= k < unwanted_in(stage.tree.scans).len() == outcomes.len(),
        outcomes[k] is Err,
        !stage.rest.config.dry_run,
    ensures
        !(after_removing(stage, outcomes) is Failed),
        removal_failures(unwanted_in(stage.tree.scans), outcomes).contains(
            removal_failure(unwanted_in(stage.tree.scans)[k], outcomes[k]->Err_0@),
        ),
        after_removing(stage, outcomes) matches RunView::Pruning(next) ==> forall|dir: Components|
            strictly_under(unwanted_in(stage.tree.scans)[k], dir)
                ==> #[trigger] next.prune.held.contains(dir),
{
    let files = unwanted_in(stage.tree.scans);
    lemma_failure_is_reported(files, outcomes, k);
    assert forall|dir: Components| strictly_under(files[k], dir) implies #[trigger] above(
        files_left(stage, outcomes),
    ).contains(dir) by {
        assert(files_left(stage, outcomes).contains(files[k]));
    }
}

proof fn lemma_failure_is_reported(
    files: Seq<Components>,
    outcomes: Seq<Result<(), String>>,
    k: int,
)
    requires
        0 <= k < files.len() == outcomes.len(),
        outcomes[k] is Err,
    ensures
        unremoved(files, outcomes).contains(files[k]),
        removal_failures(files, outcomes).contains(
            removal_failure(files[k], outcomes[k]->Err_0@),
        ),
    decreases files.len(),
{
    let before = removal_failures(files.drop_last(), outcomes.drop_last());
    let all = removal_failures(files, outcomes);
    let line = removal_failure(files[k], outcomes[k]->Err_0@);
    if k < files.len() - 1 {
        lemma_failure_is_reported(files.drop_last(), outcomes.drop_last(), k);
        let i = choose|i: int| 0 <= i < before.len() && before[i] == line;
        assert(all[i] == line);
    } else {
        assert(all[before.len() as int] == line);
    }
}

/// True when a listing names entries as directories can.
pub open spec fn is_plain_listing(listing: ListingView) -> bool {
    listing matches Ok(items) ==> forall|i: int|
        0 <= i < items.len() && (#[trigger] items[i]) is Ok ==> is_plain(items[i]->Ok_0.name)
}

/// True of a path that is the source directory or lies in it under proper names.
pub open spec fn is_in_source(source: Components, p: Components) -> bool {
    &&& source.is_prefix_of(p)
    &&& forall|i: int| source.len() <= i < p.len() ==> is_plain(#[trigger] p[i])
}

/// True of a report on an entry of the source tree; the source directory itself
/// is reported as a directory.
pub open spec fn is_source_entry(source: Components, seen: SeenView) -> bool {
    seen matches Ok(entry) ==> {
        &&& is_in_source(source, entry.path)
        &&& entry.path == source ==> entry.kind == Kind::Dir
    }
}

/// True of a managed file of the source tree that has been judged.
pub open spec fn is_source_candidate(source: Components, judged: JudgedView) -> bool {
    judged matches JudgedView::Managed(candidate) ==> forall|ino: InodeRef|
        is_proper_file(
            source,
            (SourceFileView {
                path: candidate.path,
                rel: candidate.rel,
                ext: candidate.ext,
                track: candidate.track,
                ino,
            }),
        )
}

/// True when everything that a run knows of the source tree has a proper name.
pub open spec fn knows_proper_names(run: RunView) -> bool {
    match run {
        RunView::Walking(stage) => {
            &&& stage.walk.root == stage.config.source
            &&& forall|i: int|
                0 <= i < stage.walk.seen.len() ==> is_source_entry(
                    stage.config.source,
                    #[trigger] stage.walk.seen[i],
                )
            &&& forall|k: int|
                0 <= k < stage.walk.level.len() ==> is_in_source(
                    stage.config.source,
                    #[trigger] stage.walk.level[k],
                )
        },
        RunView::Identifying(stage) => forall|i: int|
            0 <= i < stage.judged.len() ==> {
                &&& is_source_candidate(stage.config.source, #[trigger] stage.judged[i])
                &&& !(stage.judged[i] matches JudgedView::Settled(OutcomeView::File(_)))
            },
        RunView::CreatingRoot(stage) => {
            &&& forall|i: int|
                0 <= i < stage.found.files.len() ==> is_proper_file(
                    stage.config.source,
                    #[trigger] stage.found.files[i],
                )
            &&& stage.found.tracks == tracks_of(stage.found.files, stage.config.formats)
        },
        RunView::Surveying(stage) => {
            &&& forall|i: int|
                0 <= i < stage.found.files.len() ==> is_proper_file(
                    stage.config.source,
                    #[trigger] stage.found.files[i],
                )
            &&& stage.found.tracks == tracks_of(stage.found.files, stage.config.formats)
        },
        RunView::Linking(stage) => {
            &&& forall|i: int|
                0 <= i < stage.found.files.len() ==> is_proper_file(
                    stage.config.source,
                    #[trigger] stage.found.files[i],
                )
            &&& stage.found.tracks == tracks_of(stage.found.files, stage.config.formats)
        },
        _ => true,
    }
}

/// True when a run that reads the source tree is told proper names.
pub open spec fn is_told_proper_names(run: RunView, next: RunView) -> bool {
    match run {
        RunView::Walking(stage) => exists|listings: Seq<ListingView>|
            {
                &&& listings.len() == stage.walk.level.len()
                &&& forall|k: int| 0 <= k < listings.len() ==> is_plain_listing(#[trigger] listings[k])
                &&& next == #[trigger] after_walk(stage, listings)
            },
        _ => can_follow(run, next),
    }
}

/// An entry of a directory of the source tree.
proof fn lemma_entry_in_source(source: Components, dir: Components, name: Seq<u8>)
    requires
        is_in_source(source, dir),
        is_plain(name),
    ensures
        is_in_source(source, dir.push(name)),
        dir.push(name) != source,
{
    let p = dir.push(name);
    lemma_child(dir, name);
    lemma_prefix_transitive(source, dir, p);
    assert forall|i: int| source.len() <= i < p.len() implies is_plain(#[trigger] p[i]) by {
        if i < dir.len() {
            assert(p[i] == dir[i]);
        }
    }
}

proof fn lemma_items_in_source(
    source: Components,
    dir: Components,
    items: Seq<Result<ListedView, Seq<char>>>,
    excluded: Seq<Components>,
)
    requires
        is_in_source(source, dir),
        forall|i: int|
            0 <= i < items.len() && (#[trigger] items[i]) is Ok ==> is_plain(items[i]->Ok_0.name),
    ensures
        forall|i: int|
            0 <= i < seen_items(dir, items, excluded).len() ==> is_source_entry(
                source,
                #[trigger] seen_items(dir, items, excluded)[i],
            ),
    decreases items.len(),
{
    if items.len() > 0 {
        let some = items.drop_last();
        assert forall|i: int| 0 <= i < some.len() && (#[trigger] some[i]) is Ok implies is_plain(
            some[i]->Ok_0.name,
        ) by {
            assert(some[i] == items[i]);
        }
        lemma_items_in_source(source, dir, some, excluded);
        let before = seen_items(dir, some, excluded);
        let all = seen_items(dir, items, excluded);
        assert(items[items.len() - 1] == items.last());
        if items.last() is Ok {
            lemma_entry_in_source(source, dir, items.last()->Ok_0.name);
        }
        assert forall|i: int| 0 <= i < all.len() implies is_source_entry(
            source,
            #[trigger] all[i],
        ) by {
            if i < before.len() {
                assert(all[i] == before[i]);
            }
        }
    }
}

proof fn lemma_seen_in_source(
    source: Components,
    dirs: Seq<Components>,
    listings: Seq<ListingView>,
    excluded: Seq<Components>,
)
    requires
        dirs.len() == listings.len(),
        forall|k: int| 0 <= k < dirs.len() ==> is_in_source(source, #[trigger] dirs[k]),
        forall|k: int| 0 <= k < listings.len() ==> is_plain_listing(#[trigger] listings[k]),
    ensures
        forall|i: int|
            0 <= i < seen_in_all(dirs, listings, excluded).len() ==> is_source_entry(
                source,
                #[trigger] seen_in_all(dirs, listings, excluded)[i],
            ),
    decreases dirs.len(),
{
    if dirs.len() > 0 {
        let n = dirs.len() - 1;
        let some_dirs = dirs.drop_last();
        let some_listings = listings.drop_last();
        assert forall|k: int| 0 <= k < some_dirs.len() implies is_in_source(
            source,
            #[trigger] some_dirs[k],
        ) by {
            assert(some_dirs[k] == dirs[k]);
        }
        assert forall|k: int| 0 <= k < some_listings.len() implies is_plain_listing(
            #[trigger] some_listings[k],
        ) by {
            assert(some_listings[k] == listings[k]);
        }
        lemma_seen_in_source(source, some_dirs, some_listings, excluded);
        let before = seen_in_all(some_dirs, some_listings, excluded);
        let found = seen_in(dirs[n], listings[n], excluded);
        let all = seen_in_all(dirs, listings, excluded);
        assert(all == before + found);
        assert(is_in_source(source, dirs[n]));
        assert(is_plain_listing(listings[n]));
        assert forall|i: int| 0 <= i < all.len() implies is_source_entry(
            source,
            #[trigger] all[i],
        ) by {
            if i < before.len() {
                assert(all[i] == before[i]);
            } else {
                let j = i - before.len();
                assert(all[i] == found[j]);
                if listings[n] is Ok {
                    lemma_items_in_source(source, dirs[n], listings[n]->Ok_0, excluded);
                }
            }
        }
    }
}

proof fn lemma_dirs_in_source(source: Components, seen: Seq<SeenView>)
    requires
        forall|i: int| 0 <= i < seen.len() ==> is_source_entry(source, #[trigger] seen[i]),
    ensures
        forall|k: int|
            0 <= k < dirs_among(seen).len() ==> is_in_source(
                source,
                #[trigger] dirs_among(seen)[k],
            ),
    decreases seen.len(),
{
    if seen.len() > 0 {
        let before = seen.drop_last();
        assert forall|i: int| 0 <= i < before.len() implies is_source_entry(
            source,
            #[trigger] before[i],
        ) by {
            assert(before[i] == seen[i]);
        }
        lemma_dirs_in_source(source, before);
        assert(is_source_entry(source, seen[seen.len() - 1]));
        let dirs = dirs_among(before);
        let all = dirs_among(seen);
        assert forall|k: int| 0 <= k < all.len() implies is_in_source(source, #[trigger] all[k]) by {
            if k < dirs.len() {
                assert(all[k] == dirs[k]);
            }
        }
    }
}

/// What an entry of the source tree is judged to be.
proof fn lemma_judged_in_source(
    source: Components,
    excluded: Seq<Components>,
    formats: Seq<Seq<char>>,
    seen: SeenView,
)
    requires
        is_source_entry(source, seen),
    ensures
        is_source_candidate(source, judged(seen, source, excluded, formats)),
{
    if let JudgedView::Managed(candidate) = judged(seen, source, excluded, formats) {
        let p = seen->Ok_0.path;
        let n = source.len() as int;
        let rel = p.skip(n);
        assert(source =~= p.subrange(0, n));
        assert(p =~= source + rel);
        if rel.len() == 0 {
            assert(p =~= source);
        }
        assert forall|i: int| 0 <= i < rel.len() implies is_plain(#[trigger] rel[i]) by {
            assert(is_plain(p[n + i]));
        }
    }
}

/// The files found among judged entries of the source tree are proper.
proof fn lemma_files_are_proper(
    source: Components,
    judged: Seq<JudgedView>,
    inos: Seq<Result<InodeRef, Seq<char>>>,
)
    requires
        forall|i: int| 0 <= i < judged.len() ==> is_source_candidate(source, #[trigger] judged[i]),
        forall|i: int|
            0 <= i < judged.len() ==> !((#[trigger] judged[i]) matches JudgedView::Settled(
                OutcomeView::File(_),
            )),
    ensures
        forall|i: int|
            0 <= i < files_among(settled(judged, inos)).len() ==> is_proper_file(
                source,
                #[trigger] files_among(settled(judged, inos))[i],
            ),
    decreases judged.len(),
{
    if judged.len() > 0 {
        let before = judged.drop_last();
        let n = judged.len() - 1;
        let some = if judged.last() is Managed {
            inos.drop_last()
        } else {
            inos
        };
        assert forall|i: int| 0 <= i < before.len() implies is_source_candidate(
            source,
            #[trigger] before[i],
        ) && !(before[i] matches JudgedView::Settled(OutcomeView::File(_))) by {
            assert(before[i] == judged[i]);
        }
        lemma_files_are_proper(source, before, some);
        assert(is_source_candidate(source, judged[n]));
        assert(!(judged[n] matches JudgedView::Settled(OutcomeView::File(_))));
        let processed = settled(judged, inos);
        let files = files_among(settled(before, some));
        let all = files_among(processed);
        if !(judged.last() is Stray) {
            assert(processed.drop_last() =~= settled(before, some));
        }
        assert forall|i: int| 0 <= i < all.len() implies is_proper_file(
            source,
            #[trigger] all[i],
        ) by {
            if i < files.len() {
                assert(all[i] == files[i]);
            }
        }
    }
}

/// A run starts with a proper name.
pub proof fn run_starts_with_proper_names(config: ConfigView)
    ensures
        knows_proper_names(started_run(config)),
{
    let source = config.source;
    assert(source =~= source.subrange(0, source.len() as int));
}

/// A run that is told proper names knows proper names only, whatever else it is
/// told.
pub proof fn run_keeps_proper_names(run: RunView, next: RunView)
    requires
        knows_proper_names(run),
        is_told_proper_names(run, next),
    ensures
        knows_proper_names(next),
{
    match run {
        RunView::Walking(stage) => {
            let source = stage.config.source;
            let listings = choose|listings: Seq<ListingView>|
                {
                    &&& listings.len() == stage.walk.level.len()
                    &&& forall|k: int|
                        0 <= k < listings.len() ==> is_plain_listing(#[trigger] listings[k])
                    &&& next == #[trigger] after_walk(stage, listings)
                };
            let found = seen_in_all(stage.walk.level, listings, stage.walk.excluded);
            let seen = stage.walk.seen + found;
            lemma_seen_in_source(source, stage.walk.level, listings, stage.walk.excluded);
            lemma_dirs_in_source(source, found);
            assert forall|i: int| 0 <= i < seen.len() implies is_source_entry(
                source,
                #[trigger] seen[i],
            ) by {
                if i < stage.walk.seen.len() {
                    assert(seen[i] == stage.walk.seen[i]);
                } else {
                    assert(seen[i] == found[i - stage.walk.seen.len()]);
                }
            }
            if let RunView::Identifying(judging) = next {
                assert forall|i: int| 0 <= i < judging.judged.len() implies {
                    &&& is_source_candidate(source, #[trigger] judging.judged[i])
                    &&& !(judging.judged[i] matches JudgedView::Settled(OutcomeView::File(_)))
                } by {
                    assert(is_source_entry(source, seen[i]));
                    lemma_judged_in_source(
                        source,
                        output_roots(stage.config),
                        stage.config.formats,
                        seen[i],
                    );
                }
            }
        },
        RunView::Identifying(stage) => {
            let inos = choose|inos: Seq<Result<InodeRef, Seq<char>>>|
                next == #[trigger] after_identifying(stage, inos);
            lemma_files_are_proper(stage.config.source, stage.judged, inos);
        },
        _ => {},
    }
}

/// A run links below the output roots only, whatever it is told: its links in the
/// per-format trees stand below their root, and so do those in the best-quality
/// tree.
pub proof fn run_links_in_outputs_only(config: ConfigView, found: FoundView)
    ensures
        forall|n: int|
            0 <= n < formats_wanted(config, found).len() ==> strictly_under(
                (#[trigger] formats_wanted(config, found)[n]).dest,
                config.formats_root,
            ),
        forall|n: int|
            0 <= n < tracks_wanted(config, found).len() ==> strictly_under(
                (#[trigger] tracks_wanted(config, found)[n]).dest,
                config.max_qual_root,
            ),
{
    assert forall|n: int| 0 <= n < formats_wanted(config, found).len() implies strictly_under(
        (#[trigger] formats_wanted(config, found)[n]).dest,
        config.formats_root,
    ) by {
        format_link_stays_in_its_tree(config.formats_root, found.files[n]);
    }
    assert forall|n: int| 0 <= n < tracks_wanted(config, found).len() implies strictly_under(
        (#[trigger] tracks_wanted(config, found)[n]).dest,
        config.max_qual_root,
    ) by {
        track_link_stays_in_its_tree(config.max_qual_root, found.tracks[n]);
    }
}

/// True when a path is reached from `root` through proper names.
pub open spec fn is_proper_below(root: Components, p: Components) -> bool {
    forall|i: int| root.len() <= i < p.len() ==> is_plain(#[trigger] p[i])
}

/// A run that knows proper names links under proper names only, so that no link
/// climbs out of its tree.
pub proof fn run_links_under_proper_names(stage: LinkingView)
    requires
        knows_proper_names(RunView::Linking(stage)),
    ensures
        forall|n: int|
            0 <= n < formats_wanted(stage.config, stage.found).len() ==> is_proper_below(
                stage.config.formats_root,
                (#[trigger] formats_wanted(stage.config, stage.found)[n]).dest,
            ),
        forall|n: int|
            0 <= n < tracks_wanted(stage.config, stage.found).len() ==> is_proper_below(
                stage.config.max_qual_root,
                (#[trigger] tracks_wanted(stage.config, stage.found)[n]).dest,
            ),
{
    let source = stage.config.source;
    let files = stage.found.files;
    let formats = stage.config.formats;
    let keys = distinct_keys(files);
    let f = stage.config.formats_root;
    let m = stage.config.max_qual_root;
    let of_formats = formats_wanted(stage.config, stage.found);
    let of_tracks = tracks_wanted(stage.config, stage.found);
    assert forall|n: int| 0 <= n < of_formats.len() implies is_proper_below(
        f,
        (#[trigger] of_formats[n]).dest,
    ) by {
        let dest = of_formats[n].dest;
        assert(is_proper_file(source, files[n]));
        format_link_mirrors_the_source(source, f, files[n]);
        assert forall|i: int| f.len() <= i < dest.len() implies is_plain(#[trigger] dest[i]) by {
            if i == f.len() {
                assert(dest[i] == encode_utf8(files[n].ext));
            } else {
                assert(dest[i] == files[n].rel[i - f.len() - 1]);
            }
        }
    }
    tracks_hold_the_best_files(files, formats);
    assert forall|n: int| 0 <= n < of_tracks.len() implies is_proper_below(
        m,
        (#[trigger] of_tracks[n]).dest,
    ) by {
        let dest = of_tracks[n].dest;
        let b = best_of(files, formats, keys[n]);
        assert(is_best(files, formats, keys[n], b));
        assert(is_proper_file(source, files[b]));
        track_link_mirrors_the_source(source, m, files[b], formats);
        assert(stage.found.tracks[n] == track_with_best(files[b], formats));
        assert forall|i: int| m.len() <= i < dest.len() implies is_plain(#[trigger] dest[i]) by {
            assert(dest[i] == files[b].rel[i - m.len()]);
        }
    }
}

} // verus!
