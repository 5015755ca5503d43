//! Which stage of a run follows which, and what a run carries along, whatever the
//! disk answers.

use vstd::prelude::*;
use vstd::utf8::*;

use crate::clean::{
    read_level, removal_failures, removed_count, unread_tree, unremoved, unwanted_in,
};
use crate::config::ConfigView;
use crate::confinement_laws::can_follow;
use crate::line_laws::clearing_says_what_it_does;
use crate::link::{link_views, InodeRef, Link, LinkAction, Permit};
use crate::path::{path_views, shown_path, Components, TreePath};
use crate::plan::{dests, format_links, stats_with_links, track_links};
use crate::prune::{attempted, fully_pruned, pruned_paths, pruning_start, RmdirReply};
use crate::run::{
    after_checking, after_identifying, after_linking, after_marker, after_marking, after_pruning,
    after_reading, after_removing, after_root, after_survey, after_tree, after_walk,
    counters_suffice, links_wanted, marker_of, pruning_of, root_to_create, started_run, Checking,
    CheckingView, CreatingRootView, Identifying, IdentifyingView, Linking, LinkingView, Marking,
    MarkingView, Pruning, PruningView, Reading, ReadingView, Removing, RestView, Run, RunView,
    SurveyingView, Walking, WalkingView,
};
use crate::scan::{candidates_among, found_in, judged_all, settled};
use crate::stats::{texts, StatsView};
use crate::survey::WayView;
use crate::walk::{advanced, ListingView};

verus! {

/// The configuration of a run that is under way.
pub open spec fn config_at(run: RunView) -> Option<ConfigView> {
    match run {
        RunView::Walking(stage) => Some(stage.config),
        RunView::Identifying(stage) => Some(stage.config),
        RunView::CreatingRoot(stage) => Some(stage.config),
        RunView::Surveying(stage) => Some(stage.config),
        RunView::Linking(stage) => Some(stage.config),
        RunView::Checking(stage) => Some(stage.rest.config),
        RunView::Reading(stage) => Some(stage.rest.config),
        RunView::Removing(stage) => Some(stage.rest.config),
        RunView::Pruning(stage) => Some(stage.rest.config),
        RunView::Marking(stage) => Some(stage.config),
        RunView::CreatingMarker(stage) => Some(stage.config),
        RunView::Finished(_) => None,
        RunView::Failed(_) => None,
    }
}

/// The counters of a run, once it has any.
pub open spec fn stats_at(run: RunView) -> Option<StatsView> {
    match run {
        RunView::Checking(stage) => Some(stage.rest.stats),
        RunView::Reading(stage) => Some(stage.rest.stats),
        RunView::Removing(stage) => Some(stage.rest.stats),
        RunView::Pruning(stage) => Some(stage.rest.stats),
        RunView::Marking(stage) => Some(stage.stats),
        RunView::CreatingMarker(stage) => Some(stage.stats),
        RunView::Finished(stats) => Some(stats),
        _ => None,
    }
}

/// The problems that a run has met so far.
pub open spec fn problems_at(run: RunView) -> Seq<Seq<char>> {
    match run {
        RunView::CreatingRoot(stage) => stage.found.errors,
        RunView::Surveying(stage) => stage.found.errors,
        RunView::Linking(stage) => stage.found.errors,
        _ => match stats_at(run) {
            Some(stats) => stats.errors,
            None => seq![],
        },
    }
}

/// A run keeps its configuration from its start to its end.
pub proof fn run_keeps_its_configuration(config: ConfigView, run: RunView, next: RunView)
    ensures
        config_at(started_run(config)) == Some(config),
        can_follow(run, next) && config_at(next) is Some ==> config_at(next) == config_at(run),
{
}

/// A problem that a run has met is in its counters to the end, in the order in
/// which the problems came, unless the run fails.
pub proof fn run_forgets_no_problem(run: RunView, next: RunView)
    requires
        can_follow(run, next),
        !(next is Failed),
    ensures
        problems_at(run).is_prefix_of(problems_at(next)),
{
    let before = problems_at(run);
    let after = problems_at(next);
    assert(before.subrange(0, before.len() as int) =~= before);
    if run is Linking {
        let stage = run->Linking_0;
        let results = choose|results: Seq<Result<LinkAction, Seq<char>>>|
            results.len() == links_wanted(stage.config, stage.found).len() && next
                == #[trigger] after_linking(stage, results);
        assert(after.subrange(0, before.len() as int) =~= before);
    }
    if run is Removing {
        let stage = run->Removing_0;
        let outcomes = choose|outcomes: Seq<Result<(), String>>|
            next == #[trigger] after_removing(stage, outcomes);
        assert(after.subrange(0, before.len() as int) =~= before);
    }
    if run is Walking || run is Identifying {
        assert(after.subrange(0, 0) =~= before);
    }
}

/// Once the links have been counted, only the counts of removed files and
/// directories change, and they never go down.
pub proof fn counters_only_grow(run: RunView, next: RunView)
    requires
        can_follow(run, next),
        stats_at(run) is Some,
        !(next is Failed),
    ensures
        ({
            let before = stats_at(run)->0;
            &&& stats_at(next) matches Some(after)
            &&& after.regular_files == before.regular_files
            &&& after.managed_files == before.managed_files
            &&& after.tracks == before.tracks
            &&& after.links_created == before.links_created
            &&& after.links_replaced == before.links_replaced
            &&& after.links_up_to_date == before.links_up_to_date
            &&& after.files_removed >= before.files_removed
            &&& after.dirs_removed >= before.dirs_removed
        }),
{
}

/// A run fails only where an output root cannot be created, an output tree cannot
/// be read, a directory cannot be removed or the marker cannot be created, and it
/// finishes only once the marker has been seen to. A run that has ended goes no
/// further.
pub proof fn run_ends_in_few_ways(run: RunView, next: RunView)
    requires
        can_follow(run, next),
    ensures
        next is Failed ==> run is CreatingRoot || run is Reading || run is Pruning
            || run is CreatingMarker,
        next is Finished ==> (run is Marking || run is CreatingMarker) && stats_at(next)
            == stats_at(run),
        !(run is Finished) && !(run is Failed),
{
}

/// A run starts by reading the source directory, and leaves out both output trees.
pub proof fn run_starts_at_the_source(config: ConfigView)
    requires
        !config.formats_root.is_prefix_of(config.source),
        !config.max_qual_root.is_prefix_of(config.source),
    ensures
        started_run(config) matches RunView::Walking(stage) && stage.walk.root == config.source
            && stage.walk.level == seq![config.source] && stage.walk.excluded == seq![
            config.formats_root,
            config.max_qual_root,
        ],
{
}

/// Walking goes on while there are directories to read; then every entry is
/// judged against the source directory, the output trees and the formats.
pub proof fn walking_is_followed_by_identifying(stage: WalkingView, listings: Seq<ListingView>)
    ensures
        ({
            let walk = advanced(stage.walk, listings);
            &&& walk.level.len() > 0 ==> {
                &&& after_walk(stage, listings) matches RunView::Walking(next)
                &&& next.walk == walk
            }
            &&& walk.level.len() == 0 ==> {
                &&& after_walk(stage, listings) matches RunView::Identifying(next)
                &&& next.judged == judged_all(
                    walk.seen,
                    stage.config.source,
                    seq![stage.config.formats_root, stage.config.max_qual_root],
                    stage.config.formats,
                )
            }
        }),
{
}

/// Identifying is followed by creating the roots, the one of the per-format trees
/// first; a dry run creates none and goes on to the survey.
pub proof fn identifying_is_followed_by_the_roots(
    stage: IdentifyingView,
    inos: Seq<Result<InodeRef, Seq<char>>>,
)
    ensures
        ({
            let found = found_in(settled(stage.judged, inos), stage.config.formats);
            &&& stage.config.dry_run ==> {
                &&& after_identifying(stage, inos) matches RunView::Surveying(next)
                &&& next.found == found
            }
            &&& !stage.config.dry_run ==> {
                &&& after_identifying(stage, inos) matches RunView::CreatingRoot(next)
                &&& next.found == found
                &&& !next.formats_done
            }
        }),
{
}

/// The root of the per-format trees is created, then that of the best-quality
/// tree, then the survey follows; a root that cannot be created ends the run, with
/// a line that names it.
pub proof fn both_roots_are_created_in_turn(stage: CreatingRootView, cause: Seq<char>)
    ensures
        ({
            let first = CreatingRootView { formats_done: false, ..stage };
            let second = CreatingRootView { formats_done: true, ..stage };
            &&& root_to_create(first) == stage.config.formats_root
            &&& root_to_create(second) == stage.config.max_qual_root
            &&& after_root(first, Ok(())) == RunView::CreatingRoot(second)
            &&& after_root(second, Ok(())) == RunView::Surveying(
                SurveyingView { config: stage.config, found: stage.found },
            )
            &&& after_root(first, Err(cause)) == RunView::Failed(
                "create directory "@ + shown_path(stage.config.formats_root) + ": "@ + cause,
            )
            &&& after_root(second, Err(cause)) == RunView::Failed(
                "create directory "@ + shown_path(stage.config.max_qual_root) + ": "@ + cause,
            )
        }),
{
}

/// After the survey every wanted link is up for ensuring, those in the per-format
/// trees first, each with its permit.
pub proof fn survey_is_followed_by_the_links(stage: SurveyingView, replies: Seq<WayView>)
    ensures
        after_survey(stage, replies) matches RunView::Linking(next) && next.found == stage.found
            && next.permits.len() == stage.found.files.len() + stage.found.tracks.len(),
        links_wanted(stage.config, stage.found) == format_links(
            stage.config.formats_root,
            stage.found.files,
        ) + track_links(stage.config.max_qual_root, stage.found.tracks),
{
}

/// After the links the per-format trees are cleared of all but the links wanted
/// there, whether or not they could be made; what is wanted in the best-quality
/// tree is remembered.
pub proof fn links_are_followed_by_the_clearing(
    stage: LinkingView,
    results: Seq<Result<LinkAction, Seq<char>>>,
)
    ensures
        after_linking(stage, results) matches RunView::Checking(next) && next.keep == dests(
            format_links(stage.config.formats_root, stage.found.files),
        ) && next.rest.tracks == Some(
            dests(track_links(stage.config.max_qual_root, stage.found.tracks)),
        ) && next.rest.stats == stats_with_links(stage.found, results),
{
}

/// An output tree is read from its root where that is a directory; where it is
/// none there is nothing to remove.
pub proof fn clearing_reads_the_tree_at_hand(stage: CheckingView)
    ensures
        ({
            let root = if stage.rest.tracks is Some {
                stage.rest.config.formats_root
            } else {
                stage.rest.config.max_qual_root
            };
            &&& after_checking(stage, true) matches RunView::Reading(next) && next.rest
                == stage.rest && next.tree == unread_tree(root, stage.keep, true)
            &&& after_checking(stage, false) matches RunView::Removing(next) && next.rest
                == stage.rest && unwanted_in(next.tree.scans).len() == 0
        }),
{
}

/// Reading an output tree fails with the first problem; otherwise it goes on while
/// there are directories to read, and then its unwanted files are removed.
pub proof fn reading_is_followed_by_the_removals(stage: ReadingView, listings: Seq<ListingView>)
    ensures
        match read_level(stage.tree, listings) {
            Err(line) => after_reading(stage, listings) == RunView::Failed(line),
            Ok(tree) => {
                let next = ReadingView { rest: stage.rest, tree };
                after_reading(stage, listings) == (if tree.level.len() == 0 {
                    RunView::Removing(next)
                } else {
                    RunView::Reading(next)
                })
            },
        },
{
}

/// Removing files counts those that are gone and reports the others, whatever
/// follows; what follows is the pruning of the tree, or what comes after the tree.
pub proof fn removals_are_counted_and_reported(
    stage: ReadingView,
    outcomes: Seq<Result<(), String>>,
)
    ensures
        ({
            let before = stage.rest.stats;
            let next = after_removing(stage, outcomes);
            let prune = pruning_of(stage, outcomes);
            &&& stats_at(next) matches Some(after)
            &&& after.files_removed == before.files_removed + removed_count(outcomes)
            &&& after.errors == before.errors + removal_failures(
                unwanted_in(stage.tree.scans),
                outcomes,
            )
            &&& after.dirs_removed == before.dirs_removed + (if next is Pruning {
                0nat
            } else {
                prune.removed
            })
            &&& next is Pruning <==> prune.next < prune.order.len()
        }),
{
}

/// The tree that was read is pruned with what could not be removed in it; a dry run
/// is through with the pruning at once.
pub proof fn pruning_follows_the_removals(stage: ReadingView, outcomes: Seq<Result<(), String>>)
    ensures
        ({
            let left = unremoved(unwanted_in(stage.tree.scans), outcomes);
            &&& stage.rest.config.dry_run ==> pruning_of(stage, outcomes) == fully_pruned(
                pruning_start(stage.tree, left, true),
            )
            &&& !stage.rest.config.dry_run ==> pruning_of(stage, outcomes) == pruning_start(
                stage.tree,
                left,
                false,
            )
        }),
{
}

/// Files may be removed exactly where the counters can take all that are unwanted
/// and all directories of the tree.
pub proof fn counters_suffice_unless_they_overflow(stage: ReadingView)
    ensures
        counters_suffice(stage) <==> {
            &&& stage.rest.stats.files_removed + unwanted_in(stage.tree.scans).len() <= usize::MAX
            &&& stage.rest.stats.dirs_removed + stage.tree.scans.len() <= usize::MAX
        },
{
}

/// Pruning ends the run where a directory cannot be removed for another reason
/// than that it is not empty; else it goes on, and once it is through, the
/// directories removed are counted.
pub proof fn pruning_counts_what_it_removes(stage: PruningView, removed: bool, cause: String)
    requires
        stage.prune.next < stage.prune.order.len(),
    ensures
        ({
            let reply = if removed {
                RmdirReply::Removed
            } else {
                RmdirReply::Left
            };
            let dir = stage.prune.order[stage.prune.next as int].path;
            let prune = attempted(stage.prune, removed);
            let next = after_pruning(stage, reply);
            &&& after_pruning(stage, RmdirReply::Failed(cause)) == RunView::Failed(
                "remove empty directory "@ + shown_path(dir) + ": "@ + cause@,
            )
            &&& prune.next < prune.order.len() ==> next == RunView::Pruning(
                PruningView { rest: stage.rest, prune },
            )
            &&& prune.next >= prune.order.len() ==> {
                &&& !(next is Pruning)
                &&& stats_at(next) matches Some(after)
                &&& after.dirs_removed == stage.rest.stats.dirs_removed + prune.removed
                &&& after.files_removed == stage.rest.stats.files_removed
                &&& after.errors == stage.rest.stats.errors
            }
        }),
{
}

/// The per-format trees are cleared first, then the best-quality tree with what
/// was remembered for it, then the marker is seen to.
pub proof fn trees_are_cleared_in_turn(
    rest: RestView,
    keep: Set<Components>,
)
    ensures
        after_tree(RestView { tracks: Some(keep), ..rest }) == RunView::Checking(
            CheckingView { rest: RestView { tracks: None, ..rest }, keep },
        ),
        after_tree(RestView { tracks: None, ..rest }) == RunView::Marking(
            MarkingView { config: rest.config, stats: rest.stats },
        ),
{
}

/// A marker that is there, or a dry run, ends the run at once; otherwise the
/// marker is created, and the run ends with its counters, or fails with a line that
/// names the marker.
pub proof fn marker_comes_last(stage: MarkingView, cause: Seq<char>)
    ensures
        after_marking(stage, true) == RunView::Finished(stage.stats),
        after_marking(stage, false) == (if stage.config.dry_run {
            RunView::Finished(stage.stats)
        } else {
            RunView::CreatingMarker(stage)
        }),
        after_marker(stage, Ok(())) == RunView::Finished(stage.stats),
        after_marker(stage, Err(cause)) == RunView::Failed(
            "create syncthing marker "@ + shown_path(
                stage.config.max_qual_root + seq![encode_utf8(".stfolder"@)],
            ) + ": "@ + cause,
        ),
{
    let name = encode_utf8(".stfolder"@);
    assert(marker_of(stage.config) =~= stage.config.max_qual_root + seq![name]);
}

/// A run that walks asks for the directories that it has yet to read, and one that
/// identifies files for the managed ones.
pub proof fn scanning_asks_for_directories_and_files(
    walking: Walking,
    dirs: Vec<TreePath>,
    identifying: Identifying,
    files: Vec<TreePath>,
)
    requires
        call_ensures(Walking::dirs, (&walking,), &dirs),
        call_ensures(Identifying::files, (&identifying,), files),
    ensures
        path_views(dirs@) == walking@.walk.level,
        path_views(files@) == candidates_among(identifying@.judged),
{
}

/// A run that links asks for every wanted link, in order and each with its permit,
/// and hands on whether it is dry and whether to announce.
pub proof fn linking_asks_for_every_wanted_link(
    linking: Linking,
    links: Vec<Link>,
    permits: Vec<Permit>,
    dry_run: bool,
    verbose: bool,
)
    requires
        call_ensures(Linking::links, (&linking,), &links),
        call_ensures(Linking::permits, (&linking,), &permits),
        call_ensures(Linking::dry_run, (&linking,), dry_run),
        call_ensures(Linking::verbose, (&linking,), verbose),
    ensures
        link_views(links@) == format_links(
            linking@.config.formats_root,
            linking@.found.files,
        ) + track_links(linking@.config.max_qual_root, linking@.found.tracks),
        permits@ == linking@.permits,
        permits@.len() == links@.len(),
        dry_run == linking@.config.dry_run,
        verbose == linking@.config.verbose,
{
    assert(link_views(links@).len() == links@.len());
}

/// A run that clears a tree asks for what is at hand: whether the root is a
/// directory, what is in the directories, and the removal of the directory that
/// pruning waits at.
pub proof fn clearing_asks_for_what_is_at_hand(
    checking: Checking,
    root: TreePath,
    reading: Reading,
    dirs: Vec<TreePath>,
    pruning: Pruning,
    dir: TreePath,
)
    requires
        call_ensures(Checking::root, (&checking,), &root),
        call_ensures(Reading::dirs, (&reading,), &dirs),
        call_ensures(Pruning::dir, (&pruning,), dir),
    ensures
        root@ == (if checking@.rest.tracks is Some {
            checking@.rest.config.formats_root
        } else {
            checking@.rest.config.max_qual_root
        }),
        path_views(dirs@) == reading@.tree.level,
        dir@ == pruning@.prune.order[pruning@.prune.next as int].path,
{
}

/// A dry run announces each directory that it would prune, in order, once the
/// files have been seen to; another run announces none then.
pub proof fn dry_run_announces_what_it_would_prune(
    removing: Removing,
    outcomes: Vec<Result<(), String>>,
    next: (Run, Vec<String>),
    i: int,
)
    requires
        call_ensures(Removing::removed, (removing, outcomes), next),
    ensures
        next.0@ == after_removing(removing@, outcomes@),
        !removing@.rest.config.dry_run ==> next.1@.len() == 0,
        removing@.rest.config.dry_run ==> {
            let left = unremoved(unwanted_in(removing@.tree.scans), outcomes@);
            let paths = pruned_paths(pruning_start(removing@.tree, left, true));
            &&& next.1@.len() == paths.len()
            &&& 0 <= i < paths.len() ==> next.1@[i]@ == "would prune  "@ + shown_path(paths[i])
        },
{
    assert(texts(next.1@).len() == next.1@.len());
    if 0 <= i < next.1@.len() {
        assert(texts(next.1@)[i] == next.1@[i]@);
    }
}

/// A directory that was pruned is announced where lines are asked for, and nothing
/// else is.
pub proof fn pruned_directory_is_announced(
    pruning: Pruning,
    reply: RmdirReply,
    next: (Run, Option<String>),
)
    requires
        call_ensures(Pruning::tried, (pruning, reply), next),
    ensures
        next.0@ == after_pruning(pruning@, reply),
        next.1 is Some <==> reply is Removed && pruning@.rest.config.verbose,
        next.1 matches Some(line) ==> line@ == "prune  "@ + shown_path(
            pruning@.prune.order[pruning@.prune.next as int].path,
        ),
{
}

/// A missing marker is announced in a dry run and where lines are asked for.
pub proof fn missing_marker_is_announced(
    marking: Marking,
    is_dir: bool,
    next: (Run, Option<String>),
)
    requires
        call_ensures(Marking::answered, (marking, is_dir), next),
    ensures
        next.0@ == after_marking(marking@, is_dir),
        next.1 is Some <==> !is_dir && (marking@.config.verbose || marking@.config.dry_run),
        next.1 matches Some(line) ==> line@ == (if marking@.config.dry_run {
            "would "@
        } else {
            Seq::<char>::empty()
        }) + ("create  "@ + shown_path(
            marking@.config.max_qual_root.push(encode_utf8(".stfolder"@)),
        )),
{
    let marker = marking@.config.max_qual_root.push(encode_utf8(".stfolder"@));
    clearing_says_what_it_does(marker);
    let none = Seq::<char>::empty();
    assert(none + ("create  "@ + shown_path(marker)) =~= "create  "@ + shown_path(marker));
}

} // verus!
