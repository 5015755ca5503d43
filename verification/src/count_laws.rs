//! How the counters of a run relate to each other.

use vstd::prelude::*;

use crate::clean::{removal_failures, removed_count};
use crate::config::ConfigView;
use crate::confinement_laws::can_follow;
use crate::link::{InodeRef, LinkAction};
use crate::path::Components;
use crate::plan::{count_of, failures_among};
use crate::run::{after_identifying, after_linking, links_wanted, started_run, RunView};
use crate::scan::{
    distinct_keys, files_among, keys_are_distinct_and_complete, lines_among, regular_count, settled,
    tracks_of, FoundView, OutcomeView, ProcessedView, SourceFileView,
};
use crate::stats::StatsView;

verus! {

/// Every link is counted once: as created, replaced, up to date, or failed.
pub proof fn every_link_is_counted_once(results: Seq<Result<LinkAction, Seq<char>>>)
    ensures
        count_of(results, LinkAction::Created) + count_of(results, LinkAction::Replaced) + count_of(
            results,
            LinkAction::UpToDate,
        ) + failures_among(results).len() == results.len(),
    decreases results.len(),
{
    if results.len() > 0 {
        every_link_is_counted_once(results.drop_last());
    }
}

/// Every removal is counted once: as done, or as failed.
pub proof fn every_removal_is_counted_once(
    files: Seq<Components>,
    outcomes: Seq<Result<(), String>>,
)
    requires
        outcomes.len() == files.len(),
    ensures
        removed_count(outcomes) + removal_failures(files, outcomes).len() == files.len(),
    decreases files.len(),
{
    if files.len() > 0 {
        every_removal_is_counted_once(files.drop_last(), outcomes.drop_last());
    }
}

/// The number of regular files that cannot be used.
pub open spec fn unusable_count(processed: Seq<ProcessedView>) -> nat
    decreases processed.len(),
{
    if processed.len() == 0 {
        0
    } else {
        let before = unusable_count(processed.drop_last());
        match processed.last() {
            Ok(OutcomeView::Unusable(_)) => before + 1,
            _ => before,
        }
    }
}

/// Managed files and unusable ones are counted among the regular files, no entry
/// is counted twice, and each unusable file has its line.
pub proof fn managed_files_are_regular_files(processed: Seq<ProcessedView>)
    ensures
        files_among(processed).len() + unusable_count(processed) <= regular_count(processed),
        unusable_count(processed) <= lines_among(processed).len(),
        regular_count(processed) + lines_among(processed).len() <= processed.len()
            + unusable_count(processed),
    decreases processed.len(),
{
    if processed.len() > 0 {
        managed_files_are_regular_files(processed.drop_last());
    }
}

/// There are no more tracks than files.
pub proof fn tracks_are_at_most_the_files(files: Seq<SourceFileView>, formats: Seq<Seq<char>>)
    ensures
        tracks_of(files, formats).len() <= files.len(),
    decreases files.len(),
{
    if files.len() > 0 {
        tracks_are_at_most_the_files(files.drop_last(), formats);
        assert(tracks_of(files, formats).len() == distinct_keys(files).len());
        assert(tracks_of(files.drop_last(), formats).len() == distinct_keys(
            files.drop_last(),
        ).len());
    }
}

/// There are tracks exactly where there are files.
pub proof fn tracks_are_there_with_files(files: Seq<SourceFileView>, formats: Seq<Seq<char>>)
    ensures
        tracks_of(files, formats).len() == 0 <==> files.len() == 0,
{
    keys_are_distinct_and_complete(files);
    if files.len() > 0 {
        assert(distinct_keys(files).contains(files[0].track));
    }
}

/// True when the numbers of what a scan found agree.
pub open spec fn found_agrees(found: FoundView) -> bool {
    &&& found.tracks.len() <= found.files.len() <= found.regular_files
    &&& found.tracks.len() == 0 <==> found.files.len() == 0
}

/// True when the counters of a run agree: of the links that are wanted, one for each
/// managed file and one for each track, those that are not counted as done have a
/// line.
pub open spec fn counters_agree(stats: StatsView) -> bool {
    let done = stats.links_created + stats.links_replaced + stats.links_up_to_date;
    &&& done <= stats.managed_files + stats.tracks <= done + stats.errors.len()
    &&& stats.tracks <= stats.managed_files <= stats.regular_files
    &&& stats.tracks == 0 <==> stats.managed_files == 0
}

/// True when all that a run has counted so far agrees.
pub open spec fn counts_agree(run: RunView) -> bool {
    match run {
        RunView::Walking(_) => true,
        RunView::Identifying(_) => true,
        RunView::CreatingRoot(stage) => found_agrees(stage.found),
        RunView::Surveying(stage) => found_agrees(stage.found),
        RunView::Linking(stage) => found_agrees(stage.found),
        RunView::Checking(stage) => counters_agree(stage.rest.stats),
        RunView::Reading(stage) => counters_agree(stage.rest.stats),
        RunView::Removing(stage) => counters_agree(stage.rest.stats),
        RunView::Pruning(stage) => counters_agree(stage.rest.stats),
        RunView::Marking(stage) => counters_agree(stage.stats),
        RunView::CreatingMarker(stage) => counters_agree(stage.stats),
        RunView::Finished(stats) => counters_agree(stats),
        RunView::Failed(_) => true,
    }
}

/// A run starts with counts that agree.
pub proof fn run_starts_with_counts_that_agree(config: ConfigView)
    ensures
        counts_agree(started_run(config)),
{
}

/// What a run counts agrees at any time, whatever it is told. So the counters that
/// it finishes with agree.
pub proof fn counts_go_on_agreeing(run: RunView, next: RunView)
    requires
        counts_agree(run),
        can_follow(run, next),
    ensures
        counts_agree(next),
{
    match run {
        RunView::Identifying(stage) => {
            let inos = choose|inos: Seq<Result<InodeRef, Seq<char>>>|
                next == #[trigger] after_identifying(stage, inos);
            let processed = settled(stage.judged, inos);
            managed_files_are_regular_files(processed);
            tracks_are_at_most_the_files(files_among(processed), stage.config.formats);
            tracks_are_there_with_files(files_among(processed), stage.config.formats);
        },
        RunView::Linking(stage) => {
            let results = choose|results: Seq<Result<LinkAction, Seq<char>>>|
                results.len() == links_wanted(stage.config, stage.found).len() && next
                    == #[trigger] after_linking(stage, results);
            every_link_is_counted_once(results);
        },
        _ => {},
    }
}

} // verus!
