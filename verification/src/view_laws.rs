//! What the library is told, and what it tells, is taken over as it is.

use vstd::prelude::*;

use crate::config::Config;
use crate::link::{
    outcome_view, stat_view, FileMeta, InodeRef, Link, LinkAction, LinkReply, LinkReplyView,
    LinkStep, LinkStepView, StatReply,
};
use crate::path::TreePath;
use crate::plan::{result_view, result_views};
use crate::run::{Run, RunView};
use crate::scan::{inos_of, EntryOutcome, OutcomeView, SourceFile, SourceScan, Track};
use crate::stats::{texts, Stats};
use crate::survey::{way_views, WayReply, WayView};
use crate::walk::{item_view, listing_view, listing_views, Entry, Kind, Listed, Listing};

verus! {

/// The counters of a run are read from its fields of the same name.
pub proof fn counters_are_their_fields(stats: Stats)
    ensures
        stats@.regular_files == stats.regular_files,
        stats@.managed_files == stats.managed_files,
        stats@.tracks == stats.tracks,
        stats@.links_created == stats.links_created,
        stats@.links_replaced == stats.links_replaced,
        stats@.links_up_to_date == stats.links_up_to_date,
        stats@.files_removed == stats.files_removed,
        stats@.dirs_removed == stats.dirs_removed,
        stats@.errors.len() == stats.errors@.len(),
        forall|i: int| 0 <= i < stats.errors@.len() ==> stats@.errors[i] == (#[trigger] stats.errors@[i])@,
{
}

/// A configuration is read from its fields of the same name.
pub proof fn configuration_is_its_fields(config: Config)
    ensures
        config@.source == config.source@,
        config@.formats_root == config.formats_root@,
        config@.max_qual_root == config.max_qual_root@,
        config@.verbose == config.verbose,
        config@.dry_run == config.dry_run,
        config@.formats.len() == config.format_order@.len(),
        forall|i: int|
            0 <= i < config.format_order@.len() ==> config@.formats[i] == (
            #[trigger] config.format_order@[i])@,
{
}

/// A link is read from its fields: the file, where it is to stand, and the file's
/// identity.
pub proof fn link_is_its_fields(link: Link)
    ensures
        link@.src == link.src@,
        link@.dest == link.dest@,
        link@.ino == link.ino,
{
}

/// What a scan found is read from its fields, and so is each file and track.
pub proof fn findings_are_their_fields(found: SourceScan, file: SourceFile, track: Track)
    ensures
        found@.regular_files == found.regular_files,
        found@.files.len() == found.files@.len(),
        forall|i: int| 0 <= i < found.files@.len() ==> found@.files[i] == (#[trigger] found.files@[i])@,
        found@.tracks.len() == found.tracks@.len(),
        forall|i: int|
            0 <= i < found.tracks@.len() ==> found@.tracks[i] == (#[trigger] found.tracks@[i])@,
        found@.errors.len() == found.errors@.len(),
        forall|i: int|
            0 <= i < found.errors@.len() ==> found@.errors[i] == (#[trigger] found.errors@[i])@,
        file@.path == file.path@,
        file@.rel == file.rel@,
        file@.ext == file.ext@,
        file@.track == file.track@,
        file@.ino == file.ino,
        track@.key == track.key@,
        track@.best_ext == track.best_ext@,
        track@.best_path == track.best_path@,
        track@.best_ino == track.best_ino,
        track@.best_index == track.best_index,
{
}

/// An operation that succeeded is taken for done, and one that failed for failed,
/// with its cause.
pub proof fn outcomes_are_taken_as_told(cause: String, meta: FileMeta)
    ensures
        outcome_view(Ok(())) is Ok,
        outcome_view(Err(cause)) == Err::<(), Seq<char>>(cause@),
        stat_view(StatReply::Found(meta)) == Ok::<Option<FileMeta>, Seq<char>>(Some(meta)),
        stat_view(StatReply::Missing) == Ok::<Option<FileMeta>, Seq<char>>(None),
        stat_view(StatReply::Failed(cause)) == Err::<Option<FileMeta>, Seq<char>>(cause@),
        LinkReply::Linked@ == LinkReplyView::Linked,
        LinkReply::NotFound(cause)@ == LinkReplyView::NotFound(cause@),
        LinkReply::Failed(cause)@ == LinkReplyView::Failed(cause@),
{
}

/// The outcomes of links, in a list, are each taken as told, in their order.
pub proof fn link_outcomes_are_taken_as_told(
    results: Seq<Result<LinkAction, String>>,
    action: LinkAction,
    line: String,
)
    ensures
        result_view(Ok(action)) == Ok::<LinkAction, Seq<char>>(action),
        result_view(Err(line)) == Err::<LinkAction, Seq<char>>(line@),
        result_views(results).len() == results.len(),
        forall|i: int|
            0 <= i < results.len() ==> #[trigger] result_views(results)[i] == result_view(
                results[i],
            ),
{
}

/// The identities of files that were looked at are those that looking told, in
/// their order.
pub proof fn identities_are_taken_as_told(metas: Seq<Result<FileMeta, String>>, i: int)
    requires
        0 <= i < metas.len(),
    ensures
        inos_of(metas).len() == metas.len(),
        metas[i] matches Ok(meta) ==> inos_of(metas)[i] == Ok::<InodeRef, Seq<char>>(
            InodeRef { dev: meta.dev, ino: meta.ino },
        ),
        metas[i] matches Err(cause) ==> inos_of(metas)[i] == Err::<InodeRef, Seq<char>>(cause@),
{
}

/// The items of a listed directory are taken with their names and types, in their
/// order, and a directory that could not be listed with the cause.
pub proof fn listings_are_taken_as_told(
    listings: Seq<Listing>,
    items: Vec<Result<Listed, String>>,
    listed: Listed,
    cause: String,
)
    ensures
        listing_views(listings).len() == listings.len(),
        forall|k: int|
            0 <= k < listings.len() ==> #[trigger] listing_views(listings)[k] == listing_view(
                listings[k],
            ),
        listing_view(Err(cause)) is Err && listing_view(Err(cause))->Err_0 == cause@,
        listing_view(Ok(items)) matches Ok(seen) && seen.len() == items@.len() && forall|i: int|
            0 <= i < items@.len() ==> #[trigger] seen[i] == item_view(items@[i]),
        item_view(Err(cause)) is Err && item_view(Err(cause))->Err_0 == cause@,
        item_view(Ok(listed)) matches Ok(told) && told.name == listed.name@ && match listed.kind {
            Ok(kind) => told.kind == Ok::<Kind, Seq<char>>(kind),
            Err(cause) => told.kind == Err::<Kind, Seq<char>>(cause@),
        },
{
}

/// An entry is its path and type, and what a directory on the way is said to be is
/// taken as told.
pub proof fn ways_are_taken_as_told(entry: Entry, replies: Seq<WayReply>, target: TreePath)
    ensures
        entry@.path == entry.path@,
        entry@.kind == entry.kind,
        WayReply::Open@ == WayView::Open,
        WayReply::Link(target)@ == WayView::Link(target@),
        way_views(replies).len() == replies.len(),
        forall|i: int| 0 <= i < replies.len() ==> #[trigger] way_views(replies)[i] == replies[i]@,
{
}

/// The next step of a link, the outcome of an entry and the end of a run say what
/// they are.
pub proof fn steps_say_what_they_are(
    action: LinkAction,
    dir: TreePath,
    line: String,
    file: SourceFile,
    stats: Stats,
)
    ensures
        LinkStep::Remove(action)@ == LinkStepView::Remove(action),
        LinkStep::Link(action)@ == LinkStepView::Link(action),
        LinkStep::CreateParent(action, dir)@ == LinkStepView::CreateParent(action, dir@),
        LinkStep::Retry(action)@ == LinkStepView::Retry(action),
        LinkStep::Finished(action)@ == LinkStepView::Finished(action),
        LinkStep::Failed(line)@ == LinkStepView::Failed(line@),
        EntryOutcome::Ignored@ == OutcomeView::Ignored,
        EntryOutcome::Other@ == OutcomeView::Other,
        EntryOutcome::Unusable(line)@ == OutcomeView::Unusable(line@),
        EntryOutcome::File(file)@ == OutcomeView::File(file@),
        Run::Finished(stats)@ == RunView::Finished(stats@),
        Run::Failed(line)@ == RunView::Failed(line@),
{
}

/// Texts in a list are each taken as they are, in their order.
pub proof fn texts_are_taken_as_they_are(strings: Seq<String>, i: int)
    requires
        0 <= i < strings.len(),
    ensures
        texts(strings).len() == strings.len(),
        texts(strings)[i] == strings[i]@,
{
}

} // verus!
