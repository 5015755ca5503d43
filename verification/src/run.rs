//! One reconciliation, as a dialogue with the disk.
//!
//! A [`Run`] says what it needs to know or have done next, and each answer gives
//! the run that follows. It walks the source tree, looks at the managed files,
//! creates the output roots, asks about the directories on the way to the wanted
//! links, ensures every link as far as where it leads permits, clears both output
//! trees of everything else and keeps the marker directory of the best-quality tree.

use vstd::prelude::*;
use vstd::string::*;

use crate::clean::{
    ensure_stfolder, marker_failure, marker_line, read_level, reconcile_tree, removal_failures,
    removal_line, removal_paths, removed_count, removed_files, stfolder_marker, stfolder_name,
    unread_tree, unremoved, unwanted_in, Removal, TreeScan, TreeScanView,
};
use crate::config::{Config, ConfigView};
use crate::link::{link_views, outcome_view, FileMeta, InodeRef, Link, LinkAction, LinkView, Permit};
use crate::path::{path_views, shown_path, Components, TreePath};
use crate::path_set::PathSet;
use crate::plan::{
    create_failure, desired_links, dests, excluded_roots, format_links, linked_stats, result_views,
    stats_with_links, track_links, wanted_files,
};
use crate::prune::{
    attempted, fully_pruned, prune_line, pruned_paths, pruning_start, start_prune, Prune, PruneView,
    RmdirReply,
};
use crate::scan::{
    candidate_paths, candidates_among, found_in, inos_of, judge_entries, judged, judged_all,
    judged_views, scan, settle, settled, FoundView, Judged, JudgedView, SourceScan,
};
use crate::stats::{texts, Stats, StatsView};
use crate::survey::{
    dirs_on_the_way, dirs_to_survey, find_turns, permit_links, permits_by, turns_among, way_views,
    WayReply, WayView,
};
use crate::walk::{
    advanced, is_excluded, is_in_reach, listing_views, started, stays_in_reach, walk_all, Listing,
    ListingView, Walk, WalkView,
};

verus! {

/// A run, by what it waits for.
pub enum Run {
    /// Directories of the source tree are to be read.
    Walking(Walking),
    /// Managed files are to be looked at.
    Identifying(Identifying),
    /// An output root is to be created.
    CreatingRoot(CreatingRoot),
    /// Directories on the way to links are to be asked about.
    Surveying(Surveying),
    /// Links are to be ensured.
    Linking(Linking),
    /// An output root is to be tested for being a directory.
    Checking(Checking),
    /// Directories of an output tree are to be read.
    Reading(Reading),
    /// Files of an output tree are to be removed.
    Removing(Removing),
    /// A directory of an output tree is to be removed.
    Pruning(Pruning),
    /// The marker is to be tested for being a directory.
    Marking(Marking),
    /// The marker is to be created.
    CreatingMarker(CreatingMarker),
    /// Nothing: the run is over, and this is what it did.
    Finished(Stats),
    /// Nothing: the run ended with this problem.
    Failed(String),
}

/// The contents of a [`Run`].
pub enum RunView {
    Walking(WalkingView),
    Identifying(IdentifyingView),
    CreatingRoot(CreatingRootView),
    Surveying(SurveyingView),
    Linking(LinkingView),
    Checking(CheckingView),
    Reading(ReadingView),
    Removing(ReadingView),
    Pruning(PruningView),
    Marking(MarkingView),
    CreatingMarker(MarkingView),
    Finished(StatsView),
    Failed(Seq<char>),
}

impl View for Run {
    type V = RunView;

    open spec fn view(&self) -> RunView {
        match *self {
            Run::Walking(stage) => RunView::Walking(stage@),
            Run::Identifying(stage) => RunView::Identifying(stage@),
            Run::CreatingRoot(stage) => RunView::CreatingRoot(stage@),
            Run::Surveying(stage) => RunView::Surveying(stage@),
            Run::Linking(stage) => RunView::Linking(stage@),
            Run::Checking(stage) => RunView::Checking(stage@),
            Run::Reading(stage) => RunView::Reading(stage@),
            Run::Removing(stage) => RunView::Removing(stage@),
            Run::Pruning(stage) => RunView::Pruning(stage@),
            Run::Marking(stage) => RunView::Marking(stage@),
            Run::CreatingMarker(stage) => RunView::CreatingMarker(stage@),
            Run::Finished(stats) => RunView::Finished(stats@),
            Run::Failed(line) => RunView::Failed(line@),
        }
    }
}

/// The contents of [`Walking`].
pub struct WalkingView {
    pub config: ConfigView,
    pub walk: WalkView,
}

/// The contents of [`Identifying`].
pub struct IdentifyingView {
    pub config: ConfigView,
    pub judged: Seq<JudgedView>,
}

/// The contents of [`CreatingRoot`].
pub struct CreatingRootView {
    pub config: ConfigView,
    pub found: FoundView,
    /// True when the root of the per-format trees has been created.
    pub formats_done: bool,
}

/// The contents of [`Surveying`].
pub struct SurveyingView {
    pub config: ConfigView,
    pub found: FoundView,
}

/// The contents of [`Linking`].
pub struct LinkingView {
    pub config: ConfigView,
    pub found: FoundView,
    /// What may be done for each link.
    pub permits: Seq<Permit>,
}

/// What a run knows while it clears an output tree.
pub struct RestView {
    pub config: ConfigView,
    pub stats: StatsView,
    /// The files wanted in the best-quality tree, while the per-format trees are
    /// cleared; none once the best-quality tree is cleared.
    pub tracks: Option<Set<Components>>,
}

/// The contents of [`Checking`].
pub struct CheckingView {
    pub rest: RestView,
    pub keep: Set<Components>,
}

/// The contents of [`Reading`] and of [`Removing`].
pub struct ReadingView {
    pub rest: RestView,
    pub tree: TreeScanView,
}

/// The contents of [`Pruning`].
pub struct PruningView {
    pub rest: RestView,
    pub prune: PruneView,
}

/// The contents of [`Marking`] and of [`CreatingMarker`].
pub struct MarkingView {
    pub config: ConfigView,
    pub stats: StatsView,
}

/// The output trees of a configuration.
pub open spec fn output_roots(config: ConfigView) -> Seq<Components> {
    seq![config.formats_root, config.max_qual_root]
}

/// The root of the output tree that is being cleared.
pub open spec fn root_at_hand(rest: RestView) -> Components {
    match rest.tracks {
        Some(_) => rest.config.formats_root,
        None => rest.config.max_qual_root,
    }
}

/// A run at its start.
pub open spec fn started_run(config: ConfigView) -> RunView {
    RunView::Walking(WalkingView { config, walk: started(config.source, output_roots(config)) })
}

/// A run after directories of the source tree have been read.
pub open spec fn after_walk(stage: WalkingView, listings: Seq<ListingView>) -> RunView {
    let walk = advanced(stage.walk, listings);
    if walk.level.len() > 0 {
        RunView::Walking(WalkingView { config: stage.config, walk })
    } else {
        RunView::Identifying(
            IdentifyingView {
                config: stage.config,
                judged: judged_all(
                    walk.seen,
                    stage.config.source,
                    output_roots(stage.config),
                    stage.config.formats,
                ),
            },
        )
    }
}

/// A run after the managed files have been looked at. A dry run creates no
/// roots.
pub open spec fn after_identifying(
    stage: IdentifyingView,
    inos: Seq<Result<InodeRef, Seq<char>>>,
) -> RunView {
    let found = found_in(settled(stage.judged, inos), stage.config.formats);
    if stage.config.dry_run {
        RunView::Surveying(SurveyingView { config: stage.config, found })
    } else {
        RunView::CreatingRoot(
            CreatingRootView { config: stage.config, found, formats_done: false },
        )
    }
}

/// The output root to create.
pub open spec fn root_to_create(stage: CreatingRootView) -> Components {
    if stage.formats_done {
        stage.config.max_qual_root
    } else {
        stage.config.formats_root
    }
}

/// A run after an output root has been created.
pub open spec fn after_root(stage: CreatingRootView, outcome: Result<(), Seq<char>>) -> RunView {
    match outcome {
        Err(cause) => RunView::Failed(
            "create directory "@ + shown_path(root_to_create(stage)) + ": "@ + cause,
        ),
        Ok(_) => if stage.formats_done {
            RunView::Surveying(SurveyingView { config: stage.config, found: stage.found })
        } else {
            RunView::CreatingRoot(CreatingRootView { formats_done: true, ..stage })
        },
    }
}

/// The links wanted in the per-format trees.
pub open spec fn formats_wanted(config: ConfigView, found: FoundView) -> Seq<LinkView> {
    format_links(config.formats_root, found.files)
}

/// The links wanted in the best-quality tree.
pub open spec fn tracks_wanted(config: ConfigView, found: FoundView) -> Seq<LinkView> {
    track_links(config.max_qual_root, found.tracks)
}

/// All links that are wanted, those in the per-format trees first.
pub open spec fn links_wanted(config: ConfigView, found: FoundView) -> Seq<LinkView> {
    formats_wanted(config, found) + tracks_wanted(config, found)
}

/// The directories to ask about.
pub open spec fn dirs_asked(stage: SurveyingView) -> Seq<Components> {
    dirs_on_the_way(
        stage.config.formats_root,
        formats_wanted(stage.config, stage.found),
        stage.config.max_qual_root,
        tracks_wanted(stage.config, stage.found),
    )
}

/// A run after the directories on the way to the links have been asked about.
pub open spec fn after_survey(stage: SurveyingView, replies: Seq<WayView>) -> RunView {
    RunView::Linking(
        LinkingView {
            config: stage.config,
            found: stage.found,
            permits: permits_by(
                stage.config.source,
                stage.config.formats_root,
                stage.config.max_qual_root,
                links_wanted(stage.config, stage.found),
                turns_among(dirs_asked(stage), replies),
            ),
        },
    )
}

/// A run after the links have been ensured. What is wanted does not depend on
/// whether it could be made.
pub open spec fn after_linking(
    stage: LinkingView,
    results: Seq<Result<LinkAction, Seq<char>>>,
) -> RunView {
    RunView::Checking(
        CheckingView {
            rest: RestView {
                config: stage.config,
                stats: stats_with_links(stage.found, results),
                tracks: Some(dests(tracks_wanted(stage.config, stage.found))),
            },
            keep: dests(formats_wanted(stage.config, stage.found)),
        },
    )
}

/// A run that reads an output tree, or has read it.
pub open spec fn reading_or_removing(rest: RestView, tree: TreeScanView) -> RunView {
    if tree.level.len() > 0 {
        RunView::Reading(ReadingView { rest, tree })
    } else {
        RunView::Removing(ReadingView { rest, tree })
    }
}

/// A run once it is known whether the output root is a directory.
pub open spec fn after_checking(stage: CheckingView, is_dir: bool) -> RunView {
    reading_or_removing(stage.rest, unread_tree(root_at_hand(stage.rest), stage.keep, is_dir))
}

/// A run after directories of an output tree have been read.
pub open spec fn after_reading(stage: ReadingView, listings: Seq<ListingView>) -> RunView {
    match read_level(stage.tree, listings) {
        Err(line) => RunView::Failed(line),
        Ok(tree) => reading_or_removing(stage.rest, tree),
    }
}

/// Counters with more files and directories removed.
pub open spec fn with_removed(stats: StatsView, files: nat, dirs: nat) -> StatsView {
    StatsView {
        files_removed: stats.files_removed + files,
        dirs_removed: stats.dirs_removed + dirs,
        ..stats
    }
}

/// A run after one output tree: the best-quality tree follows the per-format
/// trees, and the marker follows the best-quality tree.
pub open spec fn after_tree(rest: RestView) -> RunView {
    match rest.tracks {
        Some(keep) => RunView::Checking(
            CheckingView { rest: RestView { tracks: None, ..rest }, keep },
        ),
        None => RunView::Marking(MarkingView { config: rest.config, stats: rest.stats }),
    }
}

/// A run that prunes an output tree, or has pruned it.
pub open spec fn pruning_or_done(rest: RestView, prune: PruneView) -> RunView {
    if prune.next < prune.order.len() {
        RunView::Pruning(PruningView { rest, prune })
    } else {
        after_tree(RestView { stats: with_removed(rest.stats, 0, prune.removed), ..rest })
    }
}

/// Counters with more lines for problems.
pub open spec fn with_errors(stats: StatsView, lines: Seq<Seq<char>>) -> StatsView {
    StatsView { errors: stats.errors + lines, ..stats }
}

/// The files that could not be removed.
pub open spec fn files_left(stage: ReadingView, outcomes: Seq<Result<(), String>>) -> Set<
    Components,
> {
    unremoved(unwanted_in(stage.tree.scans), outcomes)
}

/// The pruning of a tree that has been read; a dry run is through with it at
/// once.
pub open spec fn pruning_of(stage: ReadingView, outcomes: Seq<Result<(), String>>) -> PruneView {
    let dry_run = stage.rest.config.dry_run;
    let start = pruning_start(stage.tree, files_left(stage, outcomes), dry_run);
    if dry_run {
        fully_pruned(start)
    } else {
        start
    }
}

/// A run after the files of an output tree have been removed. A file that could
/// not be removed is reported, and the run goes on.
pub open spec fn after_removing(stage: ReadingView, outcomes: Seq<Result<(), String>>) -> RunView {
    let counted = with_removed(stage.rest.stats, removed_count(outcomes), 0);
    let lines = removal_failures(unwanted_in(stage.tree.scans), outcomes);
    pruning_or_done(
        RestView { stats: with_errors(counted, lines), ..stage.rest },
        pruning_of(stage, outcomes),
    )
}

/// The directory to remove.
pub open spec fn dir_to_remove(stage: PruningView) -> Components {
    stage.prune.order[stage.prune.next as int].path
}

/// A run after an attempt to remove a directory.
pub open spec fn after_pruning(stage: PruningView, reply: RmdirReply) -> RunView {
    match reply {
        RmdirReply::Removed => pruning_or_done(stage.rest, attempted(stage.prune, true)),
        RmdirReply::Left => pruning_or_done(stage.rest, attempted(stage.prune, false)),
        RmdirReply::Failed(cause) => RunView::Failed(
            "remove empty directory "@ + shown_path(dir_to_remove(stage)) + ": "@ + cause@,
        ),
    }
}

/// The marker directory of the best-quality tree.
pub open spec fn marker_of(config: ConfigView) -> Components {
    config.max_qual_root.push(stfolder_name())
}

/// A run once it is known whether the marker is a directory. A dry run creates
/// none.
pub open spec fn after_marking(stage: MarkingView, is_dir: bool) -> RunView {
    if is_dir || stage.config.dry_run {
        RunView::Finished(stage.stats)
    } else {
        RunView::CreatingMarker(stage)
    }
}

/// A run after the marker has been created.
pub open spec fn after_marker(stage: MarkingView, outcome: Result<(), Seq<char>>) -> RunView {
    match outcome {
        Ok(_) => RunView::Finished(stage.stats),
        Err(cause) => RunView::Failed(
            "create syncthing marker "@ + shown_path(marker_of(stage.config)) + ": "@ + cause,
        ),
    }
}

/// A run that walks the source tree.
pub struct Walking {
    config: Config,
    walk: Walk,
}

impl View for Walking {
    type V = WalkingView;

    closed spec fn view(&self) -> WalkingView {
        WalkingView { config: self.config@, walk: self.walk@ }
    }
}

/// Starts a run.
pub fn run(config: Config) -> (run: Run)
    ensures
        run@ == started_run(config@),
{
    let excluded = excluded_roots(&config);
    let walk = walk_all(&config.source, &excluded);
    Run::Walking(Walking { config, walk })
}

/// Entries of a walk of the source tree do not stray.
proof fn lemma_nothing_strays(
    walk: WalkView,
    excluded: Seq<Components>,
    formats: Seq<Seq<char>>,
)
    requires
        stays_in_reach(walk),
    ensures
        forall|i: int|
            0 <= i < walk.seen.len() ==> !((#[trigger] judged_all(
                walk.seen,
                walk.root,
                excluded,
                formats,
            )[i]) is Stray),
{
    assert forall|i: int| 0 <= i < walk.seen.len() implies !((#[trigger] judged_all(
        walk.seen,
        walk.root,
        excluded,
        formats,
    )[i]) is Stray) by {
        assert(walk.seen[i] is Ok ==> is_in_reach(walk, walk.seen[i]->Ok_0.path));
    }
}

impl Walking {
    /// The walk is one of the source tree, without the output trees.
    #[verifier::type_invariant]
    spec fn in_source(self) -> bool {
        self.walk@.root == self.config.source@ && self.walk@.excluded == output_roots(self.config@)
    }

    /// The directories to read, none of which lies in an output tree.
    pub fn dirs(&self) -> (dirs: &Vec<TreePath>)
        ensures
            path_views(dirs@) == self@.walk.level,
            forall|i: int|
                0 <= i < self@.walk.level.len() ==> !is_excluded(
                    #[trigger] self@.walk.level[i],
                    output_roots(self@.config),
                ),
    {
        proof {
            use_type_invariant(self);
        }
        self.walk.level()
    }

    /// Takes the listings of the directories, in their order.
    pub fn read(self, listings: Vec<Listing>) -> (run: Run)
        requires
            listings@.len() == self@.walk.level.len(),
        ensures
            run@ == after_walk(self@, listing_views(listings@)),
    {
        proof {
            use_type_invariant(&self);
        }
        let Walking { config, walk } = self;
        let walk = walk.advance(listings);
        if walk.level().len() > 0 {
            assert(walk@.level.len() > 0);
            return Run::Walking(Walking { config, walk });
        }
        assert(walk@.level.len() == 0);
        let excluded = excluded_roots(&config);
        let ghost reported = walk@;
        let judged = judge_entries(
            walk.into_seen(),
            &config.source,
            &excluded,
            &config.format_order,
        );
        proof {
            let formats = texts(config.format_order@);
            let all = judged_all(reported.seen, reported.root, path_views(excluded@), formats);
            lemma_nothing_strays(reported, path_views(excluded@), formats);
            assert(judged_views(judged@) == all);
            assert(judged_views(judged@).len() == judged@.len());
            assert forall|i: int| 0 <= i < judged@.len() implies !(
            (#[trigger] judged@[i]) is Stray) by {
                assert(judged_views(judged@)[i] == judged@[i]@);
                assert(!(all[i] is Stray));
            }
        }
        Run::Identifying(Identifying { config, judged })
    }
}

/// A run that has walked the source tree.
pub struct Identifying {
    config: Config,
    judged: Vec<Judged>,
}

impl View for Identifying {
    type V = IdentifyingView;

    closed spec fn view(&self) -> IdentifyingView {
        IdentifyingView { config: self.config@, judged: judged_views(self.judged@) }
    }
}

impl Identifying {
    /// No entry strays.
    #[verifier::type_invariant]
    spec fn in_source(self) -> bool {
        forall|i: int| 0 <= i < self.judged@.len() ==> !((#[trigger] self.judged@[i]) is Stray)
    }

    /// The files to look at.
    pub fn files(&self) -> (files: Vec<TreePath>)
        ensures
            path_views(files@) == candidates_among(self@.judged),
    {
        candidate_paths(&self.judged)
    }

    /// Takes what looking at the files gave, in their order.
    pub fn looked_at(self, metas: Vec<Result<FileMeta, String>>) -> (run: Run)
        requires
            metas@.len() == candidates_among(self@.judged).len(),
        ensures
            run@ == after_identifying(self@, inos_of(metas@)),
    {
        proof {
            use_type_invariant(&self);
        }
        let Identifying { config, judged } = self;
        let found = scan(settle(judged, metas), &config.format_order);
        if config.dry_run {
            surveying(config, found)
        } else {
            Run::CreatingRoot(CreatingRoot { config, found, formats_done: false })
        }
    }
}

/// A run that creates the output roots.
pub struct CreatingRoot {
    config: Config,
    found: SourceScan,
    formats_done: bool,
}

impl View for CreatingRoot {
    type V = CreatingRootView;

    closed spec fn view(&self) -> CreatingRootView {
        CreatingRootView {
            config: self.config@,
            found: self.found@,
            formats_done: self.formats_done,
        }
    }
}

impl CreatingRoot {
    /// The directory to create, with the missing ones above it.
    pub fn dir(&self) -> (dir: &TreePath)
        ensures
            dir@ == root_to_create(self@),
    {
        if self.formats_done {
            &self.config.max_qual_root
        } else {
            &self.config.formats_root
        }
    }

    /// Takes what creating the directory gave.
    pub fn created(self, outcome: Result<(), String>) -> (run: Run)
        ensures
            run@ == after_root(self@, outcome_view(outcome)),
    {
        match outcome {
            Err(cause) => Run::Failed(create_failure(self.dir(), cause.as_str())),
            Ok(_) => {
                let CreatingRoot { config, found, formats_done } = self;
                if formats_done {
                    surveying(config, found)
                } else {
                    Run::CreatingRoot(CreatingRoot { config, found, formats_done: true })
                }
            },
        }
    }
}

/// A run that asks about the directories on the way to links.
pub struct Surveying {
    config: Config,
    found: SourceScan,
    of_formats: Vec<Link>,
    of_tracks: Vec<Link>,
    dirs: Vec<TreePath>,
}

impl View for Surveying {
    type V = SurveyingView;

    closed spec fn view(&self) -> SurveyingView {
        SurveyingView { config: self.config@, found: self.found@ }
    }
}

/// A run that knows what is wanted.
fn surveying(config: Config, found: SourceScan) -> (run: Run)
    ensures
        run@ == RunView::Surveying((SurveyingView { config: config@, found: found@ })),
{
    let (of_formats, of_tracks) = desired_links(&config, &found);
    let dirs = dirs_to_survey(
        &config.formats_root,
        &of_formats,
        &config.max_qual_root,
        &of_tracks,
    );
    Run::Surveying(Surveying { config, found, of_formats, of_tracks, dirs })
}

impl Surveying {
    /// The links are those that the source tree calls for, and the directories
    /// those on the way to them.
    #[verifier::type_invariant]
    spec fn as_desired(self) -> bool {
        &&& link_views(self.of_formats@) == formats_wanted(self.config@, self.found@)
        &&& link_views(self.of_tracks@) == tracks_wanted(self.config@, self.found@)
        &&& path_views(self.dirs@) == dirs_asked(self@)
    }

    /// The directories to ask about: is there a symbolic link?
    pub fn dirs(&self) -> (dirs: &Vec<TreePath>)
        ensures
            path_views(dirs@) == dirs_asked(self@),
    {
        proof {
            use_type_invariant(self);
        }
        &self.dirs
    }

    /// Takes the answers, in the order of the directories.
    pub fn answered(self, replies: Vec<WayReply>) -> (run: Run)
        requires
            replies@.len() == dirs_asked(self@).len(),
        ensures
            run@ == after_survey(self@, way_views(replies@)),
    {
        proof {
            use_type_invariant(&self);
            assert(path_views(self.dirs@).len() == self.dirs@.len());
        }
        let Surveying { config, found, of_formats, of_tracks, dirs } = self;
        let turns = find_turns(&dirs, replies);
        let keep = wanted_files(&of_formats);
        let tracks = wanted_files(&of_tracks);
        let mut links = of_formats;
        let mut more = of_tracks;
        assert(link_views(links@ + more@) =~= link_views(links@) + link_views(more@));
        links.append(&mut more);
        let permits = permit_links(
            &config.source,
            &config.formats_root,
            &config.max_qual_root,
            &links,
            &turns,
        );
        Run::Linking(Linking { config, found, keep, tracks, links, permits })
    }
}

/// A run that ensures links.
pub struct Linking {
    config: Config,
    found: SourceScan,
    keep: PathSet,
    tracks: PathSet,
    links: Vec<Link>,
    permits: Vec<Permit>,
}

impl View for Linking {
    type V = LinkingView;

    closed spec fn view(&self) -> LinkingView {
        LinkingView { config: self.config@, found: self.found@, permits: self.permits@ }
    }
}

impl Linking {
    /// The links are those that the source tree calls for, and what may be done is
    /// known of each.
    #[verifier::type_invariant]
    spec fn as_desired(self) -> bool {
        &&& self.keep@ == dests(formats_wanted(self.config@, self.found@))
        &&& self.tracks@ == dests(tracks_wanted(self.config@, self.found@))
        &&& link_views(self.links@) == links_wanted(self.config@, self.found@)
        &&& self.permits@.len() == self.links@.len()
    }

    /// The links to ensure, those in the per-format trees first.
    pub fn links(&self) -> (links: &Vec<Link>)
        ensures
            link_views(links@) == links_wanted(self@.config, self@.found),
    {
        proof {
            use_type_invariant(self);
        }
        &self.links
    }

    /// What may be done for each link.
    pub fn permits(&self) -> (permits: &Vec<Permit>)
        ensures
            permits@ == self@.permits,
            permits@.len() == links_wanted(self@.config, self@.found).len(),
    {
        proof {
            use_type_invariant(self);
            assert(link_views(self.links@).len() == self.links@.len());
        }
        &self.permits
    }

    /// True when nothing is to be written.
    pub fn dry_run(&self) -> (dry_run: bool)
        ensures
            dry_run == self@.config.dry_run,
    {
        self.config.dry_run
    }

    /// True when actions are to be announced.
    pub fn verbose(&self) -> (verbose: bool)
        ensures
            verbose == self@.config.verbose,
    {
        self.config.verbose
    }

    /// Takes what came of each link, in their order.
    pub fn linked(self, results: Vec<Result<LinkAction, String>>) -> (run: Run)
        requires
            results@.len() == links_wanted(self@.config, self@.found).len(),
        ensures
            run@ == after_linking(self@, result_views(results@)),
    {
        proof {
            use_type_invariant(&self);
        }
        let Linking { config, found, keep, tracks, links: _, permits: _ } = self;
        let stats = linked_stats(found, results);
        Run::Checking(Checking { rest: Rest { config, stats, tracks: Some(tracks) }, keep })
    }
}

/// What a run knows while it clears an output tree.
struct Rest {
    config: Config,
    stats: Stats,
    tracks: Option<PathSet>,
}

impl View for Rest {
    type V = RestView;

    closed spec fn view(&self) -> RestView {
        RestView {
            config: self.config@,
            stats: self.stats@,
            tracks: match self.tracks {
                Some(keep) => Some(keep@),
                None => None,
            },
        }
    }
}

impl Rest {
    /// The root of the output tree that is being cleared.
    fn root(&self) -> (root: &TreePath)
        ensures
            root@ == root_at_hand(self@),
    {
        match self.tracks {
            Some(_) => &self.config.formats_root,
            None => &self.config.max_qual_root,
        }
    }

    /// Goes on after the output tree.
    fn next(self) -> (run: Run)
        ensures
            run@ == after_tree(self@),
    {
        let Rest { config, stats, tracks } = self;
        match tracks {
            Some(keep) => Run::Checking(
                Checking { rest: Rest { config, stats, tracks: None }, keep },
            ),
            None => Run::Marking(Marking { config, stats }),
        }
    }
}

/// A run that is about to read an output tree.
pub struct Checking {
    rest: Rest,
    keep: PathSet,
}

impl View for Checking {
    type V = CheckingView;

    closed spec fn view(&self) -> CheckingView {
        CheckingView { rest: self.rest@, keep: self.keep@ }
    }
}

impl Checking {
    /// The output root in question.
    pub fn root(&self) -> (root: &TreePath)
        ensures
            root@ == root_at_hand(self@.rest),
    {
        self.rest.root()
    }

    /// Takes whether the root is a directory.
    pub fn answered(self, is_dir: bool) -> (run: Run)
        ensures
            run@ == after_checking(self@, is_dir),
    {
        let Checking { rest, keep } = self;
        let tree = reconcile_tree(rest.root(), keep, is_dir);
        reading(rest, tree)
    }
}

/// A run that reads an output tree.
pub struct Reading {
    rest: Rest,
    tree: TreeScan,
}

impl View for Reading {
    type V = ReadingView;

    closed spec fn view(&self) -> ReadingView {
        ReadingView { rest: self.rest@, tree: self.tree@ }
    }
}

/// A run that reads an output tree, or has read it.
fn reading(rest: Rest, tree: TreeScan) -> (run: Run)
    ensures
        run@ == reading_or_removing(rest@, tree@),
{
    if tree.level().len() > 0 {
        assert(tree@.level.len() > 0);
        Run::Reading(Reading { rest, tree })
    } else {
        assert(tree@.level.len() == 0);
        let removals = tree.removals(rest.config.dry_run, rest.config.verbose);
        Run::Removing(Removing { rest, tree, removals })
    }
}

impl Reading {
    /// The directories to read.
    pub fn dirs(&self) -> (dirs: &Vec<TreePath>)
        ensures
            path_views(dirs@) == self@.tree.level,
    {
        self.tree.level()
    }

    /// Takes the listings of the directories, in their order.
    pub fn read(self, listings: Vec<Listing>) -> (run: Run)
        requires
            listings@.len() == self@.tree.level.len(),
        ensures
            run@ == after_reading(self@, listing_views(listings@)),
    {
        let Reading { rest, tree } = self;
        match tree.advance(listings) {
            Ok(tree) => reading(rest, tree),
            Err(line) => Run::Failed(line),
        }
    }
}

/// A run that has read an output tree.
pub struct Removing {
    rest: Rest,
    tree: TreeScan,
    removals: Vec<Removal>,
}

impl View for Removing {
    type V = ReadingView;

    closed spec fn view(&self) -> ReadingView {
        ReadingView { rest: self.rest@, tree: self.tree@ }
    }
}

/// True when the counters can take what clearing the tree may remove.
pub open spec fn counters_suffice(stage: ReadingView) -> bool {
    &&& stage.rest.stats.files_removed + unwanted_in(stage.tree.scans).len() <= usize::MAX
    &&& stage.rest.stats.dirs_removed + stage.tree.scans.len() <= usize::MAX
}

impl Removing {
    /// The removals are those of the tree.
    #[verifier::type_invariant]
    spec fn of_tree(self) -> bool {
        &&& removal_paths(self.removals@) == unwanted_in(self.tree@.scans)
        &&& forall|i: int|
            0 <= i < self.removals@.len() ==> {
                &&& (#[trigger] self.removals@[i]).delete == !self.rest@.config.dry_run
                &&& self.removals@[i].line is Some <==> self.rest@.config.verbose
                    || self.rest@.config.dry_run
                &&& self.removals@[i].line matches Some(line) ==> line@ == removal_line(
                    self.removals@[i].path@,
                    self.rest@.config.dry_run,
                )
            }
    }

    /// The files that are not wanted. In a dry run none of them is to be deleted.
    pub fn removals(&self) -> (removals: &Vec<Removal>)
        ensures
            removal_paths(removals@) == unwanted_in(self@.tree.scans),
            forall|i: int|
                0 <= i < removals@.len() ==> {
                    &&& (#[trigger] removals@[i]).delete == !self@.rest.config.dry_run
                    &&& removals@[i].line is Some <==> self@.rest.config.verbose
                        || self@.rest.config.dry_run
                    &&& removals@[i].line matches Some(line) ==> line@ == removal_line(
                        removals@[i].path@,
                        self@.rest.config.dry_run,
                    )
                },
    {
        proof {
            use_type_invariant(self);
        }
        &self.removals
    }

    /// True when the counters can take what clearing the tree may remove.
    pub fn fits(&self) -> (fits: bool)
        ensures
            fits == counters_suffice(self@),
    {
        proof {
            use_type_invariant(self);
            assert(removal_paths(self.removals@).len() == self.removals@.len());
        }
        self.removals.len() <= usize::MAX - self.rest.stats.files_removed && self.tree.scan_count()
            <= usize::MAX - self.rest.stats.dirs_removed
    }

    /// Takes what removing the files gave, in their order. In a dry run the lines
    /// for the directories that would be removed come with the next stage.
    pub fn removed(self, outcomes: Vec<Result<(), String>>) -> (next: (Run, Vec<String>))
        requires
            outcomes@.len() == unwanted_in(self@.tree.scans).len(),
            counters_suffice(self@),
        ensures
            next.0@ == after_removing(self@, outcomes@),
            texts(next.1@) == (if self@.rest.config.dry_run {
                pruned_paths(
                    pruning_start(self@.tree, files_left(self@, outcomes@), true),
                ).map_values(|path: Components| prune_line(path, true))
            } else {
                seq![]
            }),
    {
        proof {
            use_type_invariant(&self);
            assert(removal_paths(self.removals@).len() == self.removals@.len());
        }
        let Removing { mut rest, tree, removals } = self;
        let removed = removed_files(removals, outcomes);
        let (prune, lines) = start_prune(tree, &removed.unremoved, rest.config.dry_run);
        rest.stats.add_removed(removed.count, 0);
        rest.stats.add_errors(removed.failures);
        (pruning(rest, prune), lines)
    }
}

/// A run that prunes an output tree.
pub struct Pruning {
    rest: Rest,
    prune: Prune,
}

impl View for Pruning {
    type V = PruningView;

    closed spec fn view(&self) -> PruningView {
        PruningView { rest: self.rest@, prune: self.prune@ }
    }
}

/// A run that prunes an output tree, or has pruned it.
fn pruning(rest: Rest, prune: Prune) -> (run: Run)
    requires
        rest@.stats.dirs_removed + prune@.order.len() <= usize::MAX,
    ensures
        run@ == pruning_or_done(rest@, prune@),
{
    let mut rest = rest;
    match prune.pending() {
        Some(_) => Run::Pruning(Pruning { rest, prune }),
        None => {
            rest.stats.add_removed(0, prune.removed_dirs());
            rest.next()
        },
    }
}

impl Pruning {
    /// There is a directory to remove, and the counter can take them all.
    #[verifier::type_invariant]
    spec fn under_way(self) -> bool {
        &&& self.prune@.next < self.prune@.order.len()
        &&& self.rest@.stats.dirs_removed + self.prune@.order.len() <= usize::MAX
    }

    /// The directory to remove, which is empty.
    pub fn dir(&self) -> (dir: TreePath)
        ensures
            dir@ == dir_to_remove(self@),
    {
        proof {
            use_type_invariant(self);
        }
        match self.prune.pending() {
            Some(dir) => dir.clone(),
            None => TreePath::empty(),
        }
    }

    /// Takes what removing the directory gave. A removal comes with the line
    /// that announces it, where lines are asked for.
    pub fn tried(self, reply: RmdirReply) -> (next: (Run, Option<String>))
        ensures
            next.0@ == after_pruning(self@, reply),
            next.1 is Some <==> reply is Removed && self@.rest.config.verbose,
            next.1 matches Some(line) ==> line@ == prune_line(dir_to_remove(self@), false),
    {
        proof {
            use_type_invariant(&self);
        }
        let Pruning { rest, prune } = self;
        match prune.record(reply, rest.config.verbose) {
            Ok((prune, line)) => (pruning(rest, prune), line),
            Err(line) => (Run::Failed(line), None),
        }
    }
}

/// A run that has cleared both output trees.
pub struct Marking {
    config: Config,
    stats: Stats,
}

impl View for Marking {
    type V = MarkingView;

    closed spec fn view(&self) -> MarkingView {
        MarkingView { config: self.config@, stats: self.stats@ }
    }
}

impl Marking {
    /// The marker in question.
    pub fn marker(&self) -> (marker: TreePath)
        ensures
            marker@ == marker_of(self@.config),
    {
        stfolder_marker(&self.config.max_qual_root)
    }

    /// Takes whether the marker is a directory. A creation comes with the line
    /// that announces it, where lines are asked for or nothing is written.
    pub fn answered(self, is_dir: bool) -> (next: (Run, Option<String>))
        ensures
            next.0@ == after_marking(self@, is_dir),
            next.1 is Some <==> !is_dir && (self@.config.verbose || self@.config.dry_run),
            next.1 matches Some(line) ==> line@ == marker_line(
                marker_of(self@.config),
                self@.config.dry_run,
            ),
    {
        let Marking { config, stats } = self;
        let plan = ensure_stfolder(
            &config.max_qual_root,
            is_dir,
            config.dry_run,
            config.verbose,
        );
        if plan.create {
            (Run::CreatingMarker(CreatingMarker { config, stats }), plan.line)
        } else {
            (Run::Finished(stats), plan.line)
        }
    }
}

/// A run that creates the marker.
pub struct CreatingMarker {
    config: Config,
    stats: Stats,
}

impl View for CreatingMarker {
    type V = MarkingView;

    closed spec fn view(&self) -> MarkingView {
        MarkingView { config: self.config@, stats: self.stats@ }
    }
}

impl CreatingMarker {
    /// The directory to create, with the missing ones above it.
    pub fn marker(&self) -> (marker: TreePath)
        ensures
            marker@ == marker_of(self@.config),
    {
        stfolder_marker(&self.config.max_qual_root)
    }

    /// Takes what creating the directory gave.
    pub fn created(self, outcome: Result<(), String>) -> (run: Run)
        ensures
            run@ == after_marker(self@, outcome_view(outcome)),
    {
        match outcome {
            Ok(_) => Run::Finished(self.stats),
            Err(cause) => Run::Failed(
                marker_failure(&self.config.max_qual_root, cause.as_str()),
            ),
        }
    }
}

} // verus!
