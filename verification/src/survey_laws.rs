//! Where links lead on a disk with symbolic links, and what that leaves alone.

use vstd::prelude::*;

use crate::clean::TreeScanView;
use crate::clean_laws::{has_scan, read_tree_scans_every_directory_once, tree_is_faithful};
use crate::config::ConfigView;
use crate::link::{
    step_after_link, step_after_parent, step_after_remove, step_after_retry, step_after_stat,
    FileMeta, LinkAction, LinkReplyView, LinkStepView, LinkView, Permit,
};
use crate::link_laws::{can_link, performed};
use crate::model::{
    is_dir, is_real, is_tree, lemma_longer, lemma_prefix_is_dir, lemma_prefix_transitive,
    lemma_prefixes_nest, place_of, place_of_dir, real_paths_lead_where_they_say, way_is_clear,
    with_dirs, Fs, Node,
};
use crate::path::{strictly_under, Components};
use crate::path_set::distinct_paths;
use crate::plan_laws::{format_link_stays_in_its_tree, track_link_stays_in_its_tree};
use crate::run::{
    after_survey, dirs_asked, formats_wanted, links_wanted, tracks_wanted, RunView, SurveyingView,
};
use crate::survey::{
    deepest_turn, dirs_toward, dirs_toward_all, location, permit_at, turns_among, TurnView, WayView,
};

verus! {

/// What asking about a directory tells: whether a symbolic link is there, and where
/// it leads.
pub open spec fn way_of(fs: Fs, dir: Components) -> WayView {
    let p = place_of(fs, dir);
    if fs.contains_key(p) && fs[p] is Link {
        WayView::Link(fs[p]->Link_0)
    } else {
        WayView::Open
    }
}

/// True answers about directories.
pub open spec fn told(fs: Fs, dirs: Seq<Components>) -> Seq<WayView> {
    Seq::new(dirs.len(), |i: int| way_of(fs, dirs[i]))
}

/// What may be done for a link, by where it leads.
pub open spec fn permit_in(fs: Fs, config: ConfigView, link: LinkView) -> Permit {
    permit_at(
        config.source,
        config.formats_root,
        config.max_qual_root,
        place_of(fs, link.dest),
    )
}

/// What may be done for each link.
pub open spec fn permits_in(fs: Fs, config: ConfigView, links: Seq<LinkView>) -> Seq<Permit> {
    Seq::new(links.len(), |i: int| permit_in(fs, config, links[i]))
}

/// A list without repetitions holds what the list holds.
proof fn lemma_distinct_paths(paths: Seq<Components>, p: Components)
    ensures
        distinct_paths(paths).contains(p) <==> paths.contains(p),
    decreases paths.len(),
{
    if paths.len() > 0 {
        let before = paths.drop_last();
        let some = distinct_paths(before);
        let all = distinct_paths(paths);
        lemma_distinct_paths(before, p);
        lemma_distinct_paths(before, paths.last());
        if paths.contains(p) && p != paths.last() {
            let i = choose|i: int| 0 <= i < paths.len() && paths[i] == p;
            assert(before[i] == p);
        }
        if before.contains(p) {
            let i = choose|i: int| 0 <= i < before.len() && before[i] == p;
            assert(paths[i] == p);
        }
        assert(paths[paths.len() - 1] == paths.last());
        if some.contains(p) {
            let i = choose|i: int| 0 <= i < some.len() && some[i] == p;
            assert(all[i] == p);
        }
        if !some.contains(paths.last()) {
            assert(all[some.len() as int] == paths.last());
            if all.contains(p) && p != paths.last() {
                let i = choose|i: int| 0 <= i < all.len() && all[i] == p;
                assert(some[i] == p);
            }
        }
    }
}

/// The directories on the way to one of several links are among those on the way
/// to all of them.
proof fn lemma_dirs_toward(root: Components, links: Seq<LinkView>, k: int, n: int)
    requires
        0 <= k < links.len(),
        root.len() < n < links[k].dest.len(),
    ensures
        dirs_toward_all(root, links).contains(links[k].dest.take(n)),
    decreases links.len(),
{
    let before = links.drop_last();
    let earlier = dirs_toward_all(root, before);
    let last = dirs_toward(root, links.last().dest);
    let all = dirs_toward_all(root, links);
    let dir = links[k].dest.take(n);
    if k < before.len() {
        assert(before[k] == links[k]);
        lemma_dirs_toward(root, before, k, n);
        let i = choose|i: int| 0 <= i < earlier.len() && earlier[i] == dir;
        assert(all[i] == dir);
    } else {
        let i = n - root.len() - 1;
        assert(last[i] == dir);
        assert(all[earlier.len() + i] == dir);
    }
}

/// What two lists hold together.
proof fn lemma_in_either(a: Seq<Components>, b: Seq<Components>, d: Components)
    ensures
        (a + b).contains(d) <==> a.contains(d) || b.contains(d),
{
    if a.contains(d) {
        let i = choose|i: int| 0 <= i < a.len() && a[i] == d;
        assert((a + b)[i] == d);
    }
    if b.contains(d) {
        let i = choose|i: int| 0 <= i < b.len() && b[i] == d;
        assert((a + b)[a.len() + i] == d);
    }
    if (a + b).contains(d) {
        let i = choose|i: int| 0 <= i < (a + b).len() && (a + b)[i] == d;
        if i < a.len() {
            assert(a[i] == d);
        } else {
            assert(b[i - a.len()] == d);
        }
    }
}

/// What the symbolic links among directories are.
proof fn lemma_turns_among(fs: Fs, dirs: Seq<Components>)
    ensures
        forall|i: int|
            0 <= i < dirs.len() && way_of(fs, #[trigger] dirs[i]) is Link ==> exists|k: int|
                0 <= k < turns_among(dirs, told(fs, dirs)).len() && (#[trigger] turns_among(
                    dirs,
                    told(fs, dirs),
                )[k]).dir == dirs[i],
        forall|k: int|
            0 <= k < turns_among(dirs, told(fs, dirs)).len() ==> way_of(
                fs,
                (#[trigger] turns_among(dirs, told(fs, dirs))[k]).dir,
            ) == WayView::Link(turns_among(dirs, told(fs, dirs))[k].target),
    decreases dirs.len(),
{
    if dirs.len() > 0 {
        let some = dirs.drop_last();
        lemma_turns_among(fs, some);
        assert(told(fs, dirs).drop_last() =~= told(fs, some));
        let before = turns_among(some, told(fs, some));
        let all = turns_among(dirs, told(fs, dirs));
        assert(told(fs, dirs).last() == way_of(fs, dirs.last()));
        assert forall|i: int|
            0 <= i < dirs.len() && way_of(fs, #[trigger] dirs[i]) is Link implies exists|k: int|
            0 <= k < all.len() && (#[trigger] all[k]).dir == dirs[i] by {
            if i < some.len() {
                assert(some[i] == dirs[i]);
                let k = choose|k: int| 0 <= k < before.len() && (#[trigger] before[k]).dir == some[i];
                assert(all[k] == before[k]);
            } else {
                assert(all[before.len() as int].dir == dirs[i]);
            }
        }
        assert forall|k: int| 0 <= k < all.len() implies way_of(fs, (#[trigger] all[k]).dir)
            == WayView::Link(all[k].target) by {
            if k < before.len() {
                assert(all[k] == before[k]);
            }
        }
    }
}

/// What the deepest symbolic link on a way says of all of them.
proof fn lemma_deepest_turn(dest: Components, turns: Seq<TurnView>)
    ensures
        match deepest_turn(dest, turns) {
            None => forall|k: int|
                0 <= k < turns.len() ==> !strictly_under(dest, (#[trigger] turns[k]).dir),
            Some(turn) => {
                &&& strictly_under(dest, turn.dir)
                &&& turns.contains(turn)
                &&& forall|k: int|
                    0 <= k < turns.len() && strictly_under(dest, (#[trigger] turns[k]).dir)
                        ==> turns[k].dir.len() <= turn.dir.len()
            },
        },
    decreases turns.len(),
{
    if turns.len() > 0 {
        let before = turns.drop_last();
        lemma_deepest_turn(dest, before);
        assert forall|k: int| 0 <= k < before.len() implies before[k] == turns[k] by {}
        assert(turns[turns.len() - 1] == turns.last());
        if deepest_turn(dest, before) is Some {
            let k = choose|k: int|
                0 <= k < before.len() && before[k] == deepest_turn(dest, before)->0;
            assert(turns[k] == before[k]);
        }
    }
}

/// Where no directory on the rest of a way is a symbolic link, the rest leads where
/// it says.
proof fn lemma_open_rest(fs: Fs, dest: Components, k: int, n: int)
    requires
        0 <= k <= n < dest.len(),
        forall|i: int| k < i <= n ==> way_of(fs, #[trigger] dest.take(i)) is Open,
    ensures
        place_of_dir(fs, dest.take(n)) == place_of_dir(fs, dest.take(k)) + dest.subrange(k, n),
    decreases n - k,
{
    let start = place_of_dir(fs, dest.take(k));
    if n == k {
        assert(start + dest.subrange(k, n) =~= start);
    } else {
        lemma_open_rest(fs, dest, k, n - 1);
        assert(dest.take(n).drop_last() =~= dest.take(n - 1));
        assert(way_of(fs, dest.take(n)) is Open);
        assert((start + dest.subrange(k, n - 1)).push(dest[n - 1]) =~= start + dest.subrange(k, n));
    }
}

/// What is above a path without symbolic links is without them, too.
pub(crate) proof fn lemma_real_above(fs: Fs, dir: Components, q: Components)
    requires
        is_real(fs, dir),
        q.is_prefix_of(dir),
    ensures
        is_real(fs, q),
{
    assert forall|r: Components| #[trigger] fs.contains_key(r) && r.is_prefix_of(q) implies !(
    fs[r] is Link) by {
        lemma_prefix_transitive(r, q, dir);
    }
}

/// An entry whose directory is reached without symbolic links is where its path
/// says.
pub(crate) proof fn lemma_real_place(fs: Fs, path: Components)
    requires
        path.len() > 0 ==> is_real(fs, path.drop_last()),
    ensures
        place_of(fs, path) == path,
{
    if path.len() > 0 {
        real_paths_lead_where_they_say(fs, path.drop_last());
        assert(path.drop_last().push(path.last()) =~= path);
    }
}

/// A directory that is a symbolic link is not reached without symbolic links.
proof fn lemma_link_is_not_real(fs: Fs, dir: Components)
    requires
        way_of(fs, dir) is Link,
        dir.len() > 0,
    ensures
        !is_real(fs, dir),
{
    if is_real(fs, dir) {
        let parent = dir.drop_last();
        assert(parent =~= dir.subrange(0, parent.len() as int));
        lemma_real_above(fs, dir, parent);
        lemma_real_place(fs, dir);
        assert(dir =~= dir.subrange(0, dir.len() as int));
    }
}

/// Where a destination leads, by true answers about all directories on its way.
proof fn lemma_location(fs: Fs, root: Components, dest: Components, dirs: Seq<Components>)
    requires
        is_real(fs, root),
        strictly_under(dest, root),
        forall|n: int| root.len() < n < dest.len() ==> dirs.contains(#[trigger] dest.take(n)),
        forall|d: Components| #[trigger] dirs.contains(d) ==> d.len() > 0,
    ensures
        location(dest, turns_among(dirs, told(fs, dirs))) == place_of(fs, dest),
{
    let turns = turns_among(dirs, told(fs, dirs));
    let last = dest.len() - 1;
    lemma_longer(dest, root);
    lemma_turns_among(fs, dirs);
    lemma_turns_are_asked(fs, dirs);
    lemma_deepest_turn(dest, turns);
    let k: int = match deepest_turn(dest, turns) {
        Some(turn) => turn.dir.len() as int,
        None => root.len() as int,
    };
    if deepest_turn(dest, turns) is Some {
        let turn = deepest_turn(dest, turns)->0;
        let i = choose|i: int| 0 <= i < turns.len() && turns[i] == turn;
        assert(way_of(fs, turns[i].dir) == WayView::Link(turns[i].target));
        assert(dirs.contains(turns[i].dir));
        lemma_longer(dest, turn.dir);
        assert(dest.take(k) =~= turn.dir) by {
            assert(turn.dir =~= dest.subrange(0, k));
        }
        if k <= root.len() {
            lemma_prefixes_nest(turn.dir, root, dest);
            lemma_real_above(fs, root, turn.dir);
            lemma_link_is_not_real(fs, turn.dir);
        }
        assert(place_of_dir(fs, turn.dir) == turn.target);
    } else {
        assert(dest.take(k) =~= root) by {
            assert(root =~= dest.subrange(0, k));
        }
        real_paths_lead_where_they_say(fs, root);
    }
    assert forall|i: int| k < i <= last implies way_of(fs, #[trigger] dest.take(i)) is Open by {
        let dir = dest.take(i);
        assert(dirs.contains(dir));
        let j = choose|j: int| 0 <= j < dirs.len() && dirs[j] == dir;
        if way_of(fs, dirs[j]) is Link {
            let o = choose|o: int| 0 <= o < turns.len() && (#[trigger] turns[o]).dir == dirs[j];
            assert(dir.is_prefix_of(dest));
            assert(strictly_under(dest, turns[o].dir));
        }
    }
    lemma_open_rest(fs, dest, k, last);
    assert(dest.take(last) =~= dest.drop_last());
    assert(place_of(fs, dest) =~= place_of_dir(fs, dest.take(k)) + dest.skip(k));
    if deepest_turn(dest, turns) is None {
        assert(root + dest.skip(k) =~= dest);
    }
}

/// The symbolic links among directories are some of them.
proof fn lemma_turns_are_asked(fs: Fs, dirs: Seq<Components>)
    ensures
        forall|k: int|
            0 <= k < turns_among(dirs, told(fs, dirs)).len() ==> dirs.contains(
                (#[trigger] turns_among(dirs, told(fs, dirs))[k]).dir,
            ),
    decreases dirs.len(),
{
    if dirs.len() > 0 {
        let some = dirs.drop_last();
        lemma_turns_are_asked(fs, some);
        assert(told(fs, dirs).drop_last() =~= told(fs, some));
        let before = turns_among(some, told(fs, some));
        let all = turns_among(dirs, told(fs, dirs));
        assert forall|k: int| 0 <= k < all.len() implies dirs.contains((#[trigger] all[k]).dir) by {
            if k < before.len() {
                assert(all[k] == before[k]);
                let i = choose|i: int| 0 <= i < some.len() && some[i] == before[k].dir;
                assert(dirs[i] == some[i]);
            } else {
                assert(dirs[dirs.len() - 1] == all[k].dir);
            }
        }
    }
}

/// The directories on the way to links are none with an empty path.
proof fn lemma_dirs_are_named(root: Components, links: Seq<LinkView>, d: Components)
    requires
        dirs_toward_all(root, links).contains(d),
    ensures
        d.len() > 0,
    decreases links.len(),
{
    let all = dirs_toward_all(root, links);
    let i = choose|i: int| 0 <= i < all.len() && all[i] == d;
    let earlier = dirs_toward_all(root, links.drop_last());
    if i < earlier.len() {
        assert(earlier[i] == d);
        lemma_dirs_are_named(root, links.drop_last(), d);
    } else {
        let last = dirs_toward(root, links.last().dest);
        assert(last[i - earlier.len()] == d);
    }
}

/// Once a run has been told the truth about the directories on the way, it knows
/// where each wanted link leads, and permits by that.
pub proof fn permits_follow_from_where_links_lead(fs: Fs, stage: SurveyingView)
    requires
        is_real(fs, stage.config.formats_root),
        is_real(fs, stage.config.max_qual_root),
    ensures
        forall|i: int|
            0 <= i < links_wanted(stage.config, stage.found).len() ==> location(
                (#[trigger] links_wanted(stage.config, stage.found)[i]).dest,
                turns_among(dirs_asked(stage), told(fs, dirs_asked(stage))),
            ) == place_of(fs, links_wanted(stage.config, stage.found)[i].dest),
        after_survey(stage, told(fs, dirs_asked(stage))) matches RunView::Linking(next)
            && next.permits == permits_in(
            fs,
            stage.config,
            links_wanted(stage.config, stage.found),
        ),
{
    let f = stage.config.formats_root;
    let m = stage.config.max_qual_root;
    let of_formats = formats_wanted(stage.config, stage.found);
    let of_tracks = tracks_wanted(stage.config, stage.found);
    let links = links_wanted(stage.config, stage.found);
    let first = dirs_toward_all(f, of_formats);
    let second = dirs_toward_all(m, of_tracks);
    let dirs = dirs_asked(stage);
    assert forall|d: Components| #[trigger] dirs.contains(d) implies d.len() > 0 by {
        lemma_distinct_paths(first + second, d);
        lemma_in_either(first, second, d);
        if first.contains(d) {
            lemma_dirs_are_named(f, of_formats, d);
        } else {
            lemma_dirs_are_named(m, of_tracks, d);
        }
    }
    assert forall|i: int| 0 <= i < links.len() implies location(
        (#[trigger] links[i]).dest,
        turns_among(dirs, told(fs, dirs)),
    ) == place_of(fs, links[i].dest) by {
        let dest = links[i].dest;
        let root = if i < of_formats.len() {
            f
        } else {
            m
        };
        if i < of_formats.len() {
            format_link_stays_in_its_tree(f, stage.found.files[i]);
        } else {
            track_link_stays_in_its_tree(m, stage.found.tracks[i - of_formats.len()]);
        }
        assert forall|n: int| root.len() < n < dest.len() implies dirs.contains(
            #[trigger] dest.take(n),
        ) by {
            if i < of_formats.len() {
                lemma_dirs_toward(f, of_formats, i, n);
            } else {
                lemma_dirs_toward(m, of_tracks, i - of_formats.len(), n);
            }
            lemma_in_either(first, second, dest.take(n));
            lemma_distinct_paths(first + second, dest.take(n));
        }
        lemma_location(fs, root, dest, dirs);
    }
    let permits = after_survey(stage, told(fs, dirs))->Linking_0.permits;
    assert(permits =~= permits_in(fs, stage.config, links));
}

/// Symbolic links lead to the same place in two file systems that have the same
/// ones.
pub(crate) proof fn lemma_same_places(a: Fs, b: Fs, dir: Components)
    requires
        forall|p: Components|
            #![trigger a.contains_key(p)]
            #![trigger b.contains_key(p)]
            (a.contains_key(p) && a[p] is Link <==> b.contains_key(p) && b[p] is Link) && (
            a.contains_key(p) && a[p] is Link ==> a[p] == b[p]),
    ensures
        place_of_dir(a, dir) == place_of_dir(b, dir),
    decreases dir.len(),
{
    if dir.len() > 0 {
        lemma_same_places(a, b, dir.drop_last());
        let p = place_of_dir(a, dir.drop_last()).push(dir.last());
        assert(a.contains_key(p) || !a.contains_key(p));
    }
}

/// True when a step creates no other directory than that of the destination, writes
/// only where something may be written, and removes only where something may be
/// removed.
pub open spec fn is_step_for(link: LinkView, permit: Permit, step: LinkStepView) -> bool {
    match step {
        LinkStepView::Remove(_) => permit == Permit::Full,
        LinkStepView::Link(_) => permit != Permit::Nothing,
        LinkStepView::CreateParent(_, dir) => permit != Permit::Nothing && dir
            == link.dest.drop_last(),
        LinkStepView::Retry(_) => permit != Permit::Nothing,
        LinkStepView::Finished(_) => true,
        LinkStepView::Failed(_) => true,
    }
}

/// The steps for a link keep to what may be done for it, whatever is found and
/// whatever comes of them.
pub proof fn steps_keep_to_the_permit(link: LinkView, permit: Permit)
    ensures
        forall|found: Result<Option<FileMeta>, Seq<char>>, dry_run: bool|
            is_step_for(link, permit, #[trigger] step_after_stat(link, permit, found, dry_run)),
        forall|action: LinkAction, removed: Result<(), Seq<char>>|
            is_step_for(link, permit, LinkStepView::Remove(action)) ==> is_step_for(
                link,
                permit,
                #[trigger] step_after_remove(link, action, removed),
            ),
        forall|action: LinkAction, reply: LinkReplyView|
            is_step_for(link, permit, LinkStepView::Link(action)) ==> is_step_for(
                link,
                permit,
                #[trigger] step_after_link(link, action, reply),
            ),
        forall|action: LinkAction, dir: Components, created: Result<(), Seq<char>>|
            is_step_for(link, permit, LinkStepView::CreateParent(action, dir)) ==> is_step_for(
                link,
                permit,
                #[trigger] step_after_parent(action, dir, created),
            ),
        forall|action: LinkAction, linked: Result<(), Seq<char>>|
            is_step_for(link, permit, LinkStepView::Retry(action)) ==> is_step_for(
                link,
                permit,
                #[trigger] step_after_retry(link, action, linked),
            ),
{
}

/// A file system after one step for a link, where symbolic links on the way to the
/// paths that the step names are followed.
pub open spec fn acted(fs: Fs, link: LinkView, step: LinkStepView) -> Fs {
    let placed = LinkView { dest: place_of(fs, link.dest), ..link };
    let there = match step {
        LinkStepView::CreateParent(action, dir) => LinkStepView::CreateParent(
            action,
            place_of_dir(fs, dir),
        ),
        _ => step,
    };
    performed(fs, placed, there, seq![]).0
}

/// A file system after steps for links, one after the other, where symbolic links
/// are followed.
pub open spec fn acted_all(fs: Fs, acts: Seq<(LinkView, LinkStepView)>) -> Fs
    decreases acts.len(),
{
    if acts.len() == 0 {
        fs
    } else {
        acted(acted_all(fs, acts.drop_last()), acts.last().0, acts.last().1)
    }
}

/// True when every step keeps to what may be done for its link.
pub open spec fn are_permitted(
    fs: Fs,
    config: ConfigView,
    acts: Seq<(LinkView, LinkStepView)>,
) -> bool {
    forall|i: int|
        0 <= i < acts.len() ==> (#[trigger] acts[i]).0.dest.len() > 0 && is_step_for(
            acts[i].0,
            permit_in(fs, config, acts[i].0),
            acts[i].1,
        )
}

/// True when nothing is below a symbolic link.
pub open spec fn links_are_leaves(fs: Fs) -> bool {
    forall|l: Components, p: Components|
        #![trigger fs.contains_key(l), fs.contains_key(p)]
        fs.contains_key(l) && fs[l] is Link && fs.contains_key(p) ==> !strictly_under(p, l)
}

/// True of what lies strictly below an output root.
pub open spec fn is_output(config: ConfigView, p: Components) -> bool {
    strictly_under(p, config.formats_root) || strictly_under(p, config.max_qual_root)
}

/// True when both output roots have been created.
pub open spec fn roots_stand(fs: Fs, config: ConfigView) -> bool {
    forall|q: Components|
        q.len() > 0 && (q.is_prefix_of(config.formats_root) || q.is_prefix_of(
            config.max_qual_root,
        )) ==> #[trigger] fs.contains_key(q)
}

/// What steps for links leave of a file system: outside the output trees everything
/// that was there stays, and nothing is new in the source tree. Paths lead where
/// they led, or into an output tree.
pub open spec fn is_left_alone(fs: Fs, after: Fs, config: ConfigView) -> bool {
    &&& forall|p: Components| #[trigger]
        fs.contains_key(p) && !is_output(config, p) ==> after.contains_key(p) && after[p] == fs[p]
    &&& forall|p: Components| #[trigger]
        after.contains_key(p) && !is_output(config, p) && !fs.contains_key(p)
            ==> !config.source.is_prefix_of(p)
    &&& forall|d: Components|
        #![trigger place_of_dir(after, d)]
        place_of_dir(after, d) == place_of_dir(fs, d) || is_output(config, place_of_dir(after, d))
}

/// What is below something in an output tree is in it.
proof fn lemma_below_output(config: ConfigView, p: Components, q: Components)
    requires
        is_output(config, p),
        p.is_prefix_of(q),
    ensures
        is_output(config, q),
{
    let root = if strictly_under(p, config.formats_root) {
        config.formats_root
    } else {
        config.max_qual_root
    };
    lemma_longer(p, root);
    lemma_prefix_transitive(root, p, q);
}

/// Where a path leads once a symbolic link is gone: where it led, or to where the
/// symbolic link was.
proof fn lemma_place_without_link(fs: Fs, r: Components, dir: Components)
    requires
        links_are_leaves(fs),
        fs.contains_key(r),
        fs[r] is Link,
    ensures
        place_of_dir(fs.remove(r), dir) == place_of_dir(fs, dir) || r.is_prefix_of(
            place_of_dir(fs.remove(r), dir),
        ),
    decreases dir.len(),
{
    if dir.len() > 0 {
        let after = fs.remove(r);
        lemma_place_without_link(fs, r, dir.drop_last());
        let before = place_of_dir(after, dir.drop_last());
        let p = before.push(dir.last());
        if r.is_prefix_of(before) {
            assert(before =~= p.subrange(0, before.len() as int));
            lemma_prefix_transitive(r, before, p);
            assert(p.len() > r.len());
            assert(strictly_under(p, r));
            assert(!fs.contains_key(p));
        } else if p == r {
            assert(r =~= r.subrange(0, r.len() as int));
        }
    }
}

/// What one step for a link leaves alone.
proof fn lemma_step_leaves_alone(
    start: Fs,
    fs: Fs,
    config: ConfigView,
    link: LinkView,
    step: LinkStepView,
)
    requires
        is_left_alone(start, fs, config),
        links_are_leaves(fs),
        roots_stand(fs, config),
        link.dest.len() > 0,
        is_step_for(link, permit_in(start, config, link), step),
    ensures
        is_left_alone(start, acted(fs, link, step), config),
        links_are_leaves(acted(fs, link, step)),
{
    let after = acted(fs, link, step);
    let place = place_of(fs, link.dest);
    let dir = place_of_dir(fs, link.dest.drop_last());
    assert(place.drop_last() =~= dir);
    assert(dir =~= place.subrange(0, dir.len() as int));
    let permit = permit_in(start, config, link);
    if is_output(config, dir) {
        lemma_below_output(config, dir, place);
    }
    assert(permit == Permit::Full ==> is_output(config, place));
    assert(permit == Permit::Create ==> is_output(config, place) || !config.source.is_prefix_of(
        place,
    ));
    match step {
        LinkStepView::Remove(_) => {
            if fs.contains_key(place) && !is_dir(fs, place) {
                lemma_removal_leaves_alone(start, fs, config, place);
            }
        },
        LinkStepView::CreateParent(_, _) => {
            if way_is_clear(fs, dir) {
                lemma_new_dirs_leave_alone(start, fs, config, place, dir);
            }
        },
        LinkStepView::Link(_) | LinkStepView::Retry(_) => {
            let placed = LinkView { dest: place, ..link };
            if can_link(fs, placed) {
                lemma_new_file_leaves_alone(start, fs, config, placed);
            }
        },
        _ => {},
    }
}

proof fn lemma_removal_leaves_alone(start: Fs, fs: Fs, config: ConfigView, place: Components)
    requires
        is_left_alone(start, fs, config),
        links_are_leaves(fs),
        fs.contains_key(place),
        is_output(config, place),
    ensures
        is_left_alone(start, fs.remove(place), config),
        links_are_leaves(fs.remove(place)),
{
    let after = fs.remove(place);
    assert forall|d: Components|
        #![trigger place_of_dir(after, d)]
        place_of_dir(after, d) == place_of_dir(start, d) || is_output(
            config,
            place_of_dir(after, d),
        ) by {
        assert(place_of_dir(fs, d) == place_of_dir(start, d) || is_output(
            config,
            place_of_dir(fs, d),
        ));
        if fs[place] is Link {
            lemma_place_without_link(fs, place, d);
            if place.is_prefix_of(place_of_dir(after, d)) {
                lemma_below_output(config, place, place_of_dir(after, d));
            }
        } else {
            lemma_same_places(fs, after, d);
        }
    }
}

proof fn lemma_new_dirs_leave_alone(
    start: Fs,
    fs: Fs,
    config: ConfigView,
    place: Components,
    dir: Components,
)
    requires
        is_left_alone(start, fs, config),
        links_are_leaves(fs),
        roots_stand(fs, config),
        way_is_clear(fs, dir),
        dir.is_prefix_of(place),
        is_output(config, place) || !config.source.is_prefix_of(place),
    ensures
        is_left_alone(start, with_dirs(fs, dir), config),
        links_are_leaves(with_dirs(fs, dir)),
{
    let after = with_dirs(fs, dir);
    assert forall|p: Components| #[trigger]
        after.contains_key(p) && !is_output(config, p) && !start.contains_key(p) implies
        !config.source.is_prefix_of(p) by {
        if !fs.contains_key(p) {
            lemma_prefix_transitive(p, dir, place);
            if is_output(config, place) {
                let root = if strictly_under(place, config.formats_root) {
                    config.formats_root
                } else {
                    config.max_qual_root
                };
                if p.len() <= root.len() {
                    lemma_prefixes_nest(p, root, place);
                } else {
                    lemma_prefixes_nest(root, p, place);
                }
            } else if config.source.is_prefix_of(p) {
                lemma_prefix_transitive(config.source, p, place);
            }
        }
    }
    assert forall|d: Components|
        #![trigger place_of_dir(after, d)]
        place_of_dir(after, d) == place_of_dir(start, d) || is_output(
            config,
            place_of_dir(after, d),
        ) by {
        assert(place_of_dir(fs, d) == place_of_dir(start, d) || is_output(
            config,
            place_of_dir(fs, d),
        ));
        lemma_same_places(fs, after, d);
    }
    assert forall|l: Components, p: Components|
        #![trigger after.contains_key(l), after.contains_key(p)]
        after.contains_key(l) && after[l] is Link && after.contains_key(p) implies
        !strictly_under(p, l) by {
        assert(fs.contains_key(l));
        if !fs.contains_key(p) && strictly_under(p, l) {
            lemma_prefix_transitive(l, p, dir);
        }
    }
}

proof fn lemma_new_file_leaves_alone(start: Fs, fs: Fs, config: ConfigView, link: LinkView)
    requires
        is_left_alone(start, fs, config),
        links_are_leaves(fs),
        can_link(fs, link),
        link.dest.len() > 0,
        is_output(config, link.dest) || !config.source.is_prefix_of(link.dest),
    ensures
        is_left_alone(start, fs.insert(link.dest, Node::File(link.ino)), config),
        links_are_leaves(fs.insert(link.dest, Node::File(link.ino))),
{
    let dest = link.dest;
    let after = fs.insert(dest, Node::File(link.ino));
    assert forall|d: Components|
        #![trigger place_of_dir(after, d)]
        place_of_dir(after, d) == place_of_dir(start, d) || is_output(
            config,
            place_of_dir(after, d),
        ) by {
        assert(place_of_dir(fs, d) == place_of_dir(start, d) || is_output(
            config,
            place_of_dir(fs, d),
        ));
        lemma_same_places(fs, after, d);
    }
    assert forall|l: Components, p: Components|
        #![trigger after.contains_key(l), after.contains_key(p)]
        after.contains_key(l) && after[l] is Link && after.contains_key(p) implies
        !strictly_under(p, l) by {
        assert(fs.contains_key(l));
        if p == dest && strictly_under(p, l) {
            lemma_longer(p, l);
            let dir = dest.drop_last();
            assert(dir =~= dest.subrange(0, dir.len() as int));
            lemma_prefixes_nest(l, dir, dest);
            if l.len() == dir.len() {
                assert(l =~= dir.subrange(0, l.len() as int));
                assert(l =~= dir);
            } else {
                assert(strictly_under(dir, l));
                assert(fs.contains_key(dir));
            }
        }
    }
}

/// Whatever steps are taken for links, in whatever order and with whatever success,
/// and although symbolic links are followed: nothing changes in the source tree but
/// in an output tree that lies in it, and what lies outside the output trees is
/// neither removed nor replaced.
pub proof fn linking_leaves_the_source_alone(
    fs: Fs,
    config: ConfigView,
    acts: Seq<(LinkView, LinkStepView)>,
)
    requires
        links_are_leaves(fs),
        roots_stand(fs, config),
        !config.formats_root.is_prefix_of(config.max_qual_root),
        !config.max_qual_root.is_prefix_of(config.formats_root),
        are_permitted(fs, config, acts),
    ensures
        is_left_alone(fs, acted_all(fs, acts), config),
        links_are_leaves(acted_all(fs, acts)),
        roots_stand(acted_all(fs, acts), config),
    decreases acts.len(),
{
    if acts.len() > 0 {
        let some = acts.drop_last();
        let before = acted_all(fs, some);
        assert(are_permitted(fs, config, some)) by {
            assert forall|i: int| 0 <= i < some.len() implies some[i] == acts[i] by {}
        }
        linking_leaves_the_source_alone(fs, config, some);
        assert(acts[acts.len() - 1] == acts.last());
        lemma_step_leaves_alone(fs, before, config, acts.last().0, acts.last().1);
    }
    let after = acted_all(fs, acts);
    assert forall|q: Components|
        q.len() > 0 && (q.is_prefix_of(config.formats_root) || q.is_prefix_of(
            config.max_qual_root,
        )) implies #[trigger] after.contains_key(q) by {
        assert(fs.contains_key(q));
        lemma_not_between(q, config.formats_root, config.max_qual_root);
    }
}

/// What is above one of two roots that are apart, or is one, is below neither.
proof fn lemma_not_between(q: Components, f: Components, m: Components)
    requires
        !f.is_prefix_of(m),
        !m.is_prefix_of(f),
        q.is_prefix_of(f) || q.is_prefix_of(m),
    ensures
        !strictly_under(q, f),
        !strictly_under(q, m),
{
    if strictly_under(q, f) {
        lemma_longer(q, f);
        if q.is_prefix_of(m) {
            lemma_prefix_transitive(f, q, m);
        }
    }
    if strictly_under(q, m) {
        lemma_longer(q, m);
        if q.is_prefix_of(f) {
            lemma_prefix_transitive(m, q, f);
        }
    }
}

/// The directories of an output tree that are read, whose files and directories
/// are removed, are reached without symbolic links.
pub proof fn read_directories_are_real(fs: Fs, tree: TreeScanView, p: Components)
    requires
        is_real(fs, tree.root),
        is_tree(fs, tree.root),
        tree_is_faithful(fs, tree),
        tree.level.len() == 0,
        has_scan(tree.scans, p),
    ensures
        is_real(fs, p),
        place_of_dir(fs, p) == p,
{
    read_tree_scans_every_directory_once(fs, tree);
    assert forall|q: Components| #[trigger]
        fs.contains_key(q) && q.is_prefix_of(p) implies !(fs[q] is Link) by {
        if q.len() <= tree.root.len() {
            lemma_prefixes_nest(q, tree.root, p);
        } else if q != p {
            lemma_prefixes_nest(tree.root, q, p);
            lemma_prefix_is_dir(fs, tree.root, p, q);
        }
    }
    real_paths_lead_where_they_say(fs, p);
}

} // verus!
