//! Where links lead through symbolic links, and what may be done there.

use vstd::prelude::*;

use crate::link::{LinkView, Permit};
use crate::path::Components;
use crate::path_set::distinct_paths;
use crate::survey::{
    deepest_turn, dirs_on_the_way, dirs_toward, dirs_toward_all, location, permit_at, permits_by,
    turns_among, TurnView, WayView,
};

verus! {

/// Anything may be done strictly below an output root. Elsewhere nothing may be
/// done in the source tree, and outside it nothing removed.
pub proof fn permit_depends_on_the_tree(
    source: Components,
    formats_root: Components,
    max_qual_root: Components,
    place: Components,
)
    ensures
        ({
            let permit = permit_at(source, formats_root, max_qual_root, place);
            let in_output = (formats_root.is_prefix_of(place) && formats_root != place) || (
            max_qual_root.is_prefix_of(place) && max_qual_root != place);
            &&& permit == Permit::Full <==> in_output
            &&& permit == Permit::Nothing <==> !in_output && source.is_prefix_of(place)
            &&& permit == Permit::Create <==> !in_output && !source.is_prefix_of(place)
        }),
{
}

/// Each link has the permit of the place that it leads to.
pub proof fn each_link_has_its_own_permit(
    source: Components,
    formats_root: Components,
    max_qual_root: Components,
    links: Seq<LinkView>,
    turns: Seq<TurnView>,
    i: int,
)
    ensures
        permits_by(source, formats_root, max_qual_root, links, turns).len() == links.len(),
        0 <= i < links.len() ==> permits_by(source, formats_root, max_qual_root, links, turns)[i]
            == permit_at(source, formats_root, max_qual_root, location(links[i].dest, turns)),
{
}

/// True when a symbolic link is on the way to a destination.
pub open spec fn is_on_the_way(turn: TurnView, dest: Components) -> bool {
    turn.dir.is_prefix_of(dest) && turn.dir.len() < dest.len()
}

/// A destination without a symbolic link on its way leads to itself. Otherwise it
/// leads below where the deepest one leads, with the rest of its path.
pub proof fn destination_leads_through_its_deepest_turn(dest: Components, turns: Seq<TurnView>)
    ensures
        (forall|i: int| 0 <= i < turns.len() ==> !is_on_the_way(#[trigger] turns[i], dest))
            ==> location(dest, turns) == dest,
        (exists|i: int| 0 <= i < turns.len() && is_on_the_way(#[trigger] turns[i], dest))
            ==> exists|i: int|
            {
                &&& 0 <= i < turns.len()
                &&& is_on_the_way(#[trigger] turns[i], dest)
                &&& location(dest, turns) == turns[i].target + dest.skip(turns[i].dir.len() as int)
                &&& forall|j: int|
                    0 <= j < turns.len() && is_on_the_way(#[trigger] turns[j], dest)
                        ==> turns[j].dir.len() <= turns[i].dir.len()
            },
{
    lemma_deepest_turn(dest, turns);
}

proof fn lemma_deepest_turn(dest: Components, turns: Seq<TurnView>)
    ensures
        match deepest_turn(dest, turns) {
            None => forall|i: int|
                0 <= i < turns.len() ==> !is_on_the_way(#[trigger] turns[i], dest),
            Some(turn) => {
                &&& is_on_the_way(turn, dest)
                &&& exists|i: int| 0 <= i < turns.len() && #[trigger] turns[i] == turn
                &&& forall|j: int|
                    0 <= j < turns.len() && is_on_the_way(#[trigger] turns[j], dest)
                        ==> turns[j].dir.len() <= turn.dir.len()
            },
        },
    decreases turns.len(),
{
    if turns.len() > 0 {
        let before = turns.drop_last();
        let last = turns.last();
        lemma_deepest_turn(dest, before);
        assert forall|i: int| 0 <= i < before.len() implies #[trigger] turns[i] == before[i] by {}
        assert(turns[turns.len() - 1] == last);
        if last.dir.is_prefix_of(dest) && last.dir != dest {
            if last.dir.len() == dest.len() {
                assert(last.dir =~= dest);
            }
            assert(is_on_the_way(last, dest));
        }
        match deepest_turn(dest, before) {
            None => {},
            Some(turn) => {
                let i = choose|i: int| 0 <= i < before.len() && #[trigger] before[i] == turn;
                assert(turns[i] == turn);
            },
        }
    }
}

/// The directories asked about for a link are all those strictly between its root
/// and itself, from the root on.
pub proof fn all_directories_toward_a_link_are_asked_about(
    root: Components,
    dest: Components,
    p: Components,
)
    ensures
        dirs_toward(root, dest).contains(p) <==> p.is_prefix_of(dest) && root.len() < p.len()
            < dest.len(),
        forall|i: int|
            0 <= i < dirs_toward(root, dest).len() ==> (#[trigger] dirs_toward(root, dest)[i]).len()
                == root.len() + 1 + i,
{
    let dirs = dirs_toward(root, dest);
    if p.is_prefix_of(dest) && root.len() < p.len() < dest.len() {
        let i: int = p.len() - root.len() - 1;
        assert(dirs[i] =~= p);
    }
    if dirs.contains(p) {
        let i = choose|i: int| 0 <= i < dirs.len() && dirs[i] == p;
        assert(p =~= dest.subrange(0, p.len() as int));
    }
}

/// The directories of all links are gathered link by link, and each is asked about
/// once, for the per-format trees first.
pub proof fn each_directory_is_asked_about_once(
    formats_root: Components,
    of_formats: Seq<LinkView>,
    max_qual_root: Components,
    of_tracks: Seq<LinkView>,
    last: LinkView,
)
    ensures
        dirs_toward_all(formats_root, seq![]) == Seq::<Components>::empty(),
        dirs_toward_all(formats_root, of_formats.push(last)) == dirs_toward_all(
            formats_root,
            of_formats,
        ) + dirs_toward(formats_root, last.dest),
        dirs_on_the_way(formats_root, of_formats, max_qual_root, of_tracks) == distinct_paths(
            dirs_toward_all(formats_root, of_formats) + dirs_toward_all(max_qual_root, of_tracks),
        ),
{
    assert(of_formats.push(last).drop_last() =~= of_formats);
}

/// A directory that is a symbolic link is a turn, with where it leads; any other
/// directory is none.
pub proof fn symbolic_links_are_the_turns(
    dirs: Seq<Components>,
    replies: Seq<WayView>,
    dir: Components,
    target: Components,
)
    requires
        dirs.len() == replies.len(),
    ensures
        turns_among(seq![], seq![]) == Seq::<TurnView>::empty(),
        turns_among(dirs.push(dir), replies.push(WayView::Open)) == turns_among(dirs, replies),
        turns_among(dirs.push(dir), replies.push(WayView::Link(target))) == turns_among(
            dirs,
            replies,
        ).push(TurnView { dir, target }),
{
    assert(dirs.push(dir).drop_last() =~= dirs);
    assert(replies.push(WayView::Open).drop_last() =~= replies);
    assert(replies.push(WayView::Link(target)).drop_last() =~= replies);
}

} // verus!
