//! Symbolic links on the way to wanted links.
//!
//! A directory of an output tree that is a symbolic link leads a link elsewhere. So
//! each directory between an output root and a wanted link is asked about first, and
//! where the link leads decides what may be done for it: nothing is written in the
//! source tree, and nothing is removed outside the output trees.

use vstd::prelude::*;

use crate::link::{link_views, Link, LinkView, Permit};
use crate::path::{path_views, strictly_under, Components, TreePath};
use crate::path_set::{distinct_paths, PathIndex};

verus! {

/// What asking about a directory on the way to a link told.
#[derive(Debug)]
pub enum WayReply {
    /// It is no symbolic link to a directory, or that could not be found out.
    Open,
    /// It is a symbolic link to this directory.
    Link(TreePath),
}

/// The contents of a [`WayReply`].
pub enum WayView {
    Open,
    Link(Components),
}

impl View for WayReply {
    type V = WayView;

    open spec fn view(&self) -> WayView {
        match *self {
            WayReply::Open => WayView::Open,
            WayReply::Link(target) => WayView::Link(target@),
        }
    }
}

/// The contents of each reply in a list.
pub open spec fn way_views(replies: Seq<WayReply>) -> Seq<WayView> {
    Seq::new(replies.len(), |i: int| replies[i]@)
}

/// The directories strictly below `root` and strictly above `dest`, from the root
/// on.
pub open spec fn dirs_toward(root: Components, dest: Components) -> Seq<Components> {
    if dest.len() <= root.len() + 1 {
        seq![]
    } else {
        Seq::new((dest.len() - root.len() - 1) as nat, |i: int| dest.take(root.len() + 1 + i))
    }
}

/// The directories strictly below `root` and strictly above some link, for each
/// link in order.
pub open spec fn dirs_toward_all(root: Components, links: Seq<LinkView>) -> Seq<Components>
    decreases links.len(),
{
    if links.len() == 0 {
        seq![]
    } else {
        dirs_toward_all(root, links.drop_last()) + dirs_toward(root, links.last().dest)
    }
}

/// A directory that is a symbolic link.
#[derive(Debug)]
pub struct Turn {
    /// The directory.
    pub dir: TreePath,
    /// The directory that it leads to.
    pub target: TreePath,
}

/// The contents of a [`Turn`].
pub struct TurnView {
    pub dir: Components,
    pub target: Components,
}

impl View for Turn {
    type V = TurnView;

    open spec fn view(&self) -> TurnView {
        TurnView { dir: self.dir@, target: self.target@ }
    }
}

/// The contents of each turn in a list.
pub open spec fn turn_views(turns: Seq<Turn>) -> Seq<TurnView> {
    Seq::new(turns.len(), |i: int| turns[i]@)
}

/// The symbolic links among directories, in order.
pub open spec fn turns_among(dirs: Seq<Components>, replies: Seq<WayView>) -> Seq<TurnView>
    decreases dirs.len(),
{
    if dirs.len() == 0 {
        seq![]
    } else {
        let before = turns_among(dirs.drop_last(), replies.drop_last());
        match replies.last() {
            WayView::Open => before,
            WayView::Link(target) => before.push(TurnView { dir: dirs.last(), target }),
        }
    }
}

/// The deepest symbolic link on the way to `dest`, if any.
pub open spec fn deepest_turn(dest: Components, turns: Seq<TurnView>) -> Option<TurnView>
    decreases turns.len(),
{
    if turns.len() == 0 {
        None
    } else {
        let before = deepest_turn(dest, turns.drop_last());
        let turn = turns.last();
        if strictly_under(dest, turn.dir) && (before matches Some(other) ==> other.dir.len()
            < turn.dir.len()) {
            Some(turn)
        } else {
            before
        }
    }
}

/// Where `dest` leads: from where the deepest symbolic link on its way leads, the
/// rest of it.
pub open spec fn location(dest: Components, turns: Seq<TurnView>) -> Components {
    match deepest_turn(dest, turns) {
        Some(turn) => turn.target + dest.skip(turn.dir.len() as int),
        None => dest,
    }
}

/// What may be done at a place: anything in an output tree, nothing in the source
/// tree, and no removal elsewhere.
pub open spec fn permit_at(
    source: Components,
    formats_root: Components,
    max_qual_root: Components,
    place: Components,
) -> Permit {
    if strictly_under(place, formats_root) || strictly_under(place, max_qual_root) {
        Permit::Full
    } else if source.is_prefix_of(place) {
        Permit::Nothing
    } else {
        Permit::Create
    }
}

/// What may be done for each link.
pub open spec fn permits_by(
    source: Components,
    formats_root: Components,
    max_qual_root: Components,
    links: Seq<LinkView>,
    turns: Seq<TurnView>,
) -> Seq<Permit> {
    Seq::new(
        links.len(),
        |i: int|
            permit_at(source, formats_root, max_qual_root, location(links[i].dest, turns)),
    )
}

/// Adds the directories on the way to links, where they are not there already.
fn with_dirs_toward(index: PathIndex, root: &TreePath, links: &Vec<Link>, Ghost(before): Ghost<
    Seq<Components>,
>) -> (result: PathIndex)
    requires
        index@ == distinct_paths(before),
    ensures
        result@ == distinct_paths(before + dirs_toward_all(root@, link_views(links@))),
{
    let mut index = index;
    let ghost all = link_views(links@);
    let start = root.depth();
    let mut i: usize = 0;
    assert(all.take(0) =~= seq![]);
    assert(before + dirs_toward_all(root@, all.take(0)) =~= before);
    while i < links.len()
        invariant
            i <= links@.len(),
            start == root@.len(),
            all == link_views(links@),
            index@ == distinct_paths(before + dirs_toward_all(root@, all.take(i as int))),
        decreases links.len() - i,
    {
        let dest = &links[i].dest;
        let depth = dest.depth();
        let ghost earlier = before + dirs_toward_all(root@, all.take(i as int));
        let ghost dirs = dirs_toward(root@, dest@);
        if start < depth {
            let mut n: usize = start + 1;
            assert(earlier + dirs.take(0) =~= earlier);
            while n < depth
                invariant
                    start == root@.len(),
                    start < n <= depth == dest@.len(),
                    dirs == dirs_toward(root@, dest@),
                    index@ == distinct_paths(earlier + dirs.take(n - start - 1)),
                decreases depth - n,
            {
                proof {
                    let k = n - start - 1;
                    assert(dirs[k] == dest@.take(n as int));
                    assert(earlier + dirs.take(k + 1) =~= (earlier + dirs.take(k)).push(dirs[k]));
                    assert((earlier + dirs.take(k)).push(dirs[k]).drop_last() =~= earlier
                        + dirs.take(k));
                }
                index = index.with(dest.front(n));
                n = n + 1;
            }
            assert(dirs.take(n - start - 1) =~= dirs);
        } else {
            assert(earlier + dirs =~= earlier);
        }
        proof {
            assert(all.take(i + 1).drop_last() =~= all.take(i as int));
            assert(all.take(i + 1).last().dest == dest@);
            assert(earlier + dirs =~= before + (dirs_toward_all(root@, all.take(i as int)) + dirs));
        }
        i = i + 1;
    }
    assert(all.take(i as int) =~= all);
    index
}

/// The directories between the output roots and the wanted links, each once.
pub open spec fn dirs_on_the_way(
    formats_root: Components,
    of_formats: Seq<LinkView>,
    max_qual_root: Components,
    of_tracks: Seq<LinkView>,
) -> Seq<Components> {
    distinct_paths(
        dirs_toward_all(formats_root, of_formats) + dirs_toward_all(max_qual_root, of_tracks),
    )
}

/// Lists the directories between the output roots and the wanted links, each
/// once.
pub fn dirs_to_survey(
    formats_root: &TreePath,
    of_formats: &Vec<Link>,
    max_qual_root: &TreePath,
    of_tracks: &Vec<Link>,
) -> (dirs: Vec<TreePath>)
    ensures
        path_views(dirs@) == dirs_on_the_way(
            formats_root@,
            link_views(of_formats@),
            max_qual_root@,
            link_views(of_tracks@),
        ),
{
    let index = PathIndex::empty();
    let ghost none = Seq::<Components>::empty();
    let ghost first = dirs_toward_all(formats_root@, link_views(of_formats@));
    assert(index@ =~= distinct_paths(none));
    let index = with_dirs_toward(index, formats_root, of_formats, Ghost(none));
    assert(none + first =~= first);
    let index = with_dirs_toward(index, max_qual_root, of_tracks, Ghost(first));
    index.into_paths()
}

/// Lists the symbolic links among directories.
pub fn find_turns(dirs: &Vec<TreePath>, replies: Vec<WayReply>) -> (turns: Vec<Turn>)
    requires
        replies@.len() == dirs@.len(),
    ensures
        turn_views(turns@) == turns_among(path_views(dirs@), way_views(replies@)),
{
    let mut turns: Vec<Turn> = Vec::new();
    let ghost all = path_views(dirs@);
    let ghost told = way_views(replies@);
    let count = dirs.len();
    let mut i: usize = 0;
    assert(all.take(0) =~= seq![]);
    assert(turn_views(turns@) =~= turns_among(all.take(0), told.take(0)));
    for reply in it: replies
        invariant
            it.seq() == replies@,
            i == it.index(),
            count == dirs@.len() == replies@.len(),
            all == path_views(dirs@),
            told == way_views(replies@),
            turn_views(turns@) == turns_among(all.take(i as int), told.take(i as int)),
    {
        proof {
            assert(all.take(i + 1).drop_last() =~= all.take(i as int));
            assert(told.take(i + 1).drop_last() =~= told.take(i as int));
            assert(all.take(i + 1).last() == dirs@[i as int]@);
            assert(told.take(i + 1).last() == reply@);
        }
        let ghost before = turns@;
        match reply {
            WayReply::Open => {},
            WayReply::Link(target) => {
                turns.push(Turn { dir: dirs[i].clone(), target });
                assert(turn_views(turns@) =~= turn_views(before).push(turns@.last()@));
            },
        }
        i = i + 1;
    }
    assert(all.take(i as int) =~= all);
    assert(told.take(i as int) =~= told);
    turns
}

/// Finds where a destination leads.
fn locate(dest: &TreePath, turns: &Vec<Turn>) -> (place: TreePath)
    ensures
        place@ == location(dest@, turn_views(turns@)),
{
    let ghost all = turn_views(turns@);
    let mut deepest: Option<usize> = None;
    let mut i: usize = 0;
    assert(all.take(0) =~= seq![]);
    while i < turns.len()
        invariant
            i <= turns@.len(),
            all == turn_views(turns@),
            match deepest {
                Some(k) => k < i && deepest_turn(dest@, all.take(i as int)) == Some(all[k as int])
                    && strictly_under(dest@, all[k as int].dir),
                None => deepest_turn(dest@, all.take(i as int)) is None,
            },
        decreases turns.len() - i,
    {
        assert(all.take(i + 1).drop_last() =~= all.take(i as int));
        assert(all.take(i + 1).last() == turns@[i as int]@);
        let turn = &turns[i];
        if dest.starts_with(&turn.dir) && !dest.same(&turn.dir) {
            let deeper = match deepest {
                Some(k) => turns[k].dir.depth() < turn.dir.depth(),
                None => true,
            };
            if deeper {
                deepest = Some(i);
            }
        }
        i = i + 1;
    }
    assert(all.take(i as int) =~= all);
    match deepest {
        Some(k) => match dest.strip_prefix(&turns[k].dir) {
            Some(rest) => turns[k].target.append(&rest),
            None => dest.clone(),
        },
        None => dest.clone(),
    }
}

/// Decides what may be done for each link.
pub fn permit_links(
    source: &TreePath,
    formats_root: &TreePath,
    max_qual_root: &TreePath,
    links: &Vec<Link>,
    turns: &Vec<Turn>,
) -> (permits: Vec<Permit>)
    ensures
        permits@ == permits_by(
            source@,
            formats_root@,
            max_qual_root@,
            link_views(links@),
            turn_views(turns@),
        ),
{
    let mut permits: Vec<Permit> = Vec::new();
    let ghost all = permits_by(
        source@,
        formats_root@,
        max_qual_root@,
        link_views(links@),
        turn_views(turns@),
    );
    let mut i: usize = 0;
    while i < links.len()
        invariant
            i <= links@.len(),
            all == permits_by(
                source@,
                formats_root@,
                max_qual_root@,
                link_views(links@),
                turn_views(turns@),
            ),
            permits@ == all.take(i as int),
        decreases links.len() - i,
    {
        let place = locate(&links[i].dest, turns);
        let permit = if (place.starts_with(formats_root) && !place.same(formats_root)) || (
        place.starts_with(max_qual_root) && !place.same(max_qual_root)) {
            Permit::Full
        } else if place.starts_with(source) {
            Permit::Nothing
        } else {
            Permit::Create
        };
        assert(permit == all[i as int]);
        permits.push(permit);
        assert(all.take(i + 1) =~= all.take(i as int).push(all[i as int]));
        i = i + 1;
    }
    assert(all.take(i as int) =~= all);
    permits
}

} // verus!
