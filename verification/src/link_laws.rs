//! What ensuring links does to a file system.

use vstd::prelude::*;

use crate::link::{
    action_for, allows, refusal_line, step_after_link, step_after_parent, step_after_remove,
    step_after_retry, step_after_stat, FileMeta, InodeRef, LinkAction, LinkReplyView, LinkStepView,
    LinkView, Permit,
};
use crate::model::{is_dir, lemma_prefix_transitive, way_is_clear, with_dirs, Fs, Node};
use crate::path::{root_component, strictly_under, Components};

verus! {

/// True when `found` tells what is at `path`.
pub open spec fn tells(fs: Fs, path: Components, found: Option<FileMeta>) -> bool {
    match found {
        None => !fs.contains_key(path),
        Some(meta) => {
            &&& fs.contains_key(path)
            &&& match fs[path] {
                Node::File(ino) => meta.is_file && ino == (InodeRef {
                    dev: meta.dev,
                    ino: meta.ino,
                }),
                _ => !meta.is_file,
            }
        },
    }
}

/// True when the system call that links `link.src` to `link.dest` succeeds.
pub open spec fn can_link(fs: Fs, link: LinkView) -> bool {
    &&& fs.contains_key(link.src)
    &&& fs[link.src] == Node::File(link.ino)
    &&& is_dir(fs, link.dest.drop_last())
    &&& !fs.contains_key(link.dest)
}

/// A file system after one step for a link, and the step that follows; `cause`
/// is the message of an operation that fails.
pub open spec fn performed(fs: Fs, link: LinkView, step: LinkStepView, cause: Seq<char>) -> (
    Fs,
    LinkStepView,
) {
    let made = fs.insert(link.dest, Node::File(link.ino));
    match step {
        LinkStepView::Remove(action) => if fs.contains_key(link.dest) && !is_dir(fs, link.dest) {
            (fs.remove(link.dest), step_after_remove(link, action, Ok(())))
        } else {
            (fs, step_after_remove(link, action, Err(cause)))
        },
        LinkStepView::Link(action) => if can_link(fs, link) {
            (made, step_after_link(link, action, LinkReplyView::Linked))
        } else if !fs.contains_key(link.src) || !fs.contains_key(link.dest.drop_last()) {
            (fs, step_after_link(link, action, LinkReplyView::NotFound(cause)))
        } else {
            (fs, step_after_link(link, action, LinkReplyView::Failed(cause)))
        },
        LinkStepView::CreateParent(action, dir) => if way_is_clear(fs, dir) {
            (with_dirs(fs, dir), step_after_parent(action, dir, Ok(())))
        } else {
            (fs, step_after_parent(action, dir, Err(cause)))
        },
        LinkStepView::Retry(action) => if can_link(fs, link) {
            (made, step_after_retry(link, action, Ok(())))
        } else {
            (fs, step_after_retry(link, action, Err(cause)))
        },
        LinkStepView::Finished(_) => (fs, step),
        LinkStepView::Failed(_) => (fs, step),
    }
}

/// A file system after up to `n` steps for a link, and the step that follows.
pub open spec fn performed_steps(
    fs: Fs,
    link: LinkView,
    step: LinkStepView,
    cause: Seq<char>,
    n: nat,
) -> (Fs, LinkStepView)
    decreases n,
{
    if n == 0 {
        (fs, step)
    } else {
        let (next_fs, next_step) = performed(fs, link, step, cause);
        performed_steps(next_fs, link, next_step, cause, (n - 1) as nat)
    }
}

/// True when nothing is in the way of a link: its source is there, and its
/// destination is no directory and not the source, lies in a proper directory,
/// and has nothing but directories above it.
pub open spec fn link_fits(fs: Fs, link: LinkView) -> bool {
    &&& fs.contains_key(link.src)
    &&& fs[link.src] == Node::File(link.ino)
    &&& link.dest != link.src
    &&& link.dest.len() > 1
    &&& link.dest.last() != root_component()
    &&& !is_dir(fs, link.dest)
    &&& way_is_clear(fs, link.dest.drop_last())
}

/// A file system once a link has been ensured.
pub open spec fn ensured(fs: Fs, link: LinkView) -> Fs {
    if fs.contains_key(link.dest) && fs[link.dest] == Node::File(link.ino) {
        fs
    } else if is_dir(fs, link.dest.drop_last()) {
        fs.insert(link.dest, Node::File(link.ino))
    } else {
        with_dirs(fs, link.dest.drop_last()).insert(link.dest, Node::File(link.ino))
    }
}

/// Ensuring a permitted link that nothing is in the way of makes the destination the
/// source file, creates the directories above it that are missing, and changes
/// nothing else. What is reported is what the destination called for.
pub proof fn ensuring_a_link_makes_it(
    fs: Fs,
    link: LinkView,
    permit: Permit,
    found: Option<FileMeta>,
    cause: Seq<char>,
)
    requires
        link_fits(fs, link),
        tells(fs, link.dest, found),
        allows(permit, action_for(link.ino, found)),
    ensures
        performed_steps(fs, link, step_after_stat(link, permit, Ok(found), false), cause, 4) == (
            ensured(fs, link),
            LinkStepView::Finished(action_for(link.ino, found)),
        ),
{
    reveal_with_fuel(performed_steps, 5);
    let dest = link.dest;
    let dir = dest.drop_last();
    let bare = fs.remove(dest);
    assert(dir.is_prefix_of(dir)) by {
        assert(dir =~= dir.subrange(0, dir.len() as int));
    }
    assert(!dest.is_prefix_of(dir));
    assert(way_is_clear(bare, dir));
    let opened = with_dirs(bare, dir);
    assert(is_dir(opened, dir));
    assert(!opened.contains_key(dest));
    assert(can_link(opened, link));
    assert(opened.insert(dest, Node::File(link.ino)) =~= with_dirs(fs, dir).insert(
        dest,
        Node::File(link.ino),
    ));
    assert(bare.insert(dest, Node::File(link.ino)) =~= fs.insert(dest, Node::File(link.ino)));
    if !fs.contains_key(dest) {
        assert(bare =~= fs);
    }
}

/// What a link calls for.
pub open spec fn action_in(fs: Fs, link: LinkView) -> LinkAction {
    if !fs.contains_key(link.dest) {
        LinkAction::Created
    } else if fs[link.dest] == Node::File(link.ino) {
        LinkAction::UpToDate
    } else {
        LinkAction::Replaced
    }
}

/// The action that looking at the destination leads to is the one that the link
/// calls for.
pub proof fn action_follows_the_destination(fs: Fs, link: LinkView, found: Option<FileMeta>)
    requires
        tells(fs, link.dest, found),
    ensures
        action_for(link.ino, found) == action_in(fs, link),
{
}

/// In a dry run nothing is done for a link, whatever is at the destination, and
/// what is reported is what the link calls for, or that it is refused.
pub proof fn dry_run_links_nothing(
    fs: Fs,
    link: LinkView,
    permit: Permit,
    found: Option<FileMeta>,
)
    requires
        tells(fs, link.dest, found),
    ensures
        step_after_stat(link, permit, Ok(found), true) == (if allows(
            permit,
            action_in(fs, link),
        ) {
            LinkStepView::Finished(action_in(fs, link))
        } else {
            LinkStepView::Failed(refusal_line(link, permit))
        }),
{
}

/// A file system once all links have been ensured.
pub open spec fn ensured_all(fs: Fs, links: Seq<LinkView>) -> Fs
    decreases links.len(),
{
    if links.len() == 0 {
        fs
    } else {
        ensured(ensured_all(fs, links.drop_last()), links.last())
    }
}

/// True when `p` is where one of the links stands.
pub open spec fn is_dest(links: Seq<LinkView>, p: Components) -> bool {
    exists|i: int| 0 <= i < links.len() && (#[trigger] links[i]).dest == p
}

/// True when `p` is a directory above one of the links.
pub open spec fn is_above_dest(links: Seq<LinkView>, p: Components) -> bool {
    exists|i: int|
        0 <= i < links.len() && p.len() > 0 && strictly_under((#[trigger] links[i]).dest, p)
}

/// True when links do not get in each other's way: no destination is, or lies
/// below, another one, and none is a source.
pub open spec fn links_agree(links: Seq<LinkView>) -> bool {
    &&& forall|i: int, j: int|
        0 <= i < links.len() && 0 <= j < links.len() && i != j ==> !(
        #[trigger] links[i]).dest.is_prefix_of((#[trigger] links[j]).dest)
    &&& forall|i: int, j: int|
        0 <= i < links.len() && 0 <= j < links.len() ==> (#[trigger] links[i]).dest != (
        #[trigger] links[j]).src
}

/// True when nothing is in the way of any of the links.
pub open spec fn links_fit(fs: Fs, links: Seq<LinkView>) -> bool {
    &&& links_agree(links)
    &&& forall|i: int| 0 <= i < links.len() ==> link_fits(fs, #[trigger] links[i])
}

/// What ensuring links leaves of a file system: every link stands, what was
/// there stays but for the destinations, and nothing new is there but the links
/// and directories above them.
pub open spec fn has_links(fs: Fs, after: Fs, links: Seq<LinkView>) -> bool {
    &&& forall|i: int|
        0 <= i < links.len() ==> after.contains_key((#[trigger] links[i]).dest)
            && after[links[i].dest] == Node::File(links[i].ino)
    &&& forall|p: Components| #[trigger]
        fs.contains_key(p) && !is_dest(links, p) ==> after.contains_key(p) && after[p] == fs[p]
    &&& forall|p: Components| #[trigger]
        after.contains_key(p) && !fs.contains_key(p) && !is_dest(links, p) ==> after[p] == Node::Dir
            && is_above_dest(links, p)
}

proof fn lemma_fewer_links(links: Seq<LinkView>)
    requires
        links.len() > 0,
    ensures
        forall|p: Components| #[trigger]
            is_dest(links, p) <==> is_dest(links.drop_last(), p) || p == links.last().dest,
        forall|p: Components| #[trigger]
            is_above_dest(links.drop_last(), p) ==> is_above_dest(links, p),
{
    let before = links.drop_last();
    let n = links.len() - 1;
    assert(links[n] == links.last());
    assert forall|p: Components| #[trigger] is_dest(links, p) <==> is_dest(before, p) || p
        == links.last().dest by {
        if is_dest(before, p) {
            let i = choose|i: int| 0 <= i < before.len() && (#[trigger] before[i]).dest == p;
            assert(links[i].dest == p);
        }
        if is_dest(links, p) && p != links.last().dest {
            let i = choose|i: int| 0 <= i < links.len() && (#[trigger] links[i]).dest == p;
            assert(before[i].dest == p);
        }
    }
    assert forall|p: Components| #[trigger] is_above_dest(before, p) implies is_above_dest(
        links,
        p,
    ) by {
        let i = choose|i: int|
            0 <= i < before.len() && p.len() > 0 && strictly_under((#[trigger] before[i]).dest, p);
        assert(strictly_under(links[i].dest, p));
    }
}

/// What the links before it leave for the last one.
pub(crate) proof fn lemma_last_link_fits(fs: Fs, links: Seq<LinkView>)
    requires
        links.len() > 0,
        links_fit(fs, links),
        has_links(fs, ensured_all(fs, links.drop_last()), links.drop_last()),
    ensures
        link_fits(ensured_all(fs, links.drop_last()), links.last()),
        action_in(ensured_all(fs, links.drop_last()), links.last()) == action_in(fs, links.last()),
{
    let before = links.drop_last();
    let n = links.len() - 1;
    let link = links[n];
    let now = ensured_all(fs, before);
    lemma_fewer_links(links);
    assert(link == links.last());
    assert(link_fits(fs, links[n]));
    if is_dest(before, link.src) {
        let i = choose|i: int| 0 <= i < before.len() && (#[trigger] before[i]).dest == link.src;
        assert(links[i].dest != links[n].src);
    }
    assert(link.dest =~= link.dest.subrange(0, link.dest.len() as int));
    if is_dest(before, link.dest) {
        let i = choose|i: int| 0 <= i < before.len() && (#[trigger] before[i]).dest == link.dest;
        assert(!links[i].dest.is_prefix_of(links[n].dest));
    }
    if is_above_dest(before, link.dest) {
        let i = choose|i: int|
            0 <= i < before.len() && link.dest.len() > 0 && strictly_under(
                (#[trigger] before[i]).dest,
                link.dest,
            );
        assert(!links[n].dest.is_prefix_of(links[i].dest));
    }
    let dir = link.dest.drop_last();
    assert forall|q: Components| #[trigger]
        now.contains_key(q) && q.is_prefix_of(dir) implies now[q] == Node::Dir by {
        assert(dir.is_prefix_of(link.dest)) by {
            assert(dir =~= link.dest.subrange(0, dir.len() as int));
        }
        lemma_prefix_transitive(q, dir, link.dest);
        if is_dest(before, q) {
            let i = choose|i: int| 0 <= i < before.len() && (#[trigger] before[i]).dest == q;
            assert(!links[i].dest.is_prefix_of(links[n].dest));
        } else if fs.contains_key(q) {
            assert(fs[q] == Node::Dir);
        }
    }
}

/// Ensuring links that nothing is in the way of makes them all, creates the
/// directories above them that are missing, and changes nothing else.
pub proof fn ensuring_links_makes_them_all(fs: Fs, links: Seq<LinkView>)
    requires
        links_fit(fs, links),
    ensures
        has_links(fs, ensured_all(fs, links), links),
    decreases links.len(),
{
    if links.len() > 0 {
        let before = links.drop_last();
        let n = links.len() - 1;
        let link = links[n];
        assert forall|i: int| 0 <= i < before.len() implies before[i] == links[i] by {}
        assert(links_fit(fs, before)) by {
            assert forall|i: int| 0 <= i < before.len() implies link_fits(
                fs,
                #[trigger] before[i],
            ) by {
                assert(link_fits(fs, links[i]));
            }
        }
        ensuring_links_makes_them_all(fs, before);
        lemma_last_link_fits(fs, links);
        lemma_fewer_links(links);
        let now = ensured_all(fs, before);
        let after = ensured_all(fs, links);
        let dir = link.dest.drop_last();
        assert(after == ensured(now, link));
        assert forall|p: Components| p.is_prefix_of(dir) implies strictly_under(link.dest, p) by {
            assert(dir =~= link.dest.subrange(0, dir.len() as int));
            lemma_prefix_transitive(p, dir, link.dest);
        }
        assert forall|i: int| 0 <= i < links.len() implies after.contains_key(
            (#[trigger] links[i]).dest,
        ) && after[links[i].dest] == Node::File(links[i].ino) by {
            if i < n {
                assert(before[i] == links[i]);
                assert(!links[i].dest.is_prefix_of(links[n].dest));
                assert(links[n].dest =~= links[n].dest.subrange(0, links[n].dest.len() as int));
            }
        }
        assert forall|p: Components| #[trigger]
            fs.contains_key(p) && !is_dest(links, p) implies after.contains_key(p) && after[p]
            == fs[p] by {
            assert(now.contains_key(p));
        }
        assert forall|p: Components| #[trigger]
            after.contains_key(p) && !fs.contains_key(p) && !is_dest(links, p) implies after[p]
            == Node::Dir && is_above_dest(links, p) by {
            if !now.contains_key(p) {
                assert(strictly_under(links[n].dest, p));
            }
        }
    }
}

/// Links that stand are left alone.
pub proof fn standing_links_are_left_alone(fs: Fs, links: Seq<LinkView>)
    requires
        forall|i: int|
            0 <= i < links.len() ==> fs.contains_key((#[trigger] links[i]).dest)
                && fs[links[i].dest] == Node::File(links[i].ino),
    ensures
        ensured_all(fs, links) == fs,
        forall|i: int|
            0 <= i < links.len() ==> action_in(fs, #[trigger] links[i]) == LinkAction::UpToDate,
    decreases links.len(),
{
    if links.len() > 0 {
        let before = links.drop_last();
        assert forall|i: int| 0 <= i < before.len() implies fs.contains_key(
            (#[trigger] before[i]).dest,
        ) && fs[before[i].dest] == Node::File(before[i].ino) by {
            assert(before[i] == links[i]);
        }
        standing_links_are_left_alone(fs, before);
        assert(links[links.len() - 1] == links.last());
    }
}

} // verus!
