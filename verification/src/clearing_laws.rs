//! What becomes of each entry of an output tree, and of each attempt to remove
//! one, whatever the disk answers.

use vstd::prelude::*;
use vstd::utf8::*;

use crate::clean::{
    read_level, removal_failures, removed_count, scanned, scanned_all, subdirs_of, unread_tree,
    unremoved, unwanted_in, DirScanView, TreeScanView,
};
use crate::path::{shown_path, strictly_under, Components};
use crate::prune::{
    at_depth, attempted, deepest_first, from_depth, fully_pruned, max_depth, pruned_paths,
    pruning_start, seek, staying, unpruned, PruneView,
};
use crate::prune_laws::pruning_order_is_deepest_first;
use crate::walk::{Kind, ListedView, ListingView};

verus! {

/// A directory without entries gives a scan that keeps nothing, reads nothing on
/// and removes nothing.
pub proof fn empty_directory_holds_nothing(dir: Components, keep: Set<Components>)
    ensures
        scanned(dir, Ok(seq![]), keep) matches Ok(scan) && scan.path == dir && scan.kept == 0
            && scan.subdirs.len() == 0 && scan.unwanted.len() == 0,
{
}

/// Each further entry of an output directory is put where it belongs. A directory
/// is read on, unless it is a marker. A regular file that is not wanted is removed.
/// Everything else stays.
pub proof fn each_entry_is_put_where_it_belongs(
    dir: Components,
    items: Seq<Result<ListedView, Seq<char>>>,
    name: Seq<u8>,
    kind: Kind,
    keep: Set<Components>,
)
    requires
        scanned(dir, Ok(items), keep) is Ok,
    ensures
        ({
            let before = scanned(dir, Ok(items), keep)->Ok_0;
            let item = Ok::<ListedView, Seq<char>>(ListedView { name, kind: Ok(kind) });
            let path = dir.push(name);
            let is_marker = kind == Kind::Dir && name == encode_utf8(".stfolder"@);
            let is_unwanted = kind == Kind::File && !keep.contains(path);
            &&& scanned(dir, Ok(items.push(item)), keep) matches Ok(scan)
            &&& scan.path == dir
            &&& scan.subdirs == (if kind == Kind::Dir && !is_marker {
                before.subdirs.push(path)
            } else {
                before.subdirs
            })
            &&& scan.unwanted == (if is_unwanted {
                before.unwanted.push(path)
            } else {
                before.unwanted
            })
            &&& scan.kept == before.kept + (if kind == Kind::Other || is_marker || (kind
                == Kind::File && !is_unwanted) {
                1int
            } else {
                0
            })
        }),
{
    let item = Ok::<ListedView, Seq<char>>(ListedView { name, kind: Ok(kind) });
    assert(items.push(item).drop_last() =~= items);
    lemma_scan_path(dir, items, keep);
}

proof fn lemma_scan_path(
    dir: Components,
    items: Seq<Result<ListedView, Seq<char>>>,
    keep: Set<Components>,
)
    ensures
        scanned(dir, Ok(items), keep) matches Ok(scan) ==> scan.path == dir,
    decreases items.len(),
{
    if items.len() > 0 {
        lemma_scan_path(dir, items.drop_last(), keep);
    }
}

/// The scan of an output directory fails with the first problem: the directory
/// cannot be read, an entry cannot be read, or its type cannot be told. No later
/// entry changes that.
pub proof fn first_problem_ends_a_scan(
    dir: Components,
    items: Seq<Result<ListedView, Seq<char>>>,
    name: Seq<u8>,
    cause: Seq<char>,
    more: Result<ListedView, Seq<char>>,
    keep: Set<Components>,
)
    ensures
        scanned(dir, Err(cause), keep) == Err::<DirScanView, Seq<char>>(
            "read directory "@ + shown_path(dir) + ": "@ + cause,
        ),
        scanned(dir, Ok(items), keep) is Err ==> scanned(dir, Ok(items.push(more)), keep)
            == scanned(dir, Ok(items), keep),
        scanned(dir, Ok(items), keep) is Ok ==> {
            &&& scanned(dir, Ok(items.push(Err(cause))), keep) == Err::<DirScanView, Seq<char>>(
                "read directory entry in "@ + shown_path(dir) + ": "@ + cause,
            )
            &&& scanned(
                dir,
                Ok(items.push(Ok(ListedView { name, kind: Err(cause) }))),
                keep,
            ) == Err::<DirScanView, Seq<char>>(
                "stat "@ + shown_path(dir.push(name)) + ": "@ + cause,
            )
        },
{
    assert(items.push(more).drop_last() =~= items);
    assert(items.push(Err(cause)).drop_last() =~= items);
    assert(items.push(Ok(ListedView { name, kind: Err(cause) })).drop_last() =~= items);
}

/// A level of directories is read directory by directory; the first one that
/// cannot be scanned ends the reading with its problem.
pub proof fn level_is_read_directory_by_directory(
    dirs: Seq<Components>,
    listings: Seq<ListingView>,
    dir: Components,
    listing: ListingView,
    keep: Set<Components>,
)
    requires
        dirs.len() == listings.len(),
    ensures
        scanned_all(seq![], seq![], keep) == Ok::<Seq<DirScanView>, Seq<char>>(seq![]),
        scanned_all(dirs.push(dir), listings.push(listing), keep) == match scanned_all(
            dirs,
            listings,
            keep,
        ) {
            Err(line) => Err(line),
            Ok(scans) => match scanned(dir, listing, keep) {
                Err(line) => Err(line),
                Ok(scan) => Ok(scans.push(scan)),
            },
        },
{
    assert(dirs.push(dir).drop_last() =~= dirs);
    assert(listings.push(listing).drop_last() =~= listings);
}

/// Reading a tree starts at its root, if that is a directory. A level once read
/// leaves its directories behind in what has been scanned, and the next level is
/// what they named.
pub proof fn tree_is_read_level_by_level(
    root: Components,
    keep: Set<Components>,
    tree: TreeScanView,
    listings: Seq<ListingView>,
)
    ensures
        unread_tree(root, keep, true).level == seq![root],
        unread_tree(root, keep, false).level.len() == 0,
        forall|is_dir: bool|
            #![trigger unread_tree(root, keep, is_dir)]
            unread_tree(root, keep, is_dir).scans.len() == 0 && unread_tree(root, keep, is_dir).root
                == root && unread_tree(root, keep, is_dir).keep == keep,
        match (scanned_all(tree.level, listings, tree.keep), read_level(tree, listings)) {
            (Err(line), next) => next == Err::<TreeScanView, Seq<char>>(line),
            (Ok(scans), next) => {
                &&& next matches Ok(next)
                &&& next.root == tree.root
                &&& next.keep == tree.keep
                &&& next.scans == tree.scans + scans
                &&& next.level == subdirs_of(scans)
            },
        },
{
}

/// What scans name, directories to read and files to remove, is gathered scan by
/// scan in their order.
pub proof fn scans_are_gathered_in_order(scans: Seq<DirScanView>, last: DirScanView)
    ensures
        subdirs_of(seq![]) == Seq::<Components>::empty(),
        unwanted_in(seq![]) == Seq::<Components>::empty(),
        subdirs_of(scans.push(last)) == subdirs_of(scans) + last.subdirs,
        unwanted_in(scans.push(last)) == unwanted_in(scans) + last.unwanted,
{
    assert(scans.push(last).drop_last() =~= scans);
}

/// A removal that succeeded adds one to the count and nothing else. One that
/// failed leaves the count, keeps the file, and adds a line on it.
pub proof fn each_removal_counts_or_is_reported(
    files: Seq<Components>,
    outcomes: Seq<Result<(), String>>,
    file: Components,
    cause: String,
)
    requires
        files.len() == outcomes.len(),
    ensures
        removed_count(outcomes.push(Ok(()))) == removed_count(outcomes) + 1,
        unremoved(files.push(file), outcomes.push(Ok(()))) == unremoved(files, outcomes),
        removal_failures(files.push(file), outcomes.push(Ok(()))) == removal_failures(
            files,
            outcomes,
        ),
        removed_count(outcomes.push(Err(cause))) == removed_count(outcomes),
        unremoved(files.push(file), outcomes.push(Err(cause))) == unremoved(files, outcomes).insert(
            file,
        ),
        removal_failures(files.push(file), outcomes.push(Err(cause))) == removal_failures(
            files,
            outcomes,
        ).push("remove unwanted file "@ + shown_path(file) + ": "@ + cause@),
        removed_count(seq![]) == 0,
        unremoved(seq![], seq![]) == Set::<Components>::empty(),
        removal_failures(seq![], seq![]) == Seq::<Seq<char>>::empty(),
{
    assert(files.push(file).drop_last() =~= files);
    assert(outcomes.push(Ok(())).drop_last() =~= outcomes);
    assert(outcomes.push(Err(cause)).drop_last() =~= outcomes);
}

/// True of a directory that may go: it is not the root, keeps nothing, nothing
/// that stays lies below it, and every directory in it is gone.
pub open spec fn may_go(prune: PruneView, k: int) -> bool {
    let scan = prune.order[k];
    &&& scan.path != prune.root
    &&& scan.kept == 0
    &&& !prune.held.contains(scan.path)
    &&& forall|i: int|
        0 <= i < scan.subdirs.len() ==> prune.gone.contains(#[trigger] scan.subdirs[i])
}

/// True when pruning waits at the first directory from `from` on that may go.
pub open spec fn waits_at_the_next(prune: PruneView, from: nat) -> bool {
    &&& from <= prune.next <= prune.order.len()
    &&& prune.next < prune.order.len() ==> may_go(prune, prune.next as int)
    &&& forall|k: int| from <= k < prune.next ==> !#[trigger] may_go(prune, k)
}

/// Pruning starts with nothing removed, at the first directory that may go.
pub proof fn pruning_starts_at_the_first_that_may_go(
    root: Components,
    scans: Seq<DirScanView>,
    held: Set<Components>,
)
    ensures
        ({
            let prune = unpruned(root, scans, held);
            &&& prune.root == root
            &&& prune.order == deepest_first(scans)
            &&& prune.held == held
            &&& prune.gone == Set::<Components>::empty()
            &&& prune.removed == 0
            &&& waits_at_the_next(prune, 0)
        }),
{
    let prune = unpruned(root, scans, held);
    lemma_seek_waits(prune, 0);
}

/// After an attempt pruning goes on at the next directory that may go. A directory
/// that was removed is gone and counted; one that was left is neither, so no
/// directory above it may go.
pub proof fn pruning_goes_on_past_what_is_left(prune: PruneView)
    requires
        prune.next < prune.order.len(),
    ensures
        ({
            let dir = prune.order[prune.next as int].path;
            let done = attempted(prune, true);
            let left = attempted(prune, false);
            &&& done.gone == prune.gone.insert(dir)
            &&& done.removed == prune.removed + 1
            &&& waits_at_the_next(done, prune.next + 1)
            &&& left.gone == prune.gone
            &&& left.removed == prune.removed
            &&& waits_at_the_next(left, prune.next + 1)
            &&& done.root == prune.root && done.order == prune.order && done.held == prune.held
            &&& left.root == prune.root && left.order == prune.order && left.held == prune.held
        }),
{
    lemma_seek_waits(attempted(prune, true), prune.next + 1);
    lemma_seek_waits(attempted(prune, false), prune.next + 1);
}

proof fn lemma_seek_waits(prune: PruneView, from: nat)
    requires
        from <= prune.order.len(),
        prune.next == seek(prune.root, prune.order, prune.held, prune.gone, from),
    ensures
        waits_at_the_next(prune, from),
    decreases prune.order.len() - from,
{
    if from < prune.order.len() && !may_go(prune, from as int) {
        assert(prune.next == seek(
            prune.root,
            prune.order,
            prune.held,
            prune.gone,
            from + 1,
        ));
        lemma_seek_waits(prune, from + 1);
    }
}

/// What stays in a tree, and so holds the directories above it: what could not be
/// removed and, in a dry run, what is wanted.
pub proof fn pruning_spares_what_holds_something(
    tree: TreeScanView,
    left: Set<Components>,
    dir: Components,
    name: Seq<u8>,
)
    ensures
        left.contains(dir.push(name)) ==> pruning_start(tree, left, false).held.contains(dir)
            && pruning_start(tree, left, true).held.contains(dir),
        tree.keep.contains(dir.push(name)) ==> pruning_start(tree, left, true).held.contains(dir),
        left == Set::<Components>::empty() ==> !pruning_start(tree, left, false).held.contains(dir),
{
    let path = dir.push(name);
    assert(dir =~= path.subrange(0, dir.len() as int));
    assert(dir.is_prefix_of(path));
    assert(dir.len() != path.len());
    assert(tree.keep.union(left).contains(path) <==> tree.keep.contains(path) || left.contains(
        path,
    ));
}

/// True of a path that stays and lies below a directory.
pub open spec fn stays_below(
    tree: TreeScanView,
    left: Set<Components>,
    dry_run: bool,
    dir: Components,
    p: Components,
) -> bool {
    &&& left.contains(p) || (dry_run && tree.keep.contains(p))
    &&& dir.is_prefix_of(p)
    &&& dir != p
}

/// Pruning goes through the directories of the tree that was read, and spares its
/// root and the directories above what stays, and no others.
pub proof fn pruning_is_of_the_tree_that_was_read(
    tree: TreeScanView,
    left: Set<Components>,
    dry_run: bool,
    dir: Components,
)
    ensures
        pruning_start(tree, left, dry_run).root == tree.root,
        pruning_start(tree, left, dry_run).order == deepest_first(tree.scans),
        pruning_start(tree, left, dry_run).held.contains(dir) <==> exists|p: Components| #[trigger]
            stays_below(tree, left, dry_run, dir, p),
{
    let held = pruning_start(tree, left, dry_run).held;
    let stay = staying(tree, left, dry_run);
    if held.contains(dir) {
        let p = choose|p: Components| #[trigger] stay.contains(p) && strictly_under(p, dir);
        assert(stays_below(tree, left, dry_run, dir, p));
    }
    if exists|p: Components| #[trigger] stays_below(tree, left, dry_run, dir, p) {
        let p = choose|p: Components| #[trigger] stays_below(tree, left, dry_run, dir, p);
        assert(stay.contains(p) && strictly_under(p, dir));
    }
}

/// A dry run takes every removal for done: what it announces first is the directory
/// that pruning waits at, and what follows is what pruning would remove after that.
pub proof fn dry_pruning_takes_every_removal_for_done(prune: PruneView)
    requires
        prune.next <= prune.order.len(),
    ensures
        prune.next == prune.order.len() ==> pruned_paths(prune).len() == 0 && fully_pruned(prune)
            == prune,
        prune.next < prune.order.len() ==> {
            &&& pruned_paths(prune).len() > 0
            &&& pruned_paths(prune)[0] == prune.order[prune.next as int].path
            &&& pruned_paths(prune).drop_first() == pruned_paths(attempted(prune, true))
            &&& fully_pruned(prune) == fully_pruned(attempted(prune, true))
        },
{
    if prune.next < prune.order.len() {
        pruning_goes_on_past_what_is_left(prune);
        assert(pruned_paths(prune).drop_first() =~= pruned_paths(attempted(prune, true)));
    }
}

/// The order of pruning is the order of reading, sorted by depth: deeper
/// directories come first, and those of one depth stay in their order.
pub proof fn pruning_order_is_stable(scans: Seq<DirScanView>, depth: nat)
    ensures
        at_depth(deepest_first(scans), depth) == at_depth(scans, depth),
        deepest_first(scans).len() == scans.len(),
        forall|a: int, b: int|
            0 <= a < b < deepest_first(scans).len() ==> (#[trigger] deepest_first(
                scans,
            )[a]).path.len() >= (#[trigger] deepest_first(scans)[b]).path.len(),
{
    pruning_order_is_deepest_first(scans);
    let top = max_depth(scans);
    lemma_stable(scans, top, depth);
    lemma_length(scans, top);
    if depth > top {
        lemma_none_deeper(scans, depth);
    }
}

/// The directories of one depth are picked out one by one.
pub proof fn directories_of_a_depth_are_picked_out(
    scans: Seq<DirScanView>,
    last: DirScanView,
    depth: nat,
)
    ensures
        at_depth(seq![], depth) == Seq::<DirScanView>::empty(),
        last.path.len() == depth ==> at_depth(scans.push(last), depth) == at_depth(
            scans,
            depth,
        ).push(last),
        last.path.len() != depth ==> at_depth(scans.push(last), depth) == at_depth(scans, depth),
{
    assert(scans.push(last).drop_last() =~= scans);
}

proof fn lemma_at_depth_concat(a: Seq<DirScanView>, b: Seq<DirScanView>, depth: nat)
    ensures
        at_depth(a + b, depth) == at_depth(a, depth) + at_depth(b, depth),
    decreases b.len(),
{
    if b.len() == 0 {
        assert(a + b =~= a);
        assert(at_depth(a, depth) + at_depth(b, depth) =~= at_depth(a, depth));
    } else {
        lemma_at_depth_concat(a, b.drop_last(), depth);
        assert((a + b).drop_last() =~= a + b.drop_last());
        assert((a + b).last() == b.last());
        assert(at_depth(a + b, depth) =~= at_depth(a, depth) + at_depth(b, depth));
    }
}

proof fn lemma_at_depth_twice(scans: Seq<DirScanView>, d: nat, depth: nat)
    ensures
        at_depth(at_depth(scans, d), depth) == (if d == depth {
            at_depth(scans, depth)
        } else {
            seq![]
        }),
    decreases scans.len(),
{
    if scans.len() > 0 {
        let before = at_depth(scans.drop_last(), d);
        lemma_at_depth_twice(scans.drop_last(), d, depth);
        if scans.last().path.len() == d {
            assert(before.push(scans.last()).drop_last() =~= before);
        }
    }
}

proof fn lemma_stable(scans: Seq<DirScanView>, top: nat, depth: nat)
    ensures
        at_depth(from_depth(scans, top), depth) == (if depth <= top {
            at_depth(scans, depth)
        } else {
            seq![]
        }),
    decreases top,
{
    lemma_at_depth_twice(scans, top, depth);
    if top > 0 {
        let rest = from_depth(scans, (top - 1) as nat);
        lemma_stable(scans, (top - 1) as nat, depth);
        lemma_at_depth_concat(at_depth(scans, top), rest, depth);
        let none = Seq::<DirScanView>::empty();
        assert(none + none =~= none);
        assert(at_depth(scans, depth) + none =~= at_depth(scans, depth));
        assert(none + at_depth(scans, depth) =~= at_depth(scans, depth));
    }
}

proof fn lemma_none_deeper(scans: Seq<DirScanView>, depth: nat)
    requires
        depth > max_depth(scans),
    ensures
        at_depth(scans, depth) == Seq::<DirScanView>::empty(),
    decreases scans.len(),
{
    if scans.len() > 0 {
        lemma_none_deeper(scans.drop_last(), depth);
    }
}

/// How many directories have at most `top` components.
spec fn count_to(scans: Seq<DirScanView>, top: nat) -> nat
    decreases scans.len(),
{
    if scans.len() == 0 {
        0
    } else {
        count_to(scans.drop_last(), top) + (if scans.last().path.len() <= top {
            1nat
        } else {
            0
        })
    }
}

proof fn lemma_count_one_deeper(scans: Seq<DirScanView>, top: nat)
    requires
        top > 0,
    ensures
        count_to(scans, top) == count_to(scans, (top - 1) as nat) + at_depth(scans, top).len(),
    decreases scans.len(),
{
    if scans.len() > 0 {
        lemma_count_one_deeper(scans.drop_last(), top);
    }
}

proof fn lemma_count_at_root(scans: Seq<DirScanView>)
    ensures
        count_to(scans, 0) == at_depth(scans, 0).len(),
    decreases scans.len(),
{
    if scans.len() > 0 {
        lemma_count_at_root(scans.drop_last());
    }
}

proof fn lemma_count_all(scans: Seq<DirScanView>, top: nat)
    requires
        top >= max_depth(scans),
    ensures
        count_to(scans, top) == scans.len(),
    decreases scans.len(),
{
    if scans.len() > 0 {
        lemma_count_all(scans.drop_last(), top);
    }
}

proof fn lemma_length_to(scans: Seq<DirScanView>, top: nat)
    ensures
        from_depth(scans, top).len() == count_to(scans, top),
    decreases top,
{
    if top == 0 {
        lemma_count_at_root(scans);
    } else {
        lemma_length_to(scans, (top - 1) as nat);
        lemma_count_one_deeper(scans, top);
    }
}

proof fn lemma_length(scans: Seq<DirScanView>, top: nat)
    requires
        top == max_depth(scans),
    ensures
        from_depth(scans, top).len() == scans.len(),
{
    lemma_length_to(scans, top);
    lemma_count_all(scans, top);
}

} // verus!
