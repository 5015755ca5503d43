//! What ensuring links and clearing do to the trees of a file system.

use vstd::prelude::*;

use crate::clean::{stfolder_name, unwanted_in, TreeScanView};
use crate::clean_laws::{
    has_scan, is_anchor, is_open, is_unwanted, read_tree_scans_every_directory_once,
    removals_are_the_unwanted_files, tree_is_faithful,
};
use crate::link::LinkView;
use crate::link_laws::{
    ensured, ensured_all, ensuring_links_makes_them_all, lemma_last_link_fits, link_fits, links_fit,
};
use crate::model::{
    is_dir, is_tree, lemma_child, lemma_longer, lemma_prefix_is_dir, lemma_prefix_transitive,
    way_is_clear, with_dirs, Fs, Node,
};
use crate::path::{strictly_under, Components};
use crate::prune::{deepest_first, unpruned, PruneView};
use crate::prune_laws::{is_hollow, is_vacant, pruning_is_right, pruning_order_is_deepest_first};

verus! {

/// Creating directories keeps a tree a tree.
pub proof fn creating_directories_keeps_trees(fs: Fs, root: Components, dir: Components)
    requires
        is_tree(fs, root),
        root.len() > 0,
        way_is_clear(fs, dir),
    ensures
        is_tree(with_dirs(fs, dir), root),
        is_dir(fs, root) ==> is_dir(with_dirs(fs, dir), root),
{
    let after = with_dirs(fs, dir);
    assert forall|p: Components| #[trigger]
        after.contains_key(p) && strictly_under(p, root) implies is_dir(after, p.drop_last()) by {
        lemma_longer(p, root);
        let q = p.drop_last();
        if fs.contains_key(p) {
            assert(is_dir(fs, q));
        } else {
            assert(q =~= p.subrange(0, q.len() as int));
            lemma_prefix_transitive(q, p, dir);
            if fs.contains_key(q) {
                assert(fs[q] == Node::Dir);
            }
        }
    }
}

/// Ensuring a link keeps a tree a tree.
proof fn lemma_ensured_keeps_tree(fs: Fs, root: Components, link: LinkView)
    requires
        is_tree(fs, root),
        is_dir(fs, root),
        root.len() > 0,
        link_fits(fs, link),
    ensures
        is_tree(ensured(fs, link), root),
        is_dir(ensured(fs, link), root),
{
    let after = ensured(fs, link);
    let dest = link.dest;
    let dir = dest.drop_last();
    assert(dir =~= dir.subrange(0, dir.len() as int));
    assert(!is_dir(fs, dest));
    assert forall|p: Components| #[trigger]
        after.contains_key(p) && strictly_under(p, root) implies is_dir(after, p.drop_last()) by {
        lemma_longer(p, root);
        let q = p.drop_last();
        if p == dest {
            if fs.contains_key(dir) {
                assert(fs[dir] == Node::Dir);
            }
            if after == fs {
                assert(is_dir(fs, q));
            }
        } else if fs.contains_key(p) {
            assert(is_dir(fs, q));
        } else {
            assert(p.is_prefix_of(dir));
            assert(q =~= p.subrange(0, q.len() as int));
            lemma_prefix_transitive(q, p, dir);
            assert(q.len() < dest.len());
            if fs.contains_key(q) {
                assert(fs[q] == Node::Dir);
            }
        }
    }
}

/// Ensuring links keeps a tree a tree.
pub proof fn ensuring_links_keeps_trees(fs: Fs, root: Components, links: Seq<LinkView>)
    requires
        is_tree(fs, root),
        is_dir(fs, root),
        root.len() > 0,
        links_fit(fs, links),
    ensures
        is_tree(ensured_all(fs, links), root),
        is_dir(ensured_all(fs, links), root),
    decreases links.len(),
{
    if links.len() > 0 {
        let before = links.drop_last();
        assert forall|i: int| 0 <= i < before.len() implies before[i] == links[i] by {}
        assert(links_fit(fs, before)) by {
            assert forall|i: int| 0 <= i < before.len() implies link_fits(
                fs,
                #[trigger] before[i],
            ) by {
                assert(link_fits(fs, links[i]));
            }
        }
        ensuring_links_keeps_trees(fs, root, before);
        ensuring_links_makes_them_all(fs, before);
        lemma_last_link_fits(fs, links);
        lemma_ensured_keeps_tree(ensured_all(fs, before), root, links.last());
    }
}

/// True of what clearing the tree at `root` removes: unwanted files and hollow
/// directories, but for what marker directories hide.
pub open spec fn is_cleared(
    fs: Fs,
    root: Components,
    keep: Set<Components>,
    p: Components,
) -> bool {
    &&& strictly_under(p, root)
    &&& {
        ||| is_unwanted(fs, keep, p) && is_open(root, p.drop_last())
        ||| is_dir(fs, p) && is_open(root, p) && is_hollow(fs, keep, root, p)
    }
}

/// The unwanted files of the tree at `root`, but for what marker directories hide.
pub open spec fn unwanted_files(fs: Fs, root: Components, keep: Set<Components>) -> Set<
    Components,
> {
    Set::new(
        |p: Components|
            strictly_under(p, root) && is_unwanted(fs, keep, p) && is_open(root, p.drop_last()),
    )
}

/// The hollow directories of the tree at `root`, but for what marker directories
/// hide.
pub open spec fn hollow_dirs(fs: Fs, root: Components, keep: Set<Components>) -> Set<Components> {
    Set::new(
        |p: Components|
            is_dir(fs, p) && root.is_prefix_of(p) && is_open(root, p) && is_hollow(
                fs,
                keep,
                root,
                p,
            ),
    )
}

/// The vacant directories of the tree at `root`, but for what marker directories
/// hide.
pub open spec fn vacant_dirs(
    fs: Fs,
    root: Components,
    keep: Set<Components>,
    held: Set<Components>,
) -> Set<Components> {
    Set::new(
        |p: Components|
            is_dir(fs, p) && root.is_prefix_of(p) && is_open(root, p) && is_vacant(
                fs,
                keep,
                held,
                root,
                p,
            ),
    )
}

/// A file system once the tree at `root` has been cleared.
pub open spec fn cleared(fs: Fs, root: Components, keep: Set<Components>) -> Fs {
    Map::new(
        |p: Components| fs.contains_key(p) && !is_cleared(fs, root, keep, p),
        |p: Components| fs[p],
    )
}

/// A file system while the tree at `root` is cleared: its unwanted files and the
/// directories `gone` have been removed.
pub open spec fn partly_cleared(
    fs: Fs,
    root: Components,
    keep: Set<Components>,
    gone: Set<Components>,
) -> Fs {
    Map::new(
        |p: Components|
            fs.contains_key(p) && !gone.contains(p) && !(strictly_under(p, root) && is_unwanted(
                fs,
                keep,
                p,
            ) && is_open(root, p.drop_last())),
        |p: Components| fs[p],
    )
}

/// True when `p` is a directory with nothing in it.
pub open spec fn is_empty_dir(fs: Fs, p: Components) -> bool {
    is_dir(fs, p) && forall|q: Components| #[trigger] fs.contains_key(q) ==> !strictly_under(q, p)
}

/// True when the order of pruning holds the directories of the tree.
pub open spec fn is_order_of_tree(fs: Fs, prune: PruneView) -> bool {
    forall|p: Components| #[trigger]
        has_scan(prune.order, p) <==> is_dir(fs, p) && prune.root.is_prefix_of(p) && is_open(
            prune.root,
            p,
        )
}

/// Pruning a tree that has been read goes through its directories.
pub proof fn pruning_covers_the_tree(fs: Fs, tree: TreeScanView, held: Set<Components>)
    requires
        tree_is_faithful(fs, tree),
        tree.level.len() == 0,
    ensures
        is_order_of_tree(fs, unpruned(tree.root, tree.scans, held)),
{
    let order = deepest_first(tree.scans);
    read_tree_scans_every_directory_once(fs, tree);
    pruning_order_is_deepest_first(tree.scans);
    assert forall|p: Components| #[trigger] has_scan(order, p) <==> has_scan(tree.scans, p) by {
        if has_scan(order, p) {
            let i = choose|i: int| 0 <= i < order.len() && (#[trigger] order[i]).path == p;
            assert(tree.scans.contains(order[i]));
            let k = choose|k: int| 0 <= k < tree.scans.len() && tree.scans[k] == order[i];
            assert(tree.scans[k].path == p);
        }
        if has_scan(tree.scans, p) {
            let k = choose|k: int| 0 <= k < tree.scans.len() && (#[trigger] tree.scans[k]).path == p;
            assert(order.contains(tree.scans[k]));
            let i = choose|i: int| 0 <= i < order.len() && order[i] == tree.scans[k];
            assert(order[i].path == p);
        }
    }
}

/// Removing the unwanted files of a tree leaves it partly cleared.
pub proof fn removing_files_clears_partly(fs: Fs, tree: TreeScanView)
    requires
        is_tree(fs, tree.root),
        tree_is_faithful(fs, tree),
        tree.level.len() == 0,
    ensures
        fs.remove_keys(unwanted_in(tree.scans).to_set()) == partly_cleared(
            fs,
            tree.root,
            tree.keep,
            Set::empty(),
        ),
{
    removals_are_the_unwanted_files(fs, tree);
    let files = unwanted_in(tree.scans);
    let after = fs.remove_keys(files.to_set());
    let wanted = partly_cleared(fs, tree.root, tree.keep, Set::empty());
    assert forall|p: Components| after.contains_key(p) <==> wanted.contains_key(p) by {
        assert(files.to_set().contains(p) <==> files.contains(p));
    }
    assert(after =~= wanted);
}

/// What is below a hollow directory is cleared with it.
proof fn lemma_below_hollow(
    fs: Fs,
    root: Components,
    keep: Set<Components>,
    dir: Components,
    q: Components,
)
    requires
        is_tree(fs, root),
        root.is_prefix_of(dir),
        is_open(root, dir),
        is_hollow(fs, keep, root, dir),
        fs.contains_key(q),
        strictly_under(q, dir),
    ensures
        is_open(root, q.drop_last()),
        fs[q] is Dir || fs[q] is File,
        fs[q] is File ==> is_unwanted(fs, keep, q),
        fs[q] is Dir ==> is_open(root, q) && is_hollow(fs, keep, root, q),
        strictly_under(q, root),
{
    lemma_longer(q, dir);
    lemma_prefix_transitive(root, dir, q);
    assert(!is_anchor(fs, keep, q));
    let n = dir.len() as int;
    assert forall|i: int| n <= i < q.len() && (i < q.len() - 1 || fs[q] is Dir) implies
        #[trigger] q[i] != stfolder_name() by {
        let c = q.take(i + 1);
        assert(dir =~= c.subrange(0, n)) by {
            assert(dir =~= q.subrange(0, n));
        }
        assert(c.len() > dir.len());
        assert(strictly_under(c, dir));
        assert(c.is_prefix_of(q));
        if c == q {
            assert(c.last() == q[i]);
        } else {
            lemma_prefix_transitive(root, dir, c);
            lemma_prefix_is_dir(fs, root, q, c);
            assert(c.last() == q[i]);
            assert(!is_anchor(fs, keep, c));
        }
    }
    assert(dir =~= q.subrange(0, n));
    assert forall|i: int| root.len() <= i < q.drop_last().len() implies #[trigger] q.drop_last()[i]
        != stfolder_name() by {
        assert(q.drop_last()[i] == q[i]);
        if i < n {
            assert(dir[i] == q[i]);
        }
    }
    if fs[q] is Dir {
        assert forall|i: int| root.len() <= i < q.len() implies #[trigger] q[i]
            != stfolder_name() by {
            if i < n {
                assert(dir[i] == q[i]);
            }
        }
        assert forall|a: Components| #[trigger] is_anchor(fs, keep, a) implies !strictly_under(
            a,
            q,
        ) by {
            if strictly_under(a, q) {
                lemma_longer(a, q);
                lemma_prefix_transitive(dir, q, a);
                assert(strictly_under(a, dir));
            }
        }
    }
}

/// The directory whose turn it is has become empty.
pub proof fn next_directory_is_empty(fs: Fs, keep: Set<Components>, prune: PruneView)
    requires
        is_tree(fs, prune.root),
        pruning_is_right(fs, keep, prune),
        is_order_of_tree(fs, prune),
        prune.next < prune.order.len(),
        is_vacant(
            fs,
            keep,
            prune.held,
            prune.root,
            prune.order[prune.next as int].path,
        ),
    ensures
        is_empty_dir(
            partly_cleared(fs, prune.root, keep, prune.gone),
            prune.order[prune.next as int].path,
        ),
{
    let root = prune.root;
    let order = prune.order;
    let n = prune.next as int;
    let dir = order[n].path;
    let now = partly_cleared(fs, root, keep, prune.gone);
    assert(has_scan(order, dir));
    if prune.gone.contains(dir) {
        let j = choose|j: int| 0 <= j < n && (#[trigger] order[j]).path == dir;
        assert(order[j].path != order[n].path);
    }
    assert(is_dir(now, dir));
    assert forall|q: Components| #[trigger] now.contains_key(q) implies !strictly_under(q, dir) by {
        if strictly_under(q, dir) {
            lemma_below_hollow(fs, root, keep, dir, q);
            if fs[q] is Dir {
                lemma_longer(q, dir);
                assert(is_dir(fs, q));
                assert(has_scan(order, q));
                let j = choose|j: int| 0 <= j < order.len() && (#[trigger] order[j]).path == q;
                if j > n {
                    assert(order[n].path.len() >= order[j].path.len());
                }
                assert(j < n);
                assert(prune.held.contains(q) ==> prune.held.contains(dir));
                assert(is_vacant(fs, keep, prune.held, root, order[j].path));
                assert(prune.gone.contains(order[j].path));
            }
        }
    }
}

/// Removing the next directory goes on with the clearing.
pub proof fn removing_a_directory_clears_on(
    fs: Fs,
    root: Components,
    keep: Set<Components>,
    gone: Set<Components>,
    dir: Components,
)
    ensures
        partly_cleared(fs, root, keep, gone).remove(dir) == partly_cleared(
            fs,
            root,
            keep,
            gone.insert(dir),
        ),
{
    assert(partly_cleared(fs, root, keep, gone).remove(dir) =~= partly_cleared(
        fs,
        root,
        keep,
        gone.insert(dir),
    ));
}

/// Once pruning is over and nothing held it up, the tree is cleared.
pub proof fn pruned_tree_is_cleared(fs: Fs, keep: Set<Components>, prune: PruneView)
    requires
        is_tree(fs, prune.root),
        pruning_is_right(fs, keep, prune),
        is_order_of_tree(fs, prune),
        prune.next == prune.order.len(),
        prune.held == Set::<Components>::empty(),
    ensures
        prune.removed == hollow_dirs(fs, prune.root, keep).len(),
        partly_cleared(fs, prune.root, keep, prune.gone) == cleared(fs, prune.root, keep),
{
    let root = prune.root;
    let now = partly_cleared(fs, root, keep, prune.gone);
    let done = cleared(fs, root, keep);
    assert forall|p: Components| now.contains_key(p) <==> done.contains_key(p) by {
        if prune.gone.contains(p) {
            let j = choose|j: int|
                0 <= j < prune.next && (#[trigger] prune.order[j]).path == p;
            assert(has_scan(prune.order, p));
            assert(is_vacant(fs, keep, prune.held, root, prune.order[j].path));
        }
        if fs.contains_key(p) && is_dir(fs, p) && strictly_under(p, root) && is_open(root, p)
            && is_hollow(fs, keep, root, p) {
            assert(has_scan(prune.order, p));
            let j = choose|j: int|
                0 <= j < prune.order.len() && (#[trigger] prune.order[j]).path == p;
            assert(is_vacant(fs, keep, prune.held, root, prune.order[j].path));
            assert(prune.gone.contains(prune.order[j].path));
        }
    }
    assert(now =~= done);
    vacant_directories_are_counted(fs, keep, prune);
    assert(vacant_dirs(fs, root, keep, prune.held) =~= hollow_dirs(fs, root, keep));
}

/// Once pruning is over, the number of directories removed is that of the vacant
/// ones.
pub proof fn vacant_directories_are_counted(fs: Fs, keep: Set<Components>, prune: PruneView)
    requires
        pruning_is_right(fs, keep, prune),
        is_order_of_tree(fs, prune),
        prune.next == prune.order.len(),
    ensures
        prune.gone == vacant_dirs(fs, prune.root, keep, prune.held),
        prune.removed == vacant_dirs(fs, prune.root, keep, prune.held).len(),
{
    let root = prune.root;
    let vacant = vacant_dirs(fs, root, keep, prune.held);
    assert forall|p: Components| prune.gone.contains(p) <==> vacant.contains(p) by {
        if prune.gone.contains(p) {
            let j = choose|j: int|
                0 <= j < prune.next && (#[trigger] prune.order[j]).path == p;
            assert(has_scan(prune.order, p));
            assert(is_vacant(fs, keep, prune.held, root, prune.order[j].path));
        }
        if vacant.contains(p) {
            assert(has_scan(prune.order, p));
            let j = choose|j: int|
                0 <= j < prune.order.len() && (#[trigger] prune.order[j]).path == p;
            assert(prune.gone.contains(prune.order[j].path));
        }
    }
    assert(prune.gone =~= vacant);
}

/// What the unwanted files of a tree that has been read are, and how many.
pub proof fn unwanted_files_are_counted(fs: Fs, tree: TreeScanView)
    requires
        is_tree(fs, tree.root),
        tree_is_faithful(fs, tree),
        tree.level.len() == 0,
    ensures
        unwanted_in(tree.scans).to_set() == unwanted_files(fs, tree.root, tree.keep),
        unwanted_in(tree.scans).len() == unwanted_files(fs, tree.root, tree.keep).len(),
{
    removals_are_the_unwanted_files(fs, tree);
    let files = unwanted_in(tree.scans);
    assert forall|p: Components| files.to_set().contains(p) <==> unwanted_files(
        fs,
        tree.root,
        tree.keep,
    ).contains(p) by {
        assert(files.to_set().contains(p) <==> files.contains(p));
    }
    assert(files.to_set() =~= unwanted_files(fs, tree.root, tree.keep));
    files.unique_seq_to_set();
}

/// Clearing one tree keeps every tree a tree.
pub proof fn clearing_keeps_trees(
    fs: Fs,
    root: Components,
    keep: Set<Components>,
    other: Components,
)
    requires
        is_tree(fs, root),
        is_tree(fs, other),
    ensures
        is_tree(cleared(fs, root, keep), other),
{
    let after = cleared(fs, root, keep);
    assert forall|p: Components| #[trigger]
        after.contains_key(p) && strictly_under(p, other) implies is_dir(after, p.drop_last()) by {
        lemma_longer(p, other);
        let q = p.drop_last();
        assert(is_dir(fs, q));
        if is_cleared(fs, root, keep, q) {
            assert(p =~= q.push(p.last()));
            lemma_child(q, p.last());
            lemma_below_hollow(fs, root, keep, q, p);
        }
    }
}

} // verus!
