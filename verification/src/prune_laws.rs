//! Which directories of an output tree are pruned.

use vstd::prelude::*;

use crate::clean::{stfolder_name, DirScanView, TreeScanView};
use crate::clean_laws::{
    are_true_scans, has_scan, is_anchor, is_open, is_true_scan,
    read_tree_scans_every_directory_once, tree_is_faithful,
};
use crate::model::{
    is_dir, is_tree, lemma_child, lemma_longer, lemma_prefix_is_dir, lemma_prefix_transitive,
    lemma_toward, Fs,
};
use crate::path::{strictly_under, Components};
use crate::path_set::above;
use crate::prune::{
    at_depth, attempted, deepest_first, from_depth, fully_pruned, lemma_seek, max_depth, prunable,
    pruned_paths, seek, unpruned, PruneView,
};

verus! {

proof fn lemma_max_depth(scans: Seq<DirScanView>)
    ensures
        forall|i: int| 0 <= i < scans.len() ==> (#[trigger] scans[i]).path.len() <= max_depth(scans),
    decreases scans.len(),
{
    if scans.len() > 0 {
        let before = scans.drop_last();
        lemma_max_depth(before);
        assert forall|i: int| 0 <= i < scans.len() implies (#[trigger] scans[i]).path.len()
            <= max_depth(scans) by {
            if i < before.len() {
                assert(before[i] == scans[i]);
            }
        }
    }
}

proof fn lemma_at_depth(scans: Seq<DirScanView>, depth: nat)
    ensures
        forall|k: int|
            0 <= k < at_depth(scans, depth).len() ==> scans.contains(
                #[trigger] at_depth(scans, depth)[k],
            ) && at_depth(scans, depth)[k].path.len() == depth,
        forall|i: int|
            0 <= i < scans.len() && (#[trigger] scans[i]).path.len() == depth ==> at_depth(
                scans,
                depth,
            ).contains(scans[i]),
        (forall|i: int, j: int|
            0 <= i < j < scans.len() ==> (#[trigger] scans[i]).path != (#[trigger] scans[j]).path)
            ==> forall|i: int, j: int|
            0 <= i < j < at_depth(scans, depth).len() ==> (#[trigger] at_depth(
                scans,
                depth,
            )[i]).path != (#[trigger] at_depth(scans, depth)[j]).path,
    decreases scans.len(),
{
    if scans.len() > 0 {
        let before = scans.drop_last();
        let n = scans.len() - 1;
        lemma_at_depth(before, depth);
        let earlier = at_depth(before, depth);
        let all = at_depth(scans, depth);
        assert forall|i: int| 0 <= i < before.len() implies before[i] == scans[i] by {}
        assert forall|k: int| 0 <= k < all.len() implies scans.contains(#[trigger] all[k])
            && all[k].path.len() == depth by {
            if k < earlier.len() {
                assert(all[k] == earlier[k]);
                let i = choose|i: int| 0 <= i < before.len() && before[i] == earlier[k];
                assert(scans[i] == all[k]);
            } else {
                assert(scans[n] == all[k]);
            }
        }
        assert forall|i: int|
            0 <= i < scans.len() && (#[trigger] scans[i]).path.len() == depth implies all.contains(
            scans[i],
        ) by {
            if i < n {
                assert(before[i] == scans[i]);
                let k = choose|k: int| 0 <= k < earlier.len() && earlier[k] == before[i];
                assert(all[k] == scans[i]);
            } else {
                assert(all[earlier.len() as int] == scans[i]);
            }
        }
        if forall|i: int, j: int|
            0 <= i < j < scans.len() ==> (#[trigger] scans[i]).path != (#[trigger] scans[j]).path {
            assert forall|i: int, j: int| 0 <= i < j < all.len() implies (#[trigger] all[i]).path
                != (#[trigger] all[j]).path by {
                assert(all[i] == earlier[i]);
                if j < earlier.len() {
                    assert(all[j] == earlier[j]);
                } else {
                    let m = choose|m: int| 0 <= m < before.len() && before[m] == earlier[i];
                    assert(scans[m].path != scans[n].path);
                }
            }
        }
    }
}

proof fn lemma_from_depth(scans: Seq<DirScanView>, depth: nat)
    ensures
        forall|k: int|
            0 <= k < from_depth(scans, depth).len() ==> scans.contains(
                #[trigger] from_depth(scans, depth)[k],
            ) && from_depth(scans, depth)[k].path.len() <= depth,
        forall|i: int|
            0 <= i < scans.len() && (#[trigger] scans[i]).path.len() <= depth ==> from_depth(
                scans,
                depth,
            ).contains(scans[i]),
        forall|a: int, b: int|
            0 <= a < b < from_depth(scans, depth).len() ==> (#[trigger] from_depth(
                scans,
                depth,
            )[a]).path.len() >= (#[trigger] from_depth(scans, depth)[b]).path.len(),
        (forall|i: int, j: int|
            0 <= i < j < scans.len() ==> (#[trigger] scans[i]).path != (#[trigger] scans[j]).path)
            ==> forall|i: int, j: int|
            0 <= i < j < from_depth(scans, depth).len() ==> (#[trigger] from_depth(
                scans,
                depth,
            )[i]).path != (#[trigger] from_depth(scans, depth)[j]).path,
    decreases depth,
{
    lemma_at_depth(scans, depth);
    if depth > 0 {
        let less = (depth - 1) as nat;
        lemma_from_depth(scans, less);
        let first = at_depth(scans, depth);
        let rest = from_depth(scans, less);
        let all = first + rest;
        assert forall|k: int| 0 <= k < all.len() implies scans.contains(#[trigger] all[k])
            && all[k].path.len() <= depth by {
            if k < first.len() {
                assert(all[k] == first[k]);
            } else {
                assert(all[k] == rest[k - first.len()]);
            }
        }
        assert forall|i: int|
            0 <= i < scans.len() && (#[trigger] scans[i]).path.len() <= depth implies all.contains(
            scans[i],
        ) by {
            if scans[i].path.len() == depth {
                let k = choose|k: int| 0 <= k < first.len() && first[k] == scans[i];
                assert(all[k] == scans[i]);
            } else {
                let k = choose|k: int| 0 <= k < rest.len() && rest[k] == scans[i];
                assert(all[first.len() + k] == scans[i]);
            }
        }
        assert forall|a: int, b: int| 0 <= a < b < all.len() implies (#[trigger] all[a]).path.len()
            >= (#[trigger] all[b]).path.len() by {
            if a < first.len() {
                assert(all[a] == first[a]);
            } else {
                assert(all[a] == rest[a - first.len()]);
            }
            if b < first.len() {
                assert(all[b] == first[b]);
            } else {
                assert(all[b] == rest[b - first.len()]);
            }
        }
        if forall|i: int, j: int|
            0 <= i < j < scans.len() ==> (#[trigger] scans[i]).path != (#[trigger] scans[j]).path {
            assert forall|i: int, j: int| 0 <= i < j < all.len() implies (#[trigger] all[i]).path
                != (#[trigger] all[j]).path by {
                if i < first.len() {
                    assert(all[i] == first[i]);
                } else {
                    assert(all[i] == rest[i - first.len()]);
                }
                if j < first.len() {
                    assert(all[j] == first[j]);
                } else {
                    assert(all[j] == rest[j - first.len()]);
                }
            }
        }
    }
}

/// The order of pruning holds the scanned directories and nothing else, and a
/// directory never comes before a deeper one.
pub proof fn pruning_order_is_deepest_first(scans: Seq<DirScanView>)
    ensures
        forall|k: int|
            0 <= k < deepest_first(scans).len() ==> scans.contains(
                #[trigger] deepest_first(scans)[k],
            ),
        forall|i: int|
            0 <= i < scans.len() ==> deepest_first(scans).contains(#[trigger] scans[i]),
        forall|a: int, b: int|
            0 <= a < b < deepest_first(scans).len() ==> (#[trigger] deepest_first(
                scans,
            )[a]).path.len() >= (#[trigger] deepest_first(scans)[b]).path.len(),
        (forall|i: int, j: int|
            0 <= i < j < scans.len() ==> (#[trigger] scans[i]).path != (#[trigger] scans[j]).path)
            ==> forall|i: int, j: int|
            0 <= i < j < deepest_first(scans).len() ==> (#[trigger] deepest_first(scans)[i]).path
                != (#[trigger] deepest_first(scans)[j]).path,
{
    lemma_max_depth(scans);
    lemma_from_depth(scans, max_depth(scans));
    assert forall|i: int| 0 <= i < scans.len() implies deepest_first(scans).contains(
        #[trigger] scans[i],
    ) by {
        assert(scans[i].path.len() <= max_depth(scans));
    }
}

/// True of a directory below the root under which nothing stays but directories.
pub open spec fn is_hollow(
    fs: Fs,
    keep: Set<Components>,
    root: Components,
    dir: Components,
) -> bool {
    &&& dir != root
    &&& forall|q: Components| #[trigger]
        is_anchor(fs, keep, q) ==> !strictly_under(q, dir)
}

/// True of a directory below the root under which nothing stays but directories,
/// and nothing is known to stay.
pub open spec fn is_vacant(
    fs: Fs,
    keep: Set<Components>,
    held: Set<Components>,
    root: Components,
    dir: Components,
) -> bool {
    is_hollow(fs, keep, root, dir) && !held.contains(dir)
}

/// True when everything above something in the set is in the set, too.
pub open spec fn is_closed_upward(held: Set<Components>) -> bool {
    forall|p: Components, q: Components| #[trigger]
        held.contains(p) && #[trigger] strictly_under(p, q) ==> held.contains(q)
}

/// The directories above some paths are closed upward.
pub proof fn above_is_closed_upward(paths: Set<Components>)
    ensures
        is_closed_upward(above(paths)),
{
    let held = above(paths);
    assert forall|p: Components, q: Components| #[trigger]
        held.contains(p) && #[trigger] strictly_under(p, q) implies held.contains(q) by {
        let k = choose|k: Components| #[trigger] paths.contains(k) && strictly_under(k, p);
        lemma_longer(k, p);
        lemma_longer(p, q);
        lemma_prefix_transitive(q, p, k);
        assert(strictly_under(k, q));
    }
}

/// What holds of the order in which a tree is pruned.
pub open spec fn is_order_of(
    fs: Fs,
    keep: Set<Components>,
    root: Components,
    order: Seq<DirScanView>,
) -> bool {
    &&& are_true_scans(fs, keep, order)
    &&& forall|i: int| 0 <= i < order.len() ==> root.is_prefix_of((#[trigger] order[i]).path)
    &&& forall|a: int, b: int|
        0 <= a < b < order.len() ==> (#[trigger] order[a]).path.len() >= (
        #[trigger] order[b]).path.len()
    &&& forall|i: int, s: int|
        0 <= i < order.len() && 0 <= s < order[i].subdirs.len() ==> has_scan(
            order,
            #[trigger] order[i].subdirs[s],
        )
}

/// True when, of the first `n` directories of the order, exactly the vacant
/// ones are gone, and nothing else is.
pub open spec fn is_pruned_up_to(
    fs: Fs,
    keep: Set<Components>,
    held: Set<Components>,
    root: Components,
    order: Seq<DirScanView>,
    gone: Set<Components>,
    n: nat,
) -> bool {
    &&& n <= order.len()
    &&& forall|j: int|
        0 <= j < n ==> (gone.contains((#[trigger] order[j]).path) <==> is_vacant(
            fs,
            keep,
            held,
            root,
            order[j].path,
        ))
    &&& forall|p: Components| #[trigger]
        gone.contains(p) ==> exists|j: int| 0 <= j < n && (#[trigger] order[j]).path == p
}

/// A directory whose turn has come is to be removed exactly when it is vacant.
proof fn lemma_prunable_is_vacant(
    fs: Fs,
    keep: Set<Components>,
    held: Set<Components>,
    root: Components,
    order: Seq<DirScanView>,
    gone: Set<Components>,
    n: nat,
)
    requires
        is_tree(fs, root),
        is_closed_upward(held),
        is_order_of(fs, keep, root, order),
        is_pruned_up_to(fs, keep, held, root, order, gone, n),
        n < order.len(),
    ensures
        prunable(root, order[n as int], held, gone) <==> is_vacant(
            fs,
            keep,
            held,
            root,
            order[n as int].path,
        ),
{
    let scan = order[n as int];
    let dir = scan.path;
    assert(is_true_scan(fs, keep, scan));
    if prunable(root, scan, held, gone) {
        assert forall|q: Components| #[trigger] is_anchor(fs, keep, q) implies !strictly_under(
            q,
            dir,
        ) by {
            if strictly_under(q, dir) {
                lemma_longer(q, dir);
                lemma_toward(q, dir);
                let name = q[dir.len() as int];
                let child = dir.push(name);
                assert(child.last() == name);
                lemma_prefix_transitive(root, dir, child);
                if child == q {
                    assert(fs.contains_key(scan.path.push(name)));
                    assert(scan.kept > 0);
                } else {
                    lemma_prefix_is_dir(fs, root, q, child);
                    assert(fs.contains_key(scan.path.push(name)));
                    if name == stfolder_name() {
                        assert(is_anchor(fs, keep, child));
                        assert(scan.kept > 0);
                    } else {
                        assert(scan.subdirs.contains(child));
                        let s = choose|s: int|
                            0 <= s < scan.subdirs.len() && scan.subdirs[s] == child;
                        assert(gone.contains(scan.subdirs[s]));
                        let j = choose|j: int| 0 <= j < n && (#[trigger] order[j]).path == child;
                        assert(is_vacant(fs, keep, held, root, order[j].path));
                        assert(strictly_under(q, child));
                    }
                }
            }
        }
    }
    if is_vacant(fs, keep, held, root, dir) {
        if scan.kept > 0 {
            let name = choose|name: Seq<u8>| #[trigger] is_anchor(fs, keep, scan.path.push(name));
            lemma_child(dir, name);
        }
        assert forall|s: int| 0 <= s < scan.subdirs.len() implies gone.contains(
            #[trigger] scan.subdirs[s],
        ) by {
            let sub = scan.subdirs[s];
            assert(sub =~= dir.push(sub.last()));
            lemma_child(dir, sub.last());
            assert(has_scan(order, order[n as int].subdirs[s]));
            let j = choose|j: int| 0 <= j < order.len() && (#[trigger] order[j]).path == sub;
            assert(sub.len() == dir.len() + 1);
            if j > n {
                assert(order[n as int].path.len() >= order[j].path.len());
            }
            assert(j < n);
            assert(held.contains(sub) ==> held.contains(dir)) by {
                assert(strictly_under(sub, dir));
            }
            assert(is_vacant(fs, keep, held, root, sub)) by {
                assert(root.len() <= dir.len());
                assert forall|q: Components| #[trigger]
                    is_anchor(fs, keep, q) implies !strictly_under(q, sub) by {
                    if strictly_under(q, sub) {
                        lemma_longer(q, sub);
                        lemma_prefix_transitive(dir, sub, q);
                        assert(strictly_under(q, dir));
                    }
                }
            }
        }
    }
}

/// Passing over directories that are not to be removed passes over no vacant
/// one.
proof fn lemma_seek_passes_no_vacant(
    fs: Fs,
    keep: Set<Components>,
    held: Set<Components>,
    root: Components,
    order: Seq<DirScanView>,
    gone: Set<Components>,
    n: nat,
)
    requires
        is_tree(fs, root),
        is_closed_upward(held),
        is_order_of(fs, keep, root, order),
        is_pruned_up_to(fs, keep, held, root, order, gone, n),
    ensures
        is_pruned_up_to(fs, keep, held, root, order, gone, seek(root, order, held, gone, n)),
    decreases order.len() - n,
{
    if n < order.len() && !prunable(root, order[n as int], held, gone) {
        lemma_prunable_is_vacant(fs, keep, held, root, order, gone, n);
        let path = order[n as int].path;
        if gone.contains(path) {
            let j = choose|j: int| 0 <= j < n && (#[trigger] order[j]).path == path;
            assert(order[j].path != order[n as int].path);
        }
        assert(is_pruned_up_to(fs, keep, held, root, order, gone, n + 1)) by {
            assert forall|p: Components| #[trigger] gone.contains(p) implies exists|j: int|
                0 <= j < n + 1 && (#[trigger] order[j]).path == p by {
                let j = choose|j: int| 0 <= j < n && (#[trigger] order[j]).path == p;
                assert(order[j].path == p);
            }
        }
        lemma_seek_passes_no_vacant(fs, keep, held, root, order, gone, n + 1);
    }
}

/// What holds of the pruning of a tree at any time, as long as every removal has
/// succeeded.
pub open spec fn pruning_is_right(fs: Fs, keep: Set<Components>, prune: PruneView) -> bool {
    &&& is_order_of(fs, keep, prune.root, prune.order)
    &&& is_closed_upward(prune.held)
    &&& is_pruned_up_to(
        fs,
        keep,
        prune.held,
        prune.root,
        prune.order,
        prune.gone,
        prune.next,
    )
    &&& prune.next < prune.order.len() ==> prunable(
        prune.root,
        prune.order[prune.next as int],
        prune.held,
        prune.gone,
    )
    &&& prune.gone.finite()
    &&& prune.removed == prune.gone.len()
}

/// Pruning a tree that has been read starts right.
pub proof fn pruning_starts_right(fs: Fs, tree: TreeScanView, held: Set<Components>)
    requires
        is_closed_upward(held),
        is_tree(fs, tree.root),
        tree_is_faithful(fs, tree),
        tree.level.len() == 0,
    ensures
        pruning_is_right(fs, tree.keep, unpruned(tree.root, tree.scans, held)),
{
    let root = tree.root;
    let scans = tree.scans;
    let keep = tree.keep;
    let order = deepest_first(scans);
    read_tree_scans_every_directory_once(fs, tree);
    pruning_order_is_deepest_first(scans);
    assert forall|i: int| 0 <= i < order.len() implies is_true_scan(fs, keep, #[trigger] order[i])
        && root.is_prefix_of(order[i].path) by {
        let k = choose|k: int| 0 <= k < scans.len() && scans[k] == order[i];
        assert(is_true_scan(fs, keep, scans[k]));
        assert(has_scan(scans, scans[k].path));
    }
    assert forall|i: int, s: int|
        0 <= i < order.len() && 0 <= s < order[i].subdirs.len() implies has_scan(
        order,
        #[trigger] order[i].subdirs[s],
    ) by {
        let sub = order[i].subdirs[s];
        let dir = order[i].path;
        assert(is_true_scan(fs, keep, order[i]));
        let k = choose|k: int| 0 <= k < scans.len() && scans[k] == order[i];
        assert(has_scan(scans, scans[k].path));
        assert(sub =~= dir.push(sub.last()));
        lemma_child(dir, sub.last());
        lemma_prefix_transitive(root, dir, sub);
        assert(is_open(root, sub)) by {
            assert forall|n: int| root.len() <= n < sub.len() implies #[trigger] sub[n]
                != stfolder_name() by {
                if n < dir.len() {
                    assert(sub[n] == dir[n]);
                }
            }
        }
        assert(is_dir(fs, sub));
        assert(has_scan(scans, sub));
        let m = choose|m: int| 0 <= m < scans.len() && (#[trigger] scans[m]).path == sub;
        assert(order.contains(scans[m]));
        let o = choose|o: int| 0 <= o < order.len() && order[o] == scans[m];
        assert(order[o].path == sub);
    }
    assert(is_order_of(fs, keep, root, order));
    assert(is_pruned_up_to(fs, keep, held, root, order, Set::empty(), 0));
    lemma_seek_passes_no_vacant(fs, keep, held, root, order, Set::empty(), 0);
    lemma_seek(root, order, held, Set::empty(), 0);
}

/// Pruning stays right when the next directory is removed.
pub proof fn pruning_stays_right(fs: Fs, keep: Set<Components>, prune: PruneView)
    requires
        is_tree(fs, prune.root),
        pruning_is_right(fs, keep, prune),
        prune.next < prune.order.len(),
    ensures
        is_vacant(
            fs,
            keep,
            prune.held,
            prune.root,
            prune.order[prune.next as int].path,
        ),
        pruning_is_right(fs, keep, attempted(prune, true)),
{
    let root = prune.root;
    let order = prune.order;
    let n = prune.next;
    let path = order[n as int].path;
    let gone = prune.gone.insert(path);
    let held = prune.held;
    lemma_prunable_is_vacant(fs, keep, held, root, order, prune.gone, n);
    if prune.gone.contains(path) {
        let j = choose|j: int| 0 <= j < n && (#[trigger] order[j]).path == path;
        assert(order[j].path != order[n as int].path);
    }
    assert forall|j: int| 0 <= j < n + 1 implies (gone.contains((#[trigger] order[j]).path)
        <==> is_vacant(fs, keep, held, root, order[j].path)) by {
        if j < n {
            assert(order[j].path != order[n as int].path);
        }
    }
    assert forall|p: Components| #[trigger] gone.contains(p) implies exists|j: int|
        0 <= j < n + 1 && (#[trigger] order[j]).path == p by {
        if p == path {
            assert(order[n as int].path == p);
        } else {
            assert(prune.gone.contains(p));
            let j = choose|j: int| 0 <= j < n && (#[trigger] order[j]).path == p;
            assert(order[j].path == p);
        }
    }
    assert(is_pruned_up_to(fs, keep, held, root, order, gone, n + 1));
    lemma_seek_passes_no_vacant(fs, keep, held, root, order, gone, n + 1);
    lemma_seek(root, order, held, gone, n + 1);
}

/// Once pruning is over, exactly the vacant directories are gone.
pub proof fn pruning_removes_the_vacant_directories(
    fs: Fs,
    keep: Set<Components>,
    prune: PruneView,
)
    requires
        is_tree(fs, prune.root),
        pruning_is_right(fs, keep, prune),
    ensures
        pruning_is_right(fs, keep, fully_pruned(prune)),
        fully_pruned(prune).root == prune.root,
        fully_pruned(prune).held == prune.held,
        fully_pruned(prune).order == prune.order,
        fully_pruned(prune).next == prune.order.len(),
        forall|p: Components| #[trigger]
            fully_pruned(prune).gone.contains(p) <==> has_scan(prune.order, p) && is_vacant(
                fs,
                keep,
                prune.held,
                prune.root,
                p,
            ),
    decreases prune.order.len() - prune.next,
{
    if prune.next < prune.order.len() {
        pruning_stays_right(fs, keep, prune);
        lemma_seek(
            prune.root,
            prune.order,
            prune.held,
            attempted(prune, true).gone,
            prune.next + 1,
        );
        pruning_removes_the_vacant_directories(fs, keep, attempted(prune, true));
    } else {
        assert forall|p: Components| #[trigger]
            prune.gone.contains(p) <==> has_scan(prune.order, p) && is_vacant(
                fs,
                keep,
                prune.held,
                prune.root,
                p,
            ) by {
            if prune.gone.contains(p) {
                let j = choose|j: int|
                    0 <= j < prune.next && (#[trigger] prune.order[j]).path == p;
                assert(prune.order[j].path == p);
            }
            if has_scan(prune.order, p) {
                let j = choose|j: int|
                    0 <= j < prune.order.len() && (#[trigger] prune.order[j]).path == p;
                assert(prune.order[j].path == p);
            }
        }
    }
}

/// The directories that a dry run announces are those that pruning removes, in
/// the same number.
pub proof fn announced_prunes_are_the_removed_ones(
    fs: Fs,
    keep: Set<Components>,
    prune: PruneView,
)
    requires
        is_tree(fs, prune.root),
        pruning_is_right(fs, keep, prune),
    ensures
        forall|p: Components| #[trigger]
            fully_pruned(prune).gone.contains(p) <==> prune.gone.contains(p) || pruned_paths(
                prune,
            ).contains(p),
        fully_pruned(prune).removed == prune.removed + pruned_paths(prune).len(),
    decreases prune.order.len() - prune.next,
{
    if prune.next < prune.order.len() {
        let after = attempted(prune, true);
        pruning_stays_right(fs, keep, prune);
        lemma_seek(prune.root, prune.order, prune.held, after.gone, prune.next + 1);
        announced_prunes_are_the_removed_ones(fs, keep, after);
        let path = prune.order[prune.next as int].path;
        let all = pruned_paths(prune);
        let rest = pruned_paths(after);
        assert(all =~= seq![path] + rest);
        assert forall|p: Components| #[trigger]
            fully_pruned(prune).gone.contains(p) <==> prune.gone.contains(p) || all.contains(p) by {
            assert(all[0] == path);
            if rest.contains(p) {
                let k = choose|k: int| 0 <= k < rest.len() && rest[k] == p;
                assert(all[k + 1] == p);
            }
            if all.contains(p) && p != path {
                let k = choose|k: int| 0 <= k < all.len() && all[k] == p;
                assert(rest[k - 1] == p);
            }
        }
    }
}

} // verus!
