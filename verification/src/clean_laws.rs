//! What reading an output tree tells, when what it is told is true.

use vstd::prelude::*;

use crate::clean::{
    read_level, scanned, scanned_all, scanned_items, stfolder_name, subdirs_of, unread_tree,
    unwanted_in, with_entry, DirScanView, TreeScanView,
};
use crate::model::{
    is_dir, is_tree, item, kind_of, lemma_child, lemma_longer, lemma_prefix_is_dir,
    lemma_prefix_transitive, lemma_prefixes_nest, lemma_toward, lists, Fs, Node,
};
use crate::path::{strictly_under, Components};
use crate::walk::{Kind, ListedView, ListingView};

verus! {

/// True of what keeps the directories above it from being pruned: a wanted
/// file, a special file or a marker directory.
pub open spec fn is_anchor(fs: Fs, keep: Set<Components>, p: Components) -> bool {
    &&& fs.contains_key(p)
    &&& match fs[p] {
        Node::Dir => p.last() == stfolder_name(),
        Node::File(_) => keep.contains(p),
        Node::Link(_) => true,
        Node::Other => true,
    }
}

/// True of a regular file that is not wanted.
pub open spec fn is_unwanted(fs: Fs, keep: Set<Components>, p: Components) -> bool {
    fs.contains_key(p) && fs[p] is File && !keep.contains(p)
}

/// True when no marker directory is on the way from `root` to `p`, nor is `p`
/// named like one.
pub open spec fn is_open(root: Components, p: Components) -> bool {
    forall|i: int| root.len() <= i < p.len() ==> #[trigger] p[i] != stfolder_name()
}

/// True when the scan of a directory tells what is in it.
pub open spec fn is_true_scan(fs: Fs, keep: Set<Components>, scan: DirScanView) -> bool {
    &&& is_dir(fs, scan.path)
    &&& forall|name: Seq<u8>| #[trigger]
        fs.contains_key(scan.path.push(name)) ==> {
            let p = scan.path.push(name);
            &&& is_anchor(fs, keep, p) ==> scan.kept > 0
            &&& is_unwanted(fs, keep, p) ==> scan.unwanted.contains(p)
            &&& is_dir(fs, p) && name != stfolder_name() ==> scan.subdirs.contains(p)
        }
    &&& scan.kept > 0 ==> exists|name: Seq<u8>| #[trigger]
        is_anchor(fs, keep, scan.path.push(name))
    &&& forall|i: int|
        0 <= i < scan.subdirs.len() ==> {
            let p = #[trigger] scan.subdirs[i];
            p.len() > 0 && p.drop_last() == scan.path && is_dir(fs, p) && p.last()
                != stfolder_name()
        }
    &&& forall|i: int|
        0 <= i < scan.unwanted.len() ==> {
            let p = #[trigger] scan.unwanted[i];
            p.len() > 0 && p.drop_last() == scan.path && is_unwanted(fs, keep, p)
        }
    &&& scan.subdirs.no_duplicates()
    &&& scan.unwanted.no_duplicates()
}

/// True when a scan tells of the items seen so far.
spec fn covers(
    fs: Fs,
    keep: Set<Components>,
    dir: Components,
    items: Seq<Result<ListedView, Seq<char>>>,
    scan: DirScanView,
) -> bool {
    &&& scan.path == dir
    &&& forall|i: int|
        0 <= i < items.len() ==> {
            let p = dir.push((#[trigger] items[i])->Ok_0.name);
            &&& is_anchor(fs, keep, p) ==> scan.kept > 0
            &&& is_unwanted(fs, keep, p) ==> scan.unwanted.contains(p)
            &&& is_dir(fs, p) && p.last() != stfolder_name() ==> scan.subdirs.contains(p)
        }
    &&& scan.kept > 0 ==> exists|name: Seq<u8>| #[trigger]
        is_anchor(fs, keep, dir.push(name))
    &&& forall|j: int|
        0 <= j < scan.subdirs.len() ==> {
            let p = #[trigger] scan.subdirs[j];
            &&& is_dir(fs, p) && p.last() != stfolder_name()
            &&& exists|i: int|
                0 <= i < items.len() && p == dir.push((#[trigger] items[i])->Ok_0.name)
        }
    &&& forall|j: int|
        0 <= j < scan.unwanted.len() ==> {
            let p = #[trigger] scan.unwanted[j];
            &&& is_unwanted(fs, keep, p)
            &&& exists|i: int|
                0 <= i < items.len() && p == dir.push((#[trigger] items[i])->Ok_0.name)
        }
    &&& scan.subdirs.no_duplicates()
    &&& scan.unwanted.no_duplicates()
}

/// Pushing keeps what was there.
proof fn lemma_push_contains(s: Seq<Components>, x: Components)
    ensures
        s.push(x).contains(x),
        forall|p: Components| #[trigger] s.contains(p) ==> s.push(x).contains(p),
{
    assert(s.push(x)[s.len() as int] == x);
    assert forall|p: Components| #[trigger] s.contains(p) implies s.push(x).contains(p) by {
        let i = choose|i: int| 0 <= i < s.len() && s[i] == p;
        assert(s.push(x)[i] == p);
    }
}

/// One more item.
proof fn lemma_covers_more(
    fs: Fs,
    keep: Set<Components>,
    dir: Components,
    items: Seq<Result<ListedView, Seq<char>>>,
    scan: DirScanView,
)
    requires
        items.len() > 0,
        forall|i: int|
            0 <= i < items.len() ==> {
                &&& (#[trigger] items[i]) matches Ok(listed)
                &&& fs.contains_key(dir.push(listed.name))
                &&& listed.kind == Ok::<Kind, Seq<char>>(kind_of(fs[dir.push(listed.name)]))
            },
        forall|i: int, j: int|
            0 <= i < j < items.len() ==> (#[trigger] items[i])->Ok_0.name
                != (#[trigger] items[j])->Ok_0.name,
        covers(fs, keep, dir, items.drop_last(), scan),
    ensures
        covers(
            fs,
            keep,
            dir,
            items,
            with_entry(scan, items.last()->Ok_0.name, items.last()->Ok_0.kind->Ok_0, keep),
        ),
{
    let before = items.drop_last();
    let n = items.len() - 1;
    let name = items[n]->Ok_0.name;
    let p = dir.push(name);
    let after = with_entry(scan, name, items[n]->Ok_0.kind->Ok_0, keep);
    assert(items.last() == items[n]);
    assert(p.last() == name);
    lemma_push_contains(scan.subdirs, p);
    lemma_push_contains(scan.unwanted, p);
    assert forall|i: int| 0 <= i < before.len() implies before[i] == items[i] by {}
    // The new path is not among the earlier ones.
    assert forall|q: Components| scan.subdirs.contains(q) || scan.unwanted.contains(q) implies q
        != p by {
        if scan.subdirs.contains(q) {
            let j = choose|j: int| 0 <= j < scan.subdirs.len() && scan.subdirs[j] == q;
            let i = choose|i: int|
                0 <= i < before.len() && scan.subdirs[j] == dir.push(
                    (#[trigger] before[i])->Ok_0.name,
                );
            assert(items[i]->Ok_0.name != items[n]->Ok_0.name);
            assert(q.last() == items[i]->Ok_0.name);
        } else {
            let j = choose|j: int| 0 <= j < scan.unwanted.len() && scan.unwanted[j] == q;
            let i = choose|i: int|
                0 <= i < before.len() && scan.unwanted[j] == dir.push(
                    (#[trigger] before[i])->Ok_0.name,
                );
            assert(items[i]->Ok_0.name != items[n]->Ok_0.name);
            assert(q.last() == items[i]->Ok_0.name);
        }
    }
    assert(!scan.subdirs.contains(p) && !scan.unwanted.contains(p));
    assert forall|i: int| 0 <= i < items.len() implies {
        let q = dir.push((#[trigger] items[i])->Ok_0.name);
        &&& is_anchor(fs, keep, q) ==> after.kept > 0
        &&& is_unwanted(fs, keep, q) ==> after.unwanted.contains(q)
        &&& is_dir(fs, q) && q.last() != stfolder_name() ==> after.subdirs.contains(q)
    } by {
        if i < n {
            assert(before[i] == items[i]);
        }
    }
    assert(after.kept > 0 ==> exists|other: Seq<u8>| #[trigger]
        is_anchor(fs, keep, dir.push(other))) by {
        if after.kept > 0 && scan.kept == 0 {
            assert(is_anchor(fs, keep, dir.push(name)));
        }
    }
    assert forall|j: int| 0 <= j < after.subdirs.len() implies {
        let q = #[trigger] after.subdirs[j];
        &&& is_dir(fs, q) && q.last() != stfolder_name()
        &&& exists|i: int| 0 <= i < items.len() && q == dir.push((#[trigger] items[i])->Ok_0.name)
    } by {
        if j < scan.subdirs.len() {
            assert(after.subdirs[j] == scan.subdirs[j]);
            let i = choose|i: int|
                0 <= i < before.len() && scan.subdirs[j] == dir.push(
                    (#[trigger] before[i])->Ok_0.name,
                );
            assert(after.subdirs[j] == dir.push(items[i]->Ok_0.name));
        } else {
            assert(after.subdirs[j] == dir.push(items[n]->Ok_0.name));
        }
    }
    assert forall|j: int| 0 <= j < after.unwanted.len() implies {
        let q = #[trigger] after.unwanted[j];
        &&& is_unwanted(fs, keep, q)
        &&& exists|i: int| 0 <= i < items.len() && q == dir.push((#[trigger] items[i])->Ok_0.name)
    } by {
        if j < scan.unwanted.len() {
            assert(after.unwanted[j] == scan.unwanted[j]);
            let i = choose|i: int|
                0 <= i < before.len() && scan.unwanted[j] == dir.push(
                    (#[trigger] before[i])->Ok_0.name,
                );
            assert(after.unwanted[j] == dir.push(items[i]->Ok_0.name));
        } else {
            assert(after.unwanted[j] == dir.push(items[n]->Ok_0.name));
        }
    }
}

proof fn lemma_scanned_items(
    fs: Fs,
    keep: Set<Components>,
    dir: Components,
    items: Seq<Result<ListedView, Seq<char>>>,
)
    requires
        forall|i: int|
            0 <= i < items.len() ==> {
                &&& (#[trigger] items[i]) matches Ok(listed)
                &&& fs.contains_key(dir.push(listed.name))
                &&& listed.kind == Ok::<Kind, Seq<char>>(kind_of(fs[dir.push(listed.name)]))
            },
        forall|i: int, j: int|
            0 <= i < j < items.len() ==> (#[trigger] items[i])->Ok_0.name
                != (#[trigger] items[j])->Ok_0.name,
    ensures
        scanned_items(dir, items, keep) is Ok,
        covers(fs, keep, dir, items, scanned_items(dir, items, keep)->Ok_0),
    decreases items.len(),
{
    if items.len() > 0 {
        let before = items.drop_last();
        assert forall|i: int| 0 <= i < before.len() implies before[i] == items[i] by {}
        lemma_scanned_items(fs, keep, dir, before);
        assert(items[items.len() - 1] is Ok);
        lemma_covers_more(fs, keep, dir, items, scanned_items(dir, before, keep)->Ok_0);
    }
}

/// Scanning a directory with a true listing succeeds and tells what is in it.
pub proof fn scan_of_true_listing_is_true(
    fs: Fs,
    keep: Set<Components>,
    dir: Components,
    listing: ListingView,
)
    requires
        is_dir(fs, dir),
        lists(fs, dir, listing),
    ensures
        scanned(dir, listing, keep) is Ok,
        scanned(dir, listing, keep)->Ok_0.path == dir,
        is_true_scan(fs, keep, scanned(dir, listing, keep)->Ok_0),
{
    let items = listing->Ok_0;
    lemma_scanned_items(fs, keep, dir, items);
    let scan = scanned_items(dir, items, keep)->Ok_0;
    assert forall|name: Seq<u8>| #[trigger] fs.contains_key(scan.path.push(name)) implies {
        let p = scan.path.push(name);
        &&& is_anchor(fs, keep, p) ==> scan.kept > 0
        &&& is_unwanted(fs, keep, p) ==> scan.unwanted.contains(p)
        &&& is_dir(fs, p) && name != stfolder_name() ==> scan.subdirs.contains(p)
    } by {
        let wanted = item(name, kind_of(fs[dir.push(name)]));
        let i = choose|i: int| 0 <= i < items.len() && items[i] == wanted;
        assert(dir.push(items[i]->Ok_0.name).last() == name);
    }
    assert forall|j: int| 0 <= j < scan.subdirs.len() implies {
        let p = #[trigger] scan.subdirs[j];
        p.len() > 0 && p.drop_last() == scan.path && is_dir(fs, p) && p.last() != stfolder_name()
    } by {
        let i = choose|i: int|
            0 <= i < items.len() && scan.subdirs[j] == dir.push((#[trigger] items[i])->Ok_0.name);
        lemma_child(dir, items[i]->Ok_0.name);
    }
    assert forall|j: int| 0 <= j < scan.unwanted.len() implies {
        let p = #[trigger] scan.unwanted[j];
        p.len() > 0 && p.drop_last() == scan.path && is_unwanted(fs, keep, p)
    } by {
        let i = choose|i: int|
            0 <= i < items.len() && scan.unwanted[j] == dir.push((#[trigger] items[i])->Ok_0.name);
        lemma_child(dir, items[i]->Ok_0.name);
    }
}

/// True when `p` has been scanned.
pub open spec fn has_scan(scans: Seq<DirScanView>, p: Components) -> bool {
    exists|i: int| 0 <= i < scans.len() && (#[trigger] scans[i]).path == p
}

/// True when every scan is true and no directory is scanned twice.
pub open spec fn are_true_scans(fs: Fs, keep: Set<Components>, scans: Seq<DirScanView>) -> bool {
    &&& forall|i: int| 0 <= i < scans.len() ==> is_true_scan(fs, keep, #[trigger] scans[i])
    &&& forall|i: int, j: int|
        0 <= i < j < scans.len() ==> (#[trigger] scans[i]).path != (#[trigger] scans[j]).path
}

/// What holds of an output tree at any time while it is read.
///
/// Its scans are true, and no marker directory has been read. The directories to
/// read next have not been scanned, nor has anything below them. Every directory
/// that no marker directory hides has been scanned, or lies in a directory that
/// is to be read next.
pub open spec fn tree_is_faithful(fs: Fs, tree: TreeScanView) -> bool {
    &&& are_true_scans(fs, tree.keep, tree.scans)
    &&& forall|i: int|
        0 <= i < tree.scans.len() ==> tree.root.is_prefix_of((#[trigger] tree.scans[i]).path)
            && is_open(tree.root, tree.scans[i].path)
    &&& forall|k: int|
        0 <= k < tree.level.len() ==> {
            &&& is_dir(fs, #[trigger] tree.level[k])
            &&& tree.root.is_prefix_of(tree.level[k])
            &&& is_open(tree.root, tree.level[k])
        }
    &&& tree.level.no_duplicates()
    &&& forall|j: int, k: int|
        0 <= j < tree.level.len() && 0 <= k < tree.level.len() ==> !strictly_under(
            #[trigger] tree.level[j],
            #[trigger] tree.level[k],
        )
    &&& forall|k: int, i: int|
        0 <= k < tree.level.len() && 0 <= i < tree.scans.len() ==> !(
        #[trigger] tree.level[k]).is_prefix_of((#[trigger] tree.scans[i]).path)
    &&& forall|p: Components| #[trigger]
        is_dir(fs, p) && tree.root.is_prefix_of(p) && is_open(tree.root, p) ==> {
            ||| has_scan(tree.scans, p)
            ||| exists|k: int| 0 <= k < tree.level.len() && (#[trigger] tree.level[k]).is_prefix_of(p)
        }
}

/// Reading a tree starts faithful.
pub proof fn tree_starts_faithful(fs: Fs, root: Components, keep: Set<Components>)
    requires
        is_dir(fs, root),
    ensures
        tree_is_faithful(fs, unread_tree(root, keep, true)),
{
    let tree = unread_tree(root, keep, true);
    assert(tree.level[0] == root);
    assert(root =~= root.subrange(0, root.len() as int));
    assert forall|p: Components| #[trigger]
        is_dir(fs, p) && root.is_prefix_of(p) && is_open(root, p) implies {
        ||| has_scan(tree.scans, p)
        ||| exists|k: int| 0 <= k < tree.level.len() && (#[trigger] tree.level[k]).is_prefix_of(p)
    } by {
        assert(tree.level[0].is_prefix_of(p));
    }
}

/// The scans of a level, told the truth.
proof fn lemma_scanned_all(
    fs: Fs,
    keep: Set<Components>,
    dirs: Seq<Components>,
    listings: Seq<ListingView>,
)
    requires
        dirs.len() == listings.len(),
        dirs.no_duplicates(),
        forall|k: int|
            0 <= k < dirs.len() ==> is_dir(fs, #[trigger] dirs[k]) && lists(
                fs,
                dirs[k],
                listings[k],
            ),
    ensures
        scanned_all(dirs, listings, keep) is Ok,
        scanned_all(dirs, listings, keep)->Ok_0.len() == dirs.len(),
        forall|k: int|
            0 <= k < dirs.len() ==> (#[trigger] scanned_all(dirs, listings, keep)->Ok_0[k]).path
                == dirs[k],
        are_true_scans(fs, keep, scanned_all(dirs, listings, keep)->Ok_0),
    decreases dirs.len(),
{
    if dirs.len() > 0 {
        let some_dirs = dirs.drop_last();
        let some_listings = listings.drop_last();
        assert forall|k: int| 0 <= k < some_dirs.len() implies is_dir(fs, #[trigger] some_dirs[k])
            && lists(fs, some_dirs[k], some_listings[k]) by {
            assert(is_dir(fs, dirs[k]));
        }
        lemma_scanned_all(fs, keep, some_dirs, some_listings);
        let n = dirs.len() - 1;
        assert(is_dir(fs, dirs[n]));
        scan_of_true_listing_is_true(fs, keep, dirs[n], listings[n]);
        let before = scanned_all(some_dirs, some_listings, keep)->Ok_0;
        let all = scanned_all(dirs, listings, keep)->Ok_0;
        assert forall|k: int| 0 <= k < all.len() implies (#[trigger] all[k]).path == dirs[k]
            && is_true_scan(fs, keep, all[k]) by {
            if k < n {
                assert(all[k] == before[k]);
            }
        }
        assert forall|i: int, j: int| 0 <= i < j < all.len() implies (#[trigger] all[i]).path != (
        #[trigger] all[j]).path by {
            assert(dirs[i] != dirs[j]);
        }
    }
}

/// The directories that true scans name.
proof fn lemma_subdirs_of(fs: Fs, keep: Set<Components>, scans: Seq<DirScanView>)
    requires
        are_true_scans(fs, keep, scans),
    ensures
        subdirs_of(scans).no_duplicates(),
        forall|k: int|
            0 <= k < subdirs_of(scans).len() ==> {
                let p = #[trigger] subdirs_of(scans)[k];
                p.len() > 0 && has_scan(scans, p.drop_last()) && is_dir(fs, p) && p.last()
                    != stfolder_name()
            },
        forall|i: int, p: Components|
            0 <= i < scans.len() && #[trigger] scans[i].subdirs.contains(p) ==> subdirs_of(
                scans,
            ).contains(p),
    decreases scans.len(),
{
    if scans.len() > 0 {
        let before = scans.drop_last();
        let n = scans.len() - 1;
        assert forall|i: int| 0 <= i < before.len() implies before[i] == scans[i] by {}
        assert(are_true_scans(fs, keep, before));
        lemma_subdirs_of(fs, keep, before);
        let earlier = subdirs_of(before);
        let added = scans[n].subdirs;
        let all = earlier + added;
        assert(scans.last() == scans[n]);
        assert forall|k: int| 0 <= k < all.len() implies {
            let p = #[trigger] all[k];
            p.len() > 0 && has_scan(scans, p.drop_last()) && is_dir(fs, p) && p.last()
                != stfolder_name()
        } by {
            if k < earlier.len() {
                assert(all[k] == earlier[k]);
                let i = choose|i: int|
                    0 <= i < before.len() && (#[trigger] before[i]).path == earlier[k].drop_last();
                assert(scans[i].path == all[k].drop_last());
            } else {
                assert(all[k] == added[k - earlier.len()]);
            }
        }
        assert forall|a: int, b: int| 0 <= a < b < all.len() implies all[a] != all[b] by {
            if b < earlier.len() {
                assert(all[a] == earlier[a] && all[b] == earlier[b]);
            } else if a >= earlier.len() {
                assert(all[a] == added[a - earlier.len()]);
                assert(all[b] == added[b - earlier.len()]);
            } else {
                assert(all[a] == earlier[a] && all[b] == added[b - earlier.len()]);
                let i = choose|i: int|
                    0 <= i < before.len() && (#[trigger] before[i]).path == earlier[a].drop_last();
                assert(scans[i].path != scans[n].path);
            }
        }
        assert forall|i: int, p: Components|
            0 <= i < scans.len() && #[trigger] scans[i].subdirs.contains(p) implies all.contains(
            p,
        ) by {
            if i < n {
                assert(before[i].subdirs.contains(p));
                let k = choose|k: int| 0 <= k < earlier.len() && earlier[k] == p;
                assert(all[k] == p);
            } else {
                let k = choose|k: int| 0 <= k < added.len() && added[k] == p;
                assert(all[earlier.len() + k] == p);
            }
        }
    }
}

/// The files that true scans name.
proof fn lemma_unwanted_in(fs: Fs, keep: Set<Components>, scans: Seq<DirScanView>)
    requires
        are_true_scans(fs, keep, scans),
    ensures
        unwanted_in(scans).no_duplicates(),
        forall|k: int|
            0 <= k < unwanted_in(scans).len() ==> {
                let p = #[trigger] unwanted_in(scans)[k];
                p.len() > 0 && has_scan(scans, p.drop_last()) && is_unwanted(fs, keep, p)
            },
        forall|i: int, p: Components|
            0 <= i < scans.len() && #[trigger] scans[i].unwanted.contains(p) ==> unwanted_in(
                scans,
            ).contains(p),
    decreases scans.len(),
{
    if scans.len() > 0 {
        let before = scans.drop_last();
        let n = scans.len() - 1;
        assert forall|i: int| 0 <= i < before.len() implies before[i] == scans[i] by {}
        assert(are_true_scans(fs, keep, before));
        lemma_unwanted_in(fs, keep, before);
        let earlier = unwanted_in(before);
        let added = scans[n].unwanted;
        let all = earlier + added;
        assert(scans.last() == scans[n]);
        assert forall|k: int| 0 <= k < all.len() implies {
            let p = #[trigger] all[k];
            p.len() > 0 && has_scan(scans, p.drop_last()) && is_unwanted(fs, keep, p)
        } by {
            if k < earlier.len() {
                assert(all[k] == earlier[k]);
                let i = choose|i: int|
                    0 <= i < before.len() && (#[trigger] before[i]).path == earlier[k].drop_last();
                assert(scans[i].path == all[k].drop_last());
            } else {
                assert(all[k] == added[k - earlier.len()]);
            }
        }
        assert forall|a: int, b: int| 0 <= a < b < all.len() implies all[a] != all[b] by {
            if b < earlier.len() {
                assert(all[a] == earlier[a] && all[b] == earlier[b]);
            } else if a >= earlier.len() {
                assert(all[a] == added[a - earlier.len()]);
                assert(all[b] == added[b - earlier.len()]);
            } else {
                assert(all[a] == earlier[a] && all[b] == added[b - earlier.len()]);
                let i = choose|i: int|
                    0 <= i < before.len() && (#[trigger] before[i]).path == earlier[a].drop_last();
                assert(scans[i].path != scans[n].path);
            }
        }
        assert forall|i: int, p: Components|
            0 <= i < scans.len() && #[trigger] scans[i].unwanted.contains(p) implies all.contains(
            p,
        ) by {
            if i < n {
                assert(before[i].unwanted.contains(p));
                let k = choose|k: int| 0 <= k < earlier.len() && earlier[k] == p;
                assert(all[k] == p);
            } else {
                let k = choose|k: int| 0 <= k < added.len() && added[k] == p;
                assert(all[earlier.len() + k] == p);
            }
        }
    }
}

/// A tree that is told the truth can be read on, and stays faithful.
pub proof fn tree_stays_faithful(fs: Fs, tree: TreeScanView, listings: Seq<ListingView>)
    requires
        is_tree(fs, tree.root),
        tree_is_faithful(fs, tree),
        listings.len() == tree.level.len(),
        forall|k: int|
            0 <= k < tree.level.len() ==> lists(fs, tree.level[k], #[trigger] listings[k]),
    ensures
        read_level(tree, listings) is Ok,
        tree_is_faithful(fs, read_level(tree, listings)->Ok_0),
{
    let root = tree.root;
    let level = tree.level;
    let keep = tree.keep;
    assert forall|k: int| 0 <= k < level.len() implies is_dir(fs, #[trigger] level[k]) && lists(
        fs,
        level[k],
        listings[k],
    ) by {
        assert(lists(fs, level[k], listings[k]));
    }
    lemma_scanned_all(fs, keep, level, listings);
    let added = scanned_all(level, listings, keep)->Ok_0;
    lemma_subdirs_of(fs, keep, added);
    let next = subdirs_of(added);
    let scans = tree.scans + added;
    let after = read_level(tree, listings)->Ok_0;
    assert(level.len() == added.len());
    // Where a directory to read next comes from.
    assert forall|k: int| 0 <= k < next.len() implies {
        let p = #[trigger] next[k];
        &&& level.contains(p.drop_last())
        &&& strictly_under(p, p.drop_last())
        &&& root.is_prefix_of(p)
        &&& is_open(root, p)
        &&& is_dir(fs, p)
    } by {
        let p = next[k];
        let dir = p.drop_last();
        let i = choose|i: int| 0 <= i < added.len() && (#[trigger] added[i]).path == dir;
        assert(level[i] == dir);
        assert(p =~= dir.push(p.last()));
        lemma_child(dir, p.last());
        lemma_prefix_transitive(root, dir, p);
        assert(is_open(root, level[i]));
        assert forall|n: int| root.len() <= n < p.len() implies #[trigger] p[n]
            != stfolder_name() by {
            if n < dir.len() {
                assert(p[n] == dir[n]);
            }
        }
    }
    assert forall|i: int| 0 <= i < scans.len() implies {
        &&& is_true_scan(fs, keep, #[trigger] scans[i])
        &&& root.is_prefix_of(scans[i].path)
        &&& is_open(root, scans[i].path)
    } by {
        if i < tree.scans.len() {
            assert(scans[i] == tree.scans[i]);
        } else {
            assert(scans[i] == added[i - tree.scans.len()]);
            assert(scans[i].path == level[i - tree.scans.len()]);
        }
    }
    assert forall|i: int, j: int| 0 <= i < j < scans.len() implies (#[trigger] scans[i]).path != (
    #[trigger] scans[j]).path by {
        if j < tree.scans.len() {
            assert(scans[i] == tree.scans[i] && scans[j] == tree.scans[j]);
        } else {
            let k = j - tree.scans.len();
            assert(scans[j] == added[k]);
            if i < tree.scans.len() {
                assert(scans[i] == tree.scans[i]);
                assert(!level[k].is_prefix_of(tree.scans[i].path));
                assert(level[k] =~= level[k].subrange(0, level[k].len() as int));
            } else {
                assert(scans[i] == added[i - tree.scans.len()]);
            }
        }
    }
    assert forall|j: int, k: int|
        0 <= j < next.len() && 0 <= k < next.len() implies !strictly_under(
        #[trigger] next[j],
        #[trigger] next[k],
    ) by {
        lemma_not_nested(level, next[k], next[j]);
    }
    assert forall|k: int, i: int|
        0 <= k < next.len() && 0 <= i < scans.len() implies !(#[trigger] next[k]).is_prefix_of(
        (#[trigger] scans[i]).path,
    ) by {
        let p = next[k];
        let dir = p.drop_last();
        let d = choose|d: int| 0 <= d < level.len() && level[d] == dir;
        if p.is_prefix_of(scans[i].path) {
            lemma_prefix_transitive(dir, p, scans[i].path);
            if i < tree.scans.len() {
                assert(scans[i] == tree.scans[i]);
                assert(!level[d].is_prefix_of(tree.scans[i].path));
            } else {
                let o = i - tree.scans.len();
                assert(scans[i] == added[o]);
                assert(level[o] == added[o].path);
                assert(level[o].len() >= p.len());
                assert(strictly_under(level[o], level[d]));
            }
        }
    }
    assert forall|p: Components| #[trigger]
        is_dir(fs, p) && root.is_prefix_of(p) && is_open(root, p) implies {
        ||| has_scan(scans, p)
        ||| exists|k: int| 0 <= k < next.len() && (#[trigger] next[k]).is_prefix_of(p)
    } by {
        if has_scan(tree.scans, p) {
            let i = choose|i: int| 0 <= i < tree.scans.len() && (#[trigger] tree.scans[i]).path == p;
            assert(scans[i].path == p);
        } else {
            let k = choose|k: int| 0 <= k < level.len() && (#[trigger] level[k]).is_prefix_of(p);
            let dir = level[k];
            if dir == p {
                assert(added[k].path == p);
                assert(scans[tree.scans.len() + k].path == p);
            } else {
                lemma_longer(p, dir);
                lemma_toward(p, dir);
                let name = p[dir.len() as int];
                let child = dir.push(name);
                lemma_prefix_transitive(root, dir, child);
                assert(root.len() <= dir.len());
                if child != p {
                    lemma_prefix_is_dir(fs, root, p, child);
                }
                assert(added[k].path == dir);
                assert(is_true_scan(fs, keep, added[k]));
                assert(fs.contains_key(added[k].path.push(name)));
                assert(added[k].subdirs.contains(child));
                assert(next.contains(child));
                let m = choose|m: int| 0 <= m < next.len() && next[m] == child;
                assert(next[m].is_prefix_of(p));
            }
        }
    }
}

/// Entries of directories that do not lie in one another do not either.
proof fn lemma_not_nested(level: Seq<Components>, outer: Components, inner: Components)
    requires
        outer.len() > 0,
        inner.len() > 0,
        level.contains(inner.drop_last()),
        level.contains(outer.drop_last()),
        forall|j: int, k: int|
            0 <= j < level.len() && 0 <= k < level.len() ==> !strictly_under(
                #[trigger] level[j],
                #[trigger] level[k],
            ),
    ensures
        !strictly_under(inner, outer),
{
    if strictly_under(inner, outer) {
        lemma_longer(inner, outer);
        let inner_dir = inner.drop_last();
        let outer_dir = outer.drop_last();
        assert(inner =~= inner_dir.push(inner.last()));
        lemma_child(inner_dir, inner.last());
        lemma_prefixes_nest(outer, inner_dir, inner);
        assert(outer =~= outer_dir.push(outer.last()));
        lemma_child(outer_dir, outer.last());
        lemma_prefix_transitive(outer_dir, outer, inner_dir);
        assert(strictly_under(inner_dir, outer_dir));
        let j = choose|j: int| 0 <= j < level.len() && level[j] == inner_dir;
        let k = choose|k: int| 0 <= k < level.len() && level[k] == outer_dir;
        assert(!strictly_under(level[j], level[k]));
    }
}

/// A tree that has been read has all its directories scanned, each once, but
/// for marker directories and what is in them.
pub proof fn read_tree_scans_every_directory_once(fs: Fs, tree: TreeScanView)
    requires
        tree_is_faithful(fs, tree),
        tree.level.len() == 0,
    ensures
        are_true_scans(fs, tree.keep, tree.scans),
        forall|p: Components| #[trigger]
            has_scan(tree.scans, p) <==> is_dir(fs, p) && tree.root.is_prefix_of(p) && is_open(
                tree.root,
                p,
            ),
{
    assert forall|p: Components| #[trigger] has_scan(tree.scans, p) implies is_dir(fs, p)
        && tree.root.is_prefix_of(p) && is_open(tree.root, p) by {
        let i = choose|i: int| 0 <= i < tree.scans.len() && (#[trigger] tree.scans[i]).path == p;
        assert(is_true_scan(fs, tree.keep, tree.scans[i]));
    }
}

/// The files to remove from a tree that has been read are the regular files in
/// it that are not wanted, each once, but for those that marker directories
/// hide.
pub proof fn removals_are_the_unwanted_files(fs: Fs, tree: TreeScanView)
    requires
        is_tree(fs, tree.root),
        tree_is_faithful(fs, tree),
        tree.level.len() == 0,
    ensures
        unwanted_in(tree.scans).no_duplicates(),
        forall|p: Components| #[trigger]
            unwanted_in(tree.scans).contains(p) <==> {
                &&& is_unwanted(fs, tree.keep, p)
                &&& strictly_under(p, tree.root)
                &&& is_open(tree.root, p.drop_last())
            },
{
    read_tree_scans_every_directory_once(fs, tree);
    lemma_unwanted_in(fs, tree.keep, tree.scans);
    let files = unwanted_in(tree.scans);
    assert forall|p: Components| #[trigger] files.contains(p) implies {
        &&& is_unwanted(fs, tree.keep, p)
        &&& strictly_under(p, tree.root)
        &&& is_open(tree.root, p.drop_last())
    } by {
        let k = choose|k: int| 0 <= k < files.len() && files[k] == p;
        assert(has_scan(tree.scans, files[k].drop_last()));
        let dir = p.drop_last();
        assert(p =~= dir.push(p.last()));
        lemma_child(dir, p.last());
        lemma_prefix_transitive(tree.root, dir, p);
    }
    assert forall|p: Components|
        is_unwanted(fs, tree.keep, p) && strictly_under(p, tree.root) && is_open(
            tree.root,
            p.drop_last(),
        ) implies #[trigger] files.contains(p) by {
        let dir = p.drop_last();
        lemma_longer(p, tree.root);
        assert(is_dir(fs, dir));
        assert(p =~= dir.push(p.last()));
        lemma_child(dir, p.last());
        lemma_prefixes_nest(tree.root, dir, p);
        assert(has_scan(tree.scans, dir));
        let i = choose|i: int| 0 <= i < tree.scans.len() && (#[trigger] tree.scans[i]).path == dir;
        assert(is_true_scan(fs, tree.keep, tree.scans[i]));
        assert(fs.contains_key(tree.scans[i].path.push(p.last())));
        assert(tree.scans[i].unwanted.contains(p));
    }
}

} // verus!
