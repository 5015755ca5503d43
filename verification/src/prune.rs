//! Removing the directories of an output tree that are left empty, deepest
//! first.

use vstd::prelude::*;
use vstd::string::*;

use crate::clean::{scan_views, DirScan, DirScanView, TreeScan, TreeScanView};
use crate::path::{path_views, shown_path, Components, TreePath};
use crate::path_set::{above, PathSet};
use crate::stats::texts;
use crate::walk::problem_line;

verus! {

/// The scans of directories with `depth` components, in order.
pub open spec fn at_depth(scans: Seq<DirScanView>, depth: nat) -> Seq<DirScanView>
    decreases scans.len(),
{
    if scans.len() == 0 {
        seq![]
    } else {
        let before = at_depth(scans.drop_last(), depth);
        if scans.last().path.len() == depth {
            before.push(scans.last())
        } else {
            before
        }
    }
}

/// The scans of directories with at most `depth` components, deepest first.
pub open spec fn from_depth(scans: Seq<DirScanView>, depth: nat) -> Seq<DirScanView>
    decreases depth,
{
    if depth == 0 {
        at_depth(scans, 0)
    } else {
        at_depth(scans, depth) + from_depth(scans, (depth - 1) as nat)
    }
}

/// The number of components of the deepest directory.
pub open spec fn max_depth(scans: Seq<DirScanView>) -> nat
    decreases scans.len(),
{
    if scans.len() == 0 {
        0
    } else {
        let before = max_depth(scans.drop_last());
        if scans.last().path.len() > before {
            scans.last().path.len()
        } else {
            before
        }
    }
}

/// Scans ordered by depth, deepest first; equally deep ones keep their order.
pub open spec fn deepest_first(scans: Seq<DirScanView>) -> Seq<DirScanView> {
    from_depth(scans, max_depth(scans))
}

/// True when a directory is to be removed: it is not the root, it keeps nothing,
/// nothing that stays is known to lie below it, and all directories in it are
/// gone.
pub open spec fn prunable(
    root: Components,
    scan: DirScanView,
    held: Set<Components>,
    gone: Set<Components>,
) -> bool {
    &&& scan.path != root
    &&& scan.kept == 0
    &&& !held.contains(scan.path)
    &&& forall|i: int| 0 <= i < scan.subdirs.len() ==> gone.contains(#[trigger] scan.subdirs[i])
}

/// The first directory at or after position `i` that is to be removed, or the
/// end of the order.
pub open spec fn seek(
    root: Components,
    order: Seq<DirScanView>,
    held: Set<Components>,
    gone: Set<Components>,
    i: nat,
) -> nat
    decreases order.len() - i,
{
    if i >= order.len() {
        order.len()
    } else if prunable(root, order[i as int], held, gone) {
        i
    } else {
        seek(root, order, held, gone, i + 1)
    }
}

/// The contents of a [`Prune`].
pub struct PruneView {
    /// The root of the tree, which stays.
    pub root: Components,
    /// The directories of the tree, deepest first.
    pub order: Seq<DirScanView>,
    /// Position of the directory to remove next; the end when none is left.
    pub next: nat,
    /// The directories above something that stays.
    pub held: Set<Components>,
    /// The directories removed.
    pub gone: Set<Components>,
    /// Their number.
    pub removed: nat,
}

/// Pruning before any directory has been removed.
pub open spec fn unpruned(
    root: Components,
    scans: Seq<DirScanView>,
    held: Set<Components>,
) -> PruneView {
    let order = deepest_first(scans);
    PruneView {
        root,
        order,
        next: seek(root, order, held, Set::empty(), 0),
        held,
        gone: Set::empty(),
        removed: 0,
    }
}

/// Pruning after an attempt to remove the next directory.
pub open spec fn attempted(prune: PruneView, removed: bool) -> PruneView {
    let gone = if removed {
        prune.gone.insert(prune.order[prune.next as int].path)
    } else {
        prune.gone
    };
    PruneView {
        next: seek(prune.root, prune.order, prune.held, gone, prune.next + 1),
        gone,
        removed: if removed {
            prune.removed + 1
        } else {
            prune.removed
        },
        ..prune
    }
}

/// The directories that pruning removes when every removal succeeds, in order.
pub open spec fn pruned_paths(prune: PruneView) -> Seq<Components>
    decreases prune.order.len() - prune.next,
    when prune.next <= prune.order.len()
    via pruned_paths_decreases
{
    if prune.next >= prune.order.len() {
        seq![]
    } else {
        seq![prune.order[prune.next as int].path] + pruned_paths(attempted(prune, true))
    }
}

/// Pruning after every removal has succeeded.
pub open spec fn fully_pruned(prune: PruneView) -> PruneView
    decreases prune.order.len() - prune.next,
    when prune.next <= prune.order.len()
    via fully_pruned_decreases
{
    if prune.next >= prune.order.len() {
        prune
    } else {
        fully_pruned(attempted(prune, true))
    }
}

#[via_fn]
proof fn pruned_paths_decreases(prune: PruneView) {
    if prune.next < prune.order.len() {
        let after = attempted(prune, true);
        lemma_seek(prune.root, prune.order, prune.held, after.gone, prune.next + 1);
    }
}

#[via_fn]
proof fn fully_pruned_decreases(prune: PruneView) {
    if prune.next < prune.order.len() {
        let after = attempted(prune, true);
        lemma_seek(prune.root, prune.order, prune.held, after.gone, prune.next + 1);
    }
}

pub(crate) proof fn lemma_seek(
    root: Components,
    order: Seq<DirScanView>,
    held: Set<Components>,
    gone: Set<Components>,
    i: nat,
)
    requires
        i <= order.len(),
    ensures
        i <= seek(root, order, held, gone, i) <= order.len(),
        seek(root, order, held, gone, i) < order.len() ==> prunable(
            root,
            order[seek(root, order, held, gone, i) as int],
            held,
            gone,
        ),
        forall|j: int|
            i <= j < seek(root, order, held, gone, i) ==> !prunable(
                root,
                #[trigger] order[j],
                held,
                gone,
            ),
    decreases order.len() - i,
{
    if i < order.len() && !prunable(root, order[i as int], held, gone) {
        lemma_seek(root, order, held, gone, i + 1);
    }
}

/// What is known to stay in a tree that has been read: the files that could not
/// be removed and, in a dry run, the files that are wanted, which may not be
/// there yet.
pub open spec fn staying(
    tree: TreeScanView,
    unremoved: Set<Components>,
    dry_run: bool,
) -> Set<Components> {
    if dry_run {
        tree.keep.union(unremoved)
    } else {
        unremoved
    }
}

/// The pruning of a tree that has been read and whose unwanted files are gone but
/// for `unremoved`, before any directory has been removed.
pub open spec fn pruning_start(
    tree: TreeScanView,
    unremoved: Set<Components>,
    dry_run: bool,
) -> PruneView {
    unpruned(tree.root, tree.scans, above(staying(tree, unremoved, dry_run)))
}

/// The line that announces the removal of a directory.
pub open spec fn prune_line(path: Components, dry_run: bool) -> Seq<char> {
    if dry_run {
        "would prune  "@ + shown_path(path)
    } else {
        "prune  "@ + shown_path(path)
    }
}

/// What an attempt to remove a directory gave.
#[derive(Debug)]
pub enum RmdirReply {
    /// The directory is gone.
    Removed,
    /// The directory had vanished or was not empty after all; it is left to the
    /// next run.
    Left,
    /// Any other failure.
    Failed(String),
}

/// The pruning of a tree.
pub struct Prune {
    root: TreePath,
    scans: Vec<DirScan>,
    order: Vec<usize>,
    next: usize,
    held: PathSet,
    gone: PathSet,
    removed: usize,
}

/// The scans that positions name.
spec fn picked(scans: Seq<DirScanView>, order: Seq<usize>) -> Seq<DirScanView> {
    Seq::new(order.len(), |i: int| scans[order[i] as int])
}

impl View for Prune {
    type V = PruneView;

    closed spec fn view(&self) -> PruneView {
        PruneView {
            root: self.root@,
            order: picked(scan_views(self.scans@), self.order@),
            next: self.next as nat,
            held: self.held@,
            gone: self.gone@,
            removed: self.removed as nat,
        }
    }
}

/// Says whether a directory is to be removed.
fn is_prunable(root: &TreePath, scan: &DirScan, held: &PathSet, gone: &PathSet) -> (yes: bool)
    ensures
        yes == prunable(root@, scan@, held@, gone@),
{
    if scan.path().same(root) || !scan.keeps_nothing() || held.contains(scan.path()) {
        return false;
    }
    let subdirs = scan.subdirs();
    let mut i: usize = 0;
    while i < subdirs.len()
        invariant
            i <= subdirs@.len(),
            path_views(subdirs@) == scan@.subdirs,
            forall|j: int| 0 <= j < i ==> gone@.contains(#[trigger] scan@.subdirs[j]),
        decreases subdirs.len() - i,
    {
        assert(path_views(subdirs@)[i as int] == subdirs@[i as int]@);
        if !gone.contains(&subdirs[i]) {
            return false;
        }
        i = i + 1;
    }
    true
}

/// Finds the next directory to remove.
fn find_next(
    root: &TreePath,
    scans: &Vec<DirScan>,
    order: &Vec<usize>,
    held: &PathSet,
    gone: &PathSet,
    start: usize,
) -> (next: usize)
    requires
        start <= order@.len(),
        forall|i: int| 0 <= i < order@.len() ==> (#[trigger] order@[i]) < scans@.len(),
    ensures
        next == seek(root@, picked(scan_views(scans@), order@), held@, gone@, start as nat),
        start <= next <= order@.len(),
{
    let ghost all = picked(scan_views(scans@), order@);
    let mut i: usize = start;
    while i < order.len()
        invariant
            start <= i <= order@.len(),
            all == picked(scan_views(scans@), order@),
            forall|j: int| 0 <= j < order@.len() ==> (#[trigger] order@[j]) < scans@.len(),
            seek(root@, all, held@, gone@, start as nat) == seek(
                root@,
                all,
                held@,
                gone@,
                i as nat,
            ),
        decreases order.len() - i,
    {
        assert(all[i as int] == scans@[order@[i as int] as int]@);
        if is_prunable(root, &scans[order[i]], held, gone) {
            return i;
        }
        i = i + 1;
    }
    i
}

/// Lists positions of scans by depth, deepest first.
fn deepest_order(scans: &Vec<DirScan>) -> (order: Vec<usize>)
    ensures
        forall|i: int| 0 <= i < order@.len() ==> (#[trigger] order@[i]) < scans@.len(),
        picked(scan_views(scans@), order@) == deepest_first(scan_views(scans@)),
        order@.len() == scans@.len(),
{
    let ghost all = scan_views(scans@);
    let mut deepest: usize = 0;
    let mut i: usize = 0;
    assert(all.take(0) =~= seq![]);
    while i < scans.len()
        invariant
            i <= scans@.len(),
            all == scan_views(scans@),
            deepest == max_depth(all.take(i as int)),
        decreases scans.len() - i,
    {
        assert(all.take(i + 1).drop_last() =~= all.take(i as int));
        let depth = scans[i].path().depth();
        if depth > deepest {
            deepest = depth;
        }
        i = i + 1;
    }
    assert(all.take(i as int) =~= all);
    let mut order: Vec<usize> = Vec::new();
    let mut depth: usize = deepest;
    let mut more = true;
    assert(picked(all, order@) =~= seq![]);
    assert(picked(all, order@) + from_depth(all, depth as nat) =~= from_depth(all, depth as nat));
    while more
        invariant
            all == scan_views(scans@),
            forall|n: int| 0 <= n < order@.len() ==> (#[trigger] order@[n]) < scans@.len(),
            more ==> picked(all, order@) + from_depth(all, depth as nat) == from_depth(
                all,
                deepest as nat,
            ),
            !more ==> picked(all, order@) == from_depth(all, deepest as nat),
        decreases
                (if more {
                    depth + 1
                } else {
                    0
                }),
    {
        let ghost before = picked(all, order@);
        let mut k: usize = 0;
        assert(before + at_depth(all.take(0), depth as nat) =~= before);
        while k < scans.len()
            invariant
                k <= scans@.len(),
                all == scan_views(scans@),
                forall|n: int| 0 <= n < order@.len() ==> (#[trigger] order@[n]) < scans@.len(),
                picked(all, order@) == before + at_depth(all.take(k as int), depth as nat),
            decreases scans.len() - k,
        {
            assert(all.take(k + 1).drop_last() =~= all.take(k as int));
            if scans[k].path().depth() == depth {
                let ghost earlier = order@;
                order.push(k);
                assert(picked(all, order@) =~= picked(all, earlier).push(all[k as int]));
                assert((before + at_depth(all.take(k as int), depth as nat)).push(all[k as int])
                    =~= before + at_depth(all.take(k as int), depth as nat).push(all[k as int]));
            }
            k = k + 1;
        }
        assert(all.take(k as int) =~= all);
        if depth == 0 {
            more = false;
        } else {
            assert(before + at_depth(all, depth as nat) + from_depth(all, (depth - 1) as nat)
                =~= before + (at_depth(all, depth as nat) + from_depth(all, (depth - 1) as nat)));
            depth = depth - 1;
        }
    }
    proof {
        lemma_deepest_len(all);
        assert(picked(all, order@).len() == order@.len());
    }
    order
}

/// Ordering by depth loses no scan and repeats none.
proof fn lemma_deepest_len(scans: Seq<DirScanView>)
    ensures
        deepest_first(scans).len() == scans.len(),
{
    lemma_from_depth_len(scans, max_depth(scans));
}

proof fn lemma_from_depth_len(scans: Seq<DirScanView>, depth: nat)
    requires
        max_depth(scans) <= depth,
    ensures
        from_depth(scans, depth).len() == scans.len(),
    decreases scans.len(),
{
    if scans.len() == 0 {
        lemma_from_depth_empty(scans, depth);
    } else {
        lemma_from_depth_len(scans.drop_last(), depth);
        lemma_from_depth_push(scans, depth);
    }
}

proof fn lemma_from_depth_empty(scans: Seq<DirScanView>, depth: nat)
    requires
        scans.len() == 0,
    ensures
        from_depth(scans, depth).len() == 0,
    decreases depth,
{
    if depth > 0 {
        lemma_from_depth_empty(scans, (depth - 1) as nat);
    }
}

proof fn lemma_from_depth_push(scans: Seq<DirScanView>, depth: nat)
    requires
        scans.len() > 0,
    ensures
        from_depth(scans, depth).len() == from_depth(scans.drop_last(), depth).len() + (if scans.last().path.len()
            <= depth {
            1int
        } else {
            0
        }),
    decreases depth,
{
    if depth > 0 {
        lemma_from_depth_push(scans, (depth - 1) as nat);
    }
}

/// The line that announces the removal of a directory.
fn announce(path: &TreePath, dry_run: bool) -> (line: String)
    ensures
        line@ == prune_line(path@, dry_run),
{
    let mut line = if dry_run {
        "would prune  ".to_owned()
    } else {
        "prune  ".to_owned()
    };
    line.append(path.display().as_str());
    line
}

/// Starts to prune a tree that has been read and whose unwanted files are gone but
/// for `unremoved`.
///
/// A dry run goes through the whole pass here, taking every removal for done,
/// and leaves no directory to remove. The lines that announce what would be
/// removed come with it.
pub fn start_prune(tree: TreeScan, unremoved: &PathSet, dry_run: bool) -> (started: (
    Prune,
    Vec<String>,
))
    ensures
        started.0@ == (if dry_run {
            fully_pruned(pruning_start(tree@, unremoved@, dry_run))
        } else {
            pruning_start(tree@, unremoved@, dry_run)
        }),
        started.0@.order.len() == tree@.scans.len(),
        texts(started.1@) == (if dry_run {
            pruned_paths(pruning_start(tree@, unremoved@, dry_run)).map_values(
                |path: Components| prune_line(path, true),
            )
        } else {
            seq![]
        }),
{
    let (root, keep, scans) = tree.into_parts();
    let held = if dry_run {
        keep.union(unremoved).above()
    } else {
        unremoved.above()
    };
    let order = deepest_order(&scans);
    let gone = PathSet::empty();
    let next = find_next(&root, &scans, &order, &held, &gone, 0);
    let mut prune = Prune { root, scans, order, next, held, gone, removed: 0 };
    let mut lines: Vec<String> = Vec::new();
    let ghost start = prune@;
    assert(start == pruning_start(tree@, unremoved@, dry_run));
    assert(start.order.len() == tree@.scans.len());
    assert(texts(lines@) =~= seq![]);
    if dry_run {
        let ghost to_line = |path: Components| prune_line(path, true);
        let ghost mut done: Seq<Components> = seq![];
        proof {
            assert(done + pruned_paths(prune@) =~= pruned_paths(prune@));
            use_type_invariant(&prune);
            assert(texts(lines@) =~= done.map_values(to_line));
        }
        while prune.next < prune.order.len()
            invariant
                prune@.next <= prune@.order.len(),
                prune@.order == start.order,
                fully_pruned(prune@) == fully_pruned(start),
                done + pruned_paths(prune@) == pruned_paths(start),
                to_line == |path: Components| prune_line(path, true),
                texts(lines@) == done.map_values(to_line),
            decreases prune@.order.len() - prune@.next,
        {
            let ghost before = prune@;
            let ghost path = before.order[before.next as int].path;
            proof {
                use_type_invariant(&prune);
                lemma_seek(
                    before.root,
                    before.order,
                    before.held,
                    attempted(before, true).gone,
                    before.next + 1,
                );
            }
            let ghost lines_before = lines@;
            lines.push(announce(prune.scans[prune.order[prune.next]].path(), true));
            assert(texts(lines@) =~= texts(lines_before).push(to_line(path)));
            assert(done.push(path).map_values(to_line) =~= done.map_values(to_line).push(
                to_line(path),
            ));
            prune = prune.passed(true);
            proof {
                assert(done + (seq![path] + pruned_paths(prune@)) =~= done.push(path)
                    + pruned_paths(prune@));
                done = done.push(path);
            }
        }
        proof {
            assert(pruned_paths(prune@) =~= seq![]);
            assert(done =~= pruned_paths(start));
        }
    }
    (prune, lines)
}

impl Prune {
    /// Positions name scans, and the next directory is one to remove.
    #[verifier::type_invariant]
    spec fn consistent(self) -> bool {
        &&& forall|i: int| 0 <= i < self.order@.len() ==> (#[trigger] self.order@[i]) < self.scans@.len()
        &&& self.removed <= self.next <= self.order@.len()
    }

    /// The next directory to remove; none when pruning is over.
    pub fn pending(&self) -> (dir: Option<&TreePath>)
        ensures
            match dir {
                Some(dir) => self@.next < self@.order.len() && dir@
                    == self@.order[self@.next as int].path,
                None => self@.next >= self@.order.len(),
            },
    {
        proof {
            use_type_invariant(self);
        }
        if self.next < self.order.len() {
            Some(self.scans[self.order[self.next]].path())
        } else {
            None
        }
    }

    /// Goes on after an attempt to remove the next directory.
    fn passed(self, done: bool) -> (prune: Prune)
        requires
            self@.next < self@.order.len(),
        ensures
            prune@ == attempted(self@, done),
    {
        proof {
            use_type_invariant(&self);
        }
        let Prune { root, scans, order, next, held, mut gone, mut removed } = self;
        assert(next < order.len());
        if done {
            gone = gone.with(scans[order[next]].path().clone());
            removed = removed + 1;
        }
        let next = find_next(&root, &scans, &order, &held, &gone, next + 1);
        Prune { root, scans, order, next, held, gone, removed }
    }

    /// Takes the outcome of removing the next directory. With `verbose`, a
    /// removal comes with the line that announces it.
    pub fn record(self, reply: RmdirReply, verbose: bool) -> (result: Result<
        (Prune, Option<String>),
        String,
    >)
        requires
            self@.next < self@.order.len(),
        ensures
            match reply {
                RmdirReply::Removed => {
                    &&& result matches Ok((prune, line))
                    &&& prune@ == attempted(self@, true)
                    &&& line is Some <==> verbose
                    &&& line matches Some(line) ==> line@ == prune_line(
                        self@.order[self@.next as int].path,
                        false,
                    )
                },
                RmdirReply::Left => {
                    &&& result matches Ok((prune, line))
                    &&& prune@ == attempted(self@, false)
                    &&& line is None
                },
                RmdirReply::Failed(cause) => {
                    &&& result matches Err(line)
                    &&& line@ == "remove empty directory "@ + shown_path(
                        self@.order[self@.next as int].path,
                    ) + ": "@ + cause@
                },
            },
    {
        proof {
            use_type_invariant(&self);
        }
        match reply {
            RmdirReply::Removed => {
                let line = if verbose {
                    Some(announce(self.scans[self.order[self.next]].path(), false))
                } else {
                    None
                };
                Ok((self.passed(true), line))
            },
            RmdirReply::Left => Ok((self.passed(false), None)),
            RmdirReply::Failed(cause) => Err(
                problem_line(
                    "remove empty directory ",
                    self.scans[self.order[self.next]].path(),
                    cause.as_str(),
                ),
            ),
        }
    }

    /// The number of directories removed.
    pub fn removed_dirs(&self) -> (count: usize)
        ensures
            count == self@.removed,
            count <= self@.order.len(),
    {
        proof {
            use_type_invariant(self);
        }
        self.removed
    }
}

} // verus!
