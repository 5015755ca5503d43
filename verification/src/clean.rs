//! Clearing an output tree of what nothing wants.
//!
//! The tree is read once, level by level. Files that are not wanted are
//! removed, then the directories left empty, deepest first. Directories named
//! `.stfolder` belong to a file synchroniser: they are neither read nor removed.

use vstd::prelude::*;
use vstd::string::*;
use vstd::utf8::*;

use crate::path::{copy_paths, path_views, same_bytes, shown_path, Components, TreePath};
use crate::path_set::PathSet;
use crate::stats::texts;
use crate::walk::{
    item_view, listing_view, listing_views, problem_line, unknown_type, unreadable_dir,
    unreadable_item, Kind, Listed, ListedView, Listing, ListingView,
};

verus! {

/// The file name of a synchroniser's marker directory.
pub open spec fn stfolder_name() -> Seq<u8> {
    encode_utf8(".stfolder"@)
}

/// What reading one directory of an output tree told.
#[derive(Debug)]
pub struct DirScan {
    /// The directory.
    path: TreePath,
    /// Number of entries that stay: wanted files, special files and marker
    /// directories.
    kept_entries: usize,
    /// Directories to read in turn.
    subdirs: Vec<TreePath>,
    /// Regular files to remove.
    remove_files: Vec<TreePath>,
}

/// The contents of a [`DirScan`].
pub struct DirScanView {
    pub path: Components,
    pub kept: nat,
    pub subdirs: Seq<Components>,
    pub unwanted: Seq<Components>,
}

impl View for DirScan {
    type V = DirScanView;

    closed spec fn view(&self) -> DirScanView {
        DirScanView {
            path: self.path@,
            kept: self.kept_entries as nat,
            subdirs: path_views(self.subdirs@),
            unwanted: path_views(self.remove_files@),
        }
    }
}

impl DirScan {
    /// The directory.
    pub fn path(&self) -> (path: &TreePath)
        ensures
            path@ == self@.path,
    {
        &self.path
    }

    /// True when no entry but directories to read and files to remove was seen.
    pub fn keeps_nothing(&self) -> (bare: bool)
        ensures
            bare == (self@.kept == 0),
    {
        self.kept_entries == 0
    }

    /// The directories to read in turn.
    pub fn subdirs(&self) -> (subdirs: &Vec<TreePath>)
        ensures
            path_views(subdirs@) == self@.subdirs,
    {
        &self.subdirs
    }
}

/// The contents of each scan in a list.
pub open spec fn scan_views(scans: Seq<DirScan>) -> Seq<DirScanView> {
    Seq::new(scans.len(), |i: int| scans[i]@)
}

/// A scan that has seen no entry of `dir`.
pub open spec fn blank_scan(dir: Components) -> DirScanView {
    DirScanView { path: dir, kept: 0, subdirs: seq![], unwanted: seq![] }
}

/// A scan with one more entry: an ordinary directory is to be read, a regular
/// file that is not wanted is to be removed, everything else stays.
pub open spec fn with_entry(
    scan: DirScanView,
    name: Seq<u8>,
    kind: Kind,
    keep: Set<Components>,
) -> DirScanView {
    let path = scan.path.push(name);
    match kind {
        Kind::Dir => if name == stfolder_name() {
            DirScanView { kept: scan.kept + 1, ..scan }
        } else {
            DirScanView { subdirs: scan.subdirs.push(path), ..scan }
        },
        Kind::File => if keep.contains(path) {
            DirScanView { kept: scan.kept + 1, ..scan }
        } else {
            DirScanView { unwanted: scan.unwanted.push(path), ..scan }
        },
        Kind::Other => DirScanView { kept: scan.kept + 1, ..scan },
    }
}

/// The scan of a directory with these items, or the first problem among them.
pub open spec fn scanned_items(
    dir: Components,
    items: Seq<Result<ListedView, Seq<char>>>,
    keep: Set<Components>,
) -> Result<DirScanView, Seq<char>>
    decreases items.len(),
{
    if items.len() == 0 {
        Ok(blank_scan(dir))
    } else {
        match scanned_items(dir, items.drop_last(), keep) {
            Err(line) => Err(line),
            Ok(scan) => match items.last() {
                Err(cause) => Err(unreadable_item(dir, cause)),
                Ok(listed) => match listed.kind {
                    Err(cause) => Err(unknown_type(dir.push(listed.name), cause)),
                    Ok(kind) => Ok(with_entry(scan, listed.name, kind, keep)),
                },
            },
        }
    }
}

/// The scan of a directory with this listing, or the first problem.
pub open spec fn scanned(dir: Components, listing: ListingView, keep: Set<Components>) -> Result<
    DirScanView,
    Seq<char>,
> {
    match listing {
        Err(cause) => Err(unreadable_dir(dir, cause)),
        Ok(items) => scanned_items(dir, items, keep),
    }
}

/// The scans of several directories, or the first problem.
pub open spec fn scanned_all(
    dirs: Seq<Components>,
    listings: Seq<ListingView>,
    keep: Set<Components>,
) -> Result<Seq<DirScanView>, Seq<char>>
    decreases dirs.len(),
{
    if dirs.len() == 0 {
        Ok(seq![])
    } else {
        match scanned_all(dirs.drop_last(), listings.drop_last(), keep) {
            Err(line) => Err(line),
            Ok(scans) => match scanned(dirs.last(), listings.last(), keep) {
                Err(line) => Err(line),
                Ok(scan) => Ok(scans.push(scan)),
            },
        }
    }
}

/// The directories that scans say are to be read.
pub open spec fn subdirs_of(scans: Seq<DirScanView>) -> Seq<Components>
    decreases scans.len(),
{
    if scans.len() == 0 {
        seq![]
    } else {
        subdirs_of(scans.drop_last()) + scans.last().subdirs
    }
}

/// The files that scans say are to be removed.
pub open spec fn unwanted_in(scans: Seq<DirScanView>) -> Seq<Components>
    decreases scans.len(),
{
    if scans.len() == 0 {
        seq![]
    } else {
        unwanted_in(scans.drop_last()) + scans.last().unwanted
    }
}

/// Once a problem has come up, later items change nothing.
proof fn lemma_scan_stops(
    dir: Components,
    items: Seq<Result<ListedView, Seq<char>>>,
    keep: Set<Components>,
    n: int,
)
    requires
        0 <= n <= items.len(),
        scanned_items(dir, items.take(n), keep) is Err,
    ensures
        scanned_items(dir, items, keep) == scanned_items(dir, items.take(n), keep),
    decreases items.len() - n,
{
    if n == items.len() {
        assert(items.take(n) =~= items);
    } else {
        assert(items.take(n + 1).drop_last() =~= items.take(n));
        lemma_scan_stops(dir, items, keep, n + 1);
    }
}

/// Once a problem has come up, later directories change nothing.
proof fn lemma_scans_stop(
    dirs: Seq<Components>,
    listings: Seq<ListingView>,
    keep: Set<Components>,
    n: int,
)
    requires
        0 <= n <= dirs.len() == listings.len(),
        scanned_all(dirs.take(n), listings.take(n), keep) is Err,
    ensures
        scanned_all(dirs, listings, keep) == scanned_all(dirs.take(n), listings.take(n), keep),
    decreases dirs.len() - n,
{
    if n == dirs.len() {
        assert(dirs.take(n) =~= dirs);
        assert(listings.take(n) =~= listings);
    } else {
        assert(dirs.take(n + 1).drop_last() =~= dirs.take(n));
        assert(listings.take(n + 1).drop_last() =~= listings.take(n));
        lemma_scans_stop(dirs, listings, keep, n + 1);
    }
}

/// Judges the entries of one directory of an output tree. The first entry that
/// could not be read ends the scan.
pub fn scan_dir(dir: &TreePath, listing: Listing, keep: &PathSet) -> (result: Result<
    DirScan,
    String,
>)
    ensures
        match result {
            Ok(scan) => scanned(dir@, listing_view(listing), keep@) == Ok::<
                DirScanView,
                Seq<char>,
            >(scan@),
            Err(line) => scanned(dir@, listing_view(listing), keep@) == Err::<
                DirScanView,
                Seq<char>,
            >(line@),
        },
{
    let items = match listing {
        Ok(items) => items,
        Err(cause) => return Err(problem_line("read directory ", dir, cause.as_str())),
    };
    let ghost views = Seq::new(items@.len(), |i: int| item_view(items@[i]));
    let mut scan = DirScan {
        path: dir.clone(),
        kept_entries: 0,
        subdirs: Vec::new(),
        remove_files: Vec::new(),
    };
    let count = items.len();
    assert(path_views(scan.subdirs@) =~= seq![]);
    assert(path_views(scan.remove_files@) =~= seq![]);
    assert(views.take(0) =~= seq![]);
    for item in it: items
        invariant
            it.seq() == items@,
            count == items@.len(),
            views == Seq::new(items@.len(), |i: int| item_view(items@[i])),
            listing_view(listing) == Ok::<Seq<Result<ListedView, Seq<char>>>, Seq<char>>(views),
            scan.kept_entries <= it.index(),
            scan.path@ == dir@,
            scanned_items(dir@, views.take(it.index()), keep@) == Ok::<DirScanView, Seq<char>>(
                scan@,
            ),
    {
        let ghost i = it.index();
        let ghost before = scan;
        proof {
            assert(views.take(i + 1).drop_last() =~= views.take(i));
            assert(views.take(i + 1).last() == item_view(item));
        }
        let listed = match item {
            Ok(listed) => listed,
            Err(cause) => {
                proof {
                    lemma_scan_stops(dir@, views, keep@, i + 1);
                }
                return Err(problem_line("read directory entry in ", dir, cause.as_str()));
            },
        };
        let Listed { name, kind } = listed;
        let path = dir.child(&name);
        let kind = match kind {
            Ok(kind) => kind,
            Err(cause) => {
                proof {
                    lemma_scan_stops(dir@, views, keep@, i + 1);
                }
                return Err(problem_line("stat ", &path, cause.as_str()));
            },
        };
        match kind {
            Kind::Dir => {
                if same_bytes(name.as_slice(), ".stfolder".as_bytes()) {
                    scan.kept_entries = scan.kept_entries + 1;
                } else {
                    scan.subdirs.push(path);
                    assert(path_views(scan.subdirs@) =~= path_views(before.subdirs@).push(path@));
                }
            },
            Kind::File => {
                if keep.contains(&path) {
                    scan.kept_entries = scan.kept_entries + 1;
                } else {
                    scan.remove_files.push(path);
                    assert(path_views(scan.remove_files@) =~= path_views(
                        before.remove_files@,
                    ).push(path@));
                }
            },
            Kind::Other => {
                scan.kept_entries = scan.kept_entries + 1;
            },
        }
    }
    assert(views.take(views.len() as int) =~= views);
    Ok(scan)
}

/// An output tree being read.
pub struct TreeScan {
    root: TreePath,
    keep: PathSet,
    scans: Vec<DirScan>,
    level: Vec<TreePath>,
}

/// The contents of a [`TreeScan`].
pub struct TreeScanView {
    /// The root of the tree.
    pub root: Components,
    /// The files that are wanted.
    pub keep: Set<Components>,
    /// The directories read so far, in reading order.
    pub scans: Seq<DirScanView>,
    /// The directories to read next.
    pub level: Seq<Components>,
}

impl View for TreeScan {
    type V = TreeScanView;

    closed spec fn view(&self) -> TreeScanView {
        TreeScanView {
            root: self.root@,
            keep: self.keep@,
            scans: scan_views(self.scans@),
            level: path_views(self.level@),
        }
    }
}

/// A tree of which nothing has been read. A root that is no directory leaves
/// nothing to read.
pub open spec fn unread_tree(root: Components, keep: Set<Components>, is_dir: bool) -> TreeScanView {
    TreeScanView {
        root,
        keep,
        scans: seq![],
        level: if is_dir {
            seq![root]
        } else {
            seq![]
        },
    }
}

/// A tree after the directories of its level have been read, or the first
/// problem.
pub open spec fn read_level(tree: TreeScanView, listings: Seq<ListingView>) -> Result<
    TreeScanView,
    Seq<char>,
> {
    match scanned_all(tree.level, listings, tree.keep) {
        Err(line) => Err(line),
        Ok(scans) => Ok(
            TreeScanView { scans: tree.scans + scans, level: subdirs_of(scans), ..tree },
        ),
    }
}

/// Starts to reconcile the tree at `root`, in which the files of `keep` are
/// wanted. `is_dir` tells whether `root` is a directory.
pub fn reconcile_tree(root: &TreePath, keep: PathSet, is_dir: bool) -> (tree: TreeScan)
    ensures
        tree@ == unread_tree(root@, keep@, is_dir),
{
    let mut level: Vec<TreePath> = Vec::new();
    if is_dir {
        level.push(root.clone());
    }
    let tree = TreeScan { root: root.clone(), keep, scans: Vec::new(), level };
    assert(tree@.scans =~= seq![]);
    assert(tree@.level =~= unread_tree(root@, keep@, is_dir).level);
    tree
}

/// The line that announces the removal of a file.
pub open spec fn removal_line(path: Components, dry_run: bool) -> Seq<char> {
    if dry_run {
        "would remove  "@ + shown_path(path)
    } else {
        "remove  "@ + shown_path(path)
    }
}

/// A file that is not wanted.
#[derive(Debug)]
pub struct Removal {
    /// The file.
    pub path: TreePath,
    /// The line that announces its removal, where lines are asked for or nothing
    /// is written.
    pub line: Option<String>,
    /// True when the file is to be deleted, false in a dry run.
    pub delete: bool,
}

/// The paths of removals.
pub open spec fn removal_paths(removals: Seq<Removal>) -> Seq<Components> {
    Seq::new(removals.len(), |i: int| removals[i].path@)
}

impl TreeScan {
    /// The directories to read next; none when the tree has been read.
    pub fn level(&self) -> (level: &Vec<TreePath>)
        ensures
            path_views(level@) == self@.level,
    {
        &self.level
    }

    /// Takes the listings of the directories of the level, in their order.
    pub fn advance(self, listings: Vec<Listing>) -> (result: Result<TreeScan, String>)
        requires
            listings@.len() == self@.level.len(),
        ensures
            match result {
                Ok(tree) => read_level(self@, listing_views(listings@)) == Ok::<
                    TreeScanView,
                    Seq<char>,
                >(tree@),
                Err(line) => read_level(self@, listing_views(listings@)) == Err::<
                    TreeScanView,
                    Seq<char>,
                >(line@),
            },
    {
        let TreeScan { root, keep, mut scans, level } = self;
        let mut next: Vec<TreePath> = Vec::new();
        let ghost dirs = path_views(level@);
        let ghost views = listing_views(listings@);
        let ghost before = scan_views(scans@);
        let ghost mut added: Seq<DirScanView> = seq![];
        let mut k: usize = 0;
        assert(dirs.take(0) =~= seq![]);
        assert(before =~= before + added);
        assert(path_views(next@) =~= subdirs_of(added));
        for listing in it: listings
            invariant
                it.seq() == listings@,
                k == it.index(),
                listings@.len() == level@.len(),
                dirs == path_views(level@),
                views == listing_views(listings@),
                dirs == self@.level,
                keep@ == self@.keep,
                scanned_all(dirs.take(k as int), views.take(k as int), keep@) == Ok::<
                    Seq<DirScanView>,
                    Seq<char>,
                >(added),
                scan_views(scans@) == before + added,
                path_views(next@) == subdirs_of(added),
        {
            proof {
                assert(dirs.take(k + 1).drop_last() =~= dirs.take(k as int));
                assert(views.take(k + 1).drop_last() =~= views.take(k as int));
            }
            match scan_dir(&level[k], listing, &keep) {
                Ok(scan) => {
                    let ghost scans_before = scans@;
                    let ghost next_before = next@;
                    let mut subdirs = copy_paths(&scan.subdirs);
                    proof {
                        assert(added.push(scan@).drop_last() =~= added);
                        assert(scan_views(scans_before.push(scan)) =~= scan_views(
                            scans_before,
                        ).push(scan@));
                        assert((before + added).push(scan@) =~= before + added.push(scan@));
                        assert(path_views(next_before + subdirs@) =~= path_views(next_before)
                            + scan@.subdirs);
                        added = added.push(scan@);
                    }
                    next.append(&mut subdirs);
                    scans.push(scan);
                },
                Err(line) => {
                    proof {
                        lemma_scans_stop(dirs, views, keep@, k + 1);
                    }
                    return Err(line);
                },
            }
            assert(k < level.len());
            k = k + 1;
        }
        assert(dirs.take(k as int) =~= dirs);
        assert(views.take(k as int) =~= views);
        Ok(TreeScan { root, keep, scans, level: next })
    }

    /// The number of directories read.
    pub fn scan_count(&self) -> (count: usize)
        ensures
            count == self@.scans.len(),
    {
        self.scans.len()
    }

    /// The root of the tree, the files wanted in it, and the directories read, in
    /// reading order.
    pub fn into_parts(self) -> (parts: (TreePath, PathSet, Vec<DirScan>))
        ensures
            parts.0@ == self@.root,
            parts.1@ == self@.keep,
            scan_views(parts.2@) == self@.scans,
    {
        (self.root, self.keep, self.scans)
    }

    /// The files of the tree that are not wanted. In a dry run none of them is
    /// to be deleted.
    pub fn removals(&self, dry_run: bool, verbose: bool) -> (removals: Vec<Removal>)
        ensures
            removal_paths(removals@) == unwanted_in(self@.scans),
            forall|i: int|
                0 <= i < removals@.len() ==> {
                    &&& (#[trigger] removals@[i]).delete == !dry_run
                    &&& removals@[i].line is Some <==> verbose || dry_run
                    &&& removals@[i].line matches Some(line) ==> line@ == removal_line(
                        removals@[i].path@,
                        dry_run,
                    )
                },
    {
        let mut removals: Vec<Removal> = Vec::new();
        let ghost scans = self@.scans;
        let mut i: usize = 0;
        assert(scans.take(0) =~= seq![]);
        assert(removal_paths(removals@) =~= unwanted_in(scans.take(0)));
        while i < self.scans.len()
            invariant
                i <= self.scans@.len(),
                scans == scan_views(self.scans@),
                removal_paths(removals@) == unwanted_in(scans.take(i as int)),
                forall|n: int|
                    0 <= n < removals@.len() ==> {
                        &&& (#[trigger] removals@[n]).delete == !dry_run
                        &&& removals@[n].line is Some <==> verbose || dry_run
                        &&& removals@[n].line matches Some(line) ==> line@ == removal_line(
                            removals@[n].path@,
                            dry_run,
                        )
                    },
            decreases self.scans.len() - i,
        {
            let files = &self.scans[i].remove_files;
            let ghost before = removal_paths(removals@);
            let ghost views = path_views(files@);
            let mut j: usize = 0;
            assert(before + views.take(0) =~= before);
            while j < files.len()
                invariant
                    j <= files@.len(),
                    views == path_views(files@),
                    removal_paths(removals@) == before + views.take(j as int),
                    forall|n: int|
                        0 <= n < removals@.len() ==> {
                            &&& (#[trigger] removals@[n]).delete == !dry_run
                            &&& removals@[n].line is Some <==> verbose || dry_run
                            &&& removals@[n].line matches Some(line) ==> line@ == removal_line(
                                removals@[n].path@,
                                dry_run,
                            )
                        },
                decreases files.len() - j,
            {
                let path = files[j].clone();
                let line = if verbose || dry_run {
                    let mut line = if dry_run {
                        "would remove  ".to_owned()
                    } else {
                        "remove  ".to_owned()
                    };
                    line.append(path.display().as_str());
                    Some(line)
                } else {
                    None
                };
                let ghost earlier = removals@;
                removals.push(Removal { path, line, delete: !dry_run });
                proof {
                    assert(removal_paths(removals@) =~= removal_paths(earlier).push(path@));
                    assert(views.take(j + 1) =~= views.take(j as int).push(path@));
                    assert(before + views.take(j + 1) =~= (before + views.take(j as int)).push(
                        path@,
                    ));
                }
                j = j + 1;
            }
            proof {
                assert(views.take(j as int) =~= views);
                assert(scans.take(i + 1).drop_last() =~= scans.take(i as int));
                assert(scans.take(i + 1).last() == self.scans@[i as int]@);
            }
            i = i + 1;
        }
        assert(scans.take(i as int) =~= scans);
        removals
    }
}

/// The number of removals that succeeded.
pub open spec fn removed_count(outcomes: Seq<Result<(), String>>) -> nat
    decreases outcomes.len(),
{
    if outcomes.len() == 0 {
        0
    } else {
        let before = removed_count(outcomes.drop_last());
        match outcomes.last() {
            Ok(_) => before + 1,
            Err(_) => before,
        }
    }
}

/// The files whose removal failed.
pub open spec fn unremoved(removals: Seq<Components>, outcomes: Seq<Result<(), String>>) -> Set<
    Components,
>
    decreases removals.len(),
{
    if removals.len() == 0 {
        Set::empty()
    } else {
        let before = unremoved(removals.drop_last(), outcomes.drop_last());
        match outcomes.last() {
            Ok(_) => before,
            Err(_) => before.insert(removals.last()),
        }
    }
}

/// The line for a file that could not be removed.
pub open spec fn removal_failure(path: Components, cause: Seq<char>) -> Seq<char> {
    "remove unwanted file "@ + shown_path(path) + ": "@ + cause
}

/// The lines for the removals that failed, in order.
pub open spec fn removal_failures(
    removals: Seq<Components>,
    outcomes: Seq<Result<(), String>>,
) -> Seq<Seq<char>>
    decreases removals.len(),
{
    if removals.len() == 0 {
        seq![]
    } else {
        let before = removal_failures(removals.drop_last(), outcomes.drop_last());
        match outcomes.last() {
            Ok(_) => before,
            Err(cause) => before.push(removal_failure(removals.last(), cause@)),
        }
    }
}

/// What came of removing files.
pub struct Removed {
    /// The number of files removed.
    pub count: usize,
    /// The files that could not be removed.
    pub unremoved: PathSet,
    /// A line for each of them.
    pub failures: Vec<String>,
}

/// Takes the outcomes of the removals, in their order. One that failed stops no
/// other.
pub fn removed_files(removals: Vec<Removal>, outcomes: Vec<Result<(), String>>) -> (removed:
    Removed)
    requires
        outcomes@.len() == removals@.len(),
    ensures
        removed.count == removed_count(outcomes@),
        removed.count <= removals@.len(),
        removed.unremoved@ == unremoved(removal_paths(removals@), outcomes@),
        texts(removed.failures@) == removal_failures(removal_paths(removals@), outcomes@),
{
    let mut count: usize = 0;
    let mut failed = PathSet::empty();
    let mut failures: Vec<String> = Vec::new();
    let ghost all = removal_paths(removals@);
    let total = removals.len();
    let mut i: usize = 0;
    assert(all.take(0) =~= seq![]);
    assert(outcomes@.take(0) =~= seq![]);
    assert(texts(failures@) =~= removal_failures(all.take(0), outcomes@.take(0)));
    for removal in it: removals
        invariant
            it.seq() == removals@,
            i == it.index(),
            total == removals@.len() == outcomes@.len(),
            all == removal_paths(removals@),
            count <= i,
            count == removed_count(outcomes@.take(i as int)),
            failed@ == unremoved(all.take(i as int), outcomes@.take(i as int)),
            texts(failures@) == removal_failures(all.take(i as int), outcomes@.take(i as int)),
    {
        proof {
            assert(all.take(i + 1).drop_last() =~= all.take(i as int));
            assert(outcomes@.take(i + 1).drop_last() =~= outcomes@.take(i as int));
            assert(all.take(i + 1).last() == removal.path@);
        }
        let Removal { path, line: _, delete: _ } = removal;
        match &outcomes[i] {
            Ok(_) => {
                count = count + 1;
            },
            Err(cause) => {
                let line = problem_line("remove unwanted file ", &path, cause.as_str());
                let ghost before = failures@;
                failures.push(line);
                failed = failed.with(path);
                assert(texts(failures@) =~= texts(before).push(line@));
            },
        }
        assert(i < total);
        i = i + 1;
    }
    assert(all.take(i as int) =~= all);
    assert(outcomes@.take(i as int) =~= outcomes@);
    Removed { count, unremoved: failed, failures }
}

/// What is to be done about the marker directory.
#[derive(Debug)]
pub struct MarkerPlan {
    /// The line that announces its creation, where one is due.
    pub line: Option<String>,
    /// True when it is to be created.
    pub create: bool,
}

/// The line that announces the creation of a marker.
pub open spec fn marker_line(marker: Components, dry_run: bool) -> Seq<char> {
    if dry_run {
        "would create  "@ + shown_path(marker)
    } else {
        "create  "@ + shown_path(marker)
    }
}

/// The marker directory that keeps the best-quality tree from being empty.
pub fn stfolder_marker(max_qual_root: &TreePath) -> (marker: TreePath)
    ensures
        marker@ == max_qual_root@.push(stfolder_name()),
{
    let name = ".stfolder".as_bytes_vec();
    max_qual_root.child(&name)
}

/// Decides about the marker directory of the best-quality tree: an existing one
/// (`is_dir`) is left alone.
pub fn ensure_stfolder(max_qual_root: &TreePath, is_dir: bool, dry_run: bool, verbose: bool) -> (plan:
    MarkerPlan)
    ensures
        plan.create == (!is_dir && !dry_run),
        plan.line is Some <==> !is_dir && (verbose || dry_run),
        plan.line matches Some(line) ==> line@ == marker_line(
            max_qual_root@.push(stfolder_name()),
            dry_run,
        ),
{
    if is_dir {
        return MarkerPlan { line: None, create: false };
    }
    let line = if verbose || dry_run {
        let mut line = if dry_run {
            "would create  ".to_owned()
        } else {
            "create  ".to_owned()
        };
        line.append(stfolder_marker(max_qual_root).display().as_str());
        Some(line)
    } else {
        None
    };
    MarkerPlan { line, create: !dry_run }
}

/// The line for a marker directory that could not be created.
pub fn marker_failure(max_qual_root: &TreePath, cause: &str) -> (line: String)
    ensures
        line@ == "create syncthing marker "@ + shown_path(max_qual_root@.push(stfolder_name()))
            + ": "@ + cause@,
{
    problem_line("create syncthing marker ", &stfolder_marker(max_qual_root), cause)
}

} // verus!
