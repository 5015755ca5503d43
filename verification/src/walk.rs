//! Breadth-first traversal of a directory tree, one level at a time.
//!
//! A [`Walk`] says which directories to read next and takes what reading them
//! gave. Hidden entries count like any other, and symbolic links are entries
//! that are not followed. Excluded trees are left out: nothing in them is read
//! or reported.

use vstd::prelude::*;
use vstd::string::*;

use crate::path::{copy_paths, path_views, shown_path, Components, TreePath};

verus! {

/// What an entry is.
#[derive(Debug, Clone, Copy, PartialEq, Eq, Structural)]
pub enum Kind {
    /// Regular file.
    File,
    /// Directory.
    Dir,
    /// Symbolic link, device, socket, pipe, or anything else.
    Other,
}

/// One entry of a tree.
#[derive(Debug, Clone)]
pub struct Entry {
    /// Path of the entry.
    pub path: TreePath,
    /// The entry's type.
    pub kind: Kind,
}

/// The contents of an [`Entry`].
pub struct EntryView {
    pub path: Components,
    pub kind: Kind,
}

impl View for Entry {
    type V = EntryView;

    open spec fn view(&self) -> EntryView {
        EntryView { path: self.path@, kind: self.kind }
    }
}

/// One item that reading a directory gave: a name and its type, or why the
/// type could not be told.
#[derive(Debug)]
pub struct Listed {
    /// File name of the item, without its directory.
    pub name: Vec<u8>,
    /// Type of the item.
    pub kind: Result<Kind, String>,
}

/// The contents of a [`Listed`] item.
pub struct ListedView {
    pub name: Seq<u8>,
    pub kind: Result<Kind, Seq<char>>,
}

impl View for Listed {
    type V = ListedView;

    open spec fn view(&self) -> ListedView {
        ListedView {
            name: self.name@,
            kind: match self.kind {
                Ok(kind) => Ok(kind),
                Err(cause) => Err(cause@),
            },
        }
    }
}

/// What reading one directory gave: its items, each readable or not, or why the
/// directory could not be read.
pub type Listing = Result<Vec<Result<Listed, String>>, String>;

/// The contents of an item.
pub open spec fn item_view(item: Result<Listed, String>) -> Result<ListedView, Seq<char>> {
    match item {
        Ok(listed) => Ok(listed@),
        Err(cause) => Err(cause@),
    }
}

/// The contents of a listing.
pub type ListingView = Result<Seq<Result<ListedView, Seq<char>>>, Seq<char>>;

/// The contents of a [`Listing`].
pub open spec fn listing_view(listing: Listing) -> ListingView {
    match listing {
        Ok(items) => Ok(Seq::new(items@.len(), |i: int| item_view(items@[i]))),
        Err(cause) => Err(cause@),
    }
}

/// The contents of each listing in a list.
pub open spec fn listing_views(listings: Seq<Listing>) -> Seq<ListingView> {
    Seq::new(listings.len(), |i: int| listing_view(listings[i]))
}

/// The contents of what a walk reports for one item.
pub type SeenView = Result<EntryView, Seq<char>>;

/// The contents of a reported entry or problem.
pub open spec fn seen_view(seen: Result<Entry, String>) -> SeenView {
    match seen {
        Ok(entry) => Ok(entry@),
        Err(line) => Err(line@),
    }
}

/// The contents of a list of reported entries and problems.
pub open spec fn seen_views(seen: Seq<Result<Entry, String>>) -> Seq<SeenView> {
    Seq::new(seen.len(), |i: int| seen_view(seen[i]))
}

/// The line for a directory that could not be read.
pub open spec fn unreadable_dir(dir: Components, cause: Seq<char>) -> Seq<char> {
    "read directory "@ + shown_path(dir) + ": "@ + cause
}

/// The line for an item that could not be read.
pub open spec fn unreadable_item(dir: Components, cause: Seq<char>) -> Seq<char> {
    "read directory entry in "@ + shown_path(dir) + ": "@ + cause
}

/// The line for an entry whose type could not be told.
pub open spec fn unknown_type(path: Components, cause: Seq<char>) -> Seq<char> {
    "stat "@ + shown_path(path) + ": "@ + cause
}

/// True when a path lies in one of the excluded trees.
pub open spec fn is_excluded(path: Components, excluded: Seq<Components>) -> bool {
    exists|i: int| 0 <= i < excluded.len() && (#[trigger] excluded[i]).is_prefix_of(path)
}

/// True when a path lies in one of the excluded trees.
pub(crate) fn excluded_by(path: &TreePath, excluded: &Vec<TreePath>) -> (found: bool)
    ensures
        found == is_excluded(path@, path_views(excluded@)),
{
    let mut i: usize = 0;
    while i < excluded.len()
        invariant
            i <= excluded@.len(),
            forall|j: int| 0 <= j < i ==> !(#[trigger] excluded@[j])@.is_prefix_of(path@),
        decreases excluded.len() - i,
    {
        if path.starts_with(&excluded[i]) {
            assert(path_views(excluded@)[i as int].is_prefix_of(path@));
            return true;
        }
        i = i + 1;
    }
    false
}

/// True when an item of `dir` is none of an excluded tree.
pub open spec fn is_visible(
    dir: Components,
    item: Result<ListedView, Seq<char>>,
    excluded: Seq<Components>,
) -> bool {
    match item {
        Ok(listed) => !is_excluded(dir.push(listed.name), excluded),
        Err(_) => true,
    }
}

/// What an item of `dir` is reported as.
pub open spec fn seen_item(dir: Components, item: Result<ListedView, Seq<char>>) -> SeenView {
    match item {
        Ok(listed) => {
            let path = dir.push(listed.name);
            match listed.kind {
                Ok(kind) => Ok(EntryView { path, kind }),
                Err(cause) => Err(unknown_type(path, cause)),
            }
        },
        Err(cause) => Err(unreadable_item(dir, cause)),
    }
}

/// What the items of `dir` are reported as, in order; those of excluded trees are
/// not.
pub open spec fn seen_items(
    dir: Components,
    items: Seq<Result<ListedView, Seq<char>>>,
    excluded: Seq<Components>,
) -> Seq<SeenView>
    decreases items.len(),
{
    if items.len() == 0 {
        seq![]
    } else {
        let before = seen_items(dir, items.drop_last(), excluded);
        if is_visible(dir, items.last(), excluded) {
            before.push(seen_item(dir, items.last()))
        } else {
            before
        }
    }
}

/// What a listing of `dir` is reported as.
pub open spec fn seen_in(
    dir: Components,
    listing: ListingView,
    excluded: Seq<Components>,
) -> Seq<SeenView> {
    match listing {
        Ok(items) => seen_items(dir, items, excluded),
        Err(cause) => seq![Err(unreadable_dir(dir, cause))],
    }
}

/// The directories among reported entries, in order.
pub open spec fn dirs_among(seen: Seq<SeenView>) -> Seq<Components>
    decreases seen.len(),
{
    if seen.len() == 0 {
        seq![]
    } else {
        let before = dirs_among(seen.drop_last());
        match seen.last() {
            Ok(entry) => if entry.kind == Kind::Dir {
                before.push(entry.path)
            } else {
                before
            },
            Err(_) => before,
        }
    }
}

/// What the listings of several directories are reported as.
pub open spec fn seen_in_all(
    dirs: Seq<Components>,
    listings: Seq<ListingView>,
    excluded: Seq<Components>,
) -> Seq<SeenView>
    decreases dirs.len(),
{
    if dirs.len() == 0 {
        seq![]
    } else {
        seen_in_all(dirs.drop_last(), listings.drop_last(), excluded) + seen_in(
            dirs.last(),
            listings.last(),
            excluded,
        )
    }
}

proof fn lemma_dirs_among_push(seen: Seq<SeenView>, last: SeenView)
    ensures
        dirs_among(seen.push(last)) == (match last {
            Ok(entry) => if entry.kind == Kind::Dir {
                dirs_among(seen).push(entry.path)
            } else {
                dirs_among(seen)
            },
            Err(_) => dirs_among(seen),
        }),
{
    assert(seen.push(last).drop_last() =~= seen);
}

proof fn lemma_dirs_among_concat(a: Seq<SeenView>, b: Seq<SeenView>)
    ensures
        dirs_among(a + b) == dirs_among(a) + dirs_among(b),
    decreases b.len(),
{
    if b.len() == 0 {
        assert(a + b =~= a);
        assert(dirs_among(a) + dirs_among(b) =~= dirs_among(a));
    } else {
        lemma_dirs_among_concat(a, b.drop_last());
        assert((a + b).drop_last() =~= a + b.drop_last());
        assert(dirs_among(a + b) =~= dirs_among(a) + dirs_among(b));
    }
}

/// The line for a problem: what was done, to which path, and the cause.
pub(crate) fn problem_line(what: &str, path: &TreePath, cause: &str) -> (line: String)
    ensures
        line@ == what@ + shown_path(path@) + ": "@ + cause@,
{
    let mut line = what.to_owned();
    line.append(path.display().as_str());
    line.append(": ");
    line.append(cause);
    line
}

/// Reports the items of one directory that no excluded tree holds, and names the
/// directories among them, which are to be read next.
pub fn read_dir_entries(dir: &TreePath, listing: Listing, excluded: &Vec<TreePath>) -> (read: (
    Vec<Result<Entry, String>>,
    Vec<TreePath>,
))
    ensures
        seen_views(read.0@) == seen_in(dir@, listing_view(listing), path_views(excluded@)),
        path_views(read.1@) == dirs_among(
            seen_in(dir@, listing_view(listing), path_views(excluded@)),
        ),
{
    let mut entries: Vec<Result<Entry, String>> = Vec::new();
    let mut subdirs: Vec<TreePath> = Vec::new();
    let ghost roots = path_views(excluded@);
    let items = match listing {
        Err(cause) => {
            let line = problem_line("read directory ", dir, cause.as_str());
            entries.push(Err(line));
            proof {
                let all = seen_in(dir@, listing_view(listing), roots);
                assert(seen_views(entries@) =~= all);
                reveal_with_fuel(dirs_among, 2);
                assert(path_views(subdirs@) =~= dirs_among(all));
            }
            return (entries, subdirs);
        },
        Ok(items) => items,
    };
    let ghost views = Seq::new(items@.len(), |i: int| item_view(items@[i]));
    assert(views.take(0) =~= seq![]);
    assert(seen_views(entries@) =~= seen_items(dir@, views.take(0), roots));
    assert(path_views(subdirs@) =~= dirs_among(seen_items(dir@, views.take(0), roots)));
    for item in it: items
        invariant
            it.seq() == items@,
            roots == path_views(excluded@),
            views == Seq::new(items@.len(), |i: int| item_view(items@[i])),
            seen_views(entries@) == seen_items(dir@, views.take(it.index()), roots),
            path_views(subdirs@) == dirs_among(seen_items(dir@, views.take(it.index()), roots)),
    {
        let ghost i = it.index();
        let ghost entries_before = entries@;
        let ghost subdirs_before = subdirs@;
        let ghost earlier = seen_items(dir@, views.take(i), roots);
        let ghost reported = seen_item(dir@, item_view(item));
        proof {
            assert(views.take(i + 1).drop_last() =~= views.take(i));
            assert(views.take(i + 1).last() == item_view(item));
            lemma_dirs_among_push(earlier, reported);
        }
        match item {
            Ok(listed) => {
                let path = dir.child(&listed.name);
                if !excluded_by(&path, excluded) {
                    match listed.kind {
                        Ok(kind) => {
                            if kind == Kind::Dir {
                                subdirs.push(path.clone());
                                assert(path_views(subdirs@) =~= path_views(subdirs_before).push(
                                    path@,
                                ));
                            }
                            entries.push(Ok(Entry { path, kind }));
                        },
                        Err(cause) => {
                            entries.push(Err(problem_line("stat ", &path, cause.as_str())));
                        },
                    }
                    assert(seen_views(entries@) =~= seen_views(entries_before).push(reported));
                }
            },
            Err(cause) => {
                entries.push(
                    Err(problem_line("read directory entry in ", dir, cause.as_str())),
                );
                assert(seen_views(entries@) =~= seen_views(entries_before).push(reported));
            },
        }
    }
    assert(views.take(views.len() as int) =~= views);
    (entries, subdirs)
}

/// A walk in progress.
#[derive(Debug)]
pub struct Walk {
    root: TreePath,
    excluded: Vec<TreePath>,
    seen: Vec<Result<Entry, String>>,
    level: Vec<TreePath>,
}

/// The contents of a [`Walk`].
pub struct WalkView {
    /// Where the walk started.
    pub root: Components,
    /// The trees that it leaves out.
    pub excluded: Seq<Components>,
    /// Everything reported so far.
    pub seen: Seq<SeenView>,
    /// The directories to read next.
    pub level: Seq<Components>,
}

impl View for Walk {
    type V = WalkView;

    closed spec fn view(&self) -> WalkView {
        WalkView {
            root: self.root@,
            excluded: path_views(self.excluded@),
            seen: seen_views(self.seen@),
            level: path_views(self.level@),
        }
    }
}

/// A walk that has read nothing yet: it knows its root, a directory, unless that
/// is excluded.
pub open spec fn started(root: Components, excluded: Seq<Components>) -> WalkView {
    if is_excluded(root, excluded) {
        WalkView { root, excluded, seen: seq![], level: seq![] }
    } else {
        WalkView {
            root,
            excluded,
            seen: seq![Ok(EntryView { path: root, kind: Kind::Dir })],
            level: seq![root],
        }
    }
}

/// A walk after the directories of its level have been read.
pub open spec fn advanced(walk: WalkView, listings: Seq<ListingView>) -> WalkView {
    let found = seen_in_all(walk.level, listings, walk.excluded);
    WalkView { seen: walk.seen + found, level: dirs_among(found), ..walk }
}

/// True of a path that a walk may come to: it lies in the walk's tree and in no
/// excluded one.
pub open spec fn is_in_reach(walk: WalkView, path: Components) -> bool {
    walk.root.is_prefix_of(path) && !is_excluded(path, walk.excluded)
}

/// True when everything that a walk has reported, or will read, lies in its tree
/// and in no excluded one.
pub open spec fn stays_in_reach(walk: WalkView) -> bool {
    &&& forall|i: int|
        0 <= i < walk.seen.len() && (#[trigger] walk.seen[i]) is Ok ==> is_in_reach(
            walk,
            walk.seen[i]->Ok_0.path,
        )
    &&& forall|k: int| 0 <= k < walk.level.len() ==> is_in_reach(walk, #[trigger] walk.level[k])
}

proof fn lemma_dirs_in_reach(walk: WalkView, seen: Seq<SeenView>)
    requires
        forall|i: int|
            0 <= i < seen.len() && (#[trigger] seen[i]) is Ok ==> is_in_reach(
                walk,
                seen[i]->Ok_0.path,
            ),
    ensures
        forall|k: int|
            0 <= k < dirs_among(seen).len() ==> is_in_reach(walk, #[trigger] dirs_among(seen)[k]),
    decreases seen.len(),
{
    if seen.len() > 0 {
        let before = seen.drop_last();
        assert forall|i: int| 0 <= i < before.len() && (#[trigger] before[i]) is Ok implies is_in_reach(
            walk,
            before[i]->Ok_0.path,
        ) by {
            assert(before[i] == seen[i]);
        }
        lemma_dirs_in_reach(walk, before);
        assert(seen[seen.len() - 1] == seen.last());
        let dirs = dirs_among(before);
        let all = dirs_among(seen);
        assert forall|k: int| 0 <= k < all.len() implies is_in_reach(walk, #[trigger] all[k]) by {
            if k < dirs.len() {
                assert(all[k] == dirs[k]);
            }
        }
    }
}

/// What is reported of a directory within reach is within reach.
proof fn lemma_items_in_reach(
    walk: WalkView,
    dir: Components,
    items: Seq<Result<ListedView, Seq<char>>>,
)
    requires
        walk.root.is_prefix_of(dir),
    ensures
        forall|i: int|
            0 <= i < seen_items(dir, items, walk.excluded).len() && (#[trigger] seen_items(
                dir,
                items,
                walk.excluded,
            )[i]) is Ok ==> is_in_reach(walk, seen_items(dir, items, walk.excluded)[i]->Ok_0.path),
    decreases items.len(),
{
    if items.len() > 0 {
        lemma_items_in_reach(walk, dir, items.drop_last());
        let before = seen_items(dir, items.drop_last(), walk.excluded);
        let all = seen_items(dir, items, walk.excluded);
        assert forall|i: int| 0 <= i < all.len() && (#[trigger] all[i]) is Ok implies is_in_reach(
            walk,
            all[i]->Ok_0.path,
        ) by {
            if i < before.len() {
                assert(all[i] == before[i]);
            } else {
                let path = dir.push(items.last()->Ok_0.name);
                assert(walk.root =~= path.subrange(0, walk.root.len() as int)) by {
                    assert(walk.root =~= dir.subrange(0, walk.root.len() as int));
                }
            }
        }
    }
}

proof fn lemma_found_in_reach(walk: WalkView, dirs: Seq<Components>, listings: Seq<ListingView>)
    requires
        dirs.len() == listings.len(),
        forall|k: int| 0 <= k < dirs.len() ==> is_in_reach(walk, #[trigger] dirs[k]),
    ensures
        forall|i: int|
            0 <= i < seen_in_all(dirs, listings, walk.excluded).len() && (#[trigger] seen_in_all(
                dirs,
                listings,
                walk.excluded,
            )[i]) is Ok ==> is_in_reach(
                walk,
                seen_in_all(dirs, listings, walk.excluded)[i]->Ok_0.path,
            ),
    decreases dirs.len(),
{
    if dirs.len() > 0 {
        let some_dirs = dirs.drop_last();
        let some_listings = listings.drop_last();
        assert forall|k: int| 0 <= k < some_dirs.len() implies is_in_reach(
            walk,
            #[trigger] some_dirs[k],
        ) by {
            assert(some_dirs[k] == dirs[k]);
        }
        lemma_found_in_reach(walk, some_dirs, some_listings);
        let before = seen_in_all(some_dirs, some_listings, walk.excluded);
        let dir = dirs.last();
        let found = seen_in(dir, listings.last(), walk.excluded);
        let all = before + found;
        assert(is_in_reach(walk, dirs[dirs.len() - 1]));
        if listings.last() is Ok {
            lemma_items_in_reach(walk, dir, listings.last()->Ok_0);
        }
        assert forall|i: int| 0 <= i < all.len() && (#[trigger] all[i]) is Ok implies is_in_reach(
            walk,
            all[i]->Ok_0.path,
        ) by {
            if i < before.len() {
                assert(all[i] == before[i]);
            } else {
                assert(all[i] == found[i - before.len()]);
            }
        }
    }
}

/// A walk starts in its tree, and in no excluded one.
pub proof fn walk_starts_in_reach(root: Components, excluded: Seq<Components>)
    ensures
        stays_in_reach(started(root, excluded)),
{
    assert(root =~= root.subrange(0, root.len() as int));
}

/// A walk never leaves its tree and never enters an excluded one, whatever it is
/// told.
pub proof fn walk_stays_in_reach(walk: WalkView, listings: Seq<ListingView>)
    requires
        stays_in_reach(walk),
        listings.len() == walk.level.len(),
    ensures
        stays_in_reach(advanced(walk, listings)),
{
    let found = seen_in_all(walk.level, listings, walk.excluded);
    let after = advanced(walk, listings);
    lemma_found_in_reach(walk, walk.level, listings);
    lemma_dirs_in_reach(walk, found);
    assert forall|i: int| 0 <= i < after.seen.len() && (#[trigger] after.seen[i]) is Ok implies is_in_reach(
        after,
        after.seen[i]->Ok_0.path,
    ) by {
        if i < walk.seen.len() {
            assert(after.seen[i] == walk.seen[i]);
            assert(is_in_reach(walk, walk.seen[i]->Ok_0.path));
        } else {
            assert(after.seen[i] == found[i - walk.seen.len()]);
            assert(is_in_reach(walk, found[i - walk.seen.len()]->Ok_0.path));
        }
    }
    assert forall|k: int| 0 <= k < after.level.len() implies is_in_reach(
        after,
        #[trigger] after.level[k],
    ) by {
        assert(is_in_reach(walk, dirs_among(found)[k]));
    }
}

/// Starts a walk of `root` that will report every entry below it, and `root`
/// itself, but for what lies in the trees of `excluded`.
pub fn walk_all(root: &TreePath, excluded: &Vec<TreePath>) -> (walk: Walk)
    ensures
        walk@ == started(root@, path_views(excluded@)),
{
    let mut seen: Vec<Result<Entry, String>> = Vec::new();
    let mut level: Vec<TreePath> = Vec::new();
    if !excluded_by(root, excluded) {
        seen.push(Ok(Entry { path: root.clone(), kind: Kind::Dir }));
        level.push(root.clone());
    }
    let excluded = copy_paths(excluded);
    proof {
        let start = started(root@, path_views(excluded@));
        walk_starts_in_reach(root@, path_views(excluded@));
        assert(seen_views(seen@) =~= start.seen);
        assert(path_views(level@) =~= start.level);
    }
    Walk { root: root.clone(), excluded, seen, level }
}

impl Walk {
    /// The walk keeps to its tree and out of the excluded ones.
    #[verifier::type_invariant]
    spec fn in_reach(self) -> bool {
        stays_in_reach(self@)
    }

    /// The directories to read next; none when the walk is over. None of them
    /// lies in an excluded tree.
    pub fn level(&self) -> (level: &Vec<TreePath>)
        ensures
            path_views(level@) == self@.level,
            forall|i: int|
                0 <= i < self@.level.len() ==> !is_excluded(
                    #[trigger] self@.level[i],
                    self@.excluded,
                ),
    {
        proof {
            use_type_invariant(self);
        }
        &self.level
    }

    /// Takes the listings of the directories of the level, in their order.
    pub fn advance(self, listings: Vec<Listing>) -> (walk: Walk)
        requires
            listings@.len() == self@.level.len(),
        ensures
            walk@ == advanced(self@, listing_views(listings@)),
    {
        proof {
            use_type_invariant(&self);
            walk_stays_in_reach(self@, listing_views(listings@));
        }
        let Walk { root, excluded, mut seen, level } = self;
        let mut next: Vec<TreePath> = Vec::new();
        let ghost dirs = path_views(level@);
        let ghost views = listing_views(listings@);
        let ghost roots = path_views(excluded@);
        let ghost before = seen_views(seen@);
        assert(dirs.take(0) =~= seq![]);
        assert(before + seen_in_all(dirs.take(0), views.take(0), roots) =~= before);
        assert(path_views(next@) =~= dirs_among(seen_in_all(dirs.take(0), views.take(0), roots)));
        let mut k: usize = 0;
        for listing in it: listings
            invariant
                it.seq() == listings@,
                k == it.index(),
                listings@.len() == level@.len(),
                dirs == path_views(level@),
                roots == path_views(excluded@),
                views == listing_views(listings@),
                seen_views(seen@) == before + seen_in_all(
                    dirs.take(k as int),
                    views.take(k as int),
                    roots,
                ),
                path_views(next@) == dirs_among(
                    seen_in_all(dirs.take(k as int), views.take(k as int), roots),
                ),
        {
            let ghost seen_before = seen@;
            let ghost next_before = next@;
            let (mut entries, mut subdirs) = read_dir_entries(&level[k], listing, &excluded);
            let ghost found = seen_in(dirs[k as int], views[k as int], roots);
            proof {
                let earlier = seen_in_all(dirs.take(k as int), views.take(k as int), roots);
                assert(dirs.take(k + 1).drop_last() =~= dirs.take(k as int));
                assert(views.take(k + 1).drop_last() =~= views.take(k as int));
                assert(seen_in_all(dirs.take(k + 1), views.take(k + 1), roots) == earlier + found);
                lemma_dirs_among_concat(earlier, found);
                assert(before + earlier + found =~= before + (earlier + found));
                assert(seen_views(seen_before + entries@) =~= seen_views(seen_before) + found);
                assert(path_views(next_before + subdirs@) =~= path_views(next_before) + dirs_among(
                    found,
                ));
            }
            seen.append(&mut entries);
            next.append(&mut subdirs);
            assert(k < level.len());
            k = k + 1;
        }
        assert(dirs.take(k as int) =~= dirs);
        assert(views.take(k as int) =~= views);
        Walk { root, excluded, seen, level: next }
    }

    /// Everything that the walk has reported.
    pub fn into_seen(self) -> (seen: Vec<Result<Entry, String>>)
        ensures
            seen_views(seen@) == self@.seen,
            stays_in_reach(self@),
    {
        proof {
            use_type_invariant(&self);
        }
        self.seen
    }
}

} // verus!
