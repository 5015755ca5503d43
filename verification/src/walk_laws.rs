//! What a walk that is told the truth about a tree reports.

use vstd::prelude::*;

use crate::model::{
    is_dir, is_tree, item, kind_of, lemma_child, lemma_longer, lemma_prefix_is_dir,
    lemma_prefix_transitive, lemma_prefixes_nest, lemma_toward, lists, Fs,
};
use crate::path::{strictly_under, Components};
use crate::walk::{
    advanced, dirs_among, is_excluded, is_in_reach, seen_in, seen_in_all, seen_items, started, Kind,
    ListedView, ListingView, SeenView, WalkView,
};

verus! {

/// True when `path` has been reported.
pub open spec fn has_seen(seen: Seq<SeenView>, path: Components) -> bool {
    exists|i: int|
        0 <= i < seen.len() && (#[trigger] seen[i]) is Ok && seen[i]->Ok_0.path == path
}

/// True when every report is an entry that is there, with its type, and no
/// entry is reported twice.
pub open spec fn true_reports(fs: Fs, seen: Seq<SeenView>) -> bool {
    &&& forall|i: int|
        0 <= i < seen.len() ==> {
            &&& (#[trigger] seen[i]) matches Ok(entry)
            &&& fs.contains_key(entry.path)
            &&& entry.kind == kind_of(fs[entry.path])
        }
    &&& forall|i: int, j: int|
        0 <= i < j < seen.len() ==> (#[trigger] seen[i])->Ok_0.path != (#[trigger] seen[j])->Ok_0.path
}

/// What holds of a walk of a tree at any time.
///
/// Its reports are true. The directories to read next have been reported, but
/// nothing below them has. Whatever is in the tree, and in no excluded one, has
/// been reported or lies below a directory that is to be read next.
pub open spec fn walk_is_faithful(fs: Fs, walk: WalkView) -> bool {
    &&& true_reports(fs, walk.seen)
    &&& forall|i: int|
        0 <= i < walk.seen.len() ==> is_in_reach(walk, (#[trigger] walk.seen[i])->Ok_0.path)
    &&& forall|k: int|
        0 <= k < walk.level.len() ==> {
            &&& is_dir(fs, #[trigger] walk.level[k])
            &&& has_seen(walk.seen, walk.level[k])
        }
    &&& walk.level.no_duplicates()
    &&& forall|k: int, i: int|
        0 <= k < walk.level.len() && 0 <= i < walk.seen.len() ==> !strictly_under(
            (#[trigger] walk.seen[i])->Ok_0.path,
            #[trigger] walk.level[k],
        )
    &&& forall|p: Components| #[trigger]
        fs.contains_key(p) && is_in_reach(walk, p) ==> {
            ||| has_seen(walk.seen, p)
            ||| exists|k: int|
                0 <= k < walk.level.len() && strictly_under(p, #[trigger] walk.level[k])
        }
}

/// What lies above a path outside the excluded trees is outside them, too.
proof fn lemma_above_not_excluded(p: Components, q: Components, excluded: Seq<Components>)
    requires
        q.is_prefix_of(p),
        !is_excluded(p, excluded),
    ensures
        !is_excluded(q, excluded),
{
    if is_excluded(q, excluded) {
        let i = choose|i: int| 0 <= i < excluded.len() && (#[trigger] excluded[i]).is_prefix_of(q);
        lemma_prefix_transitive(excluded[i], q, p);
    }
}

/// True when the items are true of entries of `dir`, and none is there twice.
spec fn are_entries_of(
    fs: Fs,
    dir: Components,
    items: Seq<Result<ListedView, Seq<char>>>,
) -> bool {
    &&& forall|i: int|
        0 <= i < items.len() ==> {
            &&& (#[trigger] items[i]) matches Ok(listed)
            &&& fs.contains_key(dir.push(listed.name))
            &&& listed.kind == Ok::<Kind, Seq<char>>(kind_of(fs[dir.push(listed.name)]))
        }
    &&& forall|i: int, j: int|
        0 <= i < j < items.len() ==> (#[trigger] items[i])->Ok_0.name != (#[trigger] items[j])->Ok_0.name
}

/// What the items of one directory are reported as: every entry outside the
/// excluded trees, and nothing else.
proof fn lemma_seen_items(
    fs: Fs,
    dir: Components,
    items: Seq<Result<ListedView, Seq<char>>>,
    excluded: Seq<Components>,
)
    requires
        are_entries_of(fs, dir, items),
    ensures
        true_reports(fs, seen_items(dir, items, excluded)),
        forall|j: int|
            0 <= j < seen_items(dir, items, excluded).len() ==> {
                let path = (#[trigger] seen_items(dir, items, excluded)[j])->Ok_0.path;
                &&& path.len() > 0
                &&& path.drop_last() == dir
                &&& !is_excluded(path, excluded)
                &&& exists|i: int|
                    0 <= i < items.len() && (#[trigger] items[i])->Ok_0.name == path.last()
            },
        forall|i: int|
            0 <= i < items.len() && !is_excluded(
                dir.push((#[trigger] items[i])->Ok_0.name),
                excluded,
            ) ==> has_seen(
                seen_items(dir, items, excluded),
                dir.push(items[i]->Ok_0.name),
            ),
    decreases items.len(),
{
    if items.len() > 0 {
        let some = items.drop_last();
        assert forall|i: int| 0 <= i < some.len() implies some[i] == items[i] by {}
        assert(are_entries_of(fs, dir, some));
        lemma_seen_items(fs, dir, some, excluded);
        let before = seen_items(dir, some, excluded);
        let all = seen_items(dir, items, excluded);
        let n = items.len() - 1;
        assert(items[n] is Ok);
        let name = items[n]->Ok_0.name;
        lemma_child(dir, name);
        assert(dir.push(name).last() == name);
        assert forall|j: int| 0 <= j < all.len() implies {
            let path = (#[trigger] all[j])->Ok_0.path;
            &&& all[j] is Ok
            &&& fs.contains_key(path)
            &&& all[j]->Ok_0.kind == kind_of(fs[path])
            &&& path.len() > 0
            &&& path.drop_last() == dir
            &&& !is_excluded(path, excluded)
            &&& exists|i: int|
                0 <= i < items.len() && (#[trigger] items[i])->Ok_0.name == path.last()
        } by {
            if j < before.len() {
                assert(all[j] == before[j]);
                let i = choose|i: int|
                    0 <= i < some.len() && (#[trigger] some[i])->Ok_0.name
                        == before[j]->Ok_0.path.last();
                assert(items[i] == some[i]);
            } else {
                assert(items[n]->Ok_0.name == all[j]->Ok_0.path.last());
            }
        }
        assert forall|i: int, j: int| 0 <= i < j < all.len() implies (#[trigger] all[i])->Ok_0.path
            != (#[trigger] all[j])->Ok_0.path by {
            assert(all[i] == before[i]);
            if j < before.len() {
                assert(all[j] == before[j]);
            } else {
                let k = choose|k: int|
                    0 <= k < some.len() && (#[trigger] some[k])->Ok_0.name
                        == before[i]->Ok_0.path.last();
                assert(items[k]->Ok_0.name != items[n]->Ok_0.name);
            }
        }
        assert forall|i: int|
            0 <= i < items.len() && !is_excluded(
                dir.push((#[trigger] items[i])->Ok_0.name),
                excluded,
            ) implies has_seen(all, dir.push(items[i]->Ok_0.name)) by {
            let p = dir.push(items[i]->Ok_0.name);
            if i < n {
                assert(some[i] == items[i]);
                let j = choose|j: int|
                    0 <= j < before.len() && (#[trigger] before[j]) is Ok && before[j]->Ok_0.path
                        == p;
                assert(all[j] == before[j]);
            } else {
                assert(all[all.len() - 1]->Ok_0.path == p);
            }
        }
    }
}

/// The directories among true reports are those reported as such, each once.
proof fn lemma_dirs_among(fs: Fs, seen: Seq<SeenView>)
    requires
        true_reports(fs, seen),
    ensures
        dirs_among(seen).no_duplicates(),
        forall|k: int|
            0 <= k < dirs_among(seen).len() ==> has_seen(seen, #[trigger] dirs_among(seen)[k])
                && is_dir(fs, dirs_among(seen)[k]),
        forall|p: Components| #[trigger]
            has_seen(seen, p) && is_dir(fs, p) ==> dirs_among(seen).contains(p),
    decreases seen.len(),
{
    if seen.len() > 0 {
        let before = seen.drop_last();
        assert forall|i: int| 0 <= i < before.len() implies before[i] == seen[i] by {}
        assert(true_reports(fs, before));
        lemma_dirs_among(fs, before);
        let dirs = dirs_among(before);
        let all = dirs_among(seen);
        let last = seen.last()->Ok_0;
        assert(seen[seen.len() - 1] == seen.last());
        assert forall|p: Components| has_seen(before, p) implies has_seen(seen, p) && p
            != last.path by {
            let i = choose|i: int|
                0 <= i < before.len() && (#[trigger] before[i]) is Ok && before[i]->Ok_0.path == p;
            assert(seen[i] == before[i]);
        }
        assert forall|k: int| 0 <= k < all.len() implies has_seen(seen, #[trigger] all[k])
            && is_dir(fs, all[k]) by {
            if k < dirs.len() {
                assert(all[k] == dirs[k]);
            }
        }
        assert forall|p: Components| #[trigger] has_seen(seen, p) && is_dir(fs, p) implies all.contains(
            p,
        ) by {
            let i = choose|i: int|
                0 <= i < seen.len() && (#[trigger] seen[i]) is Ok && seen[i]->Ok_0.path == p;
            if i < before.len() {
                assert(before[i] == seen[i]);
                assert(has_seen(before, p));
                let k = choose|k: int| 0 <= k < dirs.len() && dirs[k] == p;
                assert(all[k] == p);
            } else {
                assert(all[all.len() - 1] == p);
            }
        }
    }
}

/// What the listings of several directories of a tree are reported as: every
/// entry of these directories outside the excluded trees, and nothing else.
proof fn lemma_seen_in_all(
    fs: Fs,
    dirs: Seq<Components>,
    listings: Seq<ListingView>,
    excluded: Seq<Components>,
)
    requires
        dirs.len() == listings.len(),
        dirs.no_duplicates(),
        forall|k: int| 0 <= k < dirs.len() ==> lists(fs, dirs[k], #[trigger] listings[k]),
    ensures
        true_reports(fs, seen_in_all(dirs, listings, excluded)),
        forall|i: int|
            0 <= i < seen_in_all(dirs, listings, excluded).len() ==> {
                let path = (#[trigger] seen_in_all(dirs, listings, excluded)[i])->Ok_0.path;
                &&& dirs.contains(path.drop_last())
                &&& path.len() > 0
                &&& !is_excluded(path, excluded)
            },
        forall|k: int, name: Seq<u8>|
            0 <= k < dirs.len() && #[trigger] fs.contains_key(dirs[k].push(name)) && !is_excluded(
                dirs[k].push(name),
                excluded,
            ) ==> has_seen(seen_in_all(dirs, listings, excluded), dirs[k].push(name)),
    decreases dirs.len(),
{
    if dirs.len() > 0 {
        let some_dirs = dirs.drop_last();
        let some_listings = listings.drop_last();
        assert forall|k: int| 0 <= k < some_dirs.len() implies lists(
            fs,
            some_dirs[k],
            #[trigger] some_listings[k],
        ) by {
            assert(lists(fs, dirs[k], listings[k]));
        }
        lemma_seen_in_all(fs, some_dirs, some_listings, excluded);
        let before = seen_in_all(some_dirs, some_listings, excluded);
        let dir = dirs.last();
        assert(lists(fs, dir, listings[dirs.len() - 1]));
        let items = listings.last()->Ok_0;
        assert(are_entries_of(fs, dir, items));
        lemma_seen_items(fs, dir, items, excluded);
        let found = seen_in(dir, listings.last(), excluded);
        let all = before + found;
        assert forall|i: int| 0 <= i < all.len() implies {
            &&& (#[trigger] all[i]) matches Ok(entry)
            &&& fs.contains_key(entry.path)
            &&& entry.kind == kind_of(fs[entry.path])
            &&& dirs.contains(entry.path.drop_last())
            &&& entry.path.len() > 0
            &&& !is_excluded(entry.path, excluded)
        } by {
            if i < before.len() {
                assert(all[i] == before[i]);
                let k = choose|k: int|
                    0 <= k < some_dirs.len() && some_dirs[k] == before[i]->Ok_0.path.drop_last();
                assert(dirs[k] == some_dirs[k]);
            } else {
                assert(all[i] == found[i - before.len()]);
                assert(dirs[dirs.len() - 1] == dir);
            }
        }
        assert forall|i: int, j: int| 0 <= i < j < all.len() implies (#[trigger] all[i])->Ok_0.path
            != (#[trigger] all[j])->Ok_0.path by {
            if j < before.len() {
                assert(all[i] == before[i] && all[j] == before[j]);
            } else {
                let n = j - before.len();
                assert(all[j] == found[n]);
                if i < before.len() {
                    assert(all[i] == before[i]);
                    let k = choose|k: int|
                        0 <= k < some_dirs.len() && some_dirs[k] == before[i]->Ok_0.path.drop_last();
                    assert(dirs[k] != dirs[dirs.len() - 1]);
                } else {
                    assert(all[i] == found[i - before.len()]);
                }
            }
        }
        assert forall|k: int, name: Seq<u8>|
            0 <= k < dirs.len() && #[trigger] fs.contains_key(dirs[k].push(name)) && !is_excluded(
                dirs[k].push(name),
                excluded,
            ) implies has_seen(all, dirs[k].push(name)) by {
            let p = dirs[k].push(name);
            if k < some_dirs.len() {
                assert(some_dirs[k] == dirs[k]);
                assert(fs.contains_key(some_dirs[k].push(name)));
                let i = choose|i: int|
                    0 <= i < before.len() && (#[trigger] before[i]) is Ok && before[i]->Ok_0.path
                        == p;
                assert(all[i] == before[i]);
            } else {
                let wanted = item(name, kind_of(fs[p]));
                let n = choose|n: int| 0 <= n < items.len() && items[n] == wanted;
                assert(items[n]->Ok_0.name == name);
                assert(has_seen(found, p));
                let j = choose|j: int|
                    0 <= j < found.len() && (#[trigger] found[j]) is Ok && found[j]->Ok_0.path == p;
                assert(all[before.len() + j] == found[j]);
            }
        }
    }
}

/// A walk starts faithful.
pub proof fn walk_starts_faithful(fs: Fs, root: Components, excluded: Seq<Components>)
    requires
        is_dir(fs, root),
    ensures
        walk_is_faithful(fs, started(root, excluded)),
{
    let walk = started(root, excluded);
    assert(root =~= root.subrange(0, root.len() as int));
    if !is_excluded(root, excluded) {
        assert(walk.seen[0]->Ok_0.path == root);
        assert(has_seen(walk.seen, root));
    }
    assert forall|p: Components| #[trigger] fs.contains_key(p) && is_in_reach(walk, p) implies {
        ||| has_seen(walk.seen, p)
        ||| exists|k: int| 0 <= k < walk.level.len() && strictly_under(p, #[trigger] walk.level[k])
    } by {
        lemma_above_not_excluded(p, root, excluded);
        if p != root {
            assert(strictly_under(p, walk.level[0]));
        }
    }
}

/// Where new reports come from: each is an entry of a directory of the level.
spec fn are_entries_of_level(walk: WalkView, found: Seq<SeenView>) -> bool {
    forall|i: int|
        0 <= i < found.len() ==> {
            let path = (#[trigger] found[i])->Ok_0.path;
            &&& path.len() > 0
            &&& walk.level.contains(path.drop_last())
            &&& is_in_reach(walk, path)
        }
}

/// An entry of a directory of the level is new.
proof fn lemma_entry_is_new(fs: Fs, walk: WalkView, path: Components)
    requires
        walk_is_faithful(fs, walk),
        path.len() > 0,
        walk.level.contains(path.drop_last()),
    ensures
        !has_seen(walk.seen, path),
        strictly_under(path, path.drop_last()),
        walk.root.is_prefix_of(path),
{
    let dir = path.drop_last();
    assert(path =~= dir.push(path.last()));
    lemma_child(dir, path.last());
    let k = choose|k: int| 0 <= k < walk.level.len() && walk.level[k] == dir;
    assert(has_seen(walk.seen, walk.level[k]));
    let n = choose|n: int|
        0 <= n < walk.seen.len() && (#[trigger] walk.seen[n]) is Ok && walk.seen[n]->Ok_0.path
            == dir;
    assert(is_in_reach(walk, walk.seen[n]->Ok_0.path));
    lemma_prefix_transitive(walk.root, dir, path);
    if has_seen(walk.seen, path) {
        let m = choose|m: int|
            0 <= m < walk.seen.len() && (#[trigger] walk.seen[m]) is Ok && walk.seen[m]->Ok_0.path
                == path;
        assert(!strictly_under(walk.seen[m]->Ok_0.path, walk.level[k]));
    }
}

/// What has been reported before or now has been reported.
proof fn lemma_has_seen_either(before: Seq<SeenView>, found: Seq<SeenView>, p: Components)
    ensures
        has_seen(before, p) || has_seen(found, p) <==> has_seen(before + found, p),
{
    let all = before + found;
    if has_seen(before, p) {
        let i = choose|i: int|
            0 <= i < before.len() && (#[trigger] before[i]) is Ok && before[i]->Ok_0.path == p;
        assert(all[i] == before[i]);
    }
    if has_seen(found, p) {
        let i = choose|i: int|
            0 <= i < found.len() && (#[trigger] found[i]) is Ok && found[i]->Ok_0.path == p;
        assert(all[before.len() + i] == found[i]);
    }
    if has_seen(all, p) {
        let i = choose|i: int|
            0 <= i < all.len() && (#[trigger] all[i]) is Ok && all[i]->Ok_0.path == p;
        if i < before.len() {
            assert(all[i] == before[i]);
        } else {
            assert(all[i] == found[i - before.len()]);
        }
    }
}

/// The reports stay true.
proof fn lemma_reports_stay_true(fs: Fs, walk: WalkView, found: Seq<SeenView>)
    requires
        walk_is_faithful(fs, walk),
        true_reports(fs, found),
        are_entries_of_level(walk, found),
    ensures
        true_reports(fs, walk.seen + found),
        forall|i: int|
            0 <= i < (walk.seen + found).len() ==> is_in_reach(
                walk,
                (#[trigger] (walk.seen + found)[i])->Ok_0.path,
            ),
{
    let seen = walk.seen + found;
    assert forall|i: int| 0 <= i < seen.len() implies {
        &&& (#[trigger] seen[i]) matches Ok(entry)
        &&& fs.contains_key(entry.path)
        &&& entry.kind == kind_of(fs[entry.path])
        &&& is_in_reach(walk, entry.path)
    } by {
        if i < walk.seen.len() {
            assert(seen[i] == walk.seen[i]);
        } else {
            assert(seen[i] == found[i - walk.seen.len()]);
        }
    }
    assert forall|i: int, j: int| 0 <= i < j < seen.len() implies (#[trigger] seen[i])->Ok_0.path
        != (#[trigger] seen[j])->Ok_0.path by {
        if j < walk.seen.len() {
            assert(seen[i] == walk.seen[i] && seen[j] == walk.seen[j]);
        } else {
            assert(seen[j] == found[j - walk.seen.len()]);
            if i < walk.seen.len() {
                assert(seen[i] == walk.seen[i]);
                assert(has_seen(walk.seen, walk.seen[i]->Ok_0.path));
                lemma_entry_is_new(fs, walk, seen[j]->Ok_0.path);
            } else {
                assert(seen[i] == found[i - walk.seen.len()]);
            }
        }
    }
}

/// Nothing that has been reported lies below a new entry.
proof fn lemma_nothing_below_new_entry(
    fs: Fs,
    walk: WalkView,
    found: Seq<SeenView>,
    next: Components,
    path: Components,
)
    requires
        walk_is_faithful(fs, walk),
        are_entries_of_level(walk, found),
        true_reports(fs, found),
        has_seen(found, next),
        has_seen(walk.seen + found, path),
    ensures
        !strictly_under(path, next),
{
    let level = walk.level;
    let n = choose|n: int|
        0 <= n < found.len() && (#[trigger] found[n]) is Ok && found[n]->Ok_0.path == next;
    assert(level.contains(found[n]->Ok_0.path.drop_last()));
    let dir = next.drop_last();
    let d = choose|d: int| 0 <= d < level.len() && level[d] == dir;
    assert(next =~= dir.push(next.last()));
    lemma_child(dir, next.last());
    if strictly_under(path, next) {
        lemma_longer(path, next);
        lemma_prefix_transitive(dir, next, path);
        assert(strictly_under(path, dir));
        lemma_has_seen_either(walk.seen, found, path);
        if has_seen(walk.seen, path) {
            let i = choose|i: int|
                0 <= i < walk.seen.len() && (#[trigger] walk.seen[i]) is Ok
                    && walk.seen[i]->Ok_0.path == path;
            assert(!strictly_under(walk.seen[i]->Ok_0.path, level[d]));
        } else {
            let i = choose|i: int|
                0 <= i < found.len() && (#[trigger] found[i]) is Ok && found[i]->Ok_0.path == path;
            assert(level.contains(found[i]->Ok_0.path.drop_last()));
            let other = path.drop_last();
            let o = choose|o: int| 0 <= o < level.len() && level[o] == other;
            assert(path =~= other.push(path.last()));
            lemma_child(other, path.last());
            lemma_prefixes_nest(next, other, path);
            lemma_prefix_transitive(dir, next, other);
            assert(other.len() > dir.len());
            assert(strictly_under(other, dir));
            assert(has_seen(walk.seen, level[o]));
            let m = choose|m: int|
                0 <= m < walk.seen.len() && (#[trigger] walk.seen[m]) is Ok
                    && walk.seen[m]->Ok_0.path == other;
            assert(!strictly_under(walk.seen[m]->Ok_0.path, level[d]));
        }
    }
}

/// Nothing in the tree is passed over.
proof fn lemma_nothing_passed_over(
    fs: Fs,
    walk: WalkView,
    listings: Seq<ListingView>,
    p: Components,
)
    requires
        is_tree(fs, walk.root),
        walk_is_faithful(fs, walk),
        listings.len() == walk.level.len(),
        forall|k: int|
            0 <= k < walk.level.len() ==> lists(fs, walk.level[k], #[trigger] listings[k]),
        fs.contains_key(p),
        is_in_reach(walk, p),
        !has_seen(walk.seen, p),
    ensures
        ({
            let found = seen_in_all(walk.level, listings, walk.excluded);
            ||| has_seen(found, p)
            ||| exists|k: int|
                0 <= k < dirs_among(found).len() && strictly_under(p, #[trigger] dirs_among(found)[k])
        }),
{
    let level = walk.level;
    let found = seen_in_all(level, listings, walk.excluded);
    lemma_seen_in_all(fs, level, listings, walk.excluded);
    lemma_dirs_among(fs, found);
    let k = choose|k: int| 0 <= k < level.len() && strictly_under(p, #[trigger] level[k]);
    let dir = level[k];
    lemma_longer(p, dir);
    lemma_toward(p, dir);
    let name = p[dir.len() as int];
    let next = dir.push(name);
    lemma_child(dir, name);
    lemma_entry_is_new(fs, walk, next);
    lemma_above_not_excluded(p, next, walk.excluded);
    if next == p {
        assert(fs.contains_key(level[k].push(name)));
    } else {
        lemma_prefix_is_dir(fs, walk.root, p, next);
        assert(fs.contains_key(level[k].push(name)));
        assert(has_seen(found, next));
        assert(dirs_among(found).contains(next));
        let m = choose|m: int| 0 <= m < dirs_among(found).len() && dirs_among(found)[m] == next;
        assert(strictly_under(p, dirs_among(found)[m]));
    }
}

/// A walk that is told the truth stays faithful.
pub proof fn walk_stays_faithful(fs: Fs, walk: WalkView, listings: Seq<ListingView>)
    requires
        is_tree(fs, walk.root),
        walk_is_faithful(fs, walk),
        listings.len() == walk.level.len(),
        forall|k: int|
            0 <= k < walk.level.len() ==> lists(fs, walk.level[k], #[trigger] listings[k]),
    ensures
        walk_is_faithful(fs, advanced(walk, listings)),
{
    let after = advanced(walk, listings);
    let found = seen_in_all(walk.level, listings, walk.excluded);
    lemma_seen_in_all(fs, walk.level, listings, walk.excluded);
    assert(are_entries_of_level(walk, found)) by {
        assert forall|i: int| 0 <= i < found.len() implies {
            let path = (#[trigger] found[i])->Ok_0.path;
            &&& path.len() > 0
            &&& walk.level.contains(path.drop_last())
            &&& is_in_reach(walk, path)
        } by {
            lemma_entry_is_new(fs, walk, found[i]->Ok_0.path);
        }
    }
    lemma_dirs_among(fs, found);
    lemma_reports_stay_true(fs, walk, found);
    assert forall|i: int| 0 <= i < after.seen.len() implies is_in_reach(
        after,
        (#[trigger] after.seen[i])->Ok_0.path,
    ) by {
        assert(is_in_reach(walk, (walk.seen + found)[i]->Ok_0.path));
    }
    assert forall|k: int| 0 <= k < after.level.len() implies {
        &&& is_dir(fs, #[trigger] after.level[k])
        &&& has_seen(after.seen, after.level[k])
    } by {
        lemma_has_seen_either(walk.seen, found, after.level[k]);
    }
    assert forall|k: int, i: int|
        0 <= k < after.level.len() && 0 <= i < after.seen.len() implies !strictly_under(
        (#[trigger] after.seen[i])->Ok_0.path,
        #[trigger] after.level[k],
    ) by {
        assert(has_seen(after.seen, after.seen[i]->Ok_0.path));
        lemma_nothing_below_new_entry(
            fs,
            walk,
            found,
            after.level[k],
            after.seen[i]->Ok_0.path,
        );
    }
    assert forall|p: Components| #[trigger]
        fs.contains_key(p) && is_in_reach(after, p) implies {
        ||| has_seen(after.seen, p)
        ||| exists|k: int|
            0 <= k < after.level.len() && strictly_under(p, #[trigger] after.level[k])
    } by {
        lemma_has_seen_either(walk.seen, found, p);
        if !has_seen(walk.seen, p) {
            assert(is_in_reach(walk, p));
            lemma_nothing_passed_over(fs, walk, listings, p);
        }
    }
}

/// A walk of a tree that is over has reported everything in the tree but for the
/// excluded ones, each entry once and with its type, and nothing else.
pub proof fn walk_sees_everything_once(fs: Fs, walk: WalkView)
    requires
        walk_is_faithful(fs, walk),
        walk.level.len() == 0,
    ensures
        true_reports(fs, walk.seen),
        forall|p: Components| #[trigger]
            has_seen(walk.seen, p) <==> fs.contains_key(p) && is_in_reach(walk, p),
{
    assert forall|p: Components| #[trigger] has_seen(walk.seen, p) implies fs.contains_key(p)
        && is_in_reach(walk, p) by {
        let i = choose|i: int|
            0 <= i < walk.seen.len() && (#[trigger] walk.seen[i]) is Ok && walk.seen[i]->Ok_0.path
                == p;
    }
}

} // verus!
