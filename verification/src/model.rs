//! A file system as a map from paths to what is there.
//!
//! Nothing of this runs: the laws of the library speak of it.

use vstd::prelude::*;

use crate::link::InodeRef;
use crate::path::{is_name, strictly_under, Components, SLASH};
use crate::walk::{Kind, ListedView, ListingView};

verus! {

/// What is at a path.
pub enum Node {
    /// A directory.
    Dir,
    /// A regular file.
    File(InodeRef),
    /// A symbolic link to the directory at this path.
    Link(Components),
    /// Any other symbolic link, a device, a socket, a pipe, or anything else.
    Other,
}

/// A file system.
pub type Fs = Map<Components, Node>;

/// The type that reading a directory tells of an entry.
pub open spec fn kind_of(node: Node) -> Kind {
    match node {
        Node::Dir => Kind::Dir,
        Node::File(_) => Kind::File,
        Node::Link(_) => Kind::Other,
        Node::Other => Kind::Other,
    }
}

/// True when `path` is a directory.
pub open spec fn is_dir(fs: Fs, path: Components) -> bool {
    fs.contains_key(path) && fs[path] == Node::Dir
}

/// True when everything strictly below `root` stands in a directory.
pub open spec fn is_tree(fs: Fs, root: Components) -> bool {
    forall|p: Components| #[trigger]
        fs.contains_key(p) && strictly_under(p, root) ==> is_dir(fs, p.drop_last())
}

/// True of what a directory entry can be called.
pub open spec fn is_plain(name: Seq<u8>) -> bool {
    &&& name.len() > 0
    &&& !name.contains(SLASH)
    &&& is_name(name)
}

/// True when `root` is a directory, everything below it stands in a directory,
/// and has a proper name.
pub open spec fn is_sound(fs: Fs, root: Components) -> bool {
    &&& is_dir(fs, root)
    &&& is_tree(fs, root)
    &&& forall|p: Components| #[trigger]
        fs.contains_key(p) && strictly_under(p, root) ==> is_plain(p.last())
}

/// The item that a listing holds for an entry.
pub open spec fn item(name: Seq<u8>, kind: Kind) -> Result<ListedView, Seq<char>> {
    Ok(ListedView { name, kind: Ok(kind) })
}

/// True when `items` names each entry of the directory `dir` once, with its
/// type, and nothing else.
pub open spec fn lists_items(
    fs: Fs,
    dir: Components,
    items: Seq<Result<ListedView, Seq<char>>>,
) -> bool {
    &&& forall|i: int|
        0 <= i < items.len() ==> {
            &&& (#[trigger] items[i]) matches Ok(listed)
            &&& fs.contains_key(dir.push(listed.name))
            &&& listed.kind == Ok::<Kind, Seq<char>>(kind_of(fs[dir.push(listed.name)]))
        }
    &&& forall|i: int, j: int|
        0 <= i < j < items.len() ==> (#[trigger] items[i])->Ok_0.name != (#[trigger] items[j])->Ok_0.name
    &&& forall|name: Seq<u8>| #[trigger]
        fs.contains_key(dir.push(name)) ==> items.contains(
            item(name, kind_of(fs[dir.push(name)])),
        )
}

/// True when a listing tells all of the directory `dir`.
pub open spec fn lists(fs: Fs, dir: Components, listing: ListingView) -> bool {
    listing matches Ok(items) && lists_items(fs, dir, items)
}

/// True when nothing but directories is on the way to `dir`, and `dir` is none
/// or a directory.
pub open spec fn way_is_clear(fs: Fs, dir: Components) -> bool {
    forall|q: Components| #[trigger]
        fs.contains_key(q) && q.is_prefix_of(dir) ==> fs[q] == Node::Dir
}

/// A file system once `dir` has been created, with the missing directories above
/// it.
pub open spec fn with_dirs(fs: Fs, dir: Components) -> Fs {
    Map::new(
        |p: Components| fs.contains_key(p) || (p.len() > 0 && p.is_prefix_of(dir)),
        |p: Components|
            if fs.contains_key(p) {
                fs[p]
            } else {
                Node::Dir
            },
    )
}

/// The directory that a path leads to: symbolic links on the way, and at its end,
/// are followed.
pub open spec fn place_of_dir(fs: Fs, dir: Components) -> Components
    decreases dir.len(),
{
    if dir.len() == 0 {
        dir
    } else {
        let p = place_of_dir(fs, dir.drop_last()).push(dir.last());
        if fs.contains_key(p) && fs[p] is Link {
            fs[p]->Link_0
        } else {
            p
        }
    }
}

/// Where the entry at a path is: symbolic links on the way are followed, the entry
/// itself is not.
pub open spec fn place_of(fs: Fs, path: Components) -> Components {
    if path.len() == 0 {
        path
    } else {
        place_of_dir(fs, path.drop_last()).push(path.last())
    }
}

/// True when neither `dir` nor anything above it is a symbolic link.
pub open spec fn is_real(fs: Fs, dir: Components) -> bool {
    forall|q: Components| #[trigger]
        fs.contains_key(q) && q.is_prefix_of(dir) ==> !(fs[q] is Link)
}

/// A path without symbolic links leads where it says.
pub proof fn real_paths_lead_where_they_say(fs: Fs, dir: Components)
    requires
        is_real(fs, dir),
    ensures
        place_of_dir(fs, dir) == dir,
    decreases dir.len(),
{
    if dir.len() > 0 {
        let parent = dir.drop_last();
        assert(parent =~= dir.subrange(0, parent.len() as int));
        assert(dir =~= dir.subrange(0, dir.len() as int));
        assert forall|q: Components| #[trigger]
            fs.contains_key(q) && q.is_prefix_of(parent) implies !(fs[q] is Link) by {
            lemma_prefix_transitive(q, parent, dir);
        }
        real_paths_lead_where_they_say(fs, parent);
        assert(parent.push(dir.last()) =~= dir);
    }
}

/// What stands above an entry of a tree, and not above the tree, is a directory.
pub(crate) proof fn lemma_prefix_is_dir(fs: Fs, root: Components, p: Components, q: Components)
    requires
        is_tree(fs, root),
        fs.contains_key(p),
        root.is_prefix_of(q),
        strictly_under(p, q),
    ensures
        is_dir(fs, q),
    decreases p.len() - q.len(),
{
    lemma_longer(p, q);
    let parent = p.drop_last();
    assert(root.is_prefix_of(p)) by {
        lemma_prefix_transitive(root, q, p);
    }
    assert(p.len() > root.len());
    assert(is_dir(fs, parent));
    assert(q.is_prefix_of(parent)) by {
        assert(q =~= parent.subrange(0, q.len() as int));
    }
    if q != parent {
        lemma_prefix_is_dir(fs, root, parent, q);
    }
}

/// A path strictly below another is longer.
pub(crate) proof fn lemma_longer(p: Components, q: Components)
    requires
        strictly_under(p, q),
    ensures
        p.len() > q.len(),
{
    if p.len() == q.len() {
        assert(p =~= p.subrange(0, q.len() as int));
    }
}

/// Being a prefix is transitive.
pub(crate) proof fn lemma_prefix_transitive(a: Components, b: Components, c: Components)
    requires
        a.is_prefix_of(b),
        b.is_prefix_of(c),
    ensures
        a.is_prefix_of(c),
{
    assert(a =~= c.subrange(0, a.len() as int)) by {
        assert forall|i: int| 0 <= i < a.len() implies a[i] == c[i] by {
            assert(a[i] == b.subrange(0, a.len() as int)[i]);
            assert(b[i] == c.subrange(0, b.len() as int)[i]);
        }
    }
}

/// Of two prefixes of one path, the shorter is a prefix of the longer.
pub(crate) proof fn lemma_prefixes_nest(a: Components, b: Components, p: Components)
    requires
        a.is_prefix_of(p),
        b.is_prefix_of(p),
        a.len() <= b.len(),
    ensures
        a.is_prefix_of(b),
{
    assert(a =~= b.subrange(0, a.len() as int)) by {
        assert forall|i: int| 0 <= i < a.len() implies a[i] == b[i] by {
            assert(a[i] == p.subrange(0, a.len() as int)[i]);
            assert(b[i] == p.subrange(0, b.len() as int)[i]);
        }
    }
}

/// The entry of a directory is strictly below it.
pub(crate) proof fn lemma_child(dir: Components, name: Seq<u8>)
    ensures
        strictly_under(dir.push(name), dir),
        dir.push(name).drop_last() == dir,
{
    assert(dir =~= dir.push(name).subrange(0, dir.len() as int));
    assert(dir.push(name).len() != dir.len());
    assert(dir.push(name).drop_last() =~= dir);
}

/// The entry of a directory through which the way to a deeper path leads.
pub(crate) proof fn lemma_toward(p: Components, dir: Components)
    requires
        strictly_under(p, dir),
    ensures
        p.take(dir.len() as int + 1) == dir.push(p[dir.len() as int]),
        p.take(dir.len() as int + 1).is_prefix_of(p),
        dir.is_prefix_of(p.take(dir.len() as int + 1)),
{
    lemma_longer(p, dir);
    let next = p.take(dir.len() as int + 1);
    assert(next =~= dir.push(p[dir.len() as int])) by {
        assert forall|i: int| 0 <= i < dir.len() implies next[i] == dir[i] by {
            assert(dir[i] == p.subrange(0, dir.len() as int)[i]);
        }
    }
    assert(dir =~= next.subrange(0, dir.len() as int));
}

} // verus!
