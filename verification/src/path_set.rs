//! Lists and sets of paths in which a path is found quickly.

use std::collections::HashMap;

use vstd::prelude::*;

use crate::path::{path_hash, path_views, strictly_under, Components, TreePath};

verus! {

broadcast use vstd::std_specs::hash::group_hash_axioms;

/// The paths of a list, each once, in the order in which they first come up.
pub open spec fn distinct_paths(paths: Seq<Components>) -> Seq<Components>
    decreases paths.len(),
{
    if paths.len() == 0 {
        seq![]
    } else {
        let before = distinct_paths(paths.drop_last());
        if before.contains(paths.last()) {
            before
        } else {
            before.push(paths.last())
        }
    }
}

/// The directories above the paths of a set.
pub open spec fn above(paths: Set<Components>) -> Set<Components> {
    Set::new(|p: Components| exists|k: Components| #[trigger] paths.contains(k) && strictly_under(k, p))
}

/// A list of distinct paths in which a path is found quickly.
///
/// Each path has a position in `paths`; `buckets` lists, for a hash code, the
/// positions of the paths that have it.
pub struct PathIndex {
    paths: Vec<TreePath>,
    buckets: HashMap<u64, Vec<usize>>,
}

impl View for PathIndex {
    type V = Seq<Components>;

    closed spec fn view(&self) -> Seq<Components> {
        path_views(self.paths@)
    }
}

impl PathIndex {
    /// Every position in a bucket is one in `paths`, and every path is found
    /// through the bucket of its hash code. No path is there twice.
    #[verifier::type_invariant]
    spec fn indexed(self) -> bool {
        &&& forall|h: u64, k: int|
            self.buckets@.contains_key(h) && 0 <= k < self.buckets@[h]@.len()
                ==> (#[trigger] self.buckets@[h]@[k]) < self.paths@.len()
        &&& forall|i: int|
            0 <= i < self.paths@.len() ==> self.buckets@.contains_key(
                path_hash((#[trigger] self.paths@[i])@),
            ) && self.buckets@[path_hash(self.paths@[i]@)]@.contains(i as usize)
        &&& path_views(self.paths@).no_duplicates()
    }

    /// The list without paths.
    pub fn empty() -> (index: PathIndex)
        ensures
            index@ == Seq::<Components>::empty(),
    {
        let index = PathIndex { paths: Vec::new(), buckets: HashMap::new() };
        assert(index@ =~= seq![]);
        index
    }

    /// The position of a path.
    pub fn find(&self, path: &TreePath) -> (position: Option<usize>)
        ensures
            self@.no_duplicates(),
            match position {
                Some(i) => i < self@.len() && self@[i as int] == path@,
                None => !self@.contains(path@),
            },
    {
        proof {
            use_type_invariant(self);
        }
        match self.buckets.get(&path.hash_code()) {
            Some(bucket) => {
                let mut k: usize = 0;
                while k < bucket.len()
                    invariant
                        k <= bucket@.len(),
                        path_views(self.paths@).no_duplicates(),
                        forall|j: int|
                            0 <= j < bucket@.len() ==> (#[trigger] bucket@[j]) < self.paths@.len(),
                        forall|j: int|
                            0 <= j < k ==> self.paths@[(#[trigger] bucket@[j]) as int]@ != path@,
                    decreases bucket.len() - k,
                {
                    let i = bucket[k];
                    if self.paths[i].same(path) {
                        return Some(i);
                    }
                    k = k + 1;
                }
                proof {
                    if self@.contains(path@) {
                        let i = choose|i: int|
                            0 <= i < self.paths@.len() && path_views(self.paths@)[i] == path@;
                        assert(self.paths@[i]@ == path@);
                        assert(i < self.paths.len());
                        let k = choose|k: int|
                            0 <= k < bucket@.len() && bucket@[k] == i as usize;
                        assert(self.paths@[bucket@[k] as int]@ != path@);
                    }
                }
                None
            },
            None => {
                proof {
                    if self@.contains(path@) {
                        let i = choose|i: int|
                            0 <= i < self.paths@.len() && path_views(self.paths@)[i] == path@;
                        assert(self.paths@[i]@ == path@);
                    }
                }
                None
            },
        }
    }

    /// The list with one more path at its end, unless the path is there already.
    pub fn with(self, path: TreePath) -> (index: PathIndex)
        ensures
            index@ == (if self@.contains(path@) {
                self@
            } else {
                self@.push(path@)
            }),
    {
        if self.find(&path).is_some() {
            return self;
        }
        proof {
            use_type_invariant(&self);
        }
        let ghost before = self;
        let PathIndex { mut paths, mut buckets } = self;
        let hash = path.hash_code();
        let position = paths.len();
        let mut bucket: Vec<usize> = match buckets.remove(&hash) {
            Some(bucket) => bucket,
            None => Vec::new(),
        };
        let ghost old_bucket = bucket@;
        bucket.push(position);
        buckets.insert(hash, bucket);
        paths.push(path);
        proof {
            assert(path_views(paths@) =~= path_views(before.paths@).push(path@));
            assert(bucket@.last() == position);
            assert forall|i: int| 0 <= i < paths@.len() implies buckets@.contains_key(
                path_hash((#[trigger] paths@[i])@),
            ) && buckets@[path_hash(paths@[i]@)]@.contains(i as usize) by {
                if i < before.paths@.len() {
                    assert(paths@[i] == before.paths@[i]);
                    let h = path_hash(paths@[i]@);
                    if h == hash {
                        let k = choose|k: int|
                            0 <= k < old_bucket.len() && old_bucket[k] == i as usize;
                        assert(bucket@[k] == i as usize);
                    }
                } else {
                    assert(bucket@[bucket@.len() - 1] == i as usize);
                }
            }
        }
        PathIndex { paths, buckets }
    }

    /// The number of paths.
    pub fn len(&self) -> (count: usize)
        ensures
            count == self@.len(),
    {
        self.paths.len()
    }

    /// The paths.
    pub fn paths(&self) -> (paths: &Vec<TreePath>)
        ensures
            path_views(paths@) == self@,
    {
        &self.paths
    }

    /// The paths.
    pub fn into_paths(self) -> (paths: Vec<TreePath>)
        ensures
            path_views(paths@) == self@,
    {
        self.paths
    }
}

/// A set of paths with quick membership tests.
pub struct PathSet {
    index: PathIndex,
}

impl View for PathSet {
    type V = Set<Components>;

    closed spec fn view(&self) -> Set<Components> {
        self.index@.to_set()
    }
}

proof fn lemma_push_to_set(paths: Seq<Components>, path: Components)
    ensures
        paths.push(path).to_set() == paths.to_set().insert(path),
{
    let all = paths.push(path);
    assert forall|p: Components| all.to_set().contains(p) == paths.to_set().insert(
        path,
    ).contains(p) by {
        if paths.contains(p) {
            let i = choose|i: int| 0 <= i < paths.len() && paths[i] == p;
            assert(all[i] == p);
        }
        if p == path {
            assert(all[paths.len() as int] == p);
        }
    }
    assert(all.to_set() =~= paths.to_set().insert(path));
}

impl PathSet {
    /// The empty set.
    pub fn empty() -> (set: PathSet)
        ensures
            set@ == Set::<Components>::empty(),
    {
        let set = PathSet { index: PathIndex::empty() };
        assert(set@ =~= Set::empty());
        set
    }

    /// True when the path is in the set.
    pub fn contains(&self, path: &TreePath) -> (found: bool)
        ensures
            found == self@.contains(path@),
    {
        self.index.find(path).is_some()
    }

    /// The set with one more path.
    pub fn with(self, path: TreePath) -> (set: PathSet)
        ensures
            set@ == self@.insert(path@),
    {
        proof {
            lemma_push_to_set(self.index@, path@);
            if self.index@.contains(path@) {
                assert(self@ =~= self@.insert(path@));
            }
        }
        PathSet { index: self.index.with(path) }
    }

    /// The paths of a list, as a set.
    pub fn of(paths: &Vec<TreePath>) -> (set: PathSet)
        ensures
            set@ == path_views(paths@).to_set(),
    {
        let mut set = PathSet::empty();
        let mut i: usize = 0;
        assert(path_views(paths@.take(0)).to_set() =~= Set::empty());
        while i < paths.len()
            invariant
                i <= paths@.len(),
                set@ == path_views(paths@.take(i as int)).to_set(),
            decreases paths.len() - i,
        {
            proof {
                let before = path_views(paths@.take(i as int));
                let after = path_views(paths@.take(i + 1));
                assert(after =~= before.push(paths@[i as int]@));
                lemma_push_to_set(before, paths@[i as int]@);
            }
            set = set.with(paths[i].clone());
            i = i + 1;
        }
        assert(paths@.take(i as int) =~= paths@);
        set
    }

    /// The set with the paths of another.
    pub fn union(self, other: &PathSet) -> (set: PathSet)
        ensures
            set@ == self@.union(other@),
    {
        let mut set = self;
        let paths = other.index.paths();
        let ghost all = other.index@;
        let mut i: usize = 0;
        assert(set@ =~= self@.union(all.take(0).to_set()));
        while i < paths.len()
            invariant
                i <= paths@.len(),
                path_views(paths@) == all,
                set@ == self@.union(all.take(i as int).to_set()),
            decreases paths.len() - i,
        {
            proof {
                assert(all.take(i + 1) =~= all.take(i as int).push(all[i as int]));
                lemma_push_to_set(all.take(i as int), all[i as int]);
                assert(self@.union(all.take(i + 1).to_set()) =~= self@.union(
                    all.take(i as int).to_set(),
                ).insert(all[i as int]));
            }
            set = set.with(paths[i].clone());
            i = i + 1;
        }
        assert(all.take(i as int) =~= all);
        set
    }

    /// The directories above the paths of the set.
    pub fn above(&self) -> (dirs: PathSet)
        ensures
            dirs@ == above(self@),
    {
        let mut dirs = PathSet::empty();
        let paths = self.index.paths();
        let ghost all = self.index@;
        let mut i: usize = 0;
        assert(dirs@ =~= above(all.take(0).to_set()));
        while i < paths.len()
            invariant
                i <= paths@.len(),
                path_views(paths@) == all,
                dirs@ == above(all.take(i as int).to_set()),
            decreases paths.len() - i,
        {
            let ghost before = dirs@;
            let ghost path = all[i as int];
            let depth = paths[i].depth();
            let mut n: usize = 0;
            while n < depth
                invariant
                    i < paths@.len(),
                    path_views(paths@) == all,
                    path == all[i as int],
                    n <= depth == path.len(),
                    forall|p: Components| #[trigger]
                        dirs@.contains(p) <==> before.contains(p) || (p.len() < n
                            && p.is_prefix_of(path)),
                decreases depth - n,
            {
                let ghost earlier = dirs@;
                dirs = dirs.with(paths[i].front(n));
                proof {
                    assert forall|p: Components| #[trigger]
                        dirs@.contains(p) <==> before.contains(p) || (p.len() < n + 1
                            && p.is_prefix_of(path)) by {
                        assert(path.take(n as int).is_prefix_of(path));
                        if p.is_prefix_of(path) && p.len() == n {
                            assert(p =~= path.take(n as int));
                        }
                        assert(earlier.contains(p) || p == path.take(n as int) <==> dirs@.contains(p));
                    }
                }
                n = n + 1;
            }
            proof {
                let now = all.take(i + 1).to_set();
                assert(all.take(i + 1) =~= all.take(i as int).push(path));
                lemma_push_to_set(all.take(i as int), path);
                assert forall|p: Components| dirs@.contains(p) == above(now).contains(p) by {
                    if above(all.take(i as int).to_set()).contains(p) {
                        let k = choose|k: Components| #[trigger]
                            all.take(i as int).to_set().contains(k) && strictly_under(k, p);
                        assert(now.contains(k));
                    }
                    if p.len() < path.len() && p.is_prefix_of(path) {
                        assert(now.contains(path));
                    }
                    if above(now).contains(p) {
                        let k = choose|k: Components| #[trigger]
                            now.contains(k) && strictly_under(k, p);
                        if k == path {
                            if p.len() == path.len() {
                                assert(p =~= path);
                            }
                        } else {
                            assert(all.take(i as int).to_set().contains(k));
                        }
                    }
                }
                assert(dirs@ =~= above(now));
            }
            i = i + 1;
        }
        assert(all.take(i as int) =~= all);
        dirs
    }
}

} // verus!
