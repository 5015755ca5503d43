//! Runs against a file system kept in memory.
//!
//! The source trees have the shape `artist/album/song.ext`. What a run leaves is
//! compared with an expected state that is built independently.

use std::collections::{BTreeMap, BTreeSet};

use musman::clean::{reconcile_tree, removed_files, TreeScan};
use musman::config::{resolve_existing, Config, SourceReply};
use musman::link::{
    after_parent, after_remove, after_retry, do_link, ensure_hard_link, FileMeta, InodeRef, Link,
    LinkAction, LinkReply, LinkStep, Permit, StatReply,
};
use musman::path::TreePath;
use musman::path_set::PathSet;
use musman::prune::{start_prune, RmdirReply};
use musman::run::{run, Run};
use musman::scan::{candidate_paths, judge_entries, scan, settle, SourceScan};
use musman::stats::Stats;
use musman::survey::WayReply;
use musman::walk::{walk_all, Entry, Kind, Listed, Listing};

/// Managed formats, best first.
const FORMATS: [&str; 3] = ["flac", "mp3", "ogg"];

#[derive(Clone, Debug, PartialEq, Eq)]
enum Node {
    Dir(u64),
    File(u64, String),
    /// A symbolic link, with the directory that it leads to, if any.
    Symlink(u64, Vec<u8>),
}

/// A file system in memory: each path, written out, with what is there.
#[derive(Clone, Debug, Default, PartialEq, Eq)]
struct Disk {
    nodes: BTreeMap<Vec<u8>, Node>,
    children: BTreeMap<Vec<u8>, BTreeSet<Vec<u8>>>,
    last_ino: u64,
    /// Paths whose removal, listing or creation fails.
    broken: BTreeSet<Vec<u8>>,
    /// Directories that cannot be entered.
    sealed: BTreeSet<Vec<u8>>,
}

fn path(text: &str) -> TreePath {
    TreePath::new(text)
}

fn split(path: &[u8]) -> (Vec<u8>, Vec<u8>) {
    let at = path.iter().rposition(|b| *b == b'/').unwrap();
    let dir = if at == 0 { b"/".to_vec() } else { path[..at].to_vec() };
    (dir, path[at + 1..].to_vec())
}

impl Disk {
    fn new() -> Disk {
        let mut disk = Disk::default();
        disk.nodes.insert(b"/".to_vec(), Node::Dir(0));
        disk
    }

    fn put(&mut self, path: &[u8], node: Node) {
        let (dir, name) = split(path);
        self.nodes.insert(path.to_vec(), node);
        self.children.entry(dir).or_default().insert(name);
    }

    fn take(&mut self, path: &[u8]) {
        let (dir, name) = split(path);
        self.nodes.remove(path);
        self.children.get_mut(&dir).unwrap().remove(&name);
    }

    fn next_ino(&mut self) -> u64 {
        self.last_ino += 1;
        self.last_ino
    }

    fn create_dirs(&mut self, path: &[u8]) -> Result<(), String> {
        if self.broken.contains(path) {
            return Err("Permission denied".to_string());
        }
        let place = self.place_of_dir(path);
        match self.nodes.get(&place) {
            Some(Node::Dir(_)) => Ok(()),
            Some(_) => Err("File exists".to_string()),
            None => {
                let (dir, _) = split(&place);
                self.create_dirs(&dir)?;
                let ino = self.next_ino();
                self.put(&place, Node::Dir(ino));
                Ok(())
            }
        }
    }

    fn write(&mut self, path: &str, contents: &str) {
        self.write_bytes(path.as_bytes(), contents);
    }

    fn write_bytes(&mut self, path: &[u8], contents: &str) {
        let (dir, _) = split(path);
        self.create_dirs(&dir).unwrap();
        let ino = self.next_ino();
        self.put(path, Node::File(ino, contents.to_string()));
    }

    fn symlink(&mut self, path: &str) {
        self.symlink_to(path, "");
    }

    fn symlink_to(&mut self, path: &str, target: &str) {
        let (dir, _) = split(path.as_bytes());
        self.create_dirs(&dir).unwrap();
        let ino = self.next_ino();
        self.put(path.as_bytes(), Node::Symlink(ino, target.as_bytes().to_vec()));
    }

    /// The directory that a path leads to.
    fn place_of_dir(&self, dir: &[u8]) -> Vec<u8> {
        let place = self.place(dir);
        match self.nodes.get(&place) {
            Some(Node::Symlink(_, target)) if !target.is_empty() => target.clone(),
            _ => place,
        }
    }

    /// Where the entry at a path is, once symbolic links on the way have been
    /// followed.
    fn place(&self, path: &[u8]) -> Vec<u8> {
        if path == b"/" {
            return path.to_vec();
        }
        let (dir, name) = split(path);
        let mut place = self.place_of_dir(&dir);
        if place != b"/" {
            place.push(b'/');
        }
        place.extend_from_slice(&name);
        place
    }

    /// Asks about a directory on the way to a link.
    fn way(&self, dir: &TreePath) -> WayReply {
        match self.nodes.get(&self.place(&dir.to_bytes())) {
            Some(Node::Symlink(_, target)) if !target.is_empty() => {
                WayReply::Link(TreePath::from_bytes(target))
            }
            _ => WayReply::Open,
        }
    }

    fn remove(&mut self, path: &str) {
        self.take(path.as_bytes());
    }

    fn hard_link(&mut self, src: &str, dest: &str) {
        let node = self.nodes[src.as_bytes()].clone();
        self.put(dest.as_bytes(), node);
    }

    fn is_there(&self, path: &str) -> bool {
        self.nodes.contains_key(path.as_bytes())
    }

    fn is_dir(&self, path: &str) -> bool {
        matches!(self.nodes.get(path.as_bytes()), Some(Node::Dir(_)))
    }

    fn is_file(&self, path: &str) -> bool {
        matches!(self.nodes.get(path.as_bytes()), Some(Node::File(_, _)))
    }

    fn inode(&self, path: &str) -> u64 {
        match &self.nodes[path.as_bytes()] {
            Node::Dir(ino) => *ino,
            Node::File(ino, _) => *ino,
            Node::Symlink(ino, _) => *ino,
        }
    }

    fn ref_of(&self, path: &str) -> InodeRef {
        InodeRef { dev: 1, ino: self.inode(path) }
    }

    fn look(&self, path: &[u8]) -> Option<FileMeta> {
        self.nodes.get(&self.place(path)).map(|node| match node {
            Node::Dir(ino) => FileMeta { is_file: false, dev: 1, ino: *ino },
            Node::File(ino, _) => FileMeta { is_file: true, dev: 1, ino: *ino },
            Node::Symlink(ino, _) => FileMeta { is_file: false, dev: 1, ino: *ino },
        })
    }

    fn list(&self, dir: &TreePath) -> Listing {
        let bytes = dir.to_bytes();
        if self.broken.contains(&bytes) {
            return Err("Permission denied".to_string());
        }
        let mut items = Vec::new();
        if let Some(names) = self.children.get(&bytes) {
            for name in names {
                let mut whole = bytes.clone();
                if whole != b"/" {
                    whole.push(b'/');
                }
                whole.extend_from_slice(name);
                let kind = match self.nodes[&whole] {
                    Node::Dir(_) => Kind::Dir,
                    Node::File(_, _) => Kind::File,
                    Node::Symlink(_, _) => Kind::Other,
                };
                items.push(Ok(Listed { name: name.clone(), kind: Ok(kind) }));
            }
        }
        Ok(items)
    }

    fn stat(&self, path: &TreePath) -> Result<FileMeta, String> {
        let bytes = path.to_bytes();
        if self.broken.contains(&bytes) {
            return Err("Permission denied".to_string());
        }
        self.look(&bytes).ok_or("No such file or directory".to_string())
    }

    fn unlink(&mut self, path: &TreePath) -> Result<(), String> {
        let bytes = path.to_bytes();
        if self.broken.contains(&bytes) {
            return Err("Permission denied".to_string());
        }
        let bytes = self.place(&bytes);
        match self.nodes.get(&bytes) {
            None => Err("No such file or directory".to_string()),
            Some(Node::Dir(_)) => Err("Is a directory".to_string()),
            Some(_) => {
                self.take(&bytes);
                Ok(())
            }
        }
    }

    fn rmdir(&mut self, path: &TreePath) -> RmdirReply {
        let bytes = path.to_bytes();
        if self.broken.contains(&bytes) {
            return RmdirReply::Failed("Permission denied".to_string());
        }
        let empty = self.children.get(&bytes).map_or(true, |names| names.is_empty());
        if !empty || !self.nodes.contains_key(&bytes) {
            return RmdirReply::Left;
        }
        self.take(&bytes);
        RmdirReply::Removed
    }

    fn link(&mut self, link: &Link) -> LinkReply {
        let src = link.src.to_bytes();
        let dest = link.dest.to_bytes();
        if self.broken.contains(&dest) {
            return LinkReply::Failed("Operation not permitted".to_string());
        }
        let dest = self.place(&dest);
        let (dir, _) = split(&dest);
        let node = match self.nodes.get(&src) {
            Some(node) => node.clone(),
            None => return LinkReply::NotFound("No such file or directory".to_string()),
        };
        match self.nodes.get(&dir) {
            None => return LinkReply::NotFound("No such file or directory".to_string()),
            Some(Node::Dir(_)) => {}
            Some(_) => return LinkReply::Failed("Not a directory".to_string()),
        }
        if self.nodes.contains_key(&dest) {
            return LinkReply::Failed("File exists".to_string());
        }
        self.put(&dest, node);
        LinkReply::Linked
    }

    /// Ensures one link, step by step.
    fn ensure(
        &mut self,
        link: &Link,
        permit: Permit,
        dry_run: bool,
        verbose: bool,
        lines: &mut Vec<String>,
    ) -> Result<LinkAction, String> {
        let is_sealed = self
            .sealed
            .iter()
            .any(|dir| link.dest.starts_with(&TreePath::from_bytes(dir)));
        let found = match self.look(&link.dest.to_bytes()) {
            _ if is_sealed => StatReply::Failed("Permission denied".to_string()),
            Some(meta) => StatReply::Found(meta),
            None => StatReply::Missing,
        };
        let (line, mut step) = ensure_hard_link(link, permit, found, dry_run, verbose);
        lines.extend(line);
        loop {
            step = match step {
                LinkStep::Remove(action) => {
                    after_remove(link, action, self.unlink(&link.dest))
                }
                LinkStep::Link(action) => do_link(link, action, self.link(link)),
                LinkStep::CreateParent(action, dir) => {
                    let outcome = self.create_dirs(&dir.to_bytes());
                    after_parent(action, &dir, outcome)
                }
                LinkStep::Retry(action) => {
                    let linked = match self.link(link) {
                        LinkReply::Linked => Ok(()),
                        LinkReply::NotFound(cause) => Err(cause),
                        LinkReply::Failed(cause) => Err(cause),
                    };
                    after_retry(link, action, linked)
                }
                LinkStep::Finished(action) => return Ok(action),
                LinkStep::Failed(line) => return Err(line),
            };
        }
    }

    /// Carries a run through to its end: what it did, and the lines it printed.
    fn reconcile(&mut self, config: Config) -> (Result<Stats, String>, Vec<String>) {
        let mut lines: Vec<String> = Vec::new();
        let mut state = run(config);
        loop {
            state = match state {
                Run::Walking(stage) => {
                    let listings = stage.dirs().iter().map(|dir| self.list(dir)).collect();
                    stage.read(listings)
                }
                Run::Identifying(stage) => {
                    let metas = stage.files().iter().map(|file| self.stat(file)).collect();
                    stage.looked_at(metas)
                }
                Run::CreatingRoot(stage) => {
                    let outcome = self.create_dirs(&stage.dir().to_bytes());
                    stage.created(outcome)
                }
                Run::Surveying(stage) => {
                    let replies = stage.dirs().iter().map(|dir| self.way(dir)).collect();
                    stage.answered(replies)
                }
                Run::Linking(stage) => {
                    let mut results = Vec::new();
                    for (link, permit) in stage.links().iter().zip(stage.permits().iter()) {
                        results.push(self.ensure(
                            link,
                            *permit,
                            stage.dry_run(),
                            stage.verbose(),
                            &mut lines,
                        ));
                    }
                    stage.linked(results)
                }
                Run::Checking(stage) => {
                    let is_dir = matches!(
                        self.nodes.get(&stage.root().to_bytes()),
                        Some(Node::Dir(_))
                    );
                    stage.answered(is_dir)
                }
                Run::Reading(stage) => {
                    let listings = stage.dirs().iter().map(|dir| self.list(dir)).collect();
                    stage.read(listings)
                }
                Run::Removing(stage) => {
                    let mut outcomes = Vec::new();
                    for removal in stage.removals() {
                        lines.extend(removal.line.clone());
                        outcomes.push(if removal.delete {
                            self.unlink(&removal.path)
                        } else {
                            Ok(())
                        });
                    }
                    assert!(stage.fits());
                    let (next, more) = stage.removed(outcomes);
                    lines.extend(more);
                    next
                }
                Run::Pruning(stage) => {
                    let reply = self.rmdir(&stage.dir());
                    let (next, line) = stage.tried(reply);
                    lines.extend(line);
                    next
                }
                Run::Marking(stage) => {
                    let is_dir = matches!(
                        self.nodes.get(&stage.marker().to_bytes()),
                        Some(Node::Dir(_))
                    );
                    let (next, line) = stage.answered(is_dir);
                    lines.extend(line);
                    next
                }
                Run::CreatingMarker(stage) => {
                    let outcome = self.create_dirs(&stage.marker().to_bytes());
                    stage.created(outcome)
                }
                Run::Finished(stats) => return (Ok(stats), lines),
                Run::Failed(line) => return (Err(line), lines),
            };
        }
    }

    /// Resolves an output directory.
    fn resolve(&self, text: &str) -> Result<TreePath, String> {
        let mut resolve = resolve_existing(path(text), text.to_string());
        while !self.nodes.contains_key(&resolve.current().to_bytes()) {
            resolve = resolve.not_there()?;
        }
        let canonical = resolve.current().clone();
        resolve.there(Ok(canonical))
    }

    fn config(
        &self,
        source: &str,
        formats_root: &str,
        max_qual_root: &str,
        formats: &[&str],
        verbose: bool,
        dry_run: bool,
    ) -> Result<Config, String> {
        Config::new(
            if self.is_there(source) {
                SourceReply::Resolved(path(source), self.is_dir(source))
            } else {
                SourceReply::Failed(source.to_string(), "No such file or directory".to_string())
            },
            self.resolve(formats_root),
            self.resolve(max_qual_root),
            formats.iter().map(|f| f.to_string()).collect(),
            verbose,
            dry_run,
        )
    }

    /// Runs with all managed formats and returns what was printed.
    fn run_musman(&mut self, dry_run: bool, verbose: bool) -> String {
        self.run_with(&FORMATS, "/src", "/formats", "/max_qual", dry_run, verbose)
    }

    fn run_with(
        &mut self,
        formats: &[&str],
        source: &str,
        formats_root: &str,
        max_qual_root: &str,
        dry_run: bool,
        verbose: bool,
    ) -> String {
        let config = self
            .config(source, formats_root, max_qual_root, formats, verbose, dry_run)
            .unwrap();
        let (result, mut lines) = self.reconcile(config);
        let stats = result.unwrap();
        assert!(!stats.had_errors(), "{}", stats.summary());
        lines.push(stats.summary());
        lines.join("\n")
    }

    /// What is below `root`, by relative path: files with their inode and
    /// contents.
    fn files(&self, root: &str) -> BTreeMap<String, (u64, String)> {
        let prefix = format!("{root}/").into_bytes();
        let mut files = BTreeMap::new();
        for (path, node) in &self.nodes {
            if let (Some(rel), Node::File(ino, contents)) = (path.strip_prefix(&prefix[..]), node) {
                let rel = String::from_utf8(rel.to_vec()).unwrap();
                files.insert(rel, (*ino, contents.clone()));
            }
        }
        files
    }

    fn dirs(&self, root: &str) -> BTreeSet<String> {
        let prefix = format!("{root}/").into_bytes();
        let mut dirs = BTreeSet::new();
        for (path, node) in &self.nodes {
            if let (Some(rel), Node::Dir(_)) = (path.strip_prefix(&prefix[..]), node) {
                dirs.insert(String::from_utf8(rel.to_vec()).unwrap());
            }
        }
        dirs
    }

    /// The files that the output trees should hold, with their inodes.
    fn expected_state(
        &self,
        source: &str,
        order: &[&str],
        exclude: &[&str],
    ) -> (BTreeMap<String, u64>, BTreeMap<String, u64>) {
        let mut format_links = BTreeMap::new();
        let mut best: BTreeMap<String, (usize, String, u64)> = BTreeMap::new();
        for (rel, (ino, _)) in self.files(source) {
            let whole = format!("{source}/{rel}");
            if exclude.iter().any(|ex| whole.starts_with(&format!("{ex}/"))) {
                continue;
            }
            let (dir, name) = match rel.rfind('/') {
                Some(at) => (&rel[..at], &rel[at + 1..]),
                None => ("", &rel[..]),
            };
            let dot = match name.rfind('.') {
                Some(dot) if dot > 0 && dot + 1 < name.len() => dot,
                _ => continue,
            };
            let ext = &name[dot + 1..];
            let index = match order.iter().position(|f| *f == ext) {
                Some(index) => index,
                None => continue,
            };
            format_links.insert(format!("{ext}/{rel}"), ino);
            let key = if dir.is_empty() {
                name[..dot].to_string()
            } else {
                format!("{dir}/{}", &name[..dot])
            };
            let better = match best.get(&key) {
                Some(current) => index < current.0,
                None => true,
            };
            if better {
                best.insert(key, (index, ext.to_string(), ino));
            }
        }
        let track_links =
            best.into_iter().map(|(key, (_, ext, ino))| (format!("{key}.{ext}"), ino)).collect();
        (format_links, track_links)
    }

    fn assert_tree_matches(&self, root: &str, expected: &BTreeMap<String, u64>) {
        let actual: BTreeMap<String, u64> = self
            .files(root)
            .into_iter()
            .map(|(rel, (ino, _))| (rel, ino))
            .collect();
        assert_eq!(&actual, expected, "files in {root}");
    }

    fn assert_dirs_match(&self, root: &str, expected: &BTreeMap<String, u64>) {
        assert_eq!(self.dirs(root), expected_dirs(expected), "directories in {root}");
    }

    /// Checks both output trees against the source tree.
    fn assert_reconciled(&self) {
        let (formats, tracks) =
            self.expected_state("/src", &FORMATS, &["/formats", "/max_qual"]);
        self.assert_tree_matches("/formats", &formats);
        self.assert_tree_matches("/max_qual", &tracks);
        self.assert_dirs_match("/formats", &formats);
        let mut dirs = expected_dirs(&tracks);
        dirs.insert(".stfolder".to_string());
        assert_eq!(self.dirs("/max_qual"), dirs);
    }
}

/// Every proper directory prefix of relative file paths.
fn expected_dirs(files: &BTreeMap<String, u64>) -> BTreeSet<String> {
    let mut dirs = BTreeSet::new();
    for rel in files.keys() {
        for (at, _) in rel.match_indices('/') {
            dirs.insert(rel[..at].to_string());
        }
    }
    dirs
}

/// The source tree that most tests use.
fn make_source_tree(disk: &mut Disk, src: &str) {
    for (rel, contents) in [
        ("Artist/Album A/01 Intro.flac", "flac-a"),
        ("Artist/Album A/01 Intro.mp3", "mp3-a"),
        ("Artist/Album A/01 Intro.ogg", "ogg-a"),
        ("Artist/Album A/02 Outro.mp3", "mp3-b"),
        ("Artist/Album A/02 Outro.ogg", "ogg-b"),
        ("Artist/Album B/1. Title.flac", "flac-c"),
        ("Artist/Album B/1. Title.mp3", "mp3-c"),
        (".hidden/secret.flac", "flac-h"),
        ("Artist/notes.txt", "txt"),
        ("README", "readme"),
    ] {
        disk.write(&format!("{src}/{rel}"), contents);
    }
}

/// Clears the tree at `root`: the files removed, and how many directories.
fn clear(disk: &mut Disk, root: &str, keep: &[&str], dry_run: bool) -> (Vec<String>, usize) {
    let keep: Vec<TreePath> = keep.iter().map(|k| path(k)).collect();
    let mut tree: TreeScan = reconcile_tree(&path(root), PathSet::of(&keep), disk.is_dir(root));
    while !tree.level().is_empty() {
        let listings = tree.level().iter().map(|dir| disk.list(dir)).collect();
        tree = match tree.advance(listings) {
            Ok(tree) => tree,
            Err(line) => panic!("{line}"),
        };
    }
    let removals = tree.removals(dry_run, false);
    let mut outcomes = Vec::new();
    for removal in &removals {
        outcomes.push(if removal.delete { disk.unlink(&removal.path) } else { Ok(()) });
    }
    let paths: Vec<String> = removals.iter().map(|removal| removal.path.display()).collect();
    let removed = removed_files(removals, outcomes);
    assert_eq!(removed.count, paths.len());
    assert!(removed.failures.is_empty());
    let (mut prune, lines) = start_prune(tree, &removed.unremoved, dry_run);
    assert!(dry_run || lines.is_empty());
    while let Some(dir) = prune.pending() {
        let reply = disk.rmdir(&dir.clone());
        prune = prune.record(reply, false).unwrap().0;
    }
    (paths, prune.removed_dirs())
}

/// Ensures one link.
fn ensure(disk: &mut Disk, src: &str, dest: &str, ino: InodeRef, dry_run: bool) -> LinkAction {
    let link = Link { src: path(src), dest: path(dest), ino };
    disk.ensure(&link, Permit::Full, dry_run, false, &mut Vec::new()).unwrap()
}

/// Scans the tree at `src`.
fn scan_source(disk: &Disk, src: &str, excluded: &[&str], formats: &[&str]) -> SourceScan {
    let formats: Vec<String> = formats.iter().map(|f| f.to_string()).collect();
    let excluded: Vec<TreePath> = excluded.iter().map(|e| path(e)).collect();
    let seen = walk(disk, src, &excluded);
    let judged = judge_entries(seen, &path(src), &excluded, &formats);
    let metas = candidate_paths(&judged).iter().map(|file| disk.stat(file)).collect();
    scan(settle(judged, metas), &formats)
}

fn walk(disk: &Disk, root: &str, excluded: &Vec<TreePath>) -> Vec<Result<Entry, String>> {
    let mut walk = walk_all(&path(root), excluded);
    while !walk.level().is_empty() {
        let listings = walk.level().iter().map(|dir| disk.list(dir)).collect();
        walk = walk.advance(listings);
    }
    walk.into_seen()
}

// Clearing one tree.

#[test]
fn removes_only_files_not_in_keep_set() {
    let mut disk = Disk::new();
    disk.write("/t/keep.bin", "k");
    disk.write("/t/drop.bin", "d");
    disk.write("/t/sub/nested.bin", "n");

    let (removed, pruned) = clear(&mut disk, "/t", &["/t/keep.bin"], false);

    assert_eq!(removed.len(), 2);
    assert!(disk.is_there("/t/keep.bin"));
    assert!(!disk.is_there("/t/drop.bin"));
    assert!(!disk.is_there("/t/sub/nested.bin"));
    assert_eq!(pruned, 1);
    assert!(!disk.is_there("/t/sub"));
}

#[test]
fn leaves_symlinks_alone() {
    let mut disk = Disk::new();
    disk.write("/outside/target.bin", "t");
    disk.symlink("/t/link.bin");

    let (removed, pruned) = clear(&mut disk, "/t", &[], false);
    assert!(removed.is_empty());
    assert_eq!(pruned, 0);
    assert!(matches!(disk.nodes[&b"/t/link.bin"[..]], Node::Symlink(_, _)));
    assert!(disk.is_there("/outside/target.bin"));
}

#[test]
fn dry_run_removes_nothing() {
    let mut disk = Disk::new();
    disk.write("/t/a.bin", "a");
    let (removed, pruned) = clear(&mut disk, "/t", &[], true);
    assert_eq!(removed.len(), 1);
    assert_eq!(pruned, 0);
    assert!(disk.is_there("/t/a.bin"));
}

#[test]
fn stfolder_and_its_contents_are_untouched() {
    let mut disk = Disk::new();
    disk.write("/t/.stfolder/metadata.bin", "m");
    disk.write("/t/stale.bin", "s");

    let (removed, pruned) = clear(&mut disk, "/t", &[], false);

    assert_eq!(removed.len(), 1);
    assert_eq!(pruned, 0);
    assert!(disk.is_dir("/t/.stfolder"));
    assert!(disk.is_there("/t/.stfolder/metadata.bin"));
}

#[test]
fn cleans_subtrees_of_unmanaged_formats() {
    let mut disk = Disk::new();
    disk.write("/t/ogg/x.ogg", "o");
    disk.write("/t/flac/y.flac", "f");

    let (removed, pruned) = clear(&mut disk, "/t", &["/t/flac/y.flac"], false);

    assert_eq!(removed, vec!["/t/ogg/x.ogg".to_string()]);
    assert_eq!(pruned, 1);
    assert!(!disk.is_there("/t/ogg"));
    assert!(disk.is_there("/t/flac/y.flac"));
}

#[test]
fn keeps_intermediate_directories_with_kept_descendants() {
    let mut disk = Disk::new();
    disk.write("/t/a/b/kept.bin", "k");

    let (removed, pruned) = clear(&mut disk, "/t", &["/t/a/b/kept.bin"], false);

    assert!(removed.is_empty());
    assert_eq!(pruned, 0);
    assert!(disk.is_there("/t/a/b/kept.bin"));
    assert!(disk.is_dir("/t/a"));
    assert!(disk.is_dir("/t/a/b"));
}

#[test]
fn prunes_only_the_empty_branch_of_a_mixed_directory() {
    let mut disk = Disk::new();
    disk.write("/t/a/b/kept.bin", "k");
    disk.write("/t/a/c/stale.bin", "s");

    let (removed, pruned) = clear(&mut disk, "/t", &["/t/a/b/kept.bin"], false);

    assert_eq!(removed, vec!["/t/a/c/stale.bin".to_string()]);
    assert_eq!(pruned, 1);
    assert!(disk.is_there("/t/a/b/kept.bin"));
    assert!(disk.is_dir("/t/a"));
    assert!(disk.is_dir("/t/a/b"));
    assert!(!disk.is_there("/t/a/c"));
}

#[test]
fn prunes_directories_that_were_already_empty() {
    let mut disk = Disk::new();
    disk.create_dirs(b"/t/a/b").unwrap();

    let (removed, pruned) = clear(&mut disk, "/t", &[], false);
    assert!(removed.is_empty());
    assert_eq!(pruned, 2);
    assert!(!disk.is_there("/t/a"));
}

#[test]
fn a_root_that_is_no_directory_is_left_alone() {
    let mut disk = Disk::new();
    assert_eq!(clear(&mut disk, "/t", &[], false), (vec![], 0));
    disk.write("/t", "a file");
    assert_eq!(clear(&mut disk, "/t", &[], false), (vec![], 0));
    assert!(disk.is_file("/t"));
}

// Ensuring one link.

#[test]
fn creates_a_hard_link() {
    let mut disk = Disk::new();
    disk.write("/src.bin", "data");
    let ino = disk.ref_of("/src.bin");

    let action = ensure(&mut disk, "/src.bin", "/out/link.bin", ino, false);
    assert_eq!(action, LinkAction::Created);
    assert_eq!(disk.inode("/src.bin"), disk.inode("/out/link.bin"));
}

#[test]
fn is_idempotent_when_already_linked() {
    let mut disk = Disk::new();
    disk.write("/src.bin", "data");
    disk.hard_link("/src.bin", "/link.bin");
    let ino = disk.ref_of("/src.bin");

    let action = ensure(&mut disk, "/src.bin", "/link.bin", ino, false);
    assert_eq!(action, LinkAction::UpToDate);
}

#[test]
fn replaces_a_stale_link_to_a_different_inode() {
    let mut disk = Disk::new();
    disk.write("/src.bin", "new");
    disk.write("/stale.bin", "old");
    disk.hard_link("/stale.bin", "/link.bin");
    let ino = disk.ref_of("/src.bin");

    let action = ensure(&mut disk, "/src.bin", "/link.bin", ino, false);
    assert_eq!(action, LinkAction::Replaced);
    assert_eq!(disk.inode("/src.bin"), disk.inode("/link.bin"));
}

#[test]
fn dry_run_writes_nothing() {
    let mut disk = Disk::new();
    disk.write("/src.bin", "data");
    let ino = disk.ref_of("/src.bin");

    let action = ensure(&mut disk, "/src.bin", "/link.bin", ino, true);
    assert_eq!(action, LinkAction::Created);
    assert!(!disk.is_there("/link.bin"));
}

#[test]
fn replaces_a_symlink_destination() {
    let mut disk = Disk::new();
    disk.write("/src.bin", "data");
    disk.write("/target.bin", "other");
    disk.symlink("/link.bin");
    let ino = disk.ref_of("/src.bin");

    let action = ensure(&mut disk, "/src.bin", "/link.bin", ino, false);
    assert_eq!(action, LinkAction::Replaced);
    assert!(disk.is_there("/target.bin"));
    assert_eq!(disk.inode("/src.bin"), disk.inode("/link.bin"));
}

#[test]
fn a_vanished_source_file_fails_on_the_second_attempt() {
    let mut disk = Disk::new();
    let link =
        Link { src: path("/gone.bin"), dest: path("/out/link.bin"), ino: InodeRef { dev: 1, ino: 9 } };
    let result = disk.ensure(&link, Permit::Full, false, false, &mut Vec::new());
    assert_eq!(
        result,
        Err("hard link /out/link.bin -> /gone.bin failed (hard links may not be supported on \
             this filesystem): No such file or directory"
            .to_string())
    );
    assert!(disk.is_dir("/out"));
}

#[test]
fn a_directory_at_the_destination_cannot_be_replaced() {
    let mut disk = Disk::new();
    disk.write("/src.bin", "data");
    disk.create_dirs(b"/link.bin").unwrap();
    let link = Link { src: path("/src.bin"), dest: path("/link.bin"), ino: disk.ref_of("/src.bin") };
    let result = disk.ensure(&link, Permit::Full, false, false, &mut Vec::new());
    assert_eq!(result, Err("remove stale link /link.bin: Is a directory".to_string()));
}

// Walking and scanning.

#[test]
fn walks_everything_including_hidden() {
    let mut disk = Disk::new();
    disk.write("/t/a.bin", "a");
    disk.write("/t/.hid/sub/b.bin", "b");
    disk.symlink("/t/link.bin");

    let by_path: BTreeMap<String, Kind> = walk(&disk, "/t", &vec![])
        .into_iter()
        .map(|entry| {
            let entry = entry.unwrap();
            (entry.path.display(), entry.kind)
        })
        .collect();

    assert_eq!(by_path.get("/t"), Some(&Kind::Dir));
    assert_eq!(by_path.get("/t/a.bin"), Some(&Kind::File));
    assert_eq!(by_path.get("/t/.hid"), Some(&Kind::Dir));
    assert_eq!(by_path.get("/t/.hid/sub/b.bin"), Some(&Kind::File));
    assert_eq!(by_path.get("/t/link.bin"), Some(&Kind::Other));
    assert_eq!(by_path.len(), 6);
}

#[test]
fn groups_files_into_tracks_by_best_format() {
    let mut disk = Disk::new();
    disk.write("/t/album/01 Song.flac", "a");
    disk.write("/t/album/01 Song.mp3", "b");
    disk.write("/t/album/02 Song.mp3", "c");
    disk.write("/t/album/03 Song.ogg", "d");
    disk.write("/t/unmanaged.txt", "e");

    let scan = scan_source(&disk, "/t", &[], &["flac", "mp3", "ogg"]);

    assert_eq!(scan.regular_files, 5);
    assert_eq!(scan.files.len(), 4);
    assert_eq!(scan.tracks.len(), 3);

    let t01 = scan.track(&path("album/01 Song")).unwrap();
    assert_eq!(t01.best_ext, "flac");
    assert_eq!(t01.best_path.display(), "/t/album/01 Song.flac");
    assert_eq!(t01.best_ino, disk.ref_of("/t/album/01 Song.flac"));

    let t02 = scan.track(&path("album/02 Song")).unwrap();
    assert_eq!(t02.best_ext, "mp3");

    let t03 = scan.track(&path("album/03 Song")).unwrap();
    assert_eq!(t03.best_ext, "ogg");
    assert!(scan.track(&path("album/04 Song")).is_none());
}

#[test]
fn excluded_subtrees_are_pruned() {
    let mut disk = Disk::new();
    disk.write("/t/a.flac", "x");
    disk.write("/t/formats/flac/a.flac", "y");
    disk.write("/t/max_qual/a.flac", "z");

    let scan = scan_source(&disk, "/t", &["/t/formats", "/t/max_qual"], &["flac"]);

    assert_eq!(scan.files.len(), 1);
    assert_eq!(scan.files[0].path.display(), "/t/a.flac");
    assert_eq!(scan.files[0].rel.display(), "a.flac");
    assert_eq!(scan.regular_files, 1);
}

#[test]
fn hidden_files_and_dotfiles_are_scanned_like_find() {
    let mut disk = Disk::new();
    disk.write("/t/.hidden dir/secret.flac", "x");

    let scan = scan_source(&disk, "/t", &[], &["flac"]);
    assert_eq!(scan.files.len(), 1);
}

#[test]
fn non_utf8_names_do_not_panic() {
    let mut disk = Disk::new();
    disk.create_dirs(b"/t").unwrap();
    disk.write_bytes(&[b'/', b't', b'/', b's', 0xff, b'l', b'a', b'c'], "x");

    let scan = scan_source(&disk, "/t", &[], &["flac"]);
    assert_eq!(
        scan.errors,
        vec!["internal: non-UTF-8 file name in source tree".to_string()]
    );
    assert_eq!(scan.files.len(), 0);
    assert_eq!(scan.tracks.len(), 0);
    assert_eq!(scan.regular_files, 1);
}

#[test]
fn directories_that_are_no_text_are_mirrored_as_they_are() {
    let mut disk = Disk::new();
    disk.write_bytes(b"/src/bad\xffdir/01 Song.flac", "x");
    let config =
        disk.config("/src", "/formats", "/max_qual", &["flac"], false, false).unwrap();
    let (result, _) = disk.reconcile(config);
    assert!(!result.unwrap().had_errors());
    assert!(disk.nodes.contains_key(&b"/formats/flac/bad\xffdir/01 Song.flac"[..]));
    assert!(disk.nodes.contains_key(&b"/max_qual/bad\xffdir/01 Song.flac"[..]));
}

#[test]
fn tracks_whose_directories_look_alike_stay_apart() {
    let mut disk = Disk::new();
    disk.write_bytes(b"/src/a\xfe/x.flac", "first");
    disk.write_bytes(b"/src/a\xff/x.flac", "second");
    let found = scan_source(&disk, "/src", &[], &["flac"]);
    assert_eq!(found.files.len(), 2);
    assert_eq!(found.tracks.len(), 2);

    let config =
        disk.config("/src", "/formats", "/max_qual", &["flac"], false, false).unwrap();
    let stats = disk.reconcile(config).0.unwrap();
    assert_eq!(stats.links_created, 4);
    assert_eq!(
        disk.nodes[&b"/max_qual/a\xfe/x.flac"[..]],
        disk.nodes[&b"/src/a\xfe/x.flac"[..]]
    );
    assert_eq!(
        disk.nodes[&b"/max_qual/a\xff/x.flac"[..]],
        disk.nodes[&b"/src/a\xff/x.flac"[..]]
    );
    let before = disk.clone();
    let config =
        disk.config("/src", "/formats", "/max_qual", &["flac"], false, false).unwrap();
    let stats = disk.reconcile(config).0.unwrap();
    assert_eq!(stats.links_up_to_date, 4);
    assert_eq!(before, disk);
}

#[test]
fn excluded_trees_are_not_even_read() {
    let mut disk = Disk::new();
    disk.write("/m/a.flac", "x");
    disk.create_dirs(b"/m/formats").unwrap();
    disk.broken.insert(b"/m/formats".to_vec());

    let found = scan_source(&disk, "/m", &["/m/formats"], &["flac"]);
    assert_eq!(found.files.len(), 1);
    assert!(found.errors.is_empty());

    let excluded = vec![path("/m/formats")];
    let mut walk = walk_all(&path("/m"), &excluded);
    while !walk.level().is_empty() {
        assert!(walk.level().iter().all(|dir| *dir != path("/m/formats")));
        let listings = walk.level().iter().map(|dir| disk.list(dir)).collect();
        walk = walk.advance(listings);
    }
    assert!(walk_all(&path("/m/formats/flac"), &excluded).level().is_empty());
}

#[test]
fn an_unmanaged_file_is_only_counted() {
    let mut disk = Disk::new();
    make_source_tree(&mut disk, "/src");
    let before = scan_source(&disk, "/src", &[], &FORMATS);
    disk.write("/src/Artist/Album A/cover.jpg", "jpg");
    let after = scan_source(&disk, "/src", &[], &FORMATS);
    assert_eq!(after.regular_files, before.regular_files + 1);
    let paths = |found: &SourceScan| -> BTreeSet<String> {
        found.files.iter().map(|file| file.path.display()).collect()
    };
    assert_eq!(paths(&before), paths(&after));
    let best = |found: &SourceScan| -> BTreeMap<String, String> {
        found.tracks.iter().map(|t| (t.key.display(), t.best_path.display())).collect()
    };
    assert_eq!(best(&before), best(&after));
    assert_eq!(before.errors, after.errors);
}

#[test]
fn problems_of_a_walk_are_reported() {
    let mut disk = Disk::new();
    disk.write("/src/a.flac", "x");
    disk.write("/src/closed/b.flac", "y");
    disk.broken.insert(b"/src/closed".to_vec());
    disk.broken.insert(b"/src/a.flac".to_vec());

    let scan = scan_source(&disk, "/src", &[], &["flac"]);
    assert_eq!(
        scan.errors,
        vec![
            "stat source file /src/a.flac: Permission denied".to_string(),
            "read directory /src/closed: Permission denied".to_string(),
        ]
    );
    assert!(scan.files.is_empty());
    assert_eq!(scan.regular_files, 1);
}

// Whole runs.

#[test]
fn fresh_run_creates_full_layout() {
    let mut disk = Disk::new();
    make_source_tree(&mut disk, "/src");

    disk.run_musman(false, false);

    disk.assert_reconciled();
    assert!(disk.is_dir("/max_qual/.stfolder"));
    let (expected, _) = disk.expected_state("/src", &FORMATS, &["/formats", "/max_qual"]);
    assert!(expected.contains_key("flac/Artist/Album A/01 Intro.flac"));
    assert!(expected.contains_key("flac/.hidden/secret.flac"));
    assert!(expected.contains_key("mp3/Artist/Album A/02 Outro.mp3"));
    assert!(!expected.keys().any(|k| k.starts_with("ogg/Artist/Album B")));
    assert!(!expected.keys().any(|k| k.contains("notes")));
}

#[test]
fn second_run_is_idempotent() {
    let mut disk = Disk::new();
    make_source_tree(&mut disk, "/src");

    disk.run_musman(false, false);
    let before = disk.clone();

    let out = disk.run_musman(false, false);
    assert!(out.contains("0 created"), "expected no creations: {out}");
    assert!(out.contains("0 replaced"), "expected no replacements: {out}");
    assert!(!out.contains("removed"), "expected no removals: {out}");

    assert_eq!(before.nodes, disk.nodes, "the disk changed on the second run");
}

#[test]
fn removing_best_format_falls_back_in_one_run() {
    let mut disk = Disk::new();
    disk.write("/src/Artist/Album/01 Song.flac", "flac");
    disk.write("/src/Artist/Album/01 Song.mp3", "mp3");

    disk.run_musman(false, false);
    assert_eq!(
        disk.inode("/max_qual/Artist/Album/01 Song.flac"),
        disk.inode("/src/Artist/Album/01 Song.flac")
    );

    disk.remove("/src/Artist/Album/01 Song.flac");
    let out = disk.run_musman(false, false);
    assert!(out.contains("files removed"), "expected a removal: {out}");

    assert!(!disk.is_there("/max_qual/Artist/Album/01 Song.flac"));
    assert_eq!(
        disk.inode("/max_qual/Artist/Album/01 Song.mp3"),
        disk.inode("/src/Artist/Album/01 Song.mp3"),
        "max_qual must fall back to the next best format"
    );
    disk.assert_reconciled();
}

#[test]
fn adding_a_better_format_repoints_max_qual() {
    let mut disk = Disk::new();
    disk.write("/src/Artist/Album/01 Song.mp3", "mp3");

    disk.run_musman(false, false);
    assert_eq!(
        disk.inode("/max_qual/Artist/Album/01 Song.mp3"),
        disk.inode("/src/Artist/Album/01 Song.mp3")
    );

    disk.write("/src/Artist/Album/01 Song.flac", "flac");
    disk.run_musman(false, false);

    assert_eq!(
        disk.inode("/max_qual/Artist/Album/01 Song.flac"),
        disk.inode("/src/Artist/Album/01 Song.flac")
    );
    assert!(
        !disk.is_there("/max_qual/Artist/Album/01 Song.mp3"),
        "the worse max-qual link must be removed"
    );
}

#[test]
fn replacing_a_source_file_repoints_its_links() {
    let mut disk = Disk::new();
    let target = "/src/Artist/Album/01 Song.flac";
    disk.write(target, "old");

    disk.run_musman(false, false);
    let old_ino = disk.inode(target);
    assert_eq!(disk.inode("/formats/flac/Artist/Album/01 Song.flac"), old_ino);
    assert_eq!(disk.inode("/max_qual/Artist/Album/01 Song.flac"), old_ino);

    disk.write(target, "new contents");
    let new_ino = disk.inode(target);
    assert_ne!(old_ino, new_ino);

    let out = disk.run_musman(false, false);
    assert!(out.contains("2 replaced"), "expected replacements: {out}");
    assert_eq!(
        disk.inode("/formats/flac/Artist/Album/01 Song.flac"),
        new_ino,
        "formats link must follow the new source file"
    );
    assert_eq!(
        disk.inode("/max_qual/Artist/Album/01 Song.flac"),
        new_ino,
        "max-qual link must follow the new source file"
    );
}

#[test]
fn unmanaged_format_subtrees_are_cleaned() {
    let mut disk = Disk::new();
    make_source_tree(&mut disk, "/src");
    disk.write("/formats/wav/Artist/old.wav", "wav");
    disk.write("/formats/mp3/Artist/stray.txt", "txt");
    disk.create_dirs(b"/formats/mp3/empty").unwrap();

    let out = disk.run_musman(false, false);
    assert!(out.contains("files removed"), "junk files must be removed: {out}");

    disk.assert_reconciled();
    assert!(!disk.is_there("/formats/wav"));
    assert!(!disk.is_there("/formats/mp3/empty"));
}

#[test]
fn deleting_source_files_removes_their_links_and_directories() {
    let mut disk = Disk::new();
    disk.write("/src/Artist/Album/01 Song.ogg", "ogg");

    disk.run_musman(false, false);
    assert!(disk.is_file("/formats/ogg/Artist/Album/01 Song.ogg"));
    assert!(disk.is_file("/max_qual/Artist/Album/01 Song.ogg"));

    disk.remove("/src/Artist/Album/01 Song.ogg");
    let out = disk.run_musman(false, false);
    assert!(out.contains("files removed: 2"), "both links must go: {out}");

    assert!(
        !disk.is_there("/formats/ogg"),
        "the whole empty format subtree must be pruned"
    );
    assert!(
        !disk.is_there("/max_qual/Artist/Album"),
        "the empty album directory must be pruned"
    );
    assert!(disk.is_dir("/max_qual/.stfolder"));
}

#[test]
fn sparse_tree_with_single_song_albums() {
    let mut disk = Disk::new();
    let mut song_count = 0usize;
    for artist in 0..30 {
        for album in 0..4 {
            let base = format!("/src/Artist {artist:02}/Album {album:02}/01 Song");
            disk.write(&format!("{base}.flac"), "flac");
            if (artist + album) % 3 == 0 {
                disk.write(&format!("{base}.mp3"), "mp3");
            }
            song_count += 1;
        }
    }
    assert_eq!(song_count, 120);

    let out = disk.run_musman(false, false);
    assert!(out.contains("120 tracks"), "expected 120 tracks: {out}");
    disk.assert_reconciled();

    let out = disk.run_musman(false, false);
    assert!(out.contains("0 created"), "re-run must be a no-op: {out}");
    disk.assert_reconciled();
}

#[test]
fn dense_and_sparse_albums_coexist() {
    let mut disk = Disk::new();
    disk.write("/src/Soloist/Only/01 Song.flac", "flac");
    let mut n = 0;
    for song in 0..15 {
        let base = format!("/src/Band/Greatest Hits/{song:02} Song");
        disk.write(&format!("{base}.flac"), "flac");
        disk.write(&format!("{base}.mp3"), "mp3");
        n += 1;
    }
    assert_eq!(n, 15);

    disk.run_musman(false, false);

    disk.assert_reconciled();
    let (formats, tracks) = disk.expected_state("/src", &FORMATS, &["/formats", "/max_qual"]);
    assert_eq!(formats.len(), 1 + 30);
    assert_eq!(tracks.len(), 16);
}

#[test]
fn filenames_with_spaces_quotes_and_dots() {
    let mut disk = Disk::new();
    let base = "My Artist/Best \"Album\" 2024/01 Greatest Hit (Remastered) 9. Edit";
    disk.write(&format!("/src/{base}.flac"), "flac");
    disk.write(&format!("/src/{base}.mp3"), "mp3");

    disk.run_musman(false, false);

    disk.assert_reconciled();
    assert!(disk.is_file(&format!("/formats/flac/{base}.flac")));
    assert!(disk.is_file(&format!("/max_qual/{base}.flac")));
}

#[test]
fn source_tree_is_never_modified() {
    let mut disk = Disk::new();
    make_source_tree(&mut disk, "/src");
    disk.write("/formats/wav/junk.wav", "junk");
    disk.write("/max_qual/stale.flac", "stale");

    let before = disk.files("/src");
    let dirs = disk.dirs("/src");
    disk.run_musman(false, false);

    assert_eq!(before, disk.files("/src"), "the source tree was modified");
    assert_eq!(dirs, disk.dirs("/src"), "the source tree was modified");
}

#[test]
fn nested_output_inside_source_is_safe() {
    let mut disk = Disk::new();
    disk.write("/src/Artist/Album/01 Song.flac", "flac");
    disk.write("/src/Artist/Album/01 Song.mp3", "mp3");
    let formats = "/src/formats";
    let max_qual = "/src/max_qual";

    disk.run_with(&FORMATS, "/src", formats, max_qual, false, false);

    let (expected_formats, expected_tracks) =
        disk.expected_state("/src", &FORMATS, &[formats, max_qual]);
    disk.assert_tree_matches(formats, &expected_formats);
    disk.assert_tree_matches(max_qual, &expected_tracks);
    assert!(
        !disk.is_there("/src/formats/flac/formats") && !disk.is_there("/src/max_qual/formats"),
        "the output trees must not link themselves"
    );

    let out = disk.run_with(&FORMATS, "/src", formats, max_qual, false, false);
    assert!(out.contains("0 created"), "re-run must be a no-op: {out}");
    disk.assert_tree_matches(formats, &expected_formats);
    disk.assert_tree_matches(max_qual, &expected_tracks);
}

#[test]
fn layout_refusals_are_rejected() {
    let mut disk = Disk::new();
    disk.create_dirs(b"/src/sub").unwrap();
    let refuse = |source: &str, formats: &str, max_qual: &str| {
        disk.config(source, formats, max_qual, &["flac"], false, false).unwrap_err()
    };

    let err = refuse("/src", "/src", "/max_qual");
    assert!(err.contains("same as an output directory"), "{err}");
    let err = refuse("/src", "/formats", "/src");
    assert!(err.contains("same as an output directory"), "{err}");
    let err = refuse("/src/sub", "/src", "/max_qual");
    assert!(err.contains("inside an output directory"), "{err}");
    let err = refuse("/src", "/src/out", "/src/out/max_qual");
    assert!(err.contains("nested"), "{err}");
    let err = refuse("/src", "/src/out", "/src/out");
    assert!(err.contains("must differ"), "{err}");
}

#[test]
fn duplicate_format_flags_are_deduped() {
    let mut disk = Disk::new();
    disk.write("/src/Artist/Album/01 Song.flac", "flac");
    disk.write("/src/Artist/Album/01 Song.mp3", "mp3");

    let out = disk.run_with(
        &["flac", "mp3", "flac"],
        "/src",
        "/formats",
        "/max_qual",
        false,
        false,
    );
    assert!(out.contains("2 managed"), "{out}");
    let (expected_formats, expected_tracks) =
        disk.expected_state("/src", &["flac", "mp3"], &["/formats", "/max_qual"]);
    disk.assert_tree_matches("/formats", &expected_formats);
    disk.assert_tree_matches("/max_qual", &expected_tracks);
}

#[test]
fn stfolder_created_once_and_never_touched() {
    let mut disk = Disk::new();
    disk.write("/src/Artist/Album/01 Song.flac", "flac");
    disk.write("/src/Artist/Album/01 Song.mp3", "mp3");

    disk.run_musman(false, false);
    let marker = "/max_qual/.stfolder";
    assert!(disk.is_dir(marker));
    disk.write("/max_qual/.stfolder/conflict.txt", "syncthing data");
    let before = disk.inode(marker);
    let inside = disk.files(marker);

    disk.remove("/src/Artist/Album/01 Song.flac");
    disk.run_musman(false, false);

    assert_eq!(before, disk.inode(marker), ".stfolder must not be recreated");
    assert_eq!(inside, disk.files(marker), ".stfolder contents must be untouched");
}

#[test]
fn dry_run_changes_nothing() {
    let mut disk = Disk::new();
    disk.write("/src/Artist/Album/01 Song.flac", "flac");

    let out = disk.run_musman(true, true);
    assert!(
        out.lines().any(|l| l.starts_with("would create")),
        "dry run must plan creations: {out}"
    );
    assert!(!disk.is_there("/formats"), "dry run must not create the formats root");
    assert!(!disk.is_there("/max_qual"), "dry run must not create the max-qual root");

    disk.run_musman(false, false);
    disk.write("/src/Artist/Album/02 Song.mp3", "mp3");
    disk.remove("/src/Artist/Album/01 Song.flac");
    disk.write("/max_qual/Artist/stale.flac", "stale");

    let before = disk.clone();
    let out = disk.run_musman(true, true);
    assert!(
        out.lines().any(|l| l.starts_with("would create")),
        "dry run must plan the new link: {out}"
    );
    assert!(
        out.lines().any(|l| l.starts_with("would remove")),
        "dry run must plan the stale removal: {out}"
    );
    assert_eq!(before, disk, "dry run must not touch the disk");
}

/// A small generator of numbers with a fixed start.
struct Numbers(u64);

impl Numbers {
    fn next(&mut self) -> u64 {
        self.0 = self.0.wrapping_mul(6364136223846793005).wrapping_add(1442695040888963407);
        self.0 >> 33
    }

    /// A number from `low` to `high`.
    fn between(&mut self, low: u64, high: u64) -> u64 {
        low + self.next() % (high - low + 1)
    }

    /// True in `tenths` cases out of ten.
    fn chance(&mut self, tenths: u64) -> bool {
        self.next() % 10 < tenths
    }
}

/// Writes a library of artists, albums and songs.
fn generate_library(rng: &mut Numbers, disk: &mut Disk, root: &str) {
    let artists = ["Artist A", "B C", "X Y Z", "Quoted \"Band\""];
    for i in 0..rng.between(2, 6) {
        let artist = artists[rng.between(0, 3) as usize];
        for j in 0..rng.between(1, 5) {
            let songs = if rng.chance(4) { 1 } else { rng.between(1, 15) };
            for s in 0..songs {
                let stem = format!("{root}/{artist} {i}/Album {j}/{s:02} Song");
                let mut exts: Vec<&str> = Vec::new();
                if rng.chance(7) {
                    exts.push("flac");
                }
                if rng.chance(8) {
                    exts.push("mp3");
                }
                if rng.chance(4) {
                    exts.push("ogg");
                }
                if exts.is_empty() {
                    exts.push("mp3");
                }
                for ext in exts {
                    disk.write(&format!("{stem}.{ext}"), &format!("data-{ext}"));
                }
                if rng.chance(1) {
                    disk.write(&format!("{stem}.txt"), "notes");
                }
            }
        }
    }
}

#[test]
fn randomized_property_test() {
    let mut rng = Numbers(0x5EED_2026);
    for generation in 0..6 {
        let mut disk = Disk::new();
        generate_library(&mut rng, &mut disk, "/src");

        let source_before = disk.files("/src");
        disk.run_musman(false, false);
        assert_eq!(disk.files("/src"), source_before, "source modified (gen {generation})");
        disk.assert_reconciled();

        let all: Vec<String> = disk.files("/src").keys().cloned().collect();
        let doomed: BTreeSet<usize> = (0..all.len() / 10 + 1)
            .map(|_| rng.between(0, all.len() as u64 - 1) as usize)
            .collect();
        for i in doomed {
            disk.remove(&format!("/src/{}", all[i]));
        }
        disk.write(&format!("/src/Mutated {generation}/Solo/01 Song.flac"), "new flac");
        disk.write(&format!("/src/Mutated {generation}/Solo/01 Song.mp3"), "new mp3");

        disk.run_musman(false, false);
        disk.assert_reconciled();
    }
}

#[test]
fn performance_on_realistic_library() {
    let (artists, albums, songs_per_album) = (150, 10, 10);
    let mut disk = Disk::new();
    for a in 0..artists {
        for b in 0..albums {
            for s in 0..songs_per_album {
                let base = format!("/src/Artist {a:03}/Album {b:02}/{s:02} Song");
                disk.write(&format!("{base}.flac"), "flac");
                disk.write(&format!("{base}.mp3"), "mp3");
                if a % 3 == 0 {
                    disk.write(&format!("{base}.ogg"), "ogg");
                }
            }
        }
    }

    let out = disk.run_musman(false, false);

    let songs = artists * albums * songs_per_album;
    let managed = songs * 2 + (artists / 3) * albums * songs_per_album;
    let links = managed + songs;
    assert!(out.contains(&format!("{managed} managed")), "{out}");
    assert!(out.contains(&format!("{songs} tracks")), "{out}");
    assert!(out.contains(&format!("{links} created")), "{out}");

    let out = disk.run_musman(false, false);
    assert!(out.contains("0 created"), "re-run must be a no-op: {out}");

    let (formats, tracks) = disk.expected_state("/src", &FORMATS, &["/formats", "/max_qual"]);
    assert_eq!(formats.len(), managed);
    assert_eq!(tracks.len(), songs);
    disk.assert_tree_matches("/formats", &formats);
    disk.assert_tree_matches("/max_qual", &tracks);
}

#[test]
fn verbose_runs_announce_every_action() {
    let mut disk = Disk::new();
    disk.write("/src/a.flac", "x");
    disk.write("/formats/old/b.flac", "y");
    let out = disk.run_musman(false, true);
    assert_eq!(
        out,
        "create /formats/flac/a.flac\n\
         create /max_qual/a.flac\n\
         remove  /formats/old/b.flac\n\
         prune  /formats/old\n\
         create  /max_qual/.stfolder\n\
         scanned 1 regular files: 1 managed, 1 tracks\n\
         links: 2 created, 0 replaced, 0 up to date\n\
         files removed: 1\n\
         empty directories removed: 1"
    );
    let out = disk.run_musman(false, true);
    assert_eq!(
        out,
        "ok      /formats/flac/a.flac\n\
         ok      /max_qual/a.flac\n\
         scanned 1 regular files: 1 managed, 1 tracks\n\
         links: 0 created, 0 replaced, 2 up to date"
    );
    disk.write("/src/a.flac", "new");
    disk.write("/formats/old/deep/b.flac", "y");
    let out = disk.run_musman(true, true);
    assert_eq!(
        out,
        "would replace /formats/flac/a.flac\n\
         would replace /max_qual/a.flac\n\
         would remove  /formats/old/deep/b.flac\n\
         would prune  /formats/old/deep\n\
         would prune  /formats/old\n\
         scanned 1 regular files: 1 managed, 1 tracks\n\
         links: 0 created, 2 replaced, 0 up to date\n\
         files removed: 1\n\
         empty directories removed: 2"
    );
}

#[test]
fn links_that_fail_are_counted_as_errors() {
    let mut disk = Disk::new();
    disk.write("/src/a.flac", "x");
    disk.create_dirs(b"/formats/flac").unwrap();
    disk.broken.insert(b"/formats/flac/a.flac".to_vec());
    let config = disk.config("/src", "/formats", "/max_qual", &["flac"], false, false).unwrap();
    let (result, _) = disk.reconcile(config);
    let stats = result.unwrap();
    assert!(stats.had_errors());
    assert_eq!(stats.links_created, 1);
    assert_eq!(
        stats.errors,
        vec!["hard link /formats/flac/a.flac -> /src/a.flac failed (hard links may not be \
              supported on this filesystem): Operation not permitted"
            .to_string()]
    );
    assert!(disk.is_file("/max_qual/a.flac"));
}

/// The problem that ends a run in which a path is broken.
fn failure(make: &dyn Fn(&mut Disk), broken: &str) -> String {
    let mut disk = Disk::new();
    disk.write("/src/a.flac", "x");
    make(&mut disk);
    disk.broken.insert(broken.as_bytes().to_vec());
    let config = disk.config("/src", "/formats", "/max_qual", &["flac"], false, false).unwrap();
    disk.reconcile(config).0.unwrap_err()
}

#[test]
fn fatal_problems_end_a_run() {
    assert_eq!(
        failure(&|_| {}, "/formats"),
        "create directory /formats: Permission denied"
    );
    assert_eq!(
        failure(&|_| {}, "/max_qual"),
        "create directory /max_qual: Permission denied"
    );
    assert_eq!(
        failure(&|disk| disk.write("/formats/old/b", "y"), "/formats/old"),
        "read directory /formats/old: Permission denied"
    );
    assert_eq!(
        failure(&|_| {}, "/max_qual/.stfolder"),
        "create syncthing marker /max_qual/.stfolder: Permission denied"
    );
}

#[test]
fn symlinks_keep_their_directories() {
    let mut disk = Disk::new();
    disk.write("/src/a.flac", "x");
    disk.symlink("/formats/kept/link");
    disk.write("/formats/kept/stale.flac", "y");
    disk.run_musman(false, false);
    assert!(disk.is_there("/formats/kept/link"));
    assert!(!disk.is_there("/formats/kept/stale.flac"));
}

#[test]
fn output_directories_that_do_not_exist_are_resolved() {
    let mut disk = Disk::new();
    disk.create_dirs(b"/mnt/music").unwrap();
    assert_eq!(disk.resolve("/mnt/music/a/b").unwrap(), path("/mnt/music/a/b"));
    assert_eq!(disk.resolve("/mnt/music").unwrap(), path("/mnt/music"));
    assert_eq!(
        disk.resolve("/nowhere/..").unwrap_err(),
        "cannot resolve path /nowhere/.."
    );
}

/// What a run with the format `flac` alone did, and the lines it printed.
fn run_flac(disk: &mut Disk, dry_run: bool, verbose: bool) -> (Stats, Vec<String>) {
    let config =
        disk.config("/src", "/formats", "/max_qual", &["flac"], verbose, dry_run).unwrap();
    let (result, lines) = disk.reconcile(config);
    (result.unwrap(), lines)
}

#[test]
fn a_file_that_cannot_be_removed_ends_no_run() {
    let mut disk = Disk::new();
    disk.write("/src/a.flac", "x");
    disk.write("/formats/old/deep/b", "y");
    disk.write("/formats/old/c", "z");
    disk.write("/formats/gone/d", "w");
    disk.write("/max_qual/stale.flac", "v");
    disk.broken.insert(b"/formats/old/deep/b".to_vec());

    let (stats, _) = run_flac(&mut disk, false, false);
    assert_eq!(
        stats.errors,
        vec!["remove unwanted file /formats/old/deep/b: Permission denied".to_string()]
    );
    assert!(stats.had_errors());
    assert!(stats.summary().contains("/formats/old/deep/b"));
    assert_eq!(stats.files_removed, 3);
    assert_eq!(stats.dirs_removed, 1);
    assert!(disk.is_file("/formats/old/deep/b"));
    assert!(!disk.is_there("/formats/old/c"));
    assert!(!disk.is_there("/formats/gone"));
    assert!(!disk.is_there("/max_qual/stale.flac"));
    assert!(disk.is_dir("/max_qual/.stfolder"));
}

#[test]
fn a_dry_run_keeps_the_directories_of_links_to_come() {
    let mut disk = Disk::new();
    disk.write("/src/A/y.flac", "y");
    disk.write("/formats/flac/A/x.flac", "x");
    disk.write("/max_qual/A/x.flac", "x");
    disk.create_dirs(b"/max_qual/.stfolder").unwrap();

    let before = disk.clone();
    let (foretold, _) = run_flac(&mut disk, true, false);
    assert_eq!(foretold.links_created, 2);
    assert_eq!(foretold.files_removed, 2);
    assert_eq!(foretold.dirs_removed, 0);
    assert_eq!(before, disk);

    let (done, _) = run_flac(&mut disk, false, false);
    assert_eq!(done.links_created, 2);
    assert_eq!(done.files_removed, 2);
    assert_eq!(done.dirs_removed, 0);
}

/// The counters of a run.
fn counters(stats: &Stats) -> Vec<usize> {
    vec![
        stats.regular_files,
        stats.managed_files,
        stats.tracks,
        stats.links_created,
        stats.links_replaced,
        stats.links_up_to_date,
        stats.files_removed,
        stats.dirs_removed,
        stats.errors.len(),
    ]
}

#[test]
fn a_dry_run_foretells_every_counter() {
    let mut rng = Numbers(0x00D2_1234);
    for _ in 0..4 {
        let mut disk = Disk::new();
        generate_library(&mut rng, &mut disk, "/src");
        disk.run_musman(false, false);
        let all: Vec<String> = disk.files("/src").keys().cloned().collect();
        for (i, rel) in all.iter().enumerate() {
            match i % 7 {
                0 => disk.remove(&format!("/src/{rel}")),
                1 => disk.write(&format!("/src/{rel}"), "changed"),
                2 => disk.write(&format!("/formats/junk/{rel}.old"), "junk"),
                _ => {}
            }
        }
        disk.create_dirs(b"/max_qual/empty/deep").unwrap();
        let config = |disk: &Disk, dry_run: bool| {
            disk.config("/src", "/formats", "/max_qual", &FORMATS, false, dry_run).unwrap()
        };
        let dry = config(&disk, true);
        let foretold = disk.reconcile(dry).0.unwrap();
        let wet = config(&disk, false);
        let done = disk.reconcile(wet).0.unwrap();
        assert_eq!(counters(&foretold), counters(&done));
        assert!(done.links_replaced > 0 && done.dirs_removed > 0);

        let again = config(&disk, false);
        let second = disk.reconcile(again).0.unwrap();
        assert_eq!(
            counters(&second),
            vec![
                done.regular_files,
                done.managed_files,
                done.tracks,
                0,
                0,
                done.managed_files + done.tracks,
                0,
                0,
                0
            ]
        );
    }
}

#[test]
fn a_dry_run_announces_what_it_plans_without_being_asked() {
    let link = Link {
        src: path("/s/a.flac"),
        dest: path("/o/a.flac"),
        ino: InodeRef { dev: 1, ino: 7 },
    };
    let (line, step) = ensure_hard_link(&link, Permit::Full, StatReply::Missing, true, false);
    assert_eq!(line, Some("would create /o/a.flac".to_string()));
    assert!(matches!(step, LinkStep::Finished(LinkAction::Created)));
    let same = FileMeta { is_file: true, dev: 1, ino: 7 };
    let (line, step) = ensure_hard_link(&link, Permit::Full, StatReply::Found(same), true, false);
    assert_eq!(line, None);
    assert!(matches!(step, LinkStep::Finished(LinkAction::UpToDate)));
    let (line, _) = ensure_hard_link(&link, Permit::Full, StatReply::Missing, false, false);
    assert_eq!(line, None);

    let mut disk = Disk::new();
    disk.write("/src/a.flac", "x");
    disk.write("/src/b.flac", "y");
    disk.hard_link("/src/b.flac", "/max_qual/b.flac");
    disk.create_dirs(b"/max_qual").unwrap();
    disk.write("/max_qual/old/c.flac", "z");
    let (_, lines) = run_flac(&mut disk, true, false);
    assert_eq!(
        lines,
        vec![
            "would create /formats/flac/a.flac".to_string(),
            "would create /formats/flac/b.flac".to_string(),
            "would create /max_qual/a.flac".to_string(),
            "would remove  /max_qual/old/c.flac".to_string(),
            "would prune  /max_qual/old".to_string(),
            "would create  /max_qual/.stfolder".to_string(),
        ]
    );
    let (_, lines) = run_flac(&mut disk, false, false);
    assert!(lines.is_empty());
}

#[test]
fn no_link_is_led_into_the_source_tree() {
    let mut disk = Disk::new();
    disk.write("/src/x.flac", "one");
    disk.write("/src/sub/x.flac", "two");
    disk.symlink_to("/formats/flac", "/src/sub");
    let source = (disk.files("/src"), disk.dirs("/src"));

    let (stats, lines) = run_flac(&mut disk, false, true);
    assert_eq!((disk.files("/src"), disk.dirs("/src")), source);
    assert_eq!(
        stats.errors,
        vec![
            "hard link /formats/flac/x.flac -> /src/x.flac refused: it leads into the source tree"
                .to_string(),
            "hard link /formats/flac/sub/x.flac -> /src/sub/x.flac refused: it leads into the \
             source tree"
                .to_string(),
        ]
    );
    assert!(!lines.iter().any(|line| line.contains("/formats/flac/x.flac")));
    assert_eq!(stats.links_created, 2);
    assert_eq!(disk.inode("/max_qual/x.flac"), disk.inode("/src/x.flac"));
    assert!(disk.is_there("/formats/flac"));

    let (foretold, _) = run_flac(&mut disk, true, false);
    let (again, _) = run_flac(&mut disk, false, false);
    assert_eq!(counters(&foretold), counters(&again));
    assert_eq!(counters(&again), vec![2, 2, 2, 0, 0, 2, 0, 0, 2]);
    assert_eq!(again.errors, stats.errors);
    assert_eq!((disk.files("/src"), disk.dirs("/src")), source);
}

#[test]
fn a_link_that_leads_to_its_source_file_is_up_to_date() {
    let mut disk = Disk::new();
    disk.write("/src/a/x.flac", "one");
    disk.symlink_to("/formats/flac", "/src");
    let before = disk.files("/src");
    let (stats, _) = run_flac(&mut disk, false, false);
    assert!(stats.errors.is_empty());
    assert_eq!(stats.links_up_to_date, 1);
    assert_eq!(stats.links_created, 1);
    assert_eq!(disk.files("/src"), before);
}

#[test]
fn links_are_made_where_symbolic_links_lead_them() {
    let mut disk = Disk::new();
    disk.write("/src/a/x.flac", "one");
    disk.write("/src/y.flac", "two");
    disk.create_dirs(b"/other").unwrap();
    disk.symlink_to("/formats/flac", "/other");

    let (foretold, _) = run_flac(&mut disk, true, false);
    let (stats, _) = run_flac(&mut disk, false, false);
    assert_eq!(counters(&foretold), counters(&stats));
    assert_eq!(counters(&stats), vec![2, 2, 2, 4, 0, 0, 0, 0, 0]);
    assert_eq!(disk.inode("/other/a/x.flac"), disk.inode("/src/a/x.flac"));
    assert_eq!(disk.inode("/other/y.flac"), disk.inode("/src/y.flac"));
    assert!(disk.is_there("/formats/flac"));

    let before = disk.clone();
    let (again, _) = run_flac(&mut disk, false, false);
    assert_eq!(counters(&again), vec![2, 2, 2, 0, 0, 4, 0, 0, 0]);
    assert_eq!(before, disk);
}

#[test]
fn nothing_is_replaced_outside_the_output_trees() {
    let mut disk = Disk::new();
    disk.write("/src/x.flac", "one");
    disk.write("/src/y.flac", "two");
    disk.write("/other/x.flac", "precious");
    disk.symlink_to("/formats/flac", "/other");

    let (foretold, _) = run_flac(&mut disk, true, false);
    let (stats, _) = run_flac(&mut disk, false, false);
    assert_eq!(counters(&foretold), counters(&stats));
    assert_eq!(
        stats.errors,
        vec!["hard link /formats/flac/x.flac -> /src/x.flac refused: it leads out of the output \
              trees, to another file"
            .to_string()]
    );
    assert_eq!(disk.files("/other")["x.flac"].1, "precious");
    assert_eq!(disk.inode("/other/y.flac"), disk.inode("/src/y.flac"));
    assert_eq!(stats.links_created, 3);
}

#[test]
fn links_are_led_from_one_output_directory_to_another() {
    let mut disk = Disk::new();
    disk.write("/src/x.flac", "one");
    disk.write("/max_qual/x.flac", "stale");
    disk.symlink_to("/formats/flac", "/max_qual");

    let (stats, _) = run_flac(&mut disk, false, false);
    assert!(stats.errors.is_empty());
    assert_eq!(stats.links_replaced, 1);
    assert_eq!(stats.links_up_to_date, 1);
    assert_eq!(disk.inode("/max_qual/x.flac"), disk.inode("/src/x.flac"));
}

#[test]
fn a_destination_that_cannot_be_looked_at_is_reported_as_such() {
    let mut disk = Disk::new();
    disk.write("/src/a/x.flac", "one");
    disk.create_dirs(b"/formats/flac/a").unwrap();
    disk.sealed.insert(b"/max_qual/a".to_vec());
    let (stats, _) = run_flac(&mut disk, false, false);
    assert_eq!(
        stats.errors,
        vec!["stat destination /max_qual/a/x.flac: Permission denied".to_string()]
    );
    assert_eq!(stats.links_created, 1);
    assert!(disk.is_file("/formats/flac/a/x.flac"));
}

#[test]
fn a_dry_clearing_foretells_the_clearing() {
    let mut disk = Disk::new();
    disk.write("/t/keep/a.bin", "a");
    disk.write("/t/drop/deep/b.bin", "b");
    disk.write("/t/mixed/c.bin", "c");
    disk.write("/t/mixed/gone/d.bin", "d");
    disk.symlink("/t/link/e");
    let keep = ["/t/keep/a.bin", "/t/mixed/c.bin"];
    let before = disk.clone();
    let foretold = clear(&mut disk, "/t", &keep, true);
    assert_eq!(before, disk);
    let done = clear(&mut disk, "/t", &keep, false);
    assert_eq!(foretold, done);
    assert_eq!(done.1, 3);
}

#[test]
fn counters_agree_with_each_other() {
    let mut disk = Disk::new();
    make_source_tree(&mut disk, "/src");
    disk.broken.insert(b"/formats/flac/Artist/Album A/01 Intro.flac".to_vec());
    disk.sealed.insert(b"/max_qual/.hidden".to_vec());
    let config =
        disk.config("/src", "/formats", "/max_qual", &FORMATS, false, false).unwrap();
    let stats = disk.reconcile(config).0.unwrap();
    let done = stats.links_created + stats.links_replaced + stats.links_up_to_date;
    assert_eq!((stats.regular_files, stats.managed_files, stats.tracks), (10, 8, 4));
    assert_eq!(stats.errors.len(), 2);
    assert_eq!(done + stats.errors.len(), stats.managed_files + stats.tracks);
}
