//! Paths and sets of paths.

use musman::path::TreePath;
use musman::path_set::{PathIndex, PathSet};

fn path(text: &str) -> TreePath {
    TreePath::new(text)
}

#[test]
fn separators_and_dots_carry_no_meaning() {
    assert_eq!(path("/a//b/./c/"), path("/a/b/c"));
    assert_eq!(path("a/b/."), path("a/b"));
    assert_ne!(path("./a"), path("a"));
    assert_ne!(path("a/../b"), path("b"));
    assert_ne!(path("/a"), path("a"));
    assert_eq!(path("//"), path("/"));
    assert_eq!(path("").depth(), 0);
    assert_eq!(path("/").depth(), 1);
    assert_eq!(path("/a/b").depth(), 3);
    assert_eq!(path("./a").depth(), 2);
}

#[test]
fn paths_are_written_as_they_read() {
    for text in ["/", "/a", "/a/b c", "a", "a/b", ".", "./a", "..", "../a", ""] {
        assert_eq!(path(text).display(), text);
        assert_eq!(path(text).to_bytes(), text.as_bytes());
    }
}

#[test]
fn bytes_that_are_no_text_are_shown_with_replacements() {
    let odd = TreePath::from_bytes(b"/a/\xff\xfeb");
    assert_eq!(odd.display(), "/a/\u{fffd}\u{fffd}b");
    assert_eq!(odd.to_bytes(), b"/a/\xff\xfeb");
    assert_eq!(path("/a/\u{e9}").display(), "/a/\u{e9}");
}

#[test]
fn file_names_and_parents() {
    assert_eq!(path("/a/b.c").file_name(), Some(&b"b.c".to_vec()));
    assert_eq!(path("/").file_name(), None);
    assert_eq!(path("a/..").file_name(), None);
    assert_eq!(path(".").file_name(), None);
    assert_eq!(path("").file_name(), None);
    assert_eq!(path("/a/b").parent(), Some(path("/a")));
    assert_eq!(path("/a").parent(), Some(path("/")));
    assert_eq!(path("/").parent(), None);
    assert_eq!(path("a").parent(), Some(path("")));
    assert_eq!(path("").parent(), None);
}

#[test]
fn joining_and_stripping() {
    assert_eq!(path("/a").append(&path("b/c")), path("/a/b/c"));
    assert_eq!(path("/a").append(&path("")), path("/a"));
    assert_eq!(path("/a/b/c").front(2), path("/a"));
    assert_eq!(path("a/1. Song").with_extension("flac"), path("a/1. Song.flac"));
    assert_eq!(path("").with_extension("flac"), path(".flac"));
    assert_eq!(path("/a/b/c").strip_prefix(&path("/a")), Some(path("b/c")));
    assert_eq!(path("/a").strip_prefix(&path("/a")), Some(path("")));
    assert_eq!(path("/ab").strip_prefix(&path("/a")), None);
    assert!(path("/a/b").starts_with(&path("/a")));
    assert!(!path("/ab").starts_with(&path("/a")));
    assert_eq!(path("/a").child(&b"b".to_vec()), path("/a/b"));
}

#[test]
fn sets_hold_what_was_put_in() {
    let set = PathSet::of(&vec![path("/a"), path("/a/b"), path("/a")]);
    assert!(set.contains(&path("/a")));
    assert!(set.contains(&path("/a/b/")));
    assert!(!set.contains(&path("/b")));
    let set = set.with(path("/b"));
    assert!(set.contains(&path("/b")));
    assert!(set.contains(&path("/a")));
    assert!(!PathSet::empty().contains(&path("/a")));
}

#[test]
fn sets_are_united_and_have_directories_above() {
    let set = PathSet::of(&vec![path("/a/b/c")]).union(&PathSet::of(&vec![path("/d"), path("/e")]));
    assert!(set.contains(&path("/a/b/c")));
    assert!(set.contains(&path("/d")));
    assert!(set.contains(&path("/e")));
    assert!(!set.contains(&path("/a/b")));
    let above = set.above();
    assert!(above.contains(&path("/a/b")));
    assert!(above.contains(&path("/a")));
    assert!(above.contains(&path("/")));
    assert!(!above.contains(&path("/a/b/c")));
    assert!(!above.contains(&path("/d")));
}

#[test]
fn an_index_numbers_distinct_paths() {
    let index = PathIndex::empty().with(path("/b")).with(path("/a")).with(path("/c"));
    assert_eq!(index.len(), 3);
    assert_eq!(index.find(&path("/a")), Some(1));
    assert_eq!(index.find(&path("/c/")), Some(2));
    assert_eq!(index.find(&path("/d")), None);
    assert_eq!(index.into_paths(), vec![path("/b"), path("/a"), path("/c")]);
}
