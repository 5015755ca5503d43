//! File names, extensions and track keys.

use musman::names::{split_name, track_key};
use musman::path::TreePath;

#[test]
fn simple_extension() {
    assert_eq!(split_name("01 Song.flac"), Some(("01 Song", "flac")));
    assert_eq!(split_name("track.mp3"), Some(("track", "mp3")));
}

#[test]
fn dotted_track_title() {
    assert_eq!(split_name("1. Song.flac"), Some(("1. Song", "flac")));
}

#[test]
fn multiple_dots_use_the_last_one() {
    assert_eq!(split_name("archive.tar.gz"), Some(("archive.tar", "gz")));
    assert_eq!(split_name("a.b.c.d"), Some(("a.b.c", "d")));
}

#[test]
fn names_without_dot_have_no_extension() {
    assert_eq!(split_name("README"), None);
    assert_eq!(split_name("a"), None);
}

#[test]
fn leading_dot_has_no_extension() {
    assert_eq!(split_name(".hidden"), None);
    assert_eq!(split_name(".flac"), None);
}

#[test]
fn trailing_dot_has_no_extension() {
    assert_eq!(split_name("weird."), None);
}

#[test]
fn track_key_at_source_root() {
    assert_eq!(track_key(&TreePath::new(""), "01 Song").display(), "01 Song");
}

#[test]
fn track_key_in_subdirectory() {
    assert_eq!(
        track_key(&TreePath::new("album/deep"), "01 Song").display(),
        "album/deep/01 Song"
    );
}

#[test]
fn tracks_are_told_apart_by_their_raw_directories() {
    let stem = "01 Song";
    let first = TreePath::from_bytes(b"a\xfe");
    let second = TreePath::from_bytes(b"a\xff");
    assert_eq!(first.display(), second.display());
    assert_ne!(track_key(&first, stem), track_key(&second, stem));
    assert_eq!(track_key(&first, stem), track_key(&TreePath::from_bytes(b"a\xfe"), stem));
    assert_ne!(track_key(&first, stem), track_key(&first, "02 Song"));
}
