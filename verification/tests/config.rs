//! Configurations, layouts and the resolution of output directories.

use musman::config::{check_layout, is_under, resolve_existing, Config, LayoutError, SourceReply};
use musman::path::TreePath;

fn path(text: &str) -> TreePath {
    TreePath::new(text)
}

fn new_config(
    source: SourceReply,
    formats_root: Result<TreePath, String>,
    max_qual_root: Result<TreePath, String>,
    formats: &[&str],
) -> Result<Config, String> {
    Config::new(
        source,
        formats_root,
        max_qual_root,
        formats.iter().map(|f| f.to_string()).collect(),
        true,
        false,
    )
}

fn source() -> SourceReply {
    SourceReply::Resolved(path("/music"), true)
}

#[test]
fn a_valid_configuration_is_kept() {
    let config = new_config(
        source(),
        Ok(path("/music/formats")),
        Ok(path("/music/max_qual")),
        &["flac", "mp3", "flac", "ogg", "mp3"],
    )
    .unwrap();
    assert_eq!(config.source, path("/music"));
    assert_eq!(config.formats_root, path("/music/formats"));
    assert_eq!(config.max_qual_root, path("/music/max_qual"));
    assert_eq!(config.format_order, vec!["flac", "mp3", "ogg"]);
    assert!(config.verbose);
    assert!(!config.dry_run);
}

#[test]
fn each_problem_has_its_message() {
    let ok = || Ok(path("/out"));
    let other = || Ok(path("/best"));
    assert_eq!(
        new_config(source(), ok(), other(), &[]).unwrap_err(),
        "at least one format is required (use -f)"
    );
    assert_eq!(
        new_config(
            SourceReply::Failed("music".to_string(), "No such file or directory".to_string()),
            ok(),
            other(),
            &["flac"]
        )
        .unwrap_err(),
        "resolving source directory music: No such file or directory"
    );
    assert_eq!(
        new_config(SourceReply::Resolved(path("/file"), false), ok(), other(), &["flac"])
            .unwrap_err(),
        "source /file is not a directory"
    );
    assert_eq!(
        new_config(source(), Err("first".to_string()), Err("second".to_string()), &["flac"])
            .unwrap_err(),
        "first"
    );
    assert_eq!(
        new_config(source(), ok(), Err("second".to_string()), &["flac"]).unwrap_err(),
        "second"
    );
    assert_eq!(
        new_config(source(), Ok(path("/music")), other(), &["flac"]).unwrap_err(),
        "the source directory (/music) is the same as an output directory; refusing to run"
    );
    assert_eq!(
        new_config(source(), ok(), Ok(path("/")), &["flac"]).unwrap_err(),
        "the source directory (/music) is inside an output directory; refusing to run"
    );
    assert_eq!(
        new_config(source(), ok(), ok(), &["flac"]).unwrap_err(),
        "the formats and max-qual output directories must differ"
    );
    assert_eq!(
        new_config(source(), ok(), Ok(path("/out/best")), &["flac"]).unwrap_err(),
        "the output directories must not be nested inside each other"
    );
}

#[test]
fn layouts_are_checked_in_order() {
    let check = |a: &str, b: &str, c: &str| check_layout(&path(a), &path(b), &path(c));
    assert_eq!(check("/a", "/a", "/a"), Err(LayoutError::SourceIsOutput));
    assert_eq!(check("/a/b", "/a", "/a"), Err(LayoutError::SourceInsideOutput));
    assert_eq!(check("/a", "/a/b", "/a/b"), Err(LayoutError::SameOutputs));
    assert_eq!(check("/a", "/b/c", "/b"), Err(LayoutError::NestedOutputs));
    assert_eq!(check("/a", "/a/b", "/a/c"), Ok(()));
    assert_eq!(check("/a", "/ab", "/abc"), Ok(()));
}

#[test]
fn under_means_strictly_below() {
    assert!(is_under(&path("/a/b"), &path("/a")));
    assert!(is_under(&path("/a/b/c"), &path("/a")));
    assert!(!is_under(&path("/a"), &path("/a")));
    assert!(!is_under(&path("/ab"), &path("/a")));
    assert!(!is_under(&path("/a"), &path("/a/b")));
}

#[test]
fn missing_names_are_joined_again() {
    let resolve = resolve_existing(path("/x/y/z"), "/x/y/z".to_string());
    let resolve = resolve.not_there().unwrap();
    assert_eq!(*resolve.current(), path("/x/y"));
    let resolve = resolve.not_there().unwrap();
    assert_eq!(*resolve.current(), path("/x"));
    assert_eq!(resolve.there(Ok(path("/real/x"))).unwrap(), path("/real/x/y/z"));
}

#[test]
fn a_relative_path_ends_at_the_current_directory() {
    let resolve = resolve_existing(path("out/deep"), "out/deep".to_string());
    let resolve = resolve.not_there().unwrap().not_there().unwrap();
    assert_eq!(*resolve.current(), path("."));
    assert_eq!(resolve.there(Ok(path("/home/me"))).unwrap(), path("/home/me/out/deep"));
}

#[test]
fn what_has_no_name_cannot_be_resolved() {
    for text in ["..", "a/..", "/", "", "."] {
        let line = resolve_existing(path(text), text.to_string()).not_there().unwrap_err();
        assert_eq!(line, format!("cannot resolve path {text}"));
    }
}

#[test]
fn a_path_that_cannot_be_made_canonical_is_reported() {
    let resolve = resolve_existing(path("/x"), "/x".to_string());
    assert_eq!(
        resolve.there(Err("Permission denied".to_string())).unwrap_err(),
        "resolving output directory /x: Permission denied"
    );
}
