//! Counters, summaries and numbers.

use musman::link::LinkAction;
use musman::plan::linked_stats;
use musman::scan::SourceScan;
use musman::stats::Stats;
use musman::text::decimal_text;

#[test]
fn numbers_are_written_in_decimal() {
    for n in [0usize, 7, 10, 99, 100, 1234567890, usize::MAX] {
        assert_eq!(decimal_text(n), format!("{n}"));
    }
}

#[test]
fn a_quiet_run_has_two_lines() {
    let stats = Stats::default();
    assert!(!stats.had_errors());
    assert_eq!(
        stats.summary(),
        "scanned 0 regular files: 0 managed, 0 tracks\n\
         links: 0 created, 0 replaced, 0 up to date"
    );
}

#[test]
fn a_full_summary_lists_everything() {
    let stats = Stats {
        regular_files: 12,
        managed_files: 10,
        tracks: 5,
        links_created: 1,
        links_replaced: 2,
        links_up_to_date: 12,
        files_removed: 3,
        dirs_removed: 4,
        errors: vec!["first".to_string(), "second".to_string()],
    };
    assert!(stats.had_errors());
    assert_eq!(
        stats.summary(),
        "scanned 12 regular files: 10 managed, 5 tracks\n\
         links: 1 created, 2 replaced, 12 up to date\n\
         files removed: 3\n\
         empty directories removed: 4\n\
         errors: 2\n\
         \u{20} error: first\n\
         \u{20} error: second"
    );
}

#[test]
fn links_are_counted_by_outcome() {
    let found = SourceScan {
        regular_files: 3,
        files: Vec::new(),
        tracks: Vec::new(),
        errors: vec!["scan".to_string()],
    };
    let mut stats = linked_stats(
        found,
        vec![
            Ok(LinkAction::Created),
            Err("link".to_string()),
            Ok(LinkAction::UpToDate),
            Ok(LinkAction::Created),
            Ok(LinkAction::Replaced),
        ],
    );
    assert_eq!(stats.regular_files, 3);
    assert_eq!(stats.links_created, 2);
    assert_eq!(stats.links_replaced, 1);
    assert_eq!(stats.links_up_to_date, 1);
    assert_eq!(stats.errors, vec!["scan".to_string(), "link".to_string()]);
    stats.add_errors(vec!["remove".to_string()]);
    assert_eq!(stats.errors.len(), 3);
    assert_eq!(stats.errors[2], "remove");
    stats.add_removed(4, 1);
    stats.add_removed(1, 1);
    assert_eq!(stats.files_removed, 5);
    assert_eq!(stats.dirs_removed, 2);
}
