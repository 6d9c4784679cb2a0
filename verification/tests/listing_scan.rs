use markdown_fs::errors::FsErrorKind;
use markdown_fs::listing::{collect_listing, EntryFilter, EntryOutcome, OnEntryError};

fn found(name: &str, is_dir: bool) -> EntryOutcome {
    EntryOutcome::Found { name: String::from(name), is_dir }
}

fn unreadable(message: &str) -> EntryOutcome {
    EntryOutcome::Unreadable { message: String::from(message) }
}

#[test]
fn scenario_all_entries_in_scan_order() {
    let entries = vec![found("sub", true), found("a.md", false)];
    let names = collect_listing(&entries, EntryFilter::AllEntries, OnEntryError::AbortOnError)
        .unwrap();
    assert_eq!(names, vec![String::from("sub"), String::from("a.md")]);
}

#[test]
fn scenario_directories_only() {
    let entries = vec![found("sub", true), found("a.md", false)];
    let names = collect_listing(&entries, EntryFilter::DirectoriesOnly, OnEntryError::AbortOnError)
        .unwrap();
    assert_eq!(names, vec![String::from("sub")]);
}

#[test]
fn empty_scan_yields_empty_listing() {
    let entries: Vec<EntryOutcome> = Vec::new();
    let names = collect_listing(&entries, EntryFilter::AllEntries, OnEntryError::AbortOnError)
        .unwrap();
    assert!(names.is_empty());
}

#[test]
fn abort_policy_reports_first_unreadable_entry() {
    let entries = vec![
        found("a.md", false),
        unreadable("entry went away"),
        unreadable("second failure"),
        found("b.md", false),
    ];
    let err = collect_listing(&entries, EntryFilter::AllEntries, OnEntryError::AbortOnError)
        .unwrap_err();
    assert_eq!(err.kind, FsErrorKind::Other);
    assert_eq!(err.message, "Error reading entry: entry went away");
}

#[test]
fn skip_policy_keeps_the_readable_entries() {
    let entries = vec![
        found("a.md", false),
        unreadable("entry went away"),
        found("sub", true),
    ];
    let names = collect_listing(&entries, EntryFilter::AllEntries, OnEntryError::SkipErrors)
        .unwrap();
    assert_eq!(names, vec![String::from("a.md"), String::from("sub")]);
}

#[test]
fn skip_policy_with_directories_only() {
    let entries = vec![
        found("a.md", false),
        unreadable("entry went away"),
        found("sub", true),
        found("other", true),
    ];
    let names = collect_listing(&entries, EntryFilter::DirectoriesOnly, OnEntryError::SkipErrors)
        .unwrap();
    assert_eq!(names, vec![String::from("sub"), String::from("other")]);
}
