//! How long log files are kept.

use repodeck::diagnostics::logging::{log_dir, plan_retention, LogFile, MAX_TOTAL_BYTES};

const SECOND: u64 = 1_000_000_000;
const DAY: u64 = 24 * 60 * 60 * SECOND;
const NOW: u64 = 20_000 * DAY;

fn file(name: &str, len: u64, age: u64) -> LogFile {
    LogFile { name: name.to_string(), is_file: true, modified: NOW - age, len }
}

/// The names that are left in a directory after a sweep in which every removal goes well.
fn enforce_retention(files: &[LogFile]) -> Vec<String> {
    let mut plan = plan_retention(files, NOW);
    let mut gone: Vec<usize> = plan.expired.clone();
    while let Some(victim) = plan.next_victim() {
        gone.push(victim);
        plan.note_removal(files[victim].len, true);
    }
    (0..files.len())
        .filter(|i| !gone.contains(i))
        .map(|i| files[i].name.clone())
        .collect()
}

#[test]
fn deletes_files_older_than_the_retention_window() {
    let left = enforce_retention(&[
        file("repodeck.2020-01-01", 10, 30 * DAY),
        file("repodeck.2026-07-21", 10, 0),
    ]);

    assert!(!left.contains(&"repodeck.2020-01-01".to_string()));
    assert!(left.contains(&"repodeck.2026-07-21".to_string()));
}

#[test]
fn leaves_non_log_files_untouched() {
    let left = enforce_retention(&[file("unrelated.txt", 10, 30 * DAY)]);

    assert!(left.contains(&"unrelated.txt".to_string()));
}

#[test]
fn deletes_oldest_first_when_over_the_size_cap() {
    let big = MAX_TOTAL_BYTES / 2 + 1;
    let left = enforce_retention(&[
        file("repodeck.a", big, 3 * DAY),
        file("repodeck.b", big, 2 * DAY),
        file("repodeck.c", big, DAY),
    ]);

    assert!(!left.contains(&"repodeck.a".to_string()));
    assert!(left.contains(&"repodeck.c".to_string()));
}

#[test]
fn missing_log_directory_is_a_no_op() {
    assert!(enforce_retention(&[]).is_empty());
}

#[test]
fn logs_stand_below_the_data_directory() {
    assert_eq!(log_dir(r"C:\data"), r"C:\data\logs");
}

#[test]
fn a_file_that_cannot_be_removed_still_counts() {
    let files = [
        file("repodeck.a", MAX_TOTAL_BYTES, 3 * DAY),
        file("repodeck.b", 1, 2 * DAY),
        file("repodeck.c", 1, DAY),
    ];
    let mut plan = plan_retention(&files, NOW);
    assert_eq!(plan.next_victim(), Some(0));
    plan.note_removal(files[0].len, false);
    assert_eq!(plan.next_victim(), Some(1));
    plan.note_removal(files[1].len, true);
    assert_eq!(plan.next_victim(), Some(2));
    plan.note_removal(files[2].len, true);
    assert_eq!(plan.next_victim(), None);
}
