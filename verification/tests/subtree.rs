use icounter::event::{FailureKind, WalkEntry, WalkEvent, WalkFailure};
use icounter::subtree::{count_dir_inodes, Observation, SubtreeCounter, SubtreeError};

fn seen(path: &str, name: &str, is_dir: bool, depth: usize) -> WalkEvent {
    let parent = path.rsplit_once('/').map(|(p, _)| p.to_string());
    WalkEvent::Entry(WalkEntry {
        path: path.to_string(),
        parent,
        name: Some(name.to_string()),
        is_dir,
        depth,
    })
}

fn denied(path: &str) -> WalkEvent {
    WalkEvent::Failure(WalkFailure {
        path: path.to_string(),
        kind: FailureKind::PermissionDenied,
        cause: "permission denied".to_string(),
    })
}

fn broken(path: &str, cause: &str) -> WalkEvent {
    WalkEvent::Failure(WalkFailure {
        path: path.to_string(),
        kind: FailureKind::Other,
        cause: cause.to_string(),
    })
}

fn small_tree() -> Vec<WalkEvent> {
    vec![
        seen("sub", "sub", true, 0),
        seen("sub/c", "c", false, 1),
        seen("sub/.cache", ".cache", true, 1),
        seen("sub/.cache/x", "x", false, 2),
        seen("sub/d", "d", true, 1),
        seen("sub/d/.e", ".e", false, 2),
    ]
}

#[test]
fn count_leaves_out_the_starting_directory() {
    let events = vec![seen("sub", "sub", true, 0), seen("sub/c", "c", false, 1)];
    let report = count_dir_inodes(&events, false);
    assert_eq!(report.count, Ok(1));
    assert!(report.denied.is_empty());
}

#[test]
fn count_of_an_empty_directory_is_zero() {
    let events = vec![seen("sub", "sub", true, 0)];
    assert_eq!(count_dir_inodes(&events, true).count, Ok(0));
}

#[test]
fn count_of_a_walk_without_events_is_zero() {
    let events: Vec<WalkEvent> = Vec::new();
    let report = count_dir_inodes(&events, true);
    assert_eq!(report.count, Ok(0));
    assert!(report.denied.is_empty());
}

#[test]
fn count_includes_files_and_directories_at_any_depth() {
    assert_eq!(count_dir_inodes(&small_tree(), true).count, Ok(5));
}

#[test]
fn count_without_hidden_entries_passes_over_hidden_names() {
    assert_eq!(count_dir_inodes(&small_tree(), false).count, Ok(3));
}

#[test]
fn hidden_entries_are_the_difference_between_the_counts() {
    let events = small_tree();
    let with = count_dir_inodes(&events, true).count.unwrap();
    let without = count_dir_inodes(&events, false).count.unwrap();
    let hidden = 2;
    assert_eq!(with - without, hidden);
}

#[test]
fn pruned_walk_differs_by_the_hidden_entries_it_holds() {
    let events = vec![
        seen("sub", "sub", true, 0),
        seen("sub/c", "c", false, 1),
        seen("sub/.cache", ".cache", true, 1),
        seen("sub/.e", ".e", false, 1),
    ];
    assert_eq!(count_dir_inodes(&events, true).count, Ok(3));
    assert_eq!(count_dir_inodes(&events, false).count, Ok(1));
}

#[test]
fn walk_from_a_hidden_directory_visits_nothing_when_hidden_are_not_shown() {
    let events = vec![seen(".cfg", ".cfg", true, 0)];
    assert_eq!(count_dir_inodes(&events, false).count, Ok(0));
    assert_eq!(count_dir_inodes(&events, true).count, Ok(0));
}

#[test]
fn entry_without_a_readable_name_is_counted() {
    let nameless = WalkEvent::Entry(WalkEntry {
        path: "sub/\u{fffd}".to_string(),
        parent: Some("sub".to_string()),
        name: None,
        is_dir: false,
        depth: 1,
    });
    let events = vec![seen("sub", "sub", true, 0), nameless];
    assert_eq!(count_dir_inodes(&events, false).count, Ok(1));
}

#[test]
fn directory_that_cannot_be_read_is_left_out_of_the_count_and_reported() {
    let events = vec![
        seen("sub", "sub", true, 0),
        seen("sub/c", "c", false, 1),
        seen("sub/locked", "locked", true, 1),
        denied("sub/locked"),
        seen("sub/d", "d", false, 1),
    ];
    let report = count_dir_inodes(&events, false);
    assert_eq!(report.count, Ok(2));
    assert_eq!(report.denied, vec!["sub/locked".to_string()]);
}

#[test]
fn directory_with_a_file_and_a_child_that_cannot_be_read_counts_the_file() {
    let events = vec![
        seen("/d", "d", true, 0),
        seen("/d/f", "f", false, 1),
        seen("/d/x", "x", true, 1),
        denied("/d/x"),
    ];
    let report = count_dir_inodes(&events, true);
    assert_eq!(report.count, Ok(1));
    assert_eq!(report.denied, vec!["/d/x".to_string()]);
}

#[test]
fn directory_that_cannot_be_read_counts_as_if_it_were_absent() {
    let without = vec![
        seen("sub", "sub", true, 0),
        seen("sub/c", "c", false, 1),
        seen("sub/e", "e", true, 1),
        seen("sub/e/f", "f", false, 2),
    ];
    for at in 1..=without.len() {
        let mut with = without.clone();
        with.insert(at, seen("sub/locked", "locked", true, 1));
        with.insert(at + 1, denied("sub/locked"));
        for show_hidden in [false, true] {
            let plain = count_dir_inodes(&without, show_hidden);
            let report = count_dir_inodes(&with, show_hidden);
            assert_eq!(plain.count, Ok(3));
            assert_eq!(report.count, plain.count);
            assert_eq!(plain.denied.len(), 0);
            assert_eq!(report.denied, vec!["sub/locked".to_string()]);
        }
    }
}

#[test]
fn hidden_directory_that_cannot_be_read_is_counted_neither_way() {
    let events = vec![seen("s", "s", true, 0), seen("s/.x", ".x", true, 1), denied("s/.x")];
    assert_eq!(count_dir_inodes(&events, true).count, Ok(0));
    assert_eq!(count_dir_inodes(&events, false).count, Ok(0));
    assert_eq!(count_dir_inodes(&events, false).denied, vec!["s/.x".to_string()]);
}

#[test]
fn denial_takes_back_only_the_entry_at_its_path() {
    let events = vec![seen("s", "s", true, 0), seen("s/a", "a", true, 1), denied("s/b")];
    let report = count_dir_inodes(&events, true);
    assert_eq!(report.count, Ok(1));
    assert_eq!(report.denied, vec!["s/b".to_string()]);
}

#[test]
fn denial_takes_back_only_the_entry_just_before_it() {
    let events = vec![
        seen("s", "s", true, 0),
        seen("s/a", "a", true, 1),
        seen("s/b", "b", false, 1),
        denied("s/a"),
    ];
    assert_eq!(count_dir_inodes(&events, true).count, Ok(2));
}

#[test]
fn denial_without_an_entry_changes_no_count() {
    let without = vec![seen("sub", "sub", true, 0), seen("sub/c", "c", false, 1)];
    let with = vec![seen("sub", "sub", true, 0), seen("sub/c", "c", false, 1), denied("sub/gone")];
    let plain = count_dir_inodes(&without, true);
    let report = count_dir_inodes(&with, true);
    assert_eq!(report.count, Ok(1));
    assert_eq!(report.count, plain.count);
    assert_eq!(report.denied, vec!["sub/gone".to_string()]);
}

#[test]
fn starting_directory_that_cannot_be_read_gives_zero() {
    let events = vec![seen("sub", "sub", true, 0), denied("sub")];
    let report = count_dir_inodes(&events, true);
    assert_eq!(report.count, Ok(0));
    assert_eq!(report.denied, vec!["sub".to_string()]);
}

#[test]
fn starting_directory_that_was_never_reached_gives_zero() {
    let events = vec![denied("sub")];
    let report = count_dir_inodes(&events, true);
    assert_eq!(report.count, Ok(0));
    assert_eq!(report.denied, vec!["sub".to_string()]);
}

#[test]
fn nothing_is_taken_off_where_the_start_is_not_counted() {
    let events = vec![seen(".cfg", ".cfg", true, 0), seen(".cfg/c", "c", false, 1)];
    assert_eq!(count_dir_inodes(&events, false).count, Ok(1));
    assert_eq!(count_dir_inodes(&events, true).count, Ok(1));
    let late = vec![denied("gone"), seen("s/a", "a", false, 1), seen("s/b", "b", false, 1)];
    assert_eq!(count_dir_inodes(&late, true).count, Ok(2));
}

#[test]
fn denials_are_reported_in_the_order_of_the_walk() {
    let events = vec![seen("s", "s", true, 0), denied("s/a"), seen("s/b", "b", false, 1), denied("s/c")];
    let report = count_dir_inodes(&events, true);
    assert_eq!(report.denied, vec!["s/a".to_string(), "s/c".to_string()]);
}

#[test]
fn other_failure_ends_the_count_with_its_path_and_cause() {
    let events = vec![
        seen("sub", "sub", true, 0),
        denied("sub/locked"),
        broken("sub/disk", "input/output error"),
        seen("sub/d", "d", false, 1),
        denied("sub/later"),
    ];
    let report = count_dir_inodes(&events, true);
    assert_eq!(
        report.count,
        Err(SubtreeError { path: "sub/disk".to_string(), cause: "input/output error".to_string() })
    );
    assert_eq!(report.denied, vec!["sub/locked".to_string()]);
}

#[test]
fn first_of_two_failures_is_the_one_returned() {
    let events = vec![broken("a", "first"), broken("b", "second")];
    let report = count_dir_inodes(&events, false);
    assert_eq!(report.count, Err(SubtreeError { path: "a".to_string(), cause: "first".to_string() }));
}

#[test]
fn counter_tells_what_it_did_with_each_event() {
    let mut counter = SubtreeCounter::new(false);
    assert!(counter.has_room());
    assert_eq!(counter.observe(&seen("s", "s", true, 0)), Ok(Observation::Counted));
    assert_eq!(counter.observe(&seen("s/.h", ".h", false, 1)), Ok(Observation::Filtered));
    assert_eq!(counter.observe(&denied("s/locked")), Ok(Observation::Denied));
    assert_eq!(counter.observe(&seen("s/f", "f", false, 1)), Ok(Observation::Counted));
    assert_eq!(counter.count(), 1);
    assert_eq!(
        counter.observe(&broken("s/x", "bad")),
        Err(SubtreeError { path: "s/x".to_string(), cause: "bad".to_string() })
    );
    assert_eq!(counter.count(), 1);
}

#[test]
fn counter_takes_back_the_directory_that_is_denied_next() {
    let mut counter = SubtreeCounter::new(true);
    assert_eq!(counter.observe(&seen("s", "s", true, 0)), Ok(Observation::Counted));
    assert_eq!(counter.observe(&seen("s/x", "x", true, 1)), Ok(Observation::Counted));
    assert_eq!(counter.count(), 1);
    assert_eq!(counter.observe(&denied("s/x")), Ok(Observation::Denied));
    assert_eq!(counter.count(), 0);
    assert_eq!(counter.observe(&denied("s/x")), Ok(Observation::Denied));
    assert_eq!(counter.count(), 0);
    assert_eq!(counter.observe(&seen("s/f", "f", false, 1)), Ok(Observation::Counted));
    assert_eq!(counter.count(), 1);
}

#[test]
fn counter_takes_back_a_start_that_is_denied_next() {
    let mut counter = SubtreeCounter::new(false);
    assert_eq!(counter.observe(&seen("s", "s", true, 0)), Ok(Observation::Counted));
    assert_eq!(counter.count(), 0);
    assert_eq!(counter.observe(&denied("s")), Ok(Observation::Denied));
    assert_eq!(counter.count(), 0);
    assert!(counter.has_room());
}

#[test]
fn counter_that_counts_hidden_entries_filters_nothing() {
    let mut counter = SubtreeCounter::new(true);
    assert_eq!(counter.observe(&seen("s", "s", true, 0)), Ok(Observation::Counted));
    assert_eq!(counter.observe(&seen("s/.h", ".h", false, 1)), Ok(Observation::Counted));
    assert_eq!(counter.count(), 1);
}

#[test]
fn fresh_counter_counts_zero() {
    let counter = SubtreeCounter::new(true);
    assert_eq!(counter.count(), 0);
}
