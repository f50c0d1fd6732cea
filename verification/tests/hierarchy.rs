use icounter::event::{FailureKind, WalkEntry, WalkEvent, WalkFailure};
use icounter::hierarchy::{build_hierarchy, BuildError, HierarchyBuilder, Inconsistency, Visit};

fn dir(path: &str, depth: usize) -> WalkEvent {
    entry(path, true, depth)
}

fn file(path: &str, depth: usize) -> WalkEvent {
    entry(path, false, depth)
}

fn entry(path: &str, is_dir: bool, depth: usize) -> WalkEvent {
    let (parent, name) = match path.rsplit_once('/') {
        Some((p, n)) => (Some(p.to_string()), n.to_string()),
        None => (None, path.to_string()),
    };
    WalkEvent::Entry(WalkEntry { path: path.to_string(), parent, name: Some(name), is_dir, depth })
}

fn root_name() -> Option<String> {
    Some("root".to_string())
}

#[test]
fn new_builder_holds_the_root_alone() {
    let built = HierarchyBuilder::new("root".to_string(), root_name(), false, 1).finish();
    assert_eq!(built.map.len(), 1);
    let root = built.map.node(0);
    assert_eq!(root.path, "root");
    assert_eq!(root.name, root_name());
    assert!(root.children.is_empty());
    assert_eq!(root.count, 1);
    assert!(!root.finalized);
    assert!(built.deferred.is_empty());
}

#[test]
fn depth_zero_walks_one_level() {
    let builder = HierarchyBuilder::new("root".to_string(), root_name(), false, 0);
    assert_eq!(builder.max_depth(), 1);
}

#[test]
fn depth_is_kept_when_at_least_one() {
    assert_eq!(HierarchyBuilder::new("r".to_string(), None, true, 1).max_depth(), 1);
    assert_eq!(HierarchyBuilder::new("r".to_string(), None, true, 7).max_depth(), 7);
}

#[test]
fn builder_remembers_whether_hidden_entries_are_shown() {
    assert!(HierarchyBuilder::new("r".to_string(), None, true, 1).show_hidden());
    assert!(!HierarchyBuilder::new("r".to_string(), None, false, 1).show_hidden());
}

#[test]
fn files_are_counted_in_their_parent() {
    let events = vec![dir("root", 0), file("root/a", 1), file("root/b", 1)];
    let built = build_hierarchy("root".to_string(), root_name(), &events, false, 1).unwrap();
    assert_eq!(built.map.len(), 1);
    assert_eq!(built.map.node(0).count, 3);
    assert!(!built.map.node(0).finalized);
    assert!(built.deferred.is_empty());
}

#[test]
fn directory_becomes_a_node_and_a_child_of_its_parent() {
    let events = vec![dir("root", 0), dir("root/sub", 1), file("root/sub/c", 2), dir("root/sub/in", 2)];
    let built = build_hierarchy("root".to_string(), root_name(), &events, false, 3).unwrap();
    assert_eq!(built.map.len(), 3);
    assert_eq!(built.map.node(0).children, vec![1]);
    assert_eq!(built.map.node(0).count, 1);
    let sub = built.map.node(1);
    assert_eq!(sub.path, "root/sub");
    assert_eq!(sub.name, Some("sub".to_string()));
    assert_eq!(sub.children, vec![2]);
    assert_eq!(sub.count, 2);
    assert!(!sub.finalized);
    assert_eq!(built.map.node(2).path, "root/sub/in");
    assert_eq!(built.map.node(2).count, 1);
    assert!(built.deferred.is_empty());
}

#[test]
fn children_keep_the_order_of_discovery() {
    let events = vec![dir("root/z", 1), file("root/f", 1), dir("root/a", 1), dir("root/m", 1)];
    let built = build_hierarchy("root".to_string(), root_name(), &events, false, 2).unwrap();
    let names: Vec<String> =
        built.map.node(0).children.iter().map(|&c| built.map.node(c).path.clone()).collect();
    assert_eq!(names, vec!["root/z".to_string(), "root/a".to_string(), "root/m".to_string()]);
}

#[test]
fn directories_at_the_depth_limit_are_deferred() {
    let events = vec![dir("root/a", 1), dir("root/a/b", 2), file("root/a/f", 2), dir("root/c", 1), dir("root/c/d", 2)];
    let built = build_hierarchy("root".to_string(), root_name(), &events, false, 2).unwrap();
    assert_eq!(built.deferred, vec!["root/a/b".to_string(), "root/c/d".to_string()]);
    assert_eq!(built.map.len(), 5);
}

#[test]
fn files_at_the_depth_limit_are_not_deferred() {
    let events = vec![file("root/a", 1), dir("root/sub", 1)];
    let built = build_hierarchy("root".to_string(), root_name(), &events, false, 0).unwrap();
    assert_eq!(built.deferred, vec!["root/sub".to_string()]);
    assert_eq!(built.map.node(0).count, 2);
}

#[test]
fn root_entry_is_passed_over() {
    let events = vec![dir("root", 0)];
    let built = build_hierarchy("root".to_string(), root_name(), &events, true, 1).unwrap();
    assert_eq!(built.map.len(), 1);
    assert_eq!(built.map.node(0).count, 1);
}

#[test]
fn root_that_is_a_file_is_passed_over() {
    let events = vec![file("root", 0)];
    let built = build_hierarchy("root".to_string(), root_name(), &events, true, 1).unwrap();
    assert_eq!(built.map.len(), 1);
    assert_eq!(built.map.node(0).count, 1);
}

#[test]
fn hidden_entries_are_passed_over_unless_shown() {
    let events = vec![file("root/.secret", 1), file("root/visible", 1), dir("root/.git", 1)];
    let without = build_hierarchy("root".to_string(), root_name(), &events, false, 1).unwrap();
    assert_eq!(without.map.len(), 1);
    assert_eq!(without.map.node(0).count, 2);
    assert!(without.deferred.is_empty());
    let with = build_hierarchy("root".to_string(), root_name(), &events, true, 1).unwrap();
    assert_eq!(with.map.len(), 2);
    assert_eq!(with.map.node(0).count, 3);
    assert_eq!(with.deferred, vec!["root/.git".to_string()]);
}

#[test]
fn failures_of_the_bounded_walk_are_passed_over() {
    let lost = WalkEvent::Failure(WalkFailure {
        path: "root/x".to_string(),
        kind: FailureKind::Other,
        cause: "gone".to_string(),
    });
    let locked = WalkEvent::Failure(WalkFailure {
        path: "root/y".to_string(),
        kind: FailureKind::PermissionDenied,
        cause: "denied".to_string(),
    });
    let events = vec![lost, file("root/a", 1), locked];
    let built = build_hierarchy("root".to_string(), root_name(), &events, false, 1).unwrap();
    assert_eq!(built.map.node(0).count, 2);
}

#[test]
fn file_with_an_unknown_parent_is_an_error() {
    let events = vec![file("root/a", 1), file("root/ghost/f", 2)];
    let err = build_hierarchy("root".to_string(), root_name(), &events, false, 2).err().unwrap();
    assert_eq!(err, BuildError { kind: Inconsistency::MissingParent, path: "root/ghost/f".to_string() });
}

#[test]
fn file_without_a_parent_is_an_error() {
    let events = vec![file("stray", 1)];
    let err = build_hierarchy("root".to_string(), root_name(), &events, false, 2).err().unwrap();
    assert_eq!(err, BuildError { kind: Inconsistency::MissingParent, path: "stray".to_string() });
}

#[test]
fn directory_with_an_unknown_parent_is_an_error() {
    let events = vec![dir("root/ghost/d", 2)];
    let err = build_hierarchy("root".to_string(), root_name(), &events, false, 2).err().unwrap();
    assert_eq!(err, BuildError { kind: Inconsistency::MissingParent, path: "root/ghost/d".to_string() });
}

#[test]
fn child_of_a_hidden_directory_that_was_passed_over_is_an_error() {
    let events = vec![dir("root/.git", 1), file("root/.git/config", 2)];
    let err = build_hierarchy("root".to_string(), root_name(), &events, false, 2).err().unwrap();
    assert_eq!(err.kind, Inconsistency::MissingParent);
    assert_eq!(err.path, "root/.git/config");
    assert!(build_hierarchy("root".to_string(), root_name(), &events, true, 2).is_ok());
}

#[test]
fn child_that_comes_before_its_parent_is_an_error() {
    let events = vec![file("root/sub/c", 2), dir("root/sub", 1)];
    let err = build_hierarchy("root".to_string(), root_name(), &events, false, 2).err().unwrap();
    assert_eq!(err, BuildError { kind: Inconsistency::MissingParent, path: "root/sub/c".to_string() });
}

#[test]
fn directory_seen_twice_is_an_error() {
    let events = vec![dir("root/sub", 1), file("root/sub/c", 2), dir("root/sub", 1)];
    let err = build_hierarchy("root".to_string(), root_name(), &events, false, 2).err().unwrap();
    assert_eq!(err, BuildError { kind: Inconsistency::DuplicateDirectory, path: "root/sub".to_string() });
}

#[test]
fn directory_without_a_parent_is_kept_apart() {
    let events = vec![dir("elsewhere", 1), file("elsewhere/f", 2), file("root/a", 1)];
    let built = build_hierarchy("root".to_string(), root_name(), &events, false, 2).unwrap();
    assert_eq!(built.map.len(), 2);
    assert!(built.map.node(0).children.is_empty());
    assert_eq!(built.map.node(0).count, 2);
    assert_eq!(built.map.node(1).count, 2);
}

#[test]
fn visit_leaves_the_builder_as_it_was_on_error() {
    let mut builder = HierarchyBuilder::new("root".to_string(), root_name(), false, 1);
    assert_eq!(builder.visit(&file("root/a", 1)), Ok(Visit::File));
    assert_eq!(
        builder.visit(&dir("root/x/y", 2)),
        Err(BuildError { kind: Inconsistency::MissingParent, path: "root/x/y".to_string() })
    );
    assert_eq!(builder.visit(&dir("root/sub", 1)), Ok(Visit::Deferred));
    let built = builder.finish();
    assert_eq!(built.map.len(), 2);
    assert_eq!(built.map.node(0).count, 2);
    assert_eq!(built.map.node(0).children, vec![1]);
    assert_eq!(built.deferred, vec!["root/sub".to_string()]);
}

#[test]
fn lookup_finds_each_directory_by_its_path() {
    let events = vec![dir("root/a", 1), dir("root/b", 1), dir("root/b/c", 2)];
    let built = build_hierarchy("root".to_string(), root_name(), &events, false, 3).unwrap();
    assert_eq!(built.map.lookup("root"), Some(0));
    assert_eq!(built.map.lookup("root/a"), Some(1));
    assert_eq!(built.map.lookup("root/b"), Some(2));
    assert_eq!(built.map.lookup("root/b/c"), Some(3));
    assert_eq!(built.map.lookup("root/c"), None);
    assert_eq!(built.map.lookup(""), None);
}

#[test]
fn leaf_directory_counts_itself_and_its_visible_files() {
    let events = vec![
        dir("root/leaf", 1),
        file("root/leaf/a", 2),
        file("root/leaf/.h", 2),
        file("root/leaf/b", 2),
    ];
    let mut without = build_hierarchy("root".to_string(), root_name(), &events, false, 5).unwrap().map;
    assert_eq!(without.update_node("root/leaf"), Ok(3));
    let mut with = build_hierarchy("root".to_string(), root_name(), &events, true, 5).unwrap().map;
    assert_eq!(with.update_node("root/leaf"), Ok(4));
}

#[test]
fn visit_tells_what_each_event_was_taken_for() {
    let mut builder = HierarchyBuilder::new("root".to_string(), root_name(), false, 2);
    assert_eq!(builder.visit(&dir("root", 0)), Ok(Visit::PassedOver));
    assert_eq!(builder.visit(&file("root/.hidden", 1)), Ok(Visit::PassedOver));
    assert_eq!(builder.visit(&dir("root/.cache", 1)), Ok(Visit::PassedOver));
    assert_eq!(builder.visit(&dir("root/sub", 1)), Ok(Visit::Directory));
    assert_eq!(builder.visit(&file("root/sub/f", 2)), Ok(Visit::File));
    assert_eq!(builder.visit(&dir("root/sub/deep", 2)), Ok(Visit::Deferred));
    let lost = WalkEvent::Failure(WalkFailure {
        path: "root/sub/x".to_string(),
        kind: FailureKind::Other,
        cause: "gone".to_string(),
    });
    assert_eq!(builder.visit(&lost), Ok(Visit::PassedOver));
    let built = builder.finish();
    assert_eq!(built.deferred, vec!["root/sub/deep".to_string()]);
    assert_eq!(built.map.len(), 3);
}

#[test]
fn directory_that_cannot_be_read_is_a_node_that_counts_itself() {
    let locked = WalkEvent::Failure(WalkFailure {
        path: "root/locked".to_string(),
        kind: FailureKind::PermissionDenied,
        cause: "permission denied".to_string(),
    });
    let with = vec![file("root/a", 1), dir("root/locked", 1), locked, dir("root/open", 1)];
    let without = vec![file("root/a", 1), dir("root/locked", 1), dir("root/open", 1)];
    let mut seen = build_hierarchy("root".to_string(), root_name(), &with, false, 3).unwrap().map;
    let mut plain = build_hierarchy("root".to_string(), root_name(), &without, false, 3).unwrap().map;
    assert_eq!(seen.len(), 3);
    assert_eq!(seen.node(0).children, vec![1, 2]);
    assert_eq!(seen.node(1).path, "root/locked");
    assert_eq!(seen.node(1).count, 1);
    assert_eq!(seen.update_node("root/locked"), Ok(1));
    assert_eq!(seen.update_node("root"), Ok(4));
    assert_eq!(plain.update_node("root"), Ok(4));
}
