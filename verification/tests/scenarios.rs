use icounter::aggregate::{apply_subtree_counts, DeferredCount};
use icounter::event::{FailureKind, WalkEntry, WalkEvent, WalkFailure};
use icounter::hierarchy::build_hierarchy;
use icounter::subtree::count_dir_inodes;

// One entry of a tree, as a walk that starts at `start` reports it.
fn met(start: &str, path: &str, is_dir: bool) -> WalkEvent {
    let (parent, name) = match path.rsplit_once('/') {
        Some((p, n)) => (Some(p.to_string()), n.to_string()),
        None => (None, path.to_string()),
    };
    let depth = path.matches('/').count() - start.matches('/').count();
    WalkEvent::Entry(WalkEntry { path: path.to_string(), parent, name: Some(name), is_dir, depth })
}

// The events of a walk from `start` over `tree`, a listing of (path, is_dir)
// in the order of a walk, down to `max_depth` levels, with hidden entries and
// what lies beneath them left out unless they are shown.
fn walk(tree: &[(&str, bool)], start: &str, max_depth: usize, show_hidden: bool) -> Vec<WalkEvent> {
    let below = format!("{}/", start);
    tree.iter()
        .filter(|(path, _)| *path == start || path.starts_with(&below))
        .filter(|(path, _)| path.matches('/').count() - start.matches('/').count() <= max_depth)
        .filter(|(path, _)| {
            show_hidden || !path[start.len()..].split('/').any(|part| part.starts_with('.'))
        })
        .map(|(path, is_dir)| met(start, path, *is_dir))
        .collect()
}

// The whole program on `tree`: the bounded walk, a count of each deferred
// subtree, and the rollup of the root.
fn root_count(tree: &[(&str, bool)], depth: usize, show_hidden: bool) -> (usize, usize) {
    let limit = depth.max(1);
    let events = walk(tree, "root", limit, show_hidden);
    let built =
        build_hierarchy("root".to_string(), Some("root".to_string()), &events, show_hidden, depth)
            .unwrap();
    let mut map = built.map;
    let results: Vec<DeferredCount> = built
        .deferred
        .iter()
        .map(|dir| DeferredCount {
            path: dir.clone(),
            count: count_dir_inodes(&walk(tree, dir, usize::MAX, show_hidden), show_hidden).count,
        })
        .collect();
    apply_subtree_counts(&mut map, &results).unwrap();
    (map.update_node("root").unwrap(), built.deferred.len())
}

#[test]
fn root_with_two_files_and_a_subdirectory_of_one_file() {
    let tree = [("root", true), ("root/a", false), ("root/b", false), ("root/sub", true), ("root/sub/c", false)];
    let events = walk(&tree, "root", 1, false);
    let built = build_hierarchy("root".to_string(), None, &events, false, 1).unwrap();
    assert_eq!(built.deferred, vec!["root/sub".to_string()]);
    let mut map = built.map;
    assert_eq!(map.node(0).count, 3);

    let sub = count_dir_inodes(&walk(&tree, "root/sub", usize::MAX, false), false);
    assert_eq!(sub.count, Ok(1));
    let results = vec![DeferredCount { path: "root/sub".to_string(), count: sub.count }];
    assert_eq!(apply_subtree_counts(&mut map, &results), Ok(()));
    let node = map.node(map.lookup("root/sub").unwrap());
    assert_eq!(node.count, 2);
    assert!(node.finalized);

    // the root itself, its two files, and what the subdirectory counts
    assert_eq!(map.update_node("root"), Ok(1 + 2 + 2));
    assert_eq!(map.node(0).count, 5);
}

#[test]
fn hidden_file_is_counted_only_when_hidden_entries_are_shown() {
    let tree = [("root", true), ("root/.secret", false), ("root/visible", false)];
    assert_eq!(root_count(&tree, 0, false).0, 2);
    assert_eq!(root_count(&tree, 0, true).0, 3);
}

#[test]
fn depth_beyond_the_tree_defers_nothing_and_agrees_with_depth_one() {
    let tree = [
        ("root", true),
        ("root/a", false),
        ("root/b", false),
        ("root/sub", true),
        ("root/sub/c", false),
        ("root/sub/deep", true),
        ("root/sub/deep/d", false),
        ("root/other", true),
    ];
    let (deep, deferred_deep) = root_count(&tree, 5, false);
    let (shallow, deferred_shallow) = root_count(&tree, 1, false);
    assert_eq!(deferred_deep, 0);
    assert_eq!(deferred_shallow, 2);
    assert_eq!(deep, 8);
    assert_eq!(shallow, deep);
}

#[test]
fn every_depth_gives_the_same_root_count() {
    let tree = [
        ("root", true),
        ("root/x", true),
        ("root/x/y", true),
        ("root/x/y/z", true),
        ("root/x/y/z/f", false),
        ("root/x/g", false),
        ("root/.h", true),
        ("root/.h/i", false),
    ];
    for depth in 0..6 {
        assert_eq!(root_count(&tree, depth, true).0, 8);
        assert_eq!(root_count(&tree, depth, false).0, 6);
    }
}

#[test]
fn unreadable_child_directory_is_not_counted_and_warned_of_once() {
    let mut events = vec![met("sub", "sub", true), met("sub", "sub/a", false)];
    let plain = count_dir_inodes(&events, false);
    events.insert(1, met("sub", "sub/locked", true));
    events.insert(
        2,
        WalkEvent::Failure(WalkFailure {
            path: "sub/locked".to_string(),
            kind: FailureKind::PermissionDenied,
            cause: "permission denied".to_string(),
        }),
    );
    let report = count_dir_inodes(&events, false);
    assert_eq!(report.count, Ok(1));
    assert_eq!(report.count, plain.count);
    assert_eq!(report.denied, vec!["sub/locked".to_string()]);
}

#[test]
fn unreadable_directory_beneath_a_deferred_one_is_left_out_of_the_root() {
    let denial = WalkEvent::Failure(WalkFailure {
        path: "root/sub/locked".to_string(),
        kind: FailureKind::PermissionDenied,
        cause: "permission denied".to_string(),
    });
    let bounded = vec![met("root", "root", true), met("root", "root/sub", true)];
    let built = build_hierarchy("root".to_string(), None, &bounded, false, 1).unwrap();
    assert_eq!(built.deferred, vec!["root/sub".to_string()]);
    let beneath = vec![
        met("root/sub", "root/sub", true),
        met("root/sub", "root/sub/a", false),
        met("root/sub", "root/sub/locked", true),
        denial,
    ];
    let report = count_dir_inodes(&beneath, false);
    assert_eq!(report.count, Ok(1));
    let mut map = built.map;
    let results = vec![DeferredCount { path: "root/sub".to_string(), count: report.count }];
    assert_eq!(apply_subtree_counts(&mut map, &results), Ok(()));
    assert_eq!(map.update_node("root"), Ok(1 + 2));
}

#[test]
fn root_comes_to_one_more_than_the_entries_taken_in() {
    let tree = [
        ("root", true),
        ("root/a", true),
        ("root/a/1", false),
        ("root/a/2", false),
        ("root/b", true),
        ("root/b/c", true),
        ("root/b/c/3", false),
        ("root/4", false),
    ];
    let events = walk(&tree, "root", 9, true);
    let built = build_hierarchy("root".to_string(), None, &events, true, 9).unwrap();
    assert!(built.deferred.is_empty());
    let mut map = built.map;
    assert_eq!(map.update_node("root"), Ok(1 + 7));
}

#[test]
fn deferred_count_raises_the_root_by_its_amount() {
    let tree = [("root", true), ("root/a", true), ("root/b", false)];
    let events = walk(&tree, "root", 1, true);
    let plain = build_hierarchy("root".to_string(), None, &events, true, 1).unwrap();
    let mut without = plain.map;
    let mut with = build_hierarchy("root".to_string(), None, &events, true, 1).unwrap().map;
    assert_eq!(with.add_subtree_count("root/a", 40), Ok(()));
    let base = without.update_node("root").unwrap();
    assert_eq!(base, 3);
    assert_eq!(with.update_node("root"), Ok(base + 40));
}
