use icounter::aggregate::{apply_subtree_counts, DeferredCount};
use icounter::display::{children_by_count, display_name, PathEncodingError, RankedChild};
use icounter::event::{WalkEntry, WalkEvent};
use icounter::hierarchy::build_hierarchy;
use icounter::node_map::NodeMap;
use icounter::order::larger_first;
use std::cmp::Ordering;

fn shown_dir(path: &str, name: Option<&str>) -> WalkEvent {
    let (parent, _) = path.rsplit_once('/').unwrap();
    WalkEvent::Entry(WalkEntry {
        path: path.to_string(),
        parent: Some(parent.to_string()),
        name: name.map(|n| n.to_string()),
        is_dir: true,
        depth: 1,
    })
}

fn map_with_counts(counts: &[usize]) -> NodeMap {
    let mut events = Vec::new();
    let mut results = Vec::new();
    for (k, &count) in counts.iter().enumerate() {
        let path = format!("r/d{}", k);
        events.push(shown_dir(&path, Some(&format!("d{}", k))));
        results.push(DeferredCount { path, count: Ok(count - 1) });
    }
    let mut map = build_hierarchy("r".to_string(), Some("r".to_string()), &events, true, 1).unwrap().map;
    apply_subtree_counts(&mut map, &results).unwrap();
    map
}

fn ids(shown: &[RankedChild]) -> Vec<usize> {
    shown.iter().map(|c| c.id).collect()
}

#[test]
fn children_are_shown_with_the_larger_count_first() {
    let map = map_with_counts(&[3, 9, 1, 5]);
    let shown = children_by_count(&map, 0);
    assert_eq!(ids(&shown), vec![2, 4, 1, 3]);
    let counts: Vec<usize> = shown.iter().map(|c| c.count).collect();
    assert_eq!(counts, vec![9, 5, 3, 1]);
}

#[test]
fn children_in_ascending_order_are_turned_around() {
    let map = map_with_counts(&[1, 2, 3]);
    assert_eq!(ids(&children_by_count(&map, 0)), vec![3, 2, 1]);
}

#[test]
fn children_with_the_same_count_keep_the_order_of_discovery() {
    let map = map_with_counts(&[4, 7, 4, 7, 4]);
    let shown = children_by_count(&map, 0);
    assert_eq!(ids(&shown), vec![2, 4, 1, 3, 5]);
    let places: Vec<usize> = shown.iter().map(|c| c.place).collect();
    assert_eq!(places, vec![1, 3, 0, 2, 4]);
}

#[test]
fn directory_without_children_shows_none() {
    let map = map_with_counts(&[2]);
    assert!(children_by_count(&map, 1).is_empty());
    let alone = NodeMap::new("r".to_string(), None);
    assert!(children_by_count(&alone, 0).is_empty());
}

#[test]
fn ranked_child_holds_what_the_map_holds() {
    let map = map_with_counts(&[3, 9]);
    for child in children_by_count(&map, 0) {
        assert_eq!(map.node(0).children[child.place], child.id);
        assert_eq!(map.node(child.id).count, child.count);
    }
}

#[test]
fn larger_count_compares_as_less() {
    let big = RankedChild { place: 1, id: 2, count: 10 };
    let small = RankedChild { place: 0, id: 1, count: 3 };
    assert_eq!(larger_first(&big, &small), Ordering::Less);
    assert_eq!(larger_first(&small, &big), Ordering::Greater);
    assert_eq!(larger_first(&big, &big), Ordering::Equal);
    let twin = RankedChild { place: 5, id: 9, count: 10 };
    assert_eq!(larger_first(&big, &twin), Ordering::Equal);
}

#[test]
fn directory_is_shown_under_its_name() {
    let events = vec![shown_dir("r/sub", Some("sub"))];
    let map = build_hierarchy("r".to_string(), Some("r".to_string()), &events, true, 1).unwrap().map;
    assert_eq!(display_name(map.node(0)), Ok("r".to_string()));
    assert_eq!(display_name(map.node(1)), Ok("sub".to_string()));
}

#[test]
fn directory_without_a_readable_name_cannot_be_shown() {
    let events = vec![shown_dir("r/\u{fffd}", None)];
    let map = build_hierarchy("r".to_string(), None, &events, true, 1).unwrap().map;
    assert_eq!(display_name(map.node(0)), Err(PathEncodingError { path: "r".to_string() }));
    assert_eq!(display_name(map.node(1)), Err(PathEncodingError { path: "r/\u{fffd}".to_string() }));
}
