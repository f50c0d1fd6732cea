//! What the presentation reads from the map: the children of a directory in
//! the order in which they are shown, and the name under which a directory
//! is shown.

use vstd::prelude::*;
use crate::node_map::{DirectoryNode, NodeMap, NodeView};
use crate::order::sorted_larger_first;

verus! {

/// A child directory with what it is ranked by.
#[derive(Debug, Clone, Copy, PartialEq, Eq, Structural)]
pub struct RankedChild {
    /// The child's place among the children of its parent.
    pub place: usize,
    /// The child's place in the map.
    pub id: usize,
    /// The child's count.
    pub count: usize,
}

/// `a` is shown before `b`: it has the larger count, or the same count and
/// was discovered first.
pub open spec fn shown_before(a: RankedChild, b: RankedChild) -> bool {
    a.count > b.count || (a.count == b.count && a.place < b.place)
}

/// Each item holds its own place in the sequence.
pub open spec fn numbered(items: Seq<RankedChild>) -> bool {
    forall|k: int| 0 <= k < items.len() ==> (#[trigger] items[k]).place == k
}

/// `sorted` holds the items of `items`, each once, in the order of display.
pub open spec fn is_ranking(items: Seq<RankedChild>, sorted: Seq<RankedChild>) -> bool {
    &&& sorted.len() == items.len()
    &&& forall|i: int|
        0 <= i < sorted.len() ==> (#[trigger] sorted[i]).place < items.len() && sorted[i]
            == items[sorted[i].place as int]
    &&& forall|i: int, j: int|
        0 <= i < j < sorted.len() ==> shown_before(#[trigger] sorted[i], #[trigger] sorted[j])
}

/// The children of the node at `id` as they are ranked: each with its place
/// among them and the count that it holds.
pub open spec fn ranked(nodes: Seq<NodeView>, id: int, items: Seq<RankedChild>) -> bool {
    &&& items.len() == nodes[id].children.len()
    &&& forall|k: int|
        0 <= k < items.len() ==> (#[trigger] items[k]).place == k && items[k].id
            == nodes[id].children[k] && items[k].count == nodes[items[k].id as int].count
}

/// The child directories of the directory at `id`, in the order in which
/// they are shown: the larger count first, and among equal counts the one
/// that was discovered first.
pub fn children_by_count(map: &NodeMap, id: usize) -> (shown: Vec<RankedChild>)
    requires
        map.wf(),
        id < map@.len(),
    ensures
        shown@.len() == map@[id as int].children.len(),
        forall|i: int|
            0 <= i < shown@.len() ==> {
                &&& (#[trigger] shown@[i]).place < shown@.len()
                &&& shown@[i].id == map@[id as int].children[shown@[i].place as int]
                &&& shown@[i].count == map@[shown@[i].id as int].count
            },
        forall|i: int, j: int|
            0 <= i < j < shown@.len() ==> shown_before(#[trigger] shown@[i], #[trigger] shown@[j]),
{
    let node = map.node(id);
    let n = node.children.len();
    let mut items: Vec<RankedChild> = Vec::new();
    let mut k: usize = 0;
    while k < n
        invariant
            map.wf(),
            id < map@.len(),
            node@ == map@[id as int],
            n == node.children.len(),
            0 <= k <= n,
            items@.len() == k,
            forall|m: int|
                0 <= m < k ==> (#[trigger] items@[m]).place == m && items@[m].id
                    == map@[id as int].children[m] && items@[m].count
                    == map@[items@[m].id as int].count,
        decreases n - k,
    {
        let child = node.children[k];
        assert(id < map@[id as int].children[k as int] < map@.len());
        let count = map.node(child).count;
        items.push(RankedChild { place: k, id: child, count });
        k = k + 1;
    }
    let ghost before = items@;
    let shown = sorted_larger_first(items);
    assert forall|i: int| 0 <= i < shown@.len() implies {
        &&& (#[trigger] shown@[i]).place < shown@.len()
        &&& shown@[i].id == map@[id as int].children[shown@[i].place as int]
        &&& shown@[i].count == map@[shown@[i].id as int].count
    } by {
        assert(shown@[i] == before[shown@[i].place as int]);
    }
    shown
}

/// A directory's name cannot be shown: it is not valid Unicode.
#[derive(Debug, Clone, PartialEq, Eq)]
pub struct PathEncodingError {
    /// The directory's path.
    pub path: String,
}

/// The name under which a directory is shown.
pub fn display_name(node: &DirectoryNode) -> (result: Result<String, PathEncodingError>)
    ensures
        match node.name {
            Some(name) => result matches Ok(shown) && shown@ == name@,
            None => result matches Err(e) && e.path@ == node.path@,
        },
{
    match &node.name {
        Some(name) => Ok(name.clone()),
        None => Err(PathEncodingError { path: node.path.clone() }),
    }
}

} // verus!
