//! The map of directories: one node for each directory that the bounded walk
//! reached, found by its path.
//!
//! The nodes stand in one sequence in the order in which they were
//! discovered, the root first. A directory names its child directories by
//! their places in that sequence, and every child stands after its parent.

use vstd::prelude::*;
use vstd::hash_map::StringHashMap;
use crate::event::opt_view;

verus! {

/// One directory of the map.
#[derive(Debug)]
pub struct DirectoryNode {
    /// The directory's path, by which it is found.
    pub path: String,
    /// The directory's name for display, where it is valid Unicode.
    pub name: Option<String>,
    /// The child directories, in the order of their discovery.
    pub children: Vec<usize>,
    /// The running count of entries: the directory itself and the files
    /// directly in it until the node is finalized, the whole subtree after.
    pub count: usize,
    /// Whether `count` is the total of the subtree.
    pub finalized: bool,
}

/// A directory as the contracts see it.
pub struct NodeView {
    pub path: Seq<char>,
    pub name: Option<Seq<char>>,
    pub children: Seq<int>,
    pub count: nat,
    pub finalized: bool,
}

impl View for DirectoryNode {
    type V = NodeView;

    open spec fn view(&self) -> NodeView {
        NodeView {
            path: self.path@,
            name: opt_view(self.name),
            children: self.children@.map_values(|c: usize| c as int),
            count: self.count as nat,
            finalized: self.finalized,
        }
    }
}

/// A directory that has just been discovered: it counts itself, has no
/// children yet and is not finalized.
pub open spec fn fresh_node(path: Seq<char>, name: Option<Seq<char>>) -> NodeView {
    NodeView { path, name, children: Seq::empty(), count: 1, finalized: false }
}

/// Some node of `nodes` has the path `path`.
pub open spec fn has_path(nodes: Seq<NodeView>, path: Seq<char>) -> bool {
    exists|i: int| 0 <= i < nodes.len() && (#[trigger] nodes[i]).path == path
}

/// The place of the node with the path `path`, where there is one.
pub open spec fn index_of(nodes: Seq<NodeView>, path: Seq<char>) -> int {
    choose|i: int| 0 <= i < nodes.len() && (#[trigger] nodes[i]).path == path
}

/// What holds of every map: it has a root, no two nodes share a path, and
/// each child is a node that stands after its parent.
pub open spec fn well_formed(nodes: Seq<NodeView>) -> bool {
    &&& nodes.len() > 0
    &&& forall|i: int, j: int|
        0 <= i < nodes.len() && 0 <= j < nodes.len() && i != j ==> (#[trigger] nodes[i]).path != (
        #[trigger] nodes[j]).path
    &&& forall|i: int, k: int|
        0 <= i < nodes.len() && 0 <= k < nodes[i].children.len() ==> i < (
        #[trigger] nodes[i].children[k]) < nodes.len()
}

/// In a well-formed map a path is found at one place only.
pub proof fn lemma_index_of_unique(nodes: Seq<NodeView>, i: int)
    requires
        well_formed(nodes),
        0 <= i < nodes.len(),
    ensures
        has_path(nodes, nodes[i].path),
        index_of(nodes, nodes[i].path) == i,
{
    assert(nodes[i].path == nodes[i].path);
    let j = index_of(nodes, nodes[i].path);
    assert(nodes[j].path == nodes[i].path);
}

/// The map with one more directory: the new node at the end, and its place
/// added to the children of `parent`, where it has one.
pub open spec fn with_directory(nodes: Seq<NodeView>, node: NodeView, parent: Option<int>) -> Seq<
    NodeView,
> {
    match parent {
        Some(p) => nodes.update(
            p,
            NodeView { children: nodes[p].children.push(nodes.len() as int), ..nodes[p] },
        ).push(node),
        None => nodes.push(node),
    }
}

/// The map with one more entry counted in the node at `i`.
pub open spec fn with_file(nodes: Seq<NodeView>, i: int) -> Seq<NodeView> {
    nodes.update(i, NodeView { count: nodes[i].count + 1, ..nodes[i] })
}

/// The map with the node at `i` finalized at `count`.
pub open spec fn with_total(nodes: Seq<NodeView>, i: int, count: nat) -> Seq<NodeView> {
    nodes.update(i, NodeView { count, finalized: true, ..nodes[i] })
}

/// The directories near the root of a tree, each with its count.
pub struct NodeMap {
    nodes: Vec<DirectoryNode>,
    index: StringHashMap<usize>,
}

impl View for NodeMap {
    type V = Seq<NodeView>;

    closed spec fn view(&self) -> Seq<NodeView> {
        self.nodes@.map_values(|n: DirectoryNode| n@)
    }
}

impl NodeMap {
    /// The index leads from each node's path to the node's place, and to
    /// nothing else.
    pub closed spec fn indexed(&self) -> bool {
        &&& forall|i: int|
            0 <= i < self.nodes.len() ==> self.index@.contains_key(
                (#[trigger] self.nodes[i]).path@,
            ) && self.index@[self.nodes[i].path@] == i
        &&& forall|p: Seq<char>| #[trigger]
            self.index@.contains_key(p) ==> self.index@[p] < self.nodes.len()
                && self.nodes[self.index@[p] as int].path@ == p
    }

    /// The invariant of the map.
    pub open spec fn wf(&self) -> bool {
        well_formed(self@) && self.indexed()
    }

    /// A map that holds the root alone: it counts itself and is not
    /// finalized.
    pub fn new(root: String, name: Option<String>) -> (map: NodeMap)
        ensures
            map.wf(),
            map@ == seq![fresh_node(root@, opt_view(name))],
    {
        let mut index: StringHashMap<usize> = StringHashMap::new();
        index.insert(root.clone(), 0);
        let mut nodes: Vec<DirectoryNode> = Vec::new();
        nodes.push(
            DirectoryNode { path: root, name, children: Vec::new(), count: 1, finalized: false },
        );
        let map = NodeMap { nodes, index };
        assert(map@[0].children =~= Seq::<int>::empty());
        assert(map@ =~= seq![fresh_node(root@, opt_view(name))]);
        map
    }

    /// The number of directories in the map.
    pub fn len(&self) -> (n: usize)
        ensures
            n == self@.len(),
    {
        self.nodes.len()
    }

    /// The place of the directory with the path `path`.
    pub fn lookup(&self, path: &str) -> (found: Option<usize>)
        requires
            self.wf(),
        ensures
            match found {
                Some(i) => has_path(self@, path@) && i == index_of(self@, path@),
                None => !has_path(self@, path@),
            },
    {
        match self.index.get(path) {
            Some(i) => {
                proof {
                    lemma_index_of_unique(self@, *i as int);
                }
                Some(*i)
            },
            None => {
                assert forall|i: int| 0 <= i < self@.len() implies (#[trigger] self@[i]).path
                    != path@ by {
                    assert(self.index@.contains_key(self.nodes[i].path@));
                }
                None
            },
        }
    }

    /// The directory at place `id`.
    pub fn node(&self, id: usize) -> (node: &DirectoryNode)
        requires
            id < self@.len(),
        ensures
            node@ == self@[id as int],
    {
        &self.nodes[id]
    }

    /// Adds a directory that the map does not hold yet, as the last child of
    /// `parent` where it has one, and returns its place.
    pub(crate) fn add_directory(
        &mut self,
        path: String,
        name: Option<String>,
        parent: Option<usize>,
    ) -> (id: usize)
        requires
            old(self).wf(),
            !has_path(old(self)@, path@),
            parent matches Some(p) ==> p < old(self)@.len(),
        ensures
            final(self).wf(),
            id == old(self)@.len(),
            final(self)@ == with_directory(
                old(self)@,
                fresh_node(path@, opt_view(name)),
                match parent {
                    Some(p) => Some(p as int),
                    None => None,
                },
            ),
    {
        let id = self.nodes.len();
        let ghost before = self@;
        let ghost key = path@;
        proof {
            if self.index@.contains_key(key) {
                assert(self@[self.index@[key] as int].path == key);
            }
        }
        self.index.insert(path.clone(), id);
        self.nodes.push(
            DirectoryNode { path, name, children: Vec::new(), count: 1, finalized: false },
        );
        match parent {
            Some(p) => {
                self.nodes[p].children.push(id);
            },
            None => {},
        }
        proof {
            let ghost expected = with_directory(
                before,
                fresh_node(key, opt_view(name)),
                match parent {
                    Some(p) => Some(p as int),
                    None => None,
                },
            );
            assert(self@[id as int].children =~= Seq::<int>::empty());
            if let Some(p) = parent {
                assert(self@[p as int].children =~= before[p as int].children.push(id as int));
            }
            assert(self@ =~= expected);
            assert forall|i: int, j: int|
                0 <= i < self@.len() && 0 <= j < self@.len() && i != j implies (
            #[trigger] self@[i]).path != (#[trigger] self@[j]).path by {
                if i < before.len() {
                    assert(before[i].path == self@[i].path);
                }
                if j < before.len() {
                    assert(before[j].path == self@[j].path);
                }
            }
            assert forall|i: int, k: int|
                0 <= i < self@.len() && 0 <= k < self@[i].children.len() implies i < (
            #[trigger] self@[i].children[k]) < self@.len() by {
                if i < before.len() && k < before[i].children.len() {
                    assert(before[i].children[k] == self@[i].children[k]);
                }
            }
            assert forall|i: int| 0 <= i < self.nodes.len() implies self.index@.contains_key(
                (#[trigger] self.nodes[i]).path@,
            ) && self.index@[self.nodes[i].path@] == i by {
                if i < before.len() {
                    assert(before[i].path == self.nodes[i].path@);
                }
            }
        }
        id
    }

    /// Counts one more entry in the directory at `id`.
    pub(crate) fn count_file(&mut self, id: usize)
        requires
            old(self).wf(),
            id < old(self)@.len(),
            old(self)@[id as int].count < usize::MAX,
        ensures
            final(self).wf(),
            final(self)@ == with_file(old(self)@, id as int),
    {
        let ghost before = self@;
        self.nodes[id].count = self.nodes[id].count + 1;
        proof {
            assert(self@ =~= with_file(before, id as int));
            Self::lemma_same_shape(before, self@);
            assert forall|i: int| 0 <= i < self.nodes.len() implies self.index@.contains_key(
                (#[trigger] self.nodes[i]).path@,
            ) && self.index@[self.nodes[i].path@] == i by {
                assert(before[i].path == self.nodes[i].path@);
            }
        }
    }

    /// Finalizes the directory at `id` with `count` as its total.
    pub(crate) fn settle(&mut self, id: usize, count: usize)
        requires
            old(self).wf(),
            id < old(self)@.len(),
        ensures
            final(self).wf(),
            final(self)@ == with_total(old(self)@, id as int, count as nat),
    {
        let ghost before = self@;
        self.nodes[id].count = count;
        self.nodes[id].finalized = true;
        proof {
            assert(self@ =~= with_total(before, id as int, count as nat));
            Self::lemma_same_shape(before, self@);
            assert forall|i: int| 0 <= i < self.nodes.len() implies self.index@.contains_key(
                (#[trigger] self.nodes[i]).path@,
            ) && self.index@[self.nodes[i].path@] == i by {
                assert(before[i].path == self.nodes[i].path@);
            }
        }
    }

    /// A map stays well formed while paths and children stay as they are.
    proof fn lemma_same_shape(before: Seq<NodeView>, after: Seq<NodeView>)
        requires
            well_formed(before),
            after.len() == before.len(),
            forall|i: int|
                0 <= i < before.len() ==> (#[trigger] after[i]).path == before[i].path
                    && after[i].children == before[i].children,
        ensures
            well_formed(after),
    {
        assert forall|i: int, j: int|
            0 <= i < after.len() && 0 <= j < after.len() && i != j implies (
        #[trigger] after[i]).path != (#[trigger] after[j]).path by {
            assert(before[i].path != before[j].path);
        }
        assert forall|i: int, k: int|
            0 <= i < after.len() && 0 <= k < after[i].children.len() implies i < (
        #[trigger] after[i].children[k]) < after.len() by {
            assert(before[i].children[k] == after[i].children[k]);
        }
    }
}

} // verus!
