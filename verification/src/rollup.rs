//! The rollup: the total of a directory's subtree, summed bottom-up and kept
//! in the node once it is known.

use vstd::prelude::*;
use crate::node_map::{has_path, index_of, well_formed, with_total, NodeMap, NodeView};

verus! {

/// The total of the subtree of the node at `i`: what the node holds where it
/// is finalized, else its own count with the totals of its children.
pub open spec fn total(nodes: Seq<NodeView>, i: int) -> nat
    decreases nodes.len() - i, 1int, 0int,
{
    if 0 <= i < nodes.len() {
        if nodes[i].finalized {
            nodes[i].count
        } else {
            nodes[i].count + children_total(nodes, i, nodes[i].children.len() as int)
        }
    } else {
        0
    }
}

/// The totals of the first `k` children of the node at `i`, added.
pub open spec fn children_total(nodes: Seq<NodeView>, i: int, k: int) -> nat
    decreases nodes.len() - i, 0int, k,
{
    if 0 <= i < nodes.len() && 0 < k <= nodes[i].children.len() {
        let c = nodes[i].children[k - 1];
        children_total(nodes, i, k - 1) + if i < c < nodes.len() {
            total(nodes, c)
        } else {
            0
        }
    } else {
        0
    }
}

/// The node at `j` is the node at `i` or lies beneath it, and neither it nor
/// any node between the two is finalized: a rollup of `i` reaches `j`.
pub open spec fn pending_below(nodes: Seq<NodeView>, i: int, j: int) -> bool
    decreases nodes.len() - i, 1int, 0int,
{
    if 0 <= i < nodes.len() && !nodes[i].finalized {
        i == j || pending_among(nodes, i, nodes[i].children.len() as int, j)
    } else {
        false
    }
}

/// A rollup of one of the first `k` children of the node at `i` reaches `j`.
pub open spec fn pending_among(nodes: Seq<NodeView>, i: int, k: int, j: int) -> bool
    decreases nodes.len() - i, 0int, k,
{
    if 0 <= i < nodes.len() && 0 < k <= nodes[i].children.len() {
        let c = nodes[i].children[k - 1];
        pending_among(nodes, i, k - 1, j) || if i < c < nodes.len() {
            pending_below(nodes, c, j)
        } else {
            false
        }
    } else {
        false
    }
}

/// The node at `j`, finalized with the total of its subtree.
pub open spec fn settled(nodes: Seq<NodeView>, j: int) -> NodeView {
    NodeView { count: total(nodes, j), finalized: true, ..nodes[j] }
}

/// The map after a rollup of the node at `i`: every node that the rollup
/// reaches is finalized with its total, and the others are as they were.
pub open spec fn rolled(nodes: Seq<NodeView>, i: int) -> Seq<NodeView> {
    Seq::new(
        nodes.len(),
        |j: int|
            if pending_below(nodes, i, j) {
                settled(nodes, j)
            } else {
                nodes[j]
            },
    )
}

/// The map after a rollup of the first `k` children of the node at `i`.
pub open spec fn rolled_among(nodes: Seq<NodeView>, i: int, k: int) -> Seq<NodeView> {
    Seq::new(
        nodes.len(),
        |j: int|
            if pending_among(nodes, i, k, j) {
                settled(nodes, j)
            } else {
                nodes[j]
            },
    )
}

/// Each node of `after` is the node of `before` at its place, as it was or
/// finalized with its total.
pub open spec fn refines(before: Seq<NodeView>, after: Seq<NodeView>) -> bool {
    &&& after.len() == before.len()
    &&& forall|j: int|
        0 <= j < before.len() ==> (#[trigger] after[j]) == before[j] || (!before[j].finalized
            && after[j] == settled(before, j))
}

/// The counts of the first `k` children of the node at `i`, added.
pub open spec fn children_count(nodes: Seq<NodeView>, i: int, k: int) -> nat
    decreases k,
{
    if 0 <= i < nodes.len() && 0 < k <= nodes[i].children.len() {
        let c = nodes[i].children[k - 1];
        children_count(nodes, i, k - 1) + if 0 <= c < nodes.len() {
            nodes[c].count
        } else {
            0
        }
    } else {
        0
    }
}

/// What a rollup reaches is a node of the map that is not finalized.
pub proof fn lemma_pending_below_is_pending(nodes: Seq<NodeView>, i: int, j: int)
    requires
        pending_below(nodes, i, j),
    ensures
        0 <= i <= j < nodes.len(),
        !nodes[j].finalized,
    decreases nodes.len() - i, 1int, 0int,
{
    if i != j {
        lemma_pending_among_is_pending(nodes, i, nodes[i].children.len() as int, j);
    }
}

/// What a rollup of a child reaches stands after the parent and is not finalized.
proof fn lemma_pending_among_is_pending(nodes: Seq<NodeView>, i: int, k: int, j: int)
    requires
        pending_among(nodes, i, k, j),
    ensures
        0 <= i < j < nodes.len(),
        !nodes[j].finalized,
    decreases nodes.len() - i, 0int, k,
{
    if pending_among(nodes, i, k - 1, j) {
        lemma_pending_among_is_pending(nodes, i, k - 1, j);
    } else {
        lemma_pending_below_is_pending(nodes, nodes[i].children[k - 1], j);
    }
}

/// What is reached from a node that a rollup reaches, the rollup reaches.
proof fn lemma_pending_below_trans(nodes: Seq<NodeView>, a: int, x: int, j: int)
    requires
        pending_below(nodes, a, x),
        pending_below(nodes, x, j),
    ensures
        pending_below(nodes, a, j),
    decreases nodes.len() - a, 1int, 0int,
{
    if a != x && a != j {
        lemma_pending_among_trans(nodes, a, nodes[a].children.len() as int, x, j);
    }
}

/// The same for a rollup of the first `k` children.
proof fn lemma_pending_among_trans(nodes: Seq<NodeView>, i: int, k: int, x: int, j: int)
    requires
        pending_among(nodes, i, k, x),
        pending_below(nodes, x, j),
    ensures
        pending_among(nodes, i, k, j),
    decreases nodes.len() - i, 0int, k,
{
    if pending_among(nodes, i, k - 1, x) {
        lemma_pending_among_trans(nodes, i, k - 1, x, j);
    } else {
        lemma_pending_below_trans(nodes, nodes[i].children[k - 1], x, j);
    }
}

/// What the first `k` children reach, the first `m` reach, for `m` not less.
proof fn lemma_pending_among_grows(nodes: Seq<NodeView>, i: int, k: int, m: int, j: int)
    requires
        pending_among(nodes, i, k, j),
        k <= m <= nodes[i].children.len(),
    ensures
        pending_among(nodes, i, m, j),
    decreases m - k,
{
    if k < m {
        lemma_pending_among_grows(nodes, i, k, m - 1, j);
    }
}

/// The totals of more children come to no less.
proof fn lemma_children_total_grows(nodes: Seq<NodeView>, i: int, k: int, m: int)
    requires
        0 <= k <= m <= nodes[i].children.len(),
    ensures
        children_total(nodes, i, k) <= children_total(nodes, i, m),
    decreases m - k,
{
    if k < m {
        lemma_children_total_grows(nodes, i, k, m - 1);
    }
}

/// Finalizing nodes with their totals changes no total.
proof fn lemma_refines_total(before: Seq<NodeView>, after: Seq<NodeView>, i: int)
    requires
        refines(before, after),
    ensures
        total(after, i) == total(before, i),
    decreases before.len() - i, 1int, 0int,
{
    if 0 <= i < before.len() {
        if after[i] == before[i] {
            if !before[i].finalized {
                lemma_refines_children_total(
                    before,
                    after,
                    i,
                    before[i].children.len() as int,
                );
            }
        }
    }
}

/// The same for the totals of the first `k` children.
proof fn lemma_refines_children_total(
    before: Seq<NodeView>,
    after: Seq<NodeView>,
    i: int,
    k: int,
)
    requires
        refines(before, after),
        0 <= i < before.len(),
    ensures
        children_total(after, i, k) == children_total(before, i, k),
    decreases before.len() - i, 0int, k,
{
    assert(after[i].children == before[i].children);
    if 0 < k <= before[i].children.len() {
        lemma_refines_children_total(before, after, i, k - 1);
        let c = before[i].children[k - 1];
        if i < c < before.len() {
            lemma_refines_total(before, after, c);
        }
    }
}

/// A rollup of children only finalizes nodes with their totals.
proof fn lemma_rolled_among_refines(nodes: Seq<NodeView>, i: int, k: int)
    ensures
        refines(nodes, rolled_among(nodes, i, k)),
{
    let after = rolled_among(nodes, i, k);
    assert forall|j: int| 0 <= j < nodes.len() implies (#[trigger] after[j]) == nodes[j] || (
    !nodes[j].finalized && after[j] == settled(nodes, j)) by {
        if pending_among(nodes, i, k, j) {
            lemma_pending_among_is_pending(nodes, i, k, j);
        }
    }
}

/// A rollup only finalizes nodes with their totals.
proof fn lemma_rolled_refines(nodes: Seq<NodeView>, i: int)
    ensures
        refines(nodes, rolled(nodes, i)),
{
    let after = rolled(nodes, i);
    assert forall|j: int| 0 <= j < nodes.len() implies (#[trigger] after[j]) == nodes[j] || (
    !nodes[j].finalized && after[j] == settled(nodes, j)) by {
        if pending_below(nodes, i, j) {
            lemma_pending_below_is_pending(nodes, i, j);
        }
    }
}

/// What a rollup reaches in a map where some nodes have been finalized since,
/// it reached before.
proof fn lemma_pending_below_before(
    before: Seq<NodeView>,
    after: Seq<NodeView>,
    x: int,
    j: int,
)
    requires
        refines(before, after),
        pending_below(after, x, j),
    ensures
        pending_below(before, x, j),
    decreases before.len() - x, 1int, 0int,
{
    assert(after[x] == before[x] || after[x] == settled(before, x));
    if x != j {
        lemma_pending_among_before(before, after, x, before[x].children.len() as int, j);
    }
}

/// The same for a rollup of the first `m` children.
proof fn lemma_pending_among_before(
    before: Seq<NodeView>,
    after: Seq<NodeView>,
    x: int,
    m: int,
    j: int,
)
    requires
        refines(before, after),
        pending_among(after, x, m, j),
    ensures
        pending_among(before, x, m, j),
    decreases before.len() - x, 0int, m,
{
    assert(after[x] == before[x] || after[x] == settled(before, x));
    if pending_among(after, x, m - 1, j) {
        lemma_pending_among_before(before, after, x, m - 1, j);
    } else {
        lemma_pending_below_before(before, after, before[x].children[m - 1], j);
    }
}

/// What a rollup reaches, and the rollup of earlier children did not, it
/// still reaches after them.
proof fn lemma_pending_below_after(nodes: Seq<NodeView>, i: int, k: int, x: int, j: int)
    requires
        pending_below(nodes, x, j),
        !pending_among(nodes, i, k, j),
    ensures
        pending_below(rolled_among(nodes, i, k), x, j),
    decreases nodes.len() - x, 1int, 0int,
{
    let after = rolled_among(nodes, i, k);
    if pending_among(nodes, i, k, x) {
        lemma_pending_among_trans(nodes, i, k, x, j);
    }
    assert(after[x] == nodes[x]);
    if x != j {
        lemma_pending_among_after(nodes, i, k, x, nodes[x].children.len() as int, j);
    }
}

/// The same for a rollup of the first `m` children.
proof fn lemma_pending_among_after(
    nodes: Seq<NodeView>,
    i: int,
    k: int,
    x: int,
    m: int,
    j: int,
)
    requires
        0 <= x < nodes.len(),
        !pending_among(nodes, i, k, x),
        pending_among(nodes, x, m, j),
        !pending_among(nodes, i, k, j),
    ensures
        pending_among(rolled_among(nodes, i, k), x, m, j),
    decreases nodes.len() - x, 0int, m,
{
    let after = rolled_among(nodes, i, k);
    assert(after[x] == nodes[x]);
    if pending_among(nodes, x, m - 1, j) {
        lemma_pending_among_after(nodes, i, k, x, m - 1, j);
    } else {
        lemma_pending_below_after(nodes, i, k, nodes[x].children[m - 1], j);
    }
}

/// Rolling up the next child after the first `k` gives the map with the
/// first `k + 1` children rolled up.
proof fn lemma_roll_next_child(nodes: Seq<NodeView>, i: int, k: int)
    requires
        0 <= i < nodes.len(),
        0 <= k < nodes[i].children.len(),
        i < nodes[i].children[k] < nodes.len(),
    ensures
        rolled(rolled_among(nodes, i, k), nodes[i].children[k]) == rolled_among(
            nodes,
            i,
            k + 1,
        ),
{
    let cur = rolled_among(nodes, i, k);
    let c = nodes[i].children[k];
    let left = rolled(cur, c);
    let right = rolled_among(nodes, i, k + 1);
    lemma_rolled_among_refines(nodes, i, k);
    assert forall|j: int| 0 <= j < nodes.len() implies left[j] == right[j] by {
        lemma_refines_total(nodes, cur, j);
        if pending_among(nodes, i, k, j) {
            lemma_pending_among_is_pending(nodes, i, k, j);
            if pending_below(cur, c, j) {
                lemma_pending_below_is_pending(cur, c, j);
            }
        } else if pending_below(nodes, c, j) {
            lemma_pending_below_after(nodes, i, k, c, j);
        } else if pending_below(cur, c, j) {
            lemma_pending_below_before(nodes, cur, c, j);
        }
    }
    assert(left =~= right);
}

/// With every child rolled up, finalizing the node itself completes its
/// rollup.
proof fn lemma_roll_node(nodes: Seq<NodeView>, i: int)
    requires
        0 <= i < nodes.len(),
        !nodes[i].finalized,
    ensures
        with_total(
            rolled_among(nodes, i, nodes[i].children.len() as int),
            i,
            total(nodes, i),
        ) == rolled(nodes, i),
{
    let n = nodes[i].children.len() as int;
    let cur = rolled_among(nodes, i, n);
    if pending_among(nodes, i, n, i) {
        lemma_pending_among_is_pending(nodes, i, n, i);
    }
    assert(with_total(cur, i, total(nodes, i)) =~= rolled(nodes, i));
}

/// A rollup of a finalized node changes nothing.
proof fn lemma_roll_finalized(nodes: Seq<NodeView>, i: int)
    requires
        0 <= i < nodes.len(),
        nodes[i].finalized,
    ensures
        rolled(nodes, i) == nodes,
{
    assert(rolled(nodes, i) =~= nodes);
}

/// A rollup leaves the directory finalized and no total changed, so a second
/// rollup of the same directory gives what the first gave and changes
/// nothing. A rollup of a finalized directory gives its count and changes
/// nothing.
pub proof fn lemma_rollup_is_idempotent(nodes: Seq<NodeView>, i: int)
    requires
        well_formed(nodes),
        0 <= i < nodes.len(),
    ensures
        rolled(nodes, i)[i].finalized,
        rolled(nodes, i)[i].count == total(nodes, i),
        total(rolled(nodes, i), i) == total(nodes, i),
        rolled(rolled(nodes, i), i) == rolled(nodes, i),
        nodes[i].finalized ==> rolled(nodes, i) == nodes && total(nodes, i) == nodes[i].count,
{
    let once = rolled(nodes, i);
    lemma_rolled_refines(nodes, i);
    lemma_refines_total(nodes, once, i);
    lemma_roll_finalized(once, i);
    if nodes[i].finalized {
        lemma_roll_finalized(nodes, i);
    }
}

/// Once finalized, a directory is never touched again: a rollup leaves it as
/// it is, whatever it is a rollup of. And no rollup takes a finalized mark
/// away.
pub proof fn lemma_finalized_is_for_good(nodes: Seq<NodeView>, i: int, j: int)
    requires
        0 <= j < nodes.len(),
    ensures
        nodes[j].finalized ==> rolled(nodes, i)[j] == nodes[j],
        rolled(nodes, i)[j].finalized == (nodes[j].finalized || pending_below(nodes, i, j)),
        rolled(nodes, i)[j].path == nodes[j].path,
        rolled(nodes, i)[j].children == nodes[j].children,
{
    if pending_below(nodes, i, j) {
        lemma_pending_below_is_pending(nodes, i, j);
    }
}

/// A rollup changes the total of no directory in the map.
pub proof fn lemma_rollup_keeps_totals(nodes: Seq<NodeView>, i: int, j: int)
    ensures
        total(rolled(nodes, i), j) == total(nodes, j),
{
    lemma_rolled_refines(nodes, i);
    lemma_refines_total(nodes, rolled(nodes, i), j);
}

/// After a rollup, the children of every node that it reached hold their totals.
proof fn lemma_children_hold_their_totals(nodes: Seq<NodeView>, start: int, i: int, k: int)
    requires
        well_formed(nodes),
        pending_below(nodes, start, i),
        0 <= k <= nodes[i].children.len(),
    ensures
        children_count(rolled(nodes, start), i, k) == children_total(nodes, i, k),
    decreases k,
{
    lemma_pending_below_is_pending(nodes, start, i);
    let after = rolled(nodes, start);
    assert(after[i].children == nodes[i].children);
    if k > 0 {
        lemma_children_hold_their_totals(nodes, start, i, k - 1);
        let c = nodes[i].children[k - 1];
        assert(i < c < nodes.len());
        if nodes[c].finalized {
            if pending_below(nodes, start, c) {
                lemma_pending_below_is_pending(nodes, start, c);
            }
        } else {
            assert(pending_below(nodes, c, c));
            assert(pending_among(nodes, i, k, c));
            lemma_pending_among_grows(nodes, i, k, nodes[i].children.len() as int, c);
            assert(pending_below(nodes, i, c));
            lemma_pending_below_trans(nodes, start, i, c);
        }
    }
}

/// After a rollup, every directory that it reached holds the count that it
/// had before, with the counts that its children hold now.
pub proof fn lemma_rollup_sums_children(nodes: Seq<NodeView>, start: int, i: int)
    requires
        well_formed(nodes),
        pending_below(nodes, start, i),
    ensures
        rolled(nodes, start)[i].finalized,
        rolled(nodes, start)[i].count == nodes[i].count + children_count(
            rolled(nodes, start),
            i,
            nodes[i].children.len() as int,
        ),
{
    lemma_pending_below_is_pending(nodes, start, i);
    lemma_children_hold_their_totals(nodes, start, i, nodes[i].children.len() as int);
}

/// What went wrong in a rollup.
#[derive(Debug, Clone, Copy, PartialEq, Eq, Structural)]
pub enum RollupError {
    /// The map holds no directory with the path asked for.
    NotFound,
    /// The total is larger than the largest number the machine holds.
    Overflow,
}

impl NodeMap {
    /// The total of the subtree at `id`, where the machine can hold it.
    fn fitting_total(&self, id: usize) -> (sum: Option<usize>)
        requires
            self.wf(),
            id < self@.len(),
        ensures
            match sum {
                Some(t) => t == total(self@, id as int),
                None => total(self@, id as int) > usize::MAX,
            },
        decreases self@.len() - id,
    {
        let node = self.node(id);
        if node.finalized {
            return Some(node.count);
        }
        let n = node.children.len();
        let mut acc: usize = node.count;
        let mut k: usize = 0;
        while k < n
            invariant
                self.wf(),
                id < self@.len(),
                node@ == self@[id as int],
                !node.finalized,
                n == node.children.len(),
                0 <= k <= n,
                acc == node.count + children_total(self@, id as int, k as int),
            decreases n - k,
        {
            let child = node.children[k];
            assert(id < self@[id as int].children[k as int] < self@.len());
            proof {
                lemma_children_total_grows(self@, id as int, k + 1, n as int);
            }
            match self.fitting_total(child) {
                None => {
                    return None;
                },
                Some(t) => {
                    match acc.checked_add(t) {
                        None => {
                            return None;
                        },
                        Some(a) => {
                            acc = a;
                        },
                    }
                },
            }
            k = k + 1;
        }
        Some(acc)
    }

    /// Rolls up the subtree at `id`.
    fn roll_up(&mut self, id: usize) -> (sum: usize)
        requires
            old(self).wf(),
            id < old(self)@.len(),
            total(old(self)@, id as int) <= usize::MAX,
        ensures
            final(self).wf(),
            sum == total(old(self)@, id as int),
            final(self)@ == rolled(old(self)@, id as int),
        decreases old(self)@.len() - id,
    {
        let ghost before = self@;
        if self.node(id).finalized {
            proof {
                lemma_roll_finalized(before, id as int);
            }
            return self.node(id).count;
        }
        let n = self.node(id).children.len();
        let mut acc: usize = self.node(id).count;
        let mut k: usize = 0;
        assert(self@ =~= rolled_among(before, id as int, 0));
        while k < n
            invariant
                before == old(self)@,
                well_formed(before),
                id < before.len(),
                !before[id as int].finalized,
                total(before, id as int) <= usize::MAX,
                n == before[id as int].children.len(),
                0 <= k <= n,
                self.wf(),
                self@ == rolled_among(before, id as int, k as int),
                acc == before[id as int].count + children_total(before, id as int, k as int),
            decreases n - k,
        {
            proof {
                lemma_rolled_among_refines(before, id as int, k as int);
                if pending_among(before, id as int, k as int, id as int) {
                    lemma_pending_among_is_pending(before, id as int, k as int, id as int);
                }
                assert(self@[id as int] == before[id as int]);
                assert(id < before[id as int].children[k as int] < before.len());
                lemma_refines_total(before, self@, before[id as int].children[k as int]);
                lemma_children_total_grows(before, id as int, k + 1, n as int);
                lemma_roll_next_child(before, id as int, k as int);
            }
            let child = self.node(id).children[k];
            let t = self.roll_up(child);
            acc = acc + t;
            k = k + 1;
        }
        proof {
            lemma_roll_node(before, id as int);
        }
        self.settle(id, acc);
        acc
    }

    /// Gives the total of the subtree of the directory at `path`, and leaves
    /// it in the map.
    ///
    /// A finalized directory gives its count, and the map stays as it is.
    /// Otherwise each child is rolled up in turn, the directory takes its own
    /// count with the totals of its children as its count, and is finalized;
    /// so is every directory beneath it that was reached. Where the path is
    /// not in the map, or the total does not fit the machine's numbers, the
    /// map stays as it is.
    pub fn update_node(&mut self, path: &str) -> (result: Result<usize, RollupError>)
        requires
            old(self).wf(),
        ensures
            final(self).wf(),
            match result {
                Ok(sum) => {
                    &&& has_path(old(self)@, path@)
                    &&& sum == total(old(self)@, index_of(old(self)@, path@))
                    &&& final(self)@ == rolled(old(self)@, index_of(old(self)@, path@))
                },
                Err(RollupError::NotFound) => {
                    &&& !has_path(old(self)@, path@)
                    &&& final(self)@ == old(self)@
                },
                Err(RollupError::Overflow) => {
                    &&& has_path(old(self)@, path@)
                    &&& total(old(self)@, index_of(old(self)@, path@)) > usize::MAX
                    &&& final(self)@ == old(self)@
                },
            },
    {
        match self.lookup(path) {
            None => Err(RollupError::NotFound),
            Some(id) => {
                match self.fitting_total(id) {
                    None => Err(RollupError::Overflow),
                    Some(_) => Ok(self.roll_up(id)),
                }
            },
        }
    }
}

} // verus!
