//! The account of the whole tree: that the root comes to one for itself and
//! one for every entry that was taken in, with what the deferred subtrees
//! were counted at.

use vstd::prelude::*;
use crate::aggregate::with_subtree_count;
use crate::event::WalkEvent;
use crate::hierarchy::{
    counted, lemma_run_counted, passed_over, run, start, step, Hierarchy, Inconsistency, Walk,
};
use crate::node_map::{
    fresh_node, has_path, index_of, well_formed, with_directory, with_file, with_total, NodeView,
};
use crate::rollup::{children_total, total};

verus! {

/// In how many ways the node at `i` hangs from the node at `x`: the number of
/// chains of children that lead from `x` down to `i` through directories
/// that are not finalized.
pub open spec fn ways(nodes: Seq<NodeView>, x: int, i: int) -> nat
    decreases nodes.len() - x, 1int, 0int,
{
    if 0 <= x < nodes.len() {
        if x == i {
            1
        } else if nodes[x].finalized {
            0
        } else {
            ways_among(nodes, x, nodes[x].children.len() as int, i)
        }
    } else {
        0
    }
}

/// In how many ways the node at `i` hangs from the first `k` children of the
/// node at `x`.
pub open spec fn ways_among(nodes: Seq<NodeView>, x: int, k: int, i: int) -> nat
    decreases nodes.len() - x, 0int, k,
{
    if 0 <= x < nodes.len() && 0 < k <= nodes[x].children.len() {
        let c = nodes[x].children[k - 1];
        ways_among(nodes, x, k - 1, i) + if x < c < nodes.len() {
            ways(nodes, c, i)
        } else {
            0
        }
    } else {
        0
    }
}

/// Every directory of the map hangs from the root in exactly one way: the
/// map is one tree.
pub open spec fn is_tree(nodes: Seq<NodeView>) -> bool {
    forall|j: int| 0 <= j < nodes.len() ==> #[trigger] ways(nodes, 0, j) == 1
}

/// `after` is `nodes` with `amount` more in the count of the node at `i`,
/// which may have been finalized on the way if it has no children.
pub open spec fn raised(nodes: Seq<NodeView>, after: Seq<NodeView>, i: int, amount: nat) -> bool {
    &&& after.len() == nodes.len()
    &&& 0 <= i < nodes.len()
    &&& forall|j: int| 0 <= j < nodes.len() && j != i ==> #[trigger] after[j] == nodes[j]
    &&& after[i].count == nodes[i].count + amount
    &&& after[i].children == nodes[i].children
    &&& (after[i].finalized == nodes[i].finalized || (after[i].finalized
        && nodes[i].children.len() == 0))
}

/// No node hangs from one that stands after it.
proof fn lemma_no_way_up(nodes: Seq<NodeView>, x: int, i: int)
    requires
        x > i,
    ensures
        ways(nodes, x, i) == 0,
    decreases nodes.len() - x, 1int, 0int,
{
    if 0 <= x < nodes.len() && !nodes[x].finalized {
        lemma_no_way_up_among(nodes, x, nodes[x].children.len() as int, i);
    }
}

/// No node hangs from the children of one that does not stand before it.
proof fn lemma_no_way_up_among(nodes: Seq<NodeView>, x: int, k: int, i: int)
    requires
        x >= i,
    ensures
        ways_among(nodes, x, k, i) == 0,
    decreases nodes.len() - x, 0int, k,
{
    if 0 <= x < nodes.len() && 0 < k <= nodes[x].children.len() {
        lemma_no_way_up_among(nodes, x, k - 1, i);
        let c = nodes[x].children[k - 1];
        if x < c < nodes.len() {
            lemma_no_way_up(nodes, c, i);
        }
    }
}

/// More in one node is as much more in every total, once for each way in which
/// the node hangs from the other.
proof fn lemma_raised_total(
    nodes: Seq<NodeView>,
    after: Seq<NodeView>,
    i: int,
    amount: nat,
    x: int,
)
    requires
        raised(nodes, after, i, amount),
    ensures
        total(after, x) == total(nodes, x) + amount * ways(nodes, x, i),
    decreases nodes.len() - x, 1int, 0int,
{
    if 0 <= x < nodes.len() {
        let n = nodes[x].children.len() as int;
        if x == i {
            lemma_raised_children_total(nodes, after, i, amount, x, n);
            lemma_no_way_up_among(nodes, x, n, i);
            assert(amount * 1 == amount);
            assert(amount * 0 == 0);
        } else {
            assert(after[x] == nodes[x]);
            if !nodes[x].finalized {
                lemma_raised_children_total(nodes, after, i, amount, x, n);
            } else {
                assert(amount * 0 == 0);
            }
        }
    } else {
        assert(amount * 0 == 0);
    }
}

/// The same for the totals of the first `k` children.
proof fn lemma_raised_children_total(
    nodes: Seq<NodeView>,
    after: Seq<NodeView>,
    i: int,
    amount: nat,
    x: int,
    k: int,
)
    requires
        raised(nodes, after, i, amount),
        0 <= x < nodes.len(),
    ensures
        children_total(after, x, k) == children_total(nodes, x, k) + amount * ways_among(
            nodes,
            x,
            k,
            i,
        ),
    decreases nodes.len() - x, 0int, k,
{
    assert(after[x].children == nodes[x].children) by {
        if x != i {
            assert(after[x] == nodes[x]);
        }
    }
    if 0 < k <= nodes[x].children.len() {
        lemma_raised_children_total(nodes, after, i, amount, x, k - 1);
        let c = nodes[x].children[k - 1];
        let w1 = ways_among(nodes, x, k - 1, i);
        if x < c < nodes.len() {
            lemma_raised_total(nodes, after, i, amount, c);
            let w2 = ways(nodes, c, i);
            assert(amount * (w1 + w2) == amount * w1 + amount * w2) by (nonlinear_arith);
        }
    } else {
        assert(amount * 0 == 0);
    }
}

/// More in one node changes no way in which a node hangs from another.
proof fn lemma_raised_ways(
    nodes: Seq<NodeView>,
    after: Seq<NodeView>,
    i: int,
    amount: nat,
    x: int,
    j: int,
)
    requires
        raised(nodes, after, i, amount),
    ensures
        ways(after, x, j) == ways(nodes, x, j),
    decreases nodes.len() - x, 1int, 0int,
{
    if 0 <= x < nodes.len() && x != j {
        if x != i {
            assert(after[x] == nodes[x]);
        }
        let n = nodes[x].children.len() as int;
        if !nodes[x].finalized {
            lemma_raised_ways_among(nodes, after, i, amount, x, n, j);
        }
    }
}

/// The same for the first `k` children.
proof fn lemma_raised_ways_among(
    nodes: Seq<NodeView>,
    after: Seq<NodeView>,
    i: int,
    amount: nat,
    x: int,
    k: int,
    j: int,
)
    requires
        raised(nodes, after, i, amount),
        0 <= x < nodes.len(),
    ensures
        ways_among(after, x, k, j) == ways_among(nodes, x, k, j),
    decreases nodes.len() - x, 0int, k,
{
    assert(after[x].children == nodes[x].children) by {
        if x != i {
            assert(after[x] == nodes[x]);
        }
    }
    if 0 < k <= nodes[x].children.len() {
        lemma_raised_ways_among(nodes, after, i, amount, x, k - 1, j);
        let c = nodes[x].children[k - 1];
        if x < c < nodes.len() {
            lemma_raised_ways(nodes, after, i, amount, c, j);
        }
    }
}

/// The node from which the node at `j` of the grown map hangs as the node at
/// `j` itself did before: the new node hangs where its parent hangs.
spec fn hangs_as(nodes: Seq<NodeView>, p: int, j: int) -> int {
    if j == nodes.len() {
        p
    } else {
        j
    }
}

/// A new directory is one more in every total, once for each way in which its
/// parent hangs from the other node.
proof fn lemma_grown_total(nodes: Seq<NodeView>, node: NodeView, p: int, x: int)
    requires
        well_formed(nodes),
        0 <= p < nodes.len(),
        !nodes[p].finalized,
        node.count == 1,
        node.children.len() == 0,
        !node.finalized,
        0 <= x < nodes.len(),
    ensures
        total(with_directory(nodes, node, Some(p)), x) == total(nodes, x) + ways(nodes, x, p),
    decreases nodes.len() - x, 1int, 0int,
{
    let after = with_directory(nodes, node, Some(p));
    let n = nodes[x].children.len() as int;
    if x == p {
        lemma_grown_children_total(nodes, node, p, x, n);
        lemma_no_way_up_among(nodes, x, n, p);
        let last = nodes.len() as int;
        assert(after[x].children.len() == n + 1);
        assert(after[x].children[n] == last);
        assert(after[last] == node);
        assert(children_total(after, last, 0) == 0);
        assert(total(after, last) == 1);
        assert(children_total(after, x, n + 1) == children_total(after, x, n) + total(
            after,
            last,
        ));
    } else {
        assert(after[x] == nodes[x]);
        if !nodes[x].finalized {
            lemma_grown_children_total(nodes, node, p, x, n);
        }
    }
}

/// The same for the totals of the first `k` children that the node had.
proof fn lemma_grown_children_total(nodes: Seq<NodeView>, node: NodeView, p: int, x: int, k: int)
    requires
        well_formed(nodes),
        0 <= p < nodes.len(),
        !nodes[p].finalized,
        node.count == 1,
        node.children.len() == 0,
        !node.finalized,
        0 <= x < nodes.len(),
        0 <= k <= nodes[x].children.len(),
    ensures
        children_total(with_directory(nodes, node, Some(p)), x, k) == children_total(nodes, x, k)
            + ways_among(nodes, x, k, p),
    decreases nodes.len() - x, 0int, k,
{
    let after = with_directory(nodes, node, Some(p));
    if k > 0 {
        lemma_grown_children_total(nodes, node, p, x, k - 1);
        let c = nodes[x].children[k - 1];
        assert(after[x].children[k - 1] == c);
        assert(x < c < nodes.len());
        lemma_grown_total(nodes, node, p, c);
    }
}

/// A new directory hangs from every node as its parent does, and the nodes that
/// were there hang as they did.
proof fn lemma_grown_ways(nodes: Seq<NodeView>, node: NodeView, p: int, x: int, j: int)
    requires
        well_formed(nodes),
        0 <= p < nodes.len(),
        !nodes[p].finalized,
        node.children.len() == 0,
        !node.finalized,
        0 <= x < nodes.len(),
        0 <= j <= nodes.len(),
    ensures
        ways(with_directory(nodes, node, Some(p)), x, j) == ways(nodes, x, hangs_as(nodes, p, j)),
    decreases nodes.len() - x, 1int, 0int,
{
    let after = with_directory(nodes, node, Some(p));
    let n = nodes[x].children.len() as int;
    let last = nodes.len() as int;
    let t = hangs_as(nodes, p, j);
    if x == j {
    } else if x == p {
        lemma_grown_ways_among(nodes, node, p, x, n, j);
        assert(after[x].children.len() == n + 1);
        assert(after[x].children[n] == last);
        assert(after[last] == node);
        assert(ways_among(after, last, 0, j) == 0);
        assert(ways_among(after, x, n + 1, j) == ways_among(after, x, n, j) + ways(
            after,
            last,
            j,
        ));
        if j == last {
            lemma_no_way_up_among(nodes, x, n, p);
        }
    } else {
        assert(after[x] == nodes[x]);
        if !nodes[x].finalized {
            lemma_grown_ways_among(nodes, node, p, x, n, j);
        }
    }
}

/// The same for the first `k` children that the node had.
proof fn lemma_grown_ways_among(
    nodes: Seq<NodeView>,
    node: NodeView,
    p: int,
    x: int,
    k: int,
    j: int,
)
    requires
        well_formed(nodes),
        0 <= p < nodes.len(),
        !nodes[p].finalized,
        node.children.len() == 0,
        !node.finalized,
        0 <= x < nodes.len(),
        0 <= k <= nodes[x].children.len(),
        0 <= j <= nodes.len(),
    ensures
        ways_among(with_directory(nodes, node, Some(p)), x, k, j) == ways_among(
            nodes,
            x,
            k,
            hangs_as(nodes, p, j),
        ),
    decreases nodes.len() - x, 0int, k,
{
    let after = with_directory(nodes, node, Some(p));
    if k > 0 {
        lemma_grown_ways_among(nodes, node, p, x, k - 1, j);
        let c = nodes[x].children[k - 1];
        assert(after[x].children[k - 1] == c);
        assert(x < c < nodes.len());
        lemma_grown_ways(nodes, node, p, c, j);
    }
}

/// The event is taken in: it is not passed over.
pub open spec fn is_taken(walk: Walk, event: WalkEvent) -> bool {
    !passed_over(walk, event)
}

/// How many of the events are taken in.
pub open spec fn taken(walk: Walk, events: Seq<WalkEvent>) -> nat
    decreases events.len(),
{
    if events.len() == 0 {
        0
    } else {
        taken(walk, events.drop_last()) + if is_taken(walk, events.last()) {
            1nat
        } else {
            0nat
        }
    }
}

/// How many of the events are entries with a hidden name, the root itself
/// apart.
pub open spec fn hidden_taken(root: Seq<char>, events: Seq<WalkEvent>) -> nat
    decreases events.len(),
{
    if events.len() == 0 {
        0
    } else {
        hidden_taken(root, events.drop_last()) + match events.last() {
            WalkEvent::Entry(e) if !e.visible(false) && e.path@ != root => 1nat,
            _ => 0nat,
        }
    }
}

/// The event is no directory that is taken in without a parent.
pub open spec fn names_its_parent(walk: Walk, event: WalkEvent) -> bool {
    match event {
        WalkEvent::Entry(e) => is_taken(walk, event) && e.is_dir ==> e.parent is Some,
        WalkEvent::Failure(_) => true,
    }
}

/// Every directory that is taken in names the directory that holds it.
pub open spec fn attached(walk: Walk, events: Seq<WalkEvent>) -> bool {
    forall|k: int| 0 <= k < events.len() ==> names_its_parent(walk, #[trigger] events[k])
}

/// One event keeps the map one tree and the root in step with the number of
/// entries taken in.
proof fn lemma_step_keeps_account(
    walk: Walk,
    events: Seq<WalkEvent>,
    mid: Hierarchy,
    event: WalkEvent,
    h: Hierarchy,
)
    requires
        counted(walk, events, mid),
        is_tree(mid.nodes),
        total(mid.nodes, 0) == 1 + taken(walk, events),
        step(walk, mid, event) == Ok::<Hierarchy, Inconsistency>(h),
        names_its_parent(walk, event),
    ensures
        is_tree(h.nodes),
        total(h.nodes, 0) == 1 + taken(walk, events.push(event)),
{
    let after = events.push(event);
    assert(after.drop_last() =~= events);
    assert(after.last() == event);
    if is_taken(walk, event) {
        let e = event->Entry_0;
        if e.is_dir {
            let p = index_of(mid.nodes, e.parent->0@);
            assert(has_path(mid.nodes, e.parent->0@));
            let node = fresh_node(e.path@, crate::event::opt_view(e.name));
            assert(node.children.len() == 0);
            assert(!mid.nodes[p].finalized);
            assert(ways(mid.nodes, 0, p) == 1);
            lemma_grown_total(mid.nodes, node, p, 0);
            assert forall|j: int| 0 <= j < h.nodes.len() implies #[trigger] ways(h.nodes, 0, j)
                == 1 by {
                lemma_grown_ways(mid.nodes, node, p, 0, j);
                assert(ways(mid.nodes, 0, hangs_as(mid.nodes, p, j)) == 1);
            }
        } else {
            let at = index_of(mid.nodes, e.parent->0@);
            assert(raised(mid.nodes, h.nodes, at, 1));
            assert(ways(mid.nodes, 0, at) == 1);
            lemma_raised_total(mid.nodes, h.nodes, at, 1, 0);
            assert forall|j: int| 0 <= j < h.nodes.len() implies #[trigger] ways(h.nodes, 0, j)
                == 1 by {
                lemma_raised_ways(mid.nodes, h.nodes, at, 1, 0, j);
                assert(ways(mid.nodes, 0, j) == 1);
            }
        }
    }
}

/// Where every directory names its parent, the map that the builder makes is
/// one tree, and the root comes to one for itself and one for every entry
/// that was taken in.
pub proof fn lemma_root_counts_every_entry(
    walk: Walk,
    root_name: Option<Seq<char>>,
    events: Seq<WalkEvent>,
)
    requires
        run(walk, start(walk, root_name), events) is Ok,
        attached(walk, events),
    ensures
        is_tree(run(walk, start(walk, root_name), events)->Ok_0.nodes),
        total(run(walk, start(walk, root_name), events)->Ok_0.nodes, 0) == 1 + taken(
            walk,
            events,
        ),
    decreases events.len(),
{
    let first = start(walk, root_name);
    if events.len() == 0 {
        assert(children_total(first.nodes, 0, 0) == 0);
        assert(first.nodes[0].children.len() == 0);
        assert(total(first.nodes, 0) == 1);
        assert(ways(first.nodes, 0, 0) == 1);
    } else {
        let before = events.drop_last();
        let mid = run(walk, first, before)->Ok_0;
        let h = run(walk, first, events)->Ok_0;
        assert(attached(walk, before)) by {
            assert forall|k: int| 0 <= k < before.len() implies names_its_parent(
                walk,
                #[trigger] before[k],
            ) by {
                assert(before[k] == events[k]);
            }
        }
        lemma_root_counts_every_entry(walk, root_name, before);
        lemma_run_counted(walk, root_name, before);
        assert(events.last() == events[events.len() - 1]);
        lemma_step_keeps_account(walk, before, mid, events.last(), h);
        assert(before.push(events.last()) =~= events);
    }
}

/// Showing hidden entries raises the number of entries taken in by exactly
/// the number of entries with a hidden name.
pub proof fn lemma_hidden_taken_are_the_difference(
    root: Seq<char>,
    max_depth: nat,
    events: Seq<WalkEvent>,
)
    ensures
        taken(Walk { root, show_hidden: true, max_depth }, events) == taken(
            Walk { root, show_hidden: false, max_depth },
            events,
        ) + hidden_taken(root, events),
    decreases events.len(),
{
    if events.len() > 0 {
        lemma_hidden_taken_are_the_difference(root, max_depth, events.drop_last());
    }
}

/// Some node of the grown map has the path `q` where one had it before, or
/// it is the path of the new directory.
proof fn lemma_paths_after_directory(
    nodes: Seq<NodeView>,
    node: NodeView,
    parent: Option<int>,
    q: Seq<char>,
)
    requires
        parent matches Some(p) ==> 0 <= p < nodes.len(),
    ensures
        has_path(with_directory(nodes, node, parent), q) == (has_path(nodes, q) || q
            == node.path),
{
    let after = with_directory(nodes, node, parent);
    let n = nodes.len() as int;
    assert(after.len() == n + 1);
    assert(after[n] == node);
    assert forall|i: int| 0 <= i < n implies (#[trigger] after[i]).path == nodes[i].path by {}
    if has_path(after, q) {
        let i = index_of(after, q);
        if i < n {
            assert(nodes[i].path == q);
        }
    }
    if has_path(nodes, q) {
        let i = index_of(nodes, q);
        assert(after[i].path == q);
    }
    if q == node.path {
        assert(after[n].path == q);
    }
}

/// Counting a file changes no path.
proof fn lemma_paths_after_file(nodes: Seq<NodeView>, at: int, q: Seq<char>)
    requires
        0 <= at < nodes.len(),
    ensures
        has_path(with_file(nodes, at), q) == has_path(nodes, q),
{
    let after = with_file(nodes, at);
    assert forall|i: int| 0 <= i < nodes.len() implies (#[trigger] after[i]).path
        == nodes[i].path by {}
    if has_path(after, q) {
        let i = index_of(after, q);
        assert(nodes[i].path == q);
    }
    if has_path(nodes, q) {
        let i = index_of(nodes, q);
        assert(after[i].path == q);
    }
}

/// Event `j` is an entry with a hidden name at the path `p`.
pub open spec fn hidden_at(events: Seq<WalkEvent>, j: int, p: Seq<char>) -> bool {
    0 <= j < events.len() && (events[j] matches WalkEvent::Entry(a) && !a.visible(false)
        && a.path@ == p)
}

/// The map made with hidden entries shown holds every directory of the map
/// made without them, and besides those only directories with a hidden name.
pub open spec fn covers(shown: Hierarchy, held_back: Hierarchy, events: Seq<WalkEvent>) -> bool {
    &&& forall|p: Seq<char>| #[trigger] has_path(held_back.nodes, p) ==> has_path(shown.nodes, p)
    &&& forall|p: Seq<char>|
        #[trigger] has_path(shown.nodes, p) && !has_path(held_back.nodes, p) ==> exists|j: int|
            #[trigger] hidden_at(events, j, p)
}

/// What one event does to the paths of the map.
proof fn lemma_paths_after_step(walk: Walk, h: Hierarchy, event: WalkEvent, q: Seq<char>)
    requires
        step(walk, h, event) is Ok,
    ensures
        has_path(step(walk, h, event)->Ok_0.nodes, q) == (has_path(h.nodes, q) || (is_taken(
            walk,
            event,
        ) && event->Entry_0.is_dir && q == event->Entry_0.path@)),
{
    if is_taken(walk, event) {
        let e = event->Entry_0;
        if e.is_dir {
            let node = fresh_node(e.path@, crate::event::opt_view(e.name));
            if e.parent is Some {
                let p = index_of(h.nodes, e.parent->0@);
                assert(has_path(h.nodes, e.parent->0@));
                lemma_paths_after_directory(h.nodes, node, Some(p), q);
            } else {
                lemma_paths_after_directory(h.nodes, node, None, q);
            }
        } else {
            assert(has_path(h.nodes, e.parent->0@));
            lemma_paths_after_file(h.nodes, index_of(h.nodes, e.parent->0@), q);
        }
    }
}

/// Of a pruned walk whose events fit the map with hidden entries shown, the
/// events fit the map with hidden entries held back as well.
pub proof fn lemma_pruned_walk_fits_either_way(
    root: Seq<char>,
    max_depth: nat,
    root_name: Option<Seq<char>>,
    events: Seq<WalkEvent>,
)
    requires
        ({
            let shown = Walk { root, show_hidden: true, max_depth };
            run(shown, start(shown, root_name), events) is Ok
        }),
        crate::event::is_pruned(events, false),
    ensures
        ({
            let shown = Walk { root, show_hidden: true, max_depth };
            let held_back = Walk { root, show_hidden: false, max_depth };
            &&& run(held_back, start(held_back, root_name), events) is Ok
            &&& covers(
                run(shown, start(shown, root_name), events)->Ok_0,
                run(held_back, start(held_back, root_name), events)->Ok_0,
                events,
            )
        }),
    decreases events.len(),
{
    let shown = Walk { root, show_hidden: true, max_depth };
    let held_back = Walk { root, show_hidden: false, max_depth };
    let first = start(shown, root_name);
    assert(first == start(held_back, root_name));
    if events.len() == 0 {
    } else {
        let before = events.drop_last();
        let e = events.last();
        let n = before.len() as int;
        assert(e == events[n]);
        assert forall|j: int| 0 <= j < n implies #[trigger] before[j] == events[j] by {}
        assert(crate::event::is_pruned(before, false)) by {
            assert forall|j: int, k: int| 0 <= j < before.len() && 0 <= k < before.len() implies
                !crate::event::lies_in_held_back(
                #[trigger] before[j],
                #[trigger] before[k],
                false,
            ) by {
                assert(!crate::event::lies_in_held_back(events[j], events[k], false));
            }
        }
        lemma_pruned_walk_fits_either_way(root, max_depth, root_name, before);
        let ht = run(shown, first, before)->Ok_0;
        let hf = run(held_back, first, before)->Ok_0;
        let ht2 = run(shown, first, events)->Ok_0;
        assert(step(shown, ht, e) == Ok::<Hierarchy, Inconsistency>(ht2));
        lemma_run_counted(shown, root_name, before);
        lemma_run_counted(held_back, root_name, before);

        // the parent of an entry that is taken in is in the smaller map too
        if is_taken(held_back, e) {
            let x = e->Entry_0;
            assert(is_taken(shown, e));
            if x.parent is Some {
                let p = x.parent->0@;
                assert(has_path(ht.nodes, p));
                if !has_path(hf.nodes, p) {
                    let j = choose|j: int| #[trigger] hidden_at(before, j, p);
                    assert(hidden_at(before, j, p));
                    assert(crate::event::lies_in_held_back(events[j], events[n], false));
                }
                assert(has_path(hf.nodes, p));
                if !x.is_dir {
                    let at_f = index_of(hf.nodes, p);
                    let at_t = index_of(ht.nodes, p);
                    assert(hf.nodes[at_f].path == p);
                    assert(ht.nodes[at_t].path == p);
                    crate::hierarchy::lemma_hidden_files_are_the_difference(
                        root,
                        max_depth,
                        before,
                        p,
                    );
                }
            }
            if x.is_dir {
                assert(!has_path(ht.nodes, x.path@));
                assert(!has_path(hf.nodes, x.path@));
            }
        }
        assert(step(held_back, hf, e) is Ok);
        let hf2 = step(held_back, hf, e)->Ok_0;
        assert(run(held_back, first, events) == Ok::<Hierarchy, Inconsistency>(hf2));

        assert forall|p: Seq<char>| #[trigger] has_path(hf2.nodes, p) implies has_path(
            ht2.nodes,
            p,
        ) by {
            lemma_paths_after_step(held_back, hf, e, p);
            lemma_paths_after_step(shown, ht, e, p);
            if has_path(hf.nodes, p) {
                assert(has_path(ht.nodes, p));
            }
        }
        assert forall|p: Seq<char>| #[trigger]
            has_path(ht2.nodes, p) && !has_path(hf2.nodes, p) implies exists|j: int|
            #[trigger] hidden_at(events, j, p) by {
            lemma_paths_after_step(held_back, hf, e, p);
            lemma_paths_after_step(shown, ht, e, p);
            if has_path(ht.nodes, p) {
                assert(!has_path(hf.nodes, p));
                let j = choose|j: int| #[trigger] hidden_at(before, j, p);
                assert(hidden_at(before, j, p));
                assert(hidden_at(events, j, p));
            } else {
                assert(hidden_at(events, n, p));
            }
        }
    }
}

/// Showing hidden entries raises what the root comes to by exactly the
/// number of entries with a hidden name: of a pruned walk whose events fit
/// the map with hidden entries shown, and in which every directory names its
/// parent. A pruned walk holds nothing in its hidden directories; of a tree
/// whose hidden directories hold something, the walk that shows them is
/// another than the walk that holds them back, longer by what they hold.
pub proof fn lemma_root_differs_by_hidden_entries(
    root: Seq<char>,
    max_depth: nat,
    root_name: Option<Seq<char>>,
    events: Seq<WalkEvent>,
)
    requires
        ({
            let shown = Walk { root, show_hidden: true, max_depth };
            &&& run(shown, start(shown, root_name), events) is Ok
            &&& attached(shown, events)
        }),
        crate::event::is_pruned(events, false),
    ensures
        ({
            let shown = Walk { root, show_hidden: true, max_depth };
            let held_back = Walk { root, show_hidden: false, max_depth };
            &&& run(held_back, start(held_back, root_name), events) is Ok
            &&& total(run(shown, start(shown, root_name), events)->Ok_0.nodes, 0) == total(
                run(held_back, start(held_back, root_name), events)->Ok_0.nodes,
                0,
            ) + hidden_taken(root, events)
        }),
{
    let shown = Walk { root, show_hidden: true, max_depth };
    let held_back = Walk { root, show_hidden: false, max_depth };
    lemma_pruned_walk_fits_either_way(root, max_depth, root_name, events);
    assert(attached(held_back, events)) by {
        assert forall|k: int| 0 <= k < events.len() implies names_its_parent(
            held_back,
            #[trigger] events[k],
        ) by {
            assert(names_its_parent(shown, events[k]));
        }
    }
    lemma_root_counts_every_entry(shown, root_name, events);
    lemma_root_counts_every_entry(held_back, root_name, events);
    lemma_hidden_taken_are_the_difference(root, max_depth, events);
}

/// The count of a deferred subtree raises what the root comes to by exactly
/// that count, and leaves the map one tree: for a directory without children
/// that is not finalized yet and hangs from the root in one way.
pub proof fn lemma_deferred_count_adds_to_the_root(
    nodes: Seq<NodeView>,
    path: Seq<char>,
    amount: nat,
)
    requires
        well_formed(nodes),
        has_path(nodes, path),
        nodes[index_of(nodes, path)].children.len() == 0,
        !nodes[index_of(nodes, path)].finalized,
        ways(nodes, 0, index_of(nodes, path)) == 1,
        with_subtree_count(nodes, path, amount) is Ok,
    ensures
        total(with_subtree_count(nodes, path, amount)->Ok_0, 0) == total(nodes, 0) + amount,
        forall|j: int|
            ways(with_subtree_count(nodes, path, amount)->Ok_0, 0, j) == ways(nodes, 0, j),
{
    let i = index_of(nodes, path);
    let after = with_total(nodes, i, nodes[i].count + amount);
    assert(raised(nodes, after, i, amount));
    lemma_raised_total(nodes, after, i, amount, 0);
    assert(amount * 1 == amount);
    assert forall|j: int| ways(after, 0, j) == ways(nodes, 0, j) by {
        lemma_raised_ways(nodes, after, i, amount, 0, j);
    }
}

} // verus!
