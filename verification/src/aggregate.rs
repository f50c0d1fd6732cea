//! The aggregator: the counts of the deferred subtrees, folded into the map.
//!
//! The subtrees are counted apart, in any order and all at once if the
//! caller likes; what each count came to is handed over here, and applied
//! one after the other by the one owner of the map.

use vstd::prelude::*;
use crate::node_map::{has_path, index_of, well_formed, with_total, NodeMap, NodeView};
use crate::subtree::SubtreeError;

verus! {

/// What the subtree count of one deferred directory came to.
#[derive(Debug, PartialEq, Eq)]
pub struct DeferredCount {
    /// The path of the directory.
    pub path: String,
    /// The number of entries beneath it, or the failure that ended the
    /// count.
    pub count: Result<usize, SubtreeError>,
}

/// Why a deferred count could not be applied.
#[derive(Debug, Clone, Copy, PartialEq, Eq, Structural)]
pub enum AggregateFailure {
    /// The count of the subtree failed.
    CountFailed,
    /// The map holds no directory with that path.
    NotFound,
    /// The directory's total is larger than the largest number the machine
    /// holds.
    Overflow,
}

/// A deferred count that could not be applied.
#[derive(Debug, Clone, PartialEq, Eq)]
pub struct AggregateError {
    /// Why it could not be applied.
    pub kind: AggregateFailure,
    /// The path of the directory.
    pub directory: String,
    /// The failure of the subtree count, where that is the reason.
    pub cause: Option<SubtreeError>,
}

/// The map with the subtree of the directory at `path` counted: the
/// directory holds what it held, which is itself, and `amount` for what lies
/// beneath it, and is finalized.
pub open spec fn with_subtree_count(nodes: Seq<NodeView>, path: Seq<char>, amount: nat) -> Result<
    Seq<NodeView>,
    AggregateFailure,
> {
    if !has_path(nodes, path) {
        Err(AggregateFailure::NotFound)
    } else {
        let i = index_of(nodes, path);
        if nodes[i].count + amount > usize::MAX {
            Err(AggregateFailure::Overflow)
        } else {
            Ok(with_total(nodes, i, nodes[i].count + amount))
        }
    }
}

/// What one deferred count makes of the map.
pub open spec fn apply(nodes: Seq<NodeView>, result: DeferredCount) -> Result<
    Seq<NodeView>,
    AggregateFailure,
> {
    match result.count {
        Err(_) => Err(AggregateFailure::CountFailed),
        Ok(amount) => with_subtree_count(nodes, result.path@, amount as nat),
    }
}

/// What a sequence of deferred counts makes of the map: each in turn, until
/// one cannot be applied.
pub open spec fn apply_all(nodes: Seq<NodeView>, results: Seq<DeferredCount>) -> Result<
    Seq<NodeView>,
    AggregateFailure,
>
    decreases results.len(),
{
    if results.len() == 0 {
        Ok(nodes)
    } else {
        match apply_all(nodes, results.drop_last()) {
            Ok(mid) => apply(mid, results.last()),
            Err(e) => Err(e),
        }
    }
}

/// The counts up to `k` were all applied, and the count at `k` cannot be
/// applied to what they made, for the reason `kind`.
pub open spec fn stuck_at(
    nodes: Seq<NodeView>,
    results: Seq<DeferredCount>,
    k: int,
    kind: AggregateFailure,
) -> bool {
    &&& 0 <= k < results.len()
    &&& apply_all(nodes, results.take(k)) matches Ok(mid)
    &&& apply(mid, results[k]) == Err::<Seq<NodeView>, AggregateFailure>(kind)
}

/// Once a count cannot be applied, no longer run of the counts comes out.
proof fn lemma_stuck_later(
    nodes: Seq<NodeView>,
    results: Seq<DeferredCount>,
    k: int,
    kind: AggregateFailure,
    n: int,
)
    requires
        stuck_at(nodes, results, k, kind),
        k < n <= results.len(),
    ensures
        apply_all(nodes, results.take(n)) == Err::<Seq<NodeView>, AggregateFailure>(kind),
    decreases n - k,
{
    assert(results.take(n).drop_last() =~= results.take(n - 1));
    assert(results.take(n).last() == results[n - 1]);
    if n - 1 > k {
        lemma_stuck_later(nodes, results, k, kind, n - 1);
    }
}

/// Finalizing a node changes no path, so every path is found where it was.
proof fn lemma_with_total_keeps_paths(nodes: Seq<NodeView>, i: int, count: nat, path: Seq<char>)
    requires
        well_formed(nodes),
        0 <= i < nodes.len(),
    ensures
        has_path(with_total(nodes, i, count), path) == has_path(nodes, path),
        has_path(nodes, path) ==> index_of(with_total(nodes, i, count), path) == index_of(
            nodes,
            path,
        ),
        well_formed(with_total(nodes, i, count)),
{
    let after = with_total(nodes, i, count);
    assert forall|j: int| 0 <= j < nodes.len() implies (#[trigger] after[j]).path
        == nodes[j].path && after[j].children == nodes[j].children by {}
    assert forall|a: int, b: int|
        0 <= a < after.len() && 0 <= b < after.len() && a != b implies (#[trigger] after[a]).path
        != (#[trigger] after[b]).path by {
        assert(nodes[a].path != nodes[b].path);
    }
    assert forall|a: int, k: int|
        0 <= a < after.len() && 0 <= k < after[a].children.len() implies a < (
    #[trigger] after[a].children[k]) < after.len() by {
        assert(nodes[a].children[k] == after[a].children[k]);
    }
    if has_path(nodes, path) {
        let j = index_of(nodes, path);
        assert(after[j].path == path);
        let j2 = index_of(after, path);
        assert(nodes[j2].path == path);
    }
    if has_path(after, path) {
        let j = index_of(after, path);
        assert(nodes[j].path == path);
    }
}

/// The counts of two different directories can be applied in either order:
/// the map comes out the same.
pub proof fn lemma_order_does_not_matter(
    nodes: Seq<NodeView>,
    first: DeferredCount,
    second: DeferredCount,
)
    requires
        well_formed(nodes),
        first.path@ != second.path@,
        apply(nodes, first) matches Ok(one) && apply(one, second) is Ok,
    ensures
        apply(nodes, second) matches Ok(other) && apply(other, first) == apply(
            apply(nodes, first)->Ok_0,
            second,
        ),
{
    let a = index_of(nodes, first.path@);
    let one = apply(nodes, first)->Ok_0;
    lemma_with_total_keeps_paths(
        nodes,
        a,
        (nodes[a].count + first.count->Ok_0) as nat,
        second.path@,
    );
    let b = index_of(nodes, second.path@);
    assert(nodes[a].path == first.path@);
    assert(nodes[b].path == second.path@);
    assert(a != b);
    let other = apply(nodes, second)->Ok_0;
    lemma_with_total_keeps_paths(
        nodes,
        b,
        (nodes[b].count + second.count->Ok_0) as nat,
        first.path@,
    );
    assert(apply(other, first)->Ok_0 =~= apply(one, second)->Ok_0);
}

impl NodeMap {
    /// Finalizes the directory at `path` with the number of entries beneath
    /// it: that number is added to the one that the directory holds for
    /// itself. Where the map holds no such directory, or the sum does not
    /// fit the machine's numbers, the map stays as it is.
    pub fn add_subtree_count(&mut self, path: &str, amount: usize) -> (result: Result<
        (),
        AggregateFailure,
    >)
        requires
            old(self).wf(),
        ensures
            final(self).wf(),
            match with_subtree_count(old(self)@, path@, amount as nat) {
                Ok(nodes) => result is Ok && final(self)@ == nodes,
                Err(kind) => result == Err::<(), AggregateFailure>(kind) && final(self)@ == old(
                    self,
                )@,
            },
    {
        match self.lookup(path) {
            None => Err(AggregateFailure::NotFound),
            Some(i) => {
                match self.node(i).count.checked_add(amount) {
                    None => Err(AggregateFailure::Overflow),
                    Some(sum) => {
                        self.settle(i, sum);
                        Ok(())
                    },
                }
            },
        }
    }
}

/// Applies the deferred counts to the map, one after the other.
///
/// Each directory takes the number of entries beneath it on top of the one
/// that it holds for itself, and is finalized. The first count that cannot
/// be applied, because the count itself failed, the map holds no such
/// directory or the sum does not fit, ends the work and comes back as the
/// error; the counts before it stay applied.
pub fn apply_subtree_counts(map: &mut NodeMap, results: &Vec<DeferredCount>) -> (result: Result<
    (),
    AggregateError,
>)
    requires
        old(map).wf(),
    ensures
        final(map).wf(),
        match apply_all(old(map)@, results@) {
            Ok(nodes) => result is Ok && final(map)@ == nodes,
            Err(kind) => {
                &&& result matches Err(e)
                &&& e.kind == kind
                &&& exists|k: int|
                    {
                        &&& #[trigger] stuck_at(old(map)@, results@, k, kind)
                        &&& apply_all(old(map)@, results@.take(k)) == Ok::<
                            Seq<NodeView>,
                            AggregateFailure,
                        >(final(map)@)
                        &&& e.directory@ == results@[k].path@
                        &&& match results@[k].count {
                            Err(failure) => e.cause matches Some(c) && c.path@ == failure.path@
                                && c.cause@ == failure.cause@,
                            Ok(_) => e.cause is None,
                        }
                    }
            },
        },
{
    let ghost before = map@;
    let mut k: usize = 0;
    assert(results@.take(0) =~= Seq::<DeferredCount>::empty());
    while k < results.len()
        invariant
            0 <= k <= results.len(),
            before == old(map)@,
            map.wf(),
            apply_all(before, results@.take(k as int)) == Ok::<Seq<NodeView>, AggregateFailure>(
                map@,
            ),
        decreases results.len() - k,
    {
        proof {
            assert(results@.take(k + 1).drop_last() =~= results@.take(k as int));
            assert(results@.take(k + 1).last() == results@[k as int]);
        }
        let item = &results[k];
        let applied = match &item.count {
            Err(failure) => Err(
                AggregateError {
                    kind: AggregateFailure::CountFailed,
                    directory: item.path.clone(),
                    cause: Some(
                        SubtreeError { path: failure.path.clone(), cause: failure.cause.clone() },
                    ),
                },
            ),
            Ok(amount) => {
                match map.add_subtree_count(item.path.as_str(), *amount) {
                    Ok(()) => Ok(()),
                    Err(kind) => Err(
                        AggregateError { kind, directory: item.path.clone(), cause: None },
                    ),
                }
            },
        };
        match applied {
            Ok(()) => {},
            Err(e) => {
                proof {
                    assert(stuck_at(before, results@, k as int, e.kind));
                    lemma_stuck_later(before, results@, k as int, e.kind, results@.len() as int);
                    assert(results@.take(results@.len() as int) =~= results@);
                }
                return Err(e);
            },
        }
        k = k + 1;
    }
    assert(results@.take(k as int) =~= results@);
    Ok(())
}

} // verus!
