//! The hierarchy builder: from the events of one bounded walk to the map of
//! directories, with the count of the files directly in each, and the list
//! of the directories at the depth limit, whose subtrees are counted apart.
//!
//! The walk meant is one that the walker has pruned with
//! [`is_visible`](crate::hidden::is_visible): it does not go beneath an
//! entry that the filter holds back. An entry beneath a hidden directory
//! that a walker reports all the same finds no parent in the map, and the
//! build ends with [`Inconsistency::MissingParent`].
//!
//! A directory that the bounded walk reached is a node of the map and counts
//! itself, whether or not it can be read: the failures of the bounded walk
//! change nothing. What lies beneath a directory that cannot be read is not
//! seen, so such a directory comes to one.

use vstd::prelude::*;
use crate::event::{copy_of, opt_view, strings_view, WalkEvent};
use crate::hidden::is_visible;
use crate::node_map::{
    fresh_node, has_path, index_of, well_formed, with_directory, with_file, NodeMap, NodeView,
};
use crate::rollup::{
    children_count, children_total, lemma_pending_below_is_pending, lemma_rollup_sums_children,
    pending_below, rolled, total,
};

verus! {

/// What a bounded walk is made with.
pub struct Walk {
    /// The path at which the walk starts.
    pub root: Seq<char>,
    /// Whether hidden entries are visited.
    pub show_hidden: bool,
    /// How many levels below the root the walk goes: at least one.
    pub max_depth: nat,
}

/// What the builder has made of the events so far.
pub struct Hierarchy {
    /// The map of directories.
    pub nodes: Seq<NodeView>,
    /// The paths of the directories at the depth limit, in the order of
    /// their discovery.
    pub deferred: Seq<Seq<char>>,
}

/// Why an event does not fit the map built so far.
#[derive(Debug, Clone, Copy, PartialEq, Eq, Structural)]
pub enum Inconsistency {
    /// The entry names no parent, or one that the map does not hold.
    MissingParent,
    /// The map holds the directory already.
    DuplicateDirectory,
    /// The parent's count is the largest number the machine holds.
    CountOverflow,
}

/// The depth to which the bounded walk goes for a depth that the user asked
/// for: the same, but never less than one level.
pub open spec fn depth_limit(requested: nat) -> nat {
    if requested < 1 {
        1
    } else {
        requested
    }
}

/// The hierarchy before the first event: the root alone.
pub open spec fn start(walk: Walk, root_name: Option<Seq<char>>) -> Hierarchy {
    Hierarchy { nodes: seq![fresh_node(walk.root, root_name)], deferred: Seq::empty() }
}

/// An event that the builder passes over: a failure of the walk, an entry
/// that the hidden-entry filter holds back, and the root itself.
pub open spec fn passed_over(walk: Walk, event: WalkEvent) -> bool {
    match event {
        WalkEvent::Failure(_) => true,
        WalkEvent::Entry(e) => !e.visible(walk.show_hidden) || e.path@ == walk.root,
    }
}

/// The event is a file that the builder counts in the directory `dir`.
pub open spec fn is_file_in(walk: Walk, event: WalkEvent, dir: Seq<char>) -> bool {
    match event {
        WalkEvent::Failure(_) => false,
        WalkEvent::Entry(e) => !passed_over(walk, event) && !e.is_dir && opt_view(e.parent)
            == Some(dir),
    }
}

/// How many of the events are files that the builder counts in `dir`.
pub open spec fn direct_files(walk: Walk, events: Seq<WalkEvent>, dir: Seq<char>) -> nat
    decreases events.len(),
{
    if events.len() == 0 {
        0
    } else {
        direct_files(walk, events.drop_last(), dir) + if is_file_in(walk, events.last(), dir) {
            1nat
        } else {
            0nat
        }
    }
}

/// The place of an optional parent in the map.
pub open spec fn parent_place(nodes: Seq<NodeView>, parent: Option<String>) -> Option<int> {
    match parent {
        Some(p) => Some(index_of(nodes, p@)),
        None => None,
    }
}

/// What one event makes of the hierarchy.
///
/// A directory becomes a new node that counts itself, and the last child of
/// its parent; at the depth limit it is also noted for a count of its own. A
/// file adds one to the count of its parent. An entry whose parent the map
/// does not hold fits nowhere, and a directory that the map holds already
/// cannot be added again. A failure changes nothing, a denial at the path of
/// a directory neither: the directory stays a node that counts itself.
pub open spec fn step(walk: Walk, h: Hierarchy, event: WalkEvent) -> Result<
    Hierarchy,
    Inconsistency,
> {
    match event {
        WalkEvent::Failure(_) => Ok(h),
        WalkEvent::Entry(e) => {
            if passed_over(walk, event) {
                Ok(h)
            } else if e.is_dir {
                if e.parent matches Some(p) && !has_path(h.nodes, p@) {
                    Err(Inconsistency::MissingParent)
                } else if has_path(h.nodes, e.path@) {
                    Err(Inconsistency::DuplicateDirectory)
                } else {
                    Ok(
                        Hierarchy {
                            nodes: with_directory(
                                h.nodes,
                                fresh_node(e.path@, opt_view(e.name)),
                                parent_place(h.nodes, e.parent),
                            ),
                            deferred: if e.depth == walk.max_depth {
                                h.deferred.push(e.path@)
                            } else {
                                h.deferred
                            },
                        },
                    )
                }
            } else {
                match e.parent {
                    Some(p) if has_path(h.nodes, p@) => {
                        let i = index_of(h.nodes, p@);
                        if h.nodes[i].count >= usize::MAX {
                            Err(Inconsistency::CountOverflow)
                        } else {
                            Ok(Hierarchy { nodes: with_file(h.nodes, i), ..h })
                        }
                    },
                    _ => Err(Inconsistency::MissingParent),
                }
            }
        },
    }
}

/// What a sequence of events makes of the hierarchy: each event in turn,
/// until one does not fit.
pub open spec fn run(walk: Walk, h: Hierarchy, events: Seq<WalkEvent>) -> Result<
    Hierarchy,
    Inconsistency,
>
    decreases events.len(),
{
    if events.len() == 0 {
        Ok(h)
    } else {
        match run(walk, h, events.drop_last()) {
            Ok(mid) => step(walk, mid, events.last()),
            Err(e) => Err(e),
        }
    }
}

/// What the builder took an event for.
#[derive(Debug, Clone, Copy, PartialEq, Eq, Structural)]
pub enum Visit {
    /// Nothing: a failure of the walk, a hidden entry, or the root itself.
    PassedOver,
    /// A file, counted in its parent.
    File,
    /// A directory above the depth limit, added to the map.
    Directory,
    /// A directory at the depth limit, added to the map and noted for a
    /// count of its own.
    Deferred,
}

/// What the builder takes an event for, where the event fits.
pub open spec fn taken_as(walk: Walk, event: WalkEvent) -> Visit {
    match event {
        WalkEvent::Failure(_) => Visit::PassedOver,
        WalkEvent::Entry(e) => if passed_over(walk, event) {
            Visit::PassedOver
        } else if !e.is_dir {
            Visit::File
        } else if e.depth == walk.max_depth {
            Visit::Deferred
        } else {
            Visit::Directory
        },
    }
}

/// An event that did not fit the map.
#[derive(Debug, Clone, PartialEq, Eq)]
pub struct BuildError {
    /// Why it did not fit.
    pub kind: Inconsistency,
    /// The path of the entry.
    pub path: String,
}

/// The hierarchy builder as a machine that is fed one event at a time.
pub struct HierarchyBuilder {
    map: NodeMap,
    deferred: Vec<String>,
    root: String,
    show_hidden: bool,
    max_depth: usize,
}

/// What the builder hands over when the walk is done.
pub struct BuiltHierarchy {
    /// The map of directories, none of them finalized.
    pub map: NodeMap,
    /// The paths of the directories at the depth limit.
    pub deferred: Vec<String>,
}

impl View for HierarchyBuilder {
    type V = Hierarchy;

    closed spec fn view(&self) -> Hierarchy {
        Hierarchy { nodes: self.map@, deferred: strings_view(self.deferred@) }
    }
}

impl HierarchyBuilder {
    /// What the walk is made with.
    pub closed spec fn walk(&self) -> Walk {
        Walk { root: self.root@, show_hidden: self.show_hidden, max_depth: self.max_depth as nat }
    }

    /// The invariant of the builder.
    pub closed spec fn wf(&self) -> bool {
        self.map.wf()
    }

    /// A builder for a walk that starts at `root`, with the root as the one
    /// directory of its map. `depth` is the depth that the user asked for;
    /// the walk goes at least one level deep.
    pub fn new(root: String, root_name: Option<String>, show_hidden: bool, depth: usize) -> (builder:
        HierarchyBuilder)
        ensures
            builder.wf(),
            builder.walk() == (Walk {
                root: root@,
                show_hidden,
                max_depth: depth_limit(depth as nat),
            }),
            builder@ == start(builder.walk(), opt_view(root_name)),
    {
        let max_depth: usize = if depth < 1 {
            1
        } else {
            depth
        };
        let map = NodeMap::new(root.clone(), root_name);
        let builder = HierarchyBuilder {
            map,
            deferred: Vec::new(),
            root,
            show_hidden,
            max_depth,
        };
        assert(builder@.deferred =~= Seq::<Seq<char>>::empty());
        builder
    }

    /// The depth to which the walk goes.
    pub fn max_depth(&self) -> (depth: usize)
        ensures
            depth == self.walk().max_depth,
    {
        self.max_depth
    }

    /// Whether hidden entries are visited.
    pub fn show_hidden(&self) -> (show: bool)
        ensures
            show == self.walk().show_hidden,
    {
        self.show_hidden
    }

    /// Takes the next event of the walk.
    ///
    /// The hierarchy becomes what [`step`] makes of it. An event that does
    /// not fit comes back as the error, with the entry's path, and the
    /// hierarchy stays as it was.
    pub fn visit(&mut self, event: &WalkEvent) -> (result: Result<Visit, BuildError>)
        requires
            old(self).wf(),
        ensures
            final(self).wf(),
            final(self).walk() == old(self).walk(),
            match step(old(self).walk(), old(self)@, *event) {
                Ok(h) => result == Ok::<Visit, BuildError>(taken_as(old(self).walk(), *event))
                    && final(self)@ == h,
                Err(kind) => {
                    &&& final(self)@ == old(self)@
                    &&& result matches Err(e)
                    &&& e.kind == kind
                    &&& event matches WalkEvent::Entry(entry)
                    &&& e.path@ == entry.path@
                },
            },
    {
        let entry = match event {
            WalkEvent::Failure(_) => {
                return Ok(Visit::PassedOver);
            },
            WalkEvent::Entry(entry) => entry,
        };
        let visible = match &entry.name {
            Some(n) => is_visible(self.show_hidden, Some(n.as_str())),
            None => is_visible(self.show_hidden, None),
        };
        if !visible || entry.path == self.root {
            return Ok(Visit::PassedOver);
        }
        if entry.is_dir {
            let parent: Option<usize> = match &entry.parent {
                Some(p) => {
                    match self.map.lookup(p.as_str()) {
                        Some(i) => Some(i),
                        None => {
                            return Err(
                                BuildError {
                                    kind: Inconsistency::MissingParent,
                                    path: entry.path.clone(),
                                },
                            );
                        },
                    }
                },
                None => None,
            };
            if self.map.lookup(entry.path.as_str()).is_some() {
                return Err(
                    BuildError {
                        kind: Inconsistency::DuplicateDirectory,
                        path: entry.path.clone(),
                    },
                );
            }
            self.map.add_directory(entry.path.clone(), copy_of(&entry.name), parent);
            if entry.depth == self.max_depth {
                self.deferred.push(entry.path.clone());
                assert(strings_view(self.deferred@) =~= strings_view(old(self).deferred@).push(
                    entry.path@,
                ));
                Ok(Visit::Deferred)
            } else {
                Ok(Visit::Directory)
            }
        } else {
            let parent: Option<usize> = match &entry.parent {
                Some(p) => self.map.lookup(p.as_str()),
                None => None,
            };
            match parent {
                None => Err(
                    BuildError { kind: Inconsistency::MissingParent, path: entry.path.clone() },
                ),
                Some(i) => {
                    if self.map.node(i).count == usize::MAX {
                        return Err(
                            BuildError {
                                kind: Inconsistency::CountOverflow,
                                path: entry.path.clone(),
                            },
                        );
                    }
                    self.map.count_file(i);
                    Ok(Visit::File)
                },
            }
        }
    }

    /// Hands over the map and the list of the directories that are left to
    /// count.
    pub fn finish(self) -> (built: BuiltHierarchy)
        requires
            self.wf(),
        ensures
            built.map.wf(),
            built.map@ == self@.nodes,
            strings_view(built.deferred@) == self@.deferred,
    {
        BuiltHierarchy { map: self.map, deferred: self.deferred }
    }
}

/// The events up to `k` all fit, and the event at `k` does not fit what they
/// made, for the reason `kind`.
pub open spec fn fails_at(
    walk: Walk,
    h: Hierarchy,
    events: Seq<WalkEvent>,
    k: int,
    kind: Inconsistency,
) -> bool {
    &&& 0 <= k < events.len()
    &&& run(walk, h, events.take(k)) matches Ok(mid)
    &&& step(walk, mid, events[k]) == Err::<Hierarchy, Inconsistency>(kind)
}

/// Once an event does not fit, no longer run of the events comes out.
proof fn lemma_run_fails_later(
    walk: Walk,
    h: Hierarchy,
    events: Seq<WalkEvent>,
    k: int,
    kind: Inconsistency,
    n: int,
)
    requires
        fails_at(walk, h, events, k, kind),
        k < n <= events.len(),
    ensures
        run(walk, h, events.take(n)) == Err::<Hierarchy, Inconsistency>(kind),
    decreases n - k,
{
    assert(events.take(n).drop_last() =~= events.take(n - 1));
    assert(events.take(n).last() == events[n - 1]);
    if n - 1 > k {
        lemma_run_fails_later(walk, h, events, k, kind, n - 1);
    }
}

/// Builds the hierarchy from the events of a bounded walk that starts at
/// `root`. The walk meant is a pruned one
/// ([`is_pruned`](crate::event::is_pruned)); of any other, an entry that
/// lies in a directory that was held back does not fit.
///
/// The result is what [`run`] makes of the events, from the root alone. The
/// first event that does not fit ends the build and comes back as the error,
/// with the path of its entry.
pub fn build_hierarchy(
    root: String,
    root_name: Option<String>,
    events: &Vec<WalkEvent>,
    show_hidden: bool,
    depth: usize,
) -> (result: Result<BuiltHierarchy, BuildError>)
    ensures
        ({
            let walk = Walk { root: root@, show_hidden, max_depth: depth_limit(depth as nat) };
            match run(walk, start(walk, opt_view(root_name)), events@) {
                Ok(h) => {
                    &&& result matches Ok(built)
                    &&& built.map.wf()
                    &&& built.map@ == h.nodes
                    &&& strings_view(built.deferred@) == h.deferred
                },
                Err(kind) => {
                    &&& result matches Err(e)
                    &&& e.kind == kind
                    &&& exists|k: int|
                        {
                            &&& #[trigger] fails_at(
                                walk,
                                start(walk, opt_view(root_name)),
                                events@,
                                k,
                                kind,
                            )
                            &&& events@[k] matches WalkEvent::Entry(entry)
                            &&& e.path@ == entry.path@
                        }
                },
            }
        }),
{
    let ghost walk = Walk { root: root@, show_hidden, max_depth: depth_limit(depth as nat) };
    let ghost first = start(walk, opt_view(root_name));
    let mut builder = HierarchyBuilder::new(root, root_name, show_hidden, depth);
    let mut k: usize = 0;
    assert(events@.take(0) =~= Seq::<WalkEvent>::empty());
    while k < events.len()
        invariant
            0 <= k <= events.len(),
            walk == (Walk { root: root@, show_hidden, max_depth: depth_limit(depth as nat) }),
            first == start(walk, opt_view(root_name)),
            builder.wf(),
            builder.walk() == walk,
            run(walk, first, events@.take(k as int)) == Ok::<Hierarchy, Inconsistency>(builder@),
        decreases events.len() - k,
    {
        proof {
            assert(events@.take(k + 1).drop_last() =~= events@.take(k as int));
            assert(events@.take(k + 1).last() == events@[k as int]);
        }
        match builder.visit(&events[k]) {
            Ok(_) => {},
            Err(e) => {
                proof {
                    assert(fails_at(walk, first, events@, k as int, e.kind));
                    lemma_run_fails_later(
                        walk,
                        first,
                        events@,
                        k as int,
                        e.kind,
                        events@.len() as int,
                    );
                    assert(events@.take(events@.len() as int) =~= events@);
                }
                return Err(e);
            },
        }
        k = k + 1;
    }
    assert(events@.take(k as int) =~= events@);
    Ok(builder.finish())
}

/// What two runs of events make, one after the other, is what the events
/// make in one run.
pub proof fn lemma_run_concat(walk: Walk, h: Hierarchy, a: Seq<WalkEvent>, b: Seq<WalkEvent>)
    ensures
        run(walk, h, a + b) == match run(walk, h, a) {
            Ok(mid) => run(walk, mid, b),
            Err(e) => Err(e),
        },
    decreases b.len(),
{
    if b.len() == 0 {
        assert(a + b =~= a);
    } else {
        assert((a + b).drop_last() =~= a + b.drop_last());
        assert((a + b).last() == b.last());
        lemma_run_concat(walk, h, a, b.drop_last());
    }
}

/// The failures of the bounded walk change nothing: with a failure put in
/// anywhere, the events make the same map and the same list. So a directory
/// that could not be read, which the walker reports as its entry and a
/// denial at its path, is a node like any other and counts itself.
pub proof fn lemma_failure_changes_nothing(
    walk: Walk,
    h: Hierarchy,
    events: Seq<WalkEvent>,
    k: int,
    failure: crate::event::WalkFailure,
)
    requires
        0 <= k <= events.len(),
    ensures
        run(walk, h, events.insert(k, WalkEvent::Failure(failure))) == run(walk, h, events),
{
    let head = events.take(k);
    let tail = events.skip(k);
    let one = seq![WalkEvent::Failure(failure)];
    assert(events =~= head + tail);
    assert(events.insert(k, WalkEvent::Failure(failure)) =~= (head + one) + tail);
    lemma_run_concat(walk, h, head, tail);
    lemma_run_concat(walk, h, head + one, tail);
    lemma_run_concat(walk, h, head, one);
    assert(one.drop_last() =~= Seq::<WalkEvent>::empty());
    if run(walk, h, head) is Ok {
        let mid = run(walk, h, head)->Ok_0;
        assert(run(walk, mid, one.drop_last()) == Ok::<Hierarchy, Inconsistency>(mid));
        assert(run(walk, mid, one) == Ok::<Hierarchy, Inconsistency>(mid));
    }
}

/// What holds of a hierarchy that the events `events` made: the map is well
/// formed, no directory is finalized, each holds a count of one for itself
/// and one for each file directly in it, and every directory in which a file
/// was counted is in the map.
pub open spec fn counted(walk: Walk, events: Seq<WalkEvent>, h: Hierarchy) -> bool {
    &&& well_formed(h.nodes)
    &&& forall|i: int|
        0 <= i < h.nodes.len() ==> !(#[trigger] h.nodes[i]).finalized && h.nodes[i].count == 1
            + direct_files(walk, events, h.nodes[i].path)
    &&& forall|d: Seq<char>| #[trigger] direct_files(walk, events, d) > 0 ==> has_path(h.nodes, d)
}

/// One event keeps every count in step with the files seen so far.
proof fn lemma_step_keeps_counted(
    walk: Walk,
    events: Seq<WalkEvent>,
    mid: Hierarchy,
    event: WalkEvent,
    h: Hierarchy,
)
    requires
        counted(walk, events, mid),
        step(walk, mid, event) == Ok::<Hierarchy, Inconsistency>(h),
    ensures
        counted(walk, events.push(event), h),
{
    let after = events.push(event);
    assert(after.drop_last() =~= events);
    assert(after.last() == event);
    assert forall|d: Seq<char>| #[trigger]
        direct_files(walk, after, d) == direct_files(walk, events, d) + if is_file_in(
            walk,
            event,
            d,
        ) {
            1nat
        } else {
            0nat
        } by {}
    if h == mid {
        assert forall|d: Seq<char>| !is_file_in(walk, event, d) by {}
        assert forall|i: int| 0 <= i < h.nodes.len() implies !(#[trigger] h.nodes[i]).finalized
            && h.nodes[i].count == 1 + direct_files(walk, after, h.nodes[i].path) by {
            assert(direct_files(walk, after, h.nodes[i].path) == direct_files(
                walk,
                events,
                mid.nodes[i].path,
            ));
        }
        assert forall|d: Seq<char>| #[trigger]
            direct_files(walk, after, d) > 0 implies has_path(h.nodes, d) by {
            assert(direct_files(walk, events, d) > 0);
        }
    } else {
        let e = event->Entry_0;
        let n = mid.nodes.len() as int;
        if e.is_dir {
            assert forall|d: Seq<char>| !is_file_in(walk, event, d) by {}
            if e.parent is Some {
                let p = e.parent->0;
                assert(has_path(mid.nodes, p@));
            }
            assert(h.nodes.len() == n + 1);
            assert forall|i: int| 0 <= i < n implies (#[trigger] h.nodes[i]).path
                == mid.nodes[i].path && h.nodes[i].count == mid.nodes[i].count
                && h.nodes[i].finalized == mid.nodes[i].finalized by {}
            assert(h.nodes[n] == fresh_node(e.path@, opt_view(e.name)));
            assert forall|i: int, j: int|
                0 <= i < h.nodes.len() && 0 <= j < h.nodes.len() && i != j implies (
            #[trigger] h.nodes[i]).path != (#[trigger] h.nodes[j]).path by {
                if i < n && j < n {
                    assert(mid.nodes[i].path != mid.nodes[j].path);
                } else if i < n {
                    assert(mid.nodes[i].path != e.path@);
                } else {
                    assert(mid.nodes[j].path != e.path@);
                }
            }
            assert forall|i: int, k: int|
                0 <= i < h.nodes.len() && 0 <= k < h.nodes[i].children.len() implies i < (
            #[trigger] h.nodes[i].children[k]) < h.nodes.len() by {
                if i < n && k < mid.nodes[i].children.len() {
                    assert(h.nodes[i].children[k] == mid.nodes[i].children[k]);
                }
            }
            assert forall|i: int| 0 <= i < h.nodes.len() implies !(
            #[trigger] h.nodes[i]).finalized && h.nodes[i].count == 1 + direct_files(
                walk,
                after,
                h.nodes[i].path,
            ) by {
                if i < n {
                    assert(!mid.nodes[i].finalized);
                    assert(direct_files(walk, after, h.nodes[i].path) == direct_files(
                        walk,
                        events,
                        mid.nodes[i].path,
                    ));
                } else {
                    assert(direct_files(walk, after, e.path@) == direct_files(
                        walk,
                        events,
                        e.path@,
                    ));
                    if direct_files(walk, events, e.path@) > 0 {
                        assert(has_path(mid.nodes, e.path@));
                    }
                }
            }
            assert forall|d: Seq<char>| #[trigger]
                direct_files(walk, after, d) > 0 implies has_path(h.nodes, d) by {
                assert(direct_files(walk, events, d) > 0);
                let i = index_of(mid.nodes, d);
                assert(h.nodes[i].path == d);
            }
        } else {
            let p = e.parent->0;
            let at = index_of(mid.nodes, p@);
            assert(mid.nodes[at].path == p@);
            assert(h.nodes == with_file(mid.nodes, at));
            assert forall|i: int| 0 <= i < n implies (#[trigger] h.nodes[i]).path
                == mid.nodes[i].path && h.nodes[i].children == mid.nodes[i].children
                && h.nodes[i].finalized == mid.nodes[i].finalized by {}
            assert forall|i: int, j: int|
                0 <= i < h.nodes.len() && 0 <= j < h.nodes.len() && i != j implies (
            #[trigger] h.nodes[i]).path != (#[trigger] h.nodes[j]).path by {
                assert(mid.nodes[i].path != mid.nodes[j].path);
            }
            assert forall|i: int, k: int|
                0 <= i < h.nodes.len() && 0 <= k < h.nodes[i].children.len() implies i < (
            #[trigger] h.nodes[i].children[k]) < h.nodes.len() by {
                assert(h.nodes[i].children[k] == mid.nodes[i].children[k]);
            }
            assert forall|i: int| 0 <= i < h.nodes.len() implies !(
            #[trigger] h.nodes[i]).finalized && h.nodes[i].count == 1 + direct_files(
                walk,
                after,
                h.nodes[i].path,
            ) by {
                assert(!mid.nodes[i].finalized);
                assert(direct_files(walk, after, mid.nodes[i].path) == direct_files(
                    walk,
                    events,
                    mid.nodes[i].path,
                ) + if is_file_in(walk, event, mid.nodes[i].path) {
                    1nat
                } else {
                    0nat
                });
                if i != at {
                    assert(mid.nodes[i].path != mid.nodes[at].path);
                }
            }
            assert forall|d: Seq<char>| #[trigger]
                direct_files(walk, after, d) > 0 implies has_path(h.nodes, d) by {
                if d == p@ {
                    assert(h.nodes[at].path == d);
                } else {
                    assert(direct_files(walk, events, d) > 0);
                    let i = index_of(mid.nodes, d);
                    assert(h.nodes[i].path == d);
                }
            }
        }
    }
}

/// Whatever events made a hierarchy, it holds for each directory the count
/// of one for itself and one for each file directly in it.
pub proof fn lemma_run_counted(walk: Walk, root_name: Option<Seq<char>>, events: Seq<WalkEvent>)
    requires
        run(walk, start(walk, root_name), events) is Ok,
    ensures
        counted(walk, events, run(walk, start(walk, root_name), events)->Ok_0),
    decreases events.len(),
{
    let first = start(walk, root_name);
    if events.len() == 0 {
        assert forall|d: Seq<char>| #[trigger] direct_files(walk, events, d) == 0 by {}
        assert(well_formed(first.nodes));
    } else {
        let before = events.drop_last();
        lemma_run_counted(walk, root_name, before);
        let mid = run(walk, first, before)->Ok_0;
        let h = run(walk, first, events)->Ok_0;
        lemma_step_keeps_counted(walk, before, mid, events.last(), h);
        assert(before.push(events.last()) =~= events);
    }
}

/// How many of the events are files with a hidden name that lie directly in
/// `dir`, the root itself apart.
pub open spec fn hidden_files(root: Seq<char>, events: Seq<WalkEvent>, dir: Seq<char>) -> nat
    decreases events.len(),
{
    if events.len() == 0 {
        0
    } else {
        hidden_files(root, events.drop_last(), dir) + match events.last() {
            WalkEvent::Entry(e) if !e.visible(false) && e.path@ != root && !e.is_dir && opt_view(
                e.parent,
            ) == Some(dir) => 1nat,
            _ => 0nat,
        }
    }
}

/// Showing hidden entries raises the number of files counted in a directory
/// by exactly the number of files with a hidden name that lie directly in
/// it.
pub proof fn lemma_hidden_files_are_the_difference(
    root: Seq<char>,
    max_depth: nat,
    events: Seq<WalkEvent>,
    dir: Seq<char>,
)
    ensures
        direct_files(Walk { root, show_hidden: true, max_depth }, events, dir) == direct_files(
            Walk { root, show_hidden: false, max_depth },
            events,
            dir,
        ) + hidden_files(root, events, dir),
    decreases events.len(),
{
    if events.len() > 0 {
        lemma_hidden_files_are_the_difference(root, max_depth, events.drop_last(), dir);
    }
}

/// A directory without child directories comes to one for itself and one for
/// each file directly in it that the hidden-entry filter lets pass, in its
/// total and in the count that a rollup leaves in it.
pub proof fn lemma_leaf_directory_count(
    walk: Walk,
    root_name: Option<Seq<char>>,
    events: Seq<WalkEvent>,
    i: int,
)
    requires
        run(walk, start(walk, root_name), events) matches Ok(h) && 0 <= i < h.nodes.len()
            && h.nodes[i].children.len() == 0,
    ensures
        run(walk, start(walk, root_name), events) matches Ok(h) && total(h.nodes, i) == 1
            + direct_files(walk, events, h.nodes[i].path) && rolled(h.nodes, i)[i].count == 1
            + direct_files(walk, events, h.nodes[i].path),
{
    lemma_run_counted(walk, root_name, events);
    let h = run(walk, start(walk, root_name), events)->Ok_0;
    assert(!h.nodes[i].finalized);
    assert(pending_below(h.nodes, i, i));
}

/// After a rollup, every directory that it reached counts one for itself,
/// one for each file directly in it, and what its child directories count.
pub proof fn lemma_directory_count(
    walk: Walk,
    root_name: Option<Seq<char>>,
    events: Seq<WalkEvent>,
    from: int,
    i: int,
)
    requires
        run(walk, start(walk, root_name), events) matches Ok(h) && pending_below(
            h.nodes,
            from,
            i,
        ),
    ensures
        run(walk, start(walk, root_name), events) matches Ok(h) && rolled(h.nodes, from)[i].count
            == 1 + direct_files(walk, events, h.nodes[i].path) + children_count(
            rolled(h.nodes, from),
            i,
            h.nodes[i].children.len() as int,
        ) && total(h.nodes, i) == 1 + direct_files(walk, events, h.nodes[i].path)
            + children_total(h.nodes, i, h.nodes[i].children.len() as int),
{
    lemma_run_counted(walk, root_name, events);
    let h = run(walk, start(walk, root_name), events)->Ok_0;
    lemma_pending_below_is_pending(h.nodes, from, i);
    lemma_rollup_sums_children(h.nodes, from, i);
}

} // verus!
