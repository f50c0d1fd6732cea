//! What a walk of a directory tree reports, as plain values.
//!
//! A walk is a sequence of events in the order in which the walker met them:
//! an entry that it reached, or a failure to reach one. Paths are carried as
//! strings and compared as strings; nothing here parses them.

use vstd::prelude::*;
use crate::hidden::passes_filter;

verus! {

/// An entry of the tree that the walk reached.
#[derive(Debug, Clone, PartialEq, Eq)]
pub struct WalkEntry {
    /// The entry's path.
    pub path: String,
    /// The path of the directory that holds the entry, where it has one.
    pub parent: Option<String>,
    /// The entry's file name, where it is valid Unicode.
    pub name: Option<String>,
    /// Whether the entry is a directory.
    pub is_dir: bool,
    /// How many levels below the start of the walk the entry lies.
    pub depth: usize,
}

/// Why the walk could not reach an entry.
#[derive(Debug, Clone, Copy, PartialEq, Eq)]
pub enum FailureKind {
    /// The operating system denied access.
    PermissionDenied,
    /// Anything else.
    Other,
}

/// An entry that the walk could not reach.
#[derive(Debug, Clone, PartialEq, Eq)]
pub struct WalkFailure {
    /// The path at which the walk failed; empty where none is known.
    pub path: String,
    /// The kind of failure.
    pub kind: FailureKind,
    /// The underlying cause, in words.
    pub cause: String,
}

/// One step of a walk.
#[derive(Debug, Clone, PartialEq, Eq)]
pub enum WalkEvent {
    Entry(WalkEntry),
    Failure(WalkFailure),
}

/// The view of an optional string.
pub open spec fn opt_view(s: Option<String>) -> Option<Seq<char>> {
    match s {
        Some(x) => Some(x@),
        None => None,
    }
}

/// The views of a sequence of strings.
pub open spec fn strings_view(v: Seq<String>) -> Seq<Seq<char>> {
    v.map_values(|s: String| s@)
}

/// A copy of an optional string.
pub(crate) fn copy_of(s: &Option<String>) -> (copy: Option<String>)
    ensures
        opt_view(copy) == opt_view(*s),
{
    match s {
        Some(x) => Some(x.clone()),
        None => None,
    }
}

impl WalkEntry {
    /// Whether the entry passes the hidden-entry filter.
    pub open spec fn visible(&self, show_hidden: bool) -> bool {
        passes_filter(show_hidden, opt_view(self.name))
    }
}

impl WalkEvent {
    /// An entry that passes the filter: the events that a count counts.
    pub open spec fn is_visit(&self, show_hidden: bool) -> bool {
        match self {
            WalkEvent::Entry(e) => e.visible(show_hidden),
            WalkEvent::Failure(_) => false,
        }
    }

    /// An entry that the filter holds back.
    pub open spec fn is_filtered(&self, show_hidden: bool) -> bool {
        match self {
            WalkEvent::Entry(e) => !e.visible(show_hidden),
            WalkEvent::Failure(_) => false,
        }
    }

    /// A failure that the walk survives.
    pub open spec fn is_denied(&self) -> bool {
        match self {
            WalkEvent::Entry(_) => false,
            WalkEvent::Failure(f) => f.kind is PermissionDenied,
        }
    }

    /// A failure that ends the walk.
    pub open spec fn is_fatal(&self) -> bool {
        match self {
            WalkEvent::Entry(_) => false,
            WalkEvent::Failure(f) => f.kind is Other,
        }
    }
}

/// The walk is pruned: it holds no entry that lies in an entry that the
/// filter holds back. A walker reports an entry before what lies in it, so
/// nothing lies beneath such an entry either. This is the walk that a walker
/// makes when it asks [`is_visible`](crate::hidden::is_visible) before it
/// goes on from an entry.
pub open spec fn is_pruned(events: Seq<WalkEvent>, show_hidden: bool) -> bool {
    forall|j: int, k: int|
        0 <= j < events.len() && 0 <= k < events.len() ==> !lies_in_held_back(
            #[trigger] events[j],
            #[trigger] events[k],
            show_hidden,
        )
}

/// `inner` is an entry that lies in `outer`, an entry that the filter holds
/// back.
pub open spec fn lies_in_held_back(outer: WalkEvent, inner: WalkEvent, show_hidden: bool) -> bool {
    match (outer, inner) {
        (WalkEvent::Entry(a), WalkEvent::Entry(b)) => !a.visible(show_hidden) && opt_view(
            b.parent,
        ) == Some(a.path@),
        _ => false,
    }
}

} // verus!
