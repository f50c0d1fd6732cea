//! The subtree counter: how many entries lie beneath a directory, told from
//! the events of a walk that starts at that directory.
//!
//! The walk meant is one that the walker has pruned with
//! [`is_visible`](crate::hidden::is_visible): it does not go beneath an
//! entry that the filter holds back. Here every entry is judged by its own
//! name; an entry beneath a hidden directory that a walker reports all the
//! same is counted like any other.
//!
//! A walker reports a directory that it cannot read as the directory's
//! entry, directly followed by a denial at the directory's path. Such a
//! directory is left out of the count: the denial takes the entry back.

use vstd::prelude::*;
use crate::event::{strings_view, FailureKind, WalkEntry, WalkEvent, WalkFailure};
use crate::hidden::is_visible;

verus! {

/// The path of the entry that the last event counted, where the last event
/// is an entry that passes the filter.
pub open spec fn just_counted(events: Seq<WalkEvent>, show_hidden: bool) -> Option<Seq<char>> {
    if events.len() > 0 && events.last().is_visit(show_hidden) {
        Some(events.last()->Entry_0.path@)
    } else {
        None
    }
}

/// The last event takes back the entry before it: access is denied at the
/// path of the entry that was counted just before.
pub open spec fn takes_back(events: Seq<WalkEvent>, show_hidden: bool) -> bool {
    events.len() > 0 && events.last().is_denied() && just_counted(
        events.drop_last(),
        show_hidden,
    ) == Some(events.last()->Failure_0.path@)
}

/// How many entries the walk counts: those that pass the filter, less those
/// that a denial at their path, coming directly after them, takes back.
pub open spec fn tally(events: Seq<WalkEvent>, show_hidden: bool) -> nat
    decreases events.len(),
{
    if events.len() == 0 {
        0
    } else if events.last().is_visit(show_hidden) {
        tally(events.drop_last(), show_hidden) + 1
    } else if takes_back(events, show_hidden) {
        (tally(events.drop_last(), show_hidden) - 1) as nat
    } else {
        tally(events.drop_last(), show_hidden)
    }
}

/// The walk begins with an entry that it counts: the first event is an entry
/// that passes the filter, and the second does not take it back. That entry
/// is the directory at which the walk started.
pub open spec fn start_is_counted(events: Seq<WalkEvent>, show_hidden: bool) -> bool {
    events.len() > 0 && events[0].is_visit(show_hidden) && !(events.len() > 1 && takes_back(
        events.take(2),
        show_hidden,
    ))
}

/// The number of entries beneath the directory at which the walk started:
/// the entries that the walk counts, the starting directory apart. Where the
/// walk does not begin with an entry that it counts, because the start is
/// hidden, cannot be read or was never reached, nothing is taken off.
pub open spec fn entries_below(events: Seq<WalkEvent>, show_hidden: bool) -> nat {
    if start_is_counted(events, show_hidden) {
        (tally(events, show_hidden) - 1) as nat
    } else {
        tally(events, show_hidden)
    }
}

/// The path of the entry with a hidden name that the last event is.
pub open spec fn just_hidden(events: Seq<WalkEvent>) -> Option<Seq<char>> {
    if events.len() > 0 && events.last().is_filtered(false) {
        Some(events.last()->Entry_0.path@)
    } else {
        None
    }
}

/// How many of the entries that the walk counts when hidden entries are
/// shown have a hidden name.
pub open spec fn hidden_tally(events: Seq<WalkEvent>) -> nat
    decreases events.len(),
{
    if events.len() == 0 {
        0
    } else if events.last().is_filtered(false) {
        hidden_tally(events.drop_last()) + 1
    } else if events.last().is_denied() && just_hidden(events.drop_last()) == Some(
        events.last()->Failure_0.path@,
    ) {
        (hidden_tally(events.drop_last()) - 1) as nat
    } else {
        hidden_tally(events.drop_last())
    }
}

/// The paths at which access was denied, in the order of the walk.
pub open spec fn denials(events: Seq<WalkEvent>) -> Seq<Seq<char>>
    decreases events.len(),
{
    if events.len() == 0 {
        Seq::empty()
    } else {
        match events.last() {
            WalkEvent::Failure(f) if f.kind is PermissionDenied => denials(events.drop_last()).push(
                f.path@,
            ),
            _ => denials(events.drop_last()),
        }
    }
}

/// The first `k` events hold no failure that ends the walk.
pub open spec fn runs_through(events: Seq<WalkEvent>, k: int) -> bool {
    0 <= k <= events.len() && forall|j: int| 0 <= j < k ==> !(#[trigger] events[j]).is_fatal()
}

/// The walk ends at event `k`, the first failure that it does not survive.
pub open spec fn stops_at(events: Seq<WalkEvent>, k: int) -> bool {
    runs_through(events, k) && k < events.len() && events[k].is_fatal()
}

/// What the counter did with one event.
#[derive(Debug, Clone, Copy, PartialEq, Eq, Structural)]
pub enum Observation {
    /// An entry, counted.
    Counted,
    /// An entry that the hidden-entry filter holds back; not counted.
    Filtered,
    /// Access was denied: worth a warning to the user. Where the denial is at
    /// the path of the entry counted just before, that entry is taken back.
    Denied,
}

/// The failure that ended a subtree count.
#[derive(Debug, Clone, PartialEq, Eq)]
pub struct SubtreeError {
    /// The path at which the walk failed.
    pub path: String,
    /// The underlying cause, in words.
    pub cause: String,
}

/// The subtree counter as a machine that is fed one event at a time.
pub struct SubtreeCounter {
    show_hidden: bool,
    tally: usize,
    start: bool,
    last: Option<String>,
    seen: u8,
    history: Ghost<Seq<WalkEvent>>,
}

impl SubtreeCounter {
    /// Whether hidden entries are counted.
    pub closed spec fn shows_hidden(&self) -> bool {
        self.show_hidden
    }

    /// The events that the counter has taken, in order.
    pub closed spec fn history(&self) -> Seq<WalkEvent> {
        self.history@
    }

    /// The invariant of the counter: what it holds is what its history comes
    /// to.
    pub closed spec fn wf(&self) -> bool {
        &&& self.tally == tally(self.history@, self.show_hidden)
        &&& self.start == start_is_counted(self.history@, self.show_hidden)
        &&& crate::event::opt_view(self.last) == just_counted(self.history@, self.show_hidden)
        &&& self.seen == if self.history@.len() < 2 {
            self.history@.len()
        } else {
            2
        }
    }

    /// A counter that has seen nothing.
    pub fn new(show_hidden: bool) -> (counter: SubtreeCounter)
        ensures
            counter.wf(),
            counter.shows_hidden() == show_hidden,
            counter.history() == Seq::<WalkEvent>::empty(),
    {
        SubtreeCounter {
            show_hidden,
            tally: 0,
            start: false,
            last: None,
            seen: 0,
            history: Ghost(Seq::empty()),
        }
    }

    /// Whether the counter can take another event: its tally has not reached
    /// the largest number the machine holds.
    pub fn has_room(&self) -> (room: bool)
        requires
            self.wf(),
        ensures
            room == (tally(self.history(), self.shows_hidden()) < usize::MAX),
    {
        self.tally < usize::MAX
    }

    /// Takes the next event of the walk.
    ///
    /// An entry that passes the filter is counted, and a hidden entry is
    /// passed over. A denial is worth a warning; where it comes at the path
    /// of the entry counted just before, that entry is a directory that could
    /// not be read, and is taken back. Any other failure ends the count: it
    /// comes back as the error, with its path and cause, and the counter
    /// stays as it was.
    pub fn observe(&mut self, event: &WalkEvent) -> (outcome: Result<Observation, SubtreeError>)
        requires
            old(self).wf(),
            tally(old(self).history(), old(self).shows_hidden()) < usize::MAX,
        ensures
            final(self).wf(),
            final(self).shows_hidden() == old(self).shows_hidden(),
            final(self).history() == if event.is_fatal() {
                old(self).history()
            } else {
                old(self).history().push(*event)
            },
            event.is_visit(old(self).shows_hidden()) ==> outcome == Ok::<
                Observation,
                SubtreeError,
            >(Observation::Counted),
            event.is_filtered(old(self).shows_hidden()) ==> outcome == Ok::<
                Observation,
                SubtreeError,
            >(Observation::Filtered),
            event.is_denied() ==> outcome == Ok::<Observation, SubtreeError>(Observation::Denied),
            event.is_fatal() ==> (outcome matches Err(e) && event matches WalkEvent::Failure(f)
                && e.path@ == f.path@ && e.cause@ == f.cause@),
    {
        let ghost before = self.history@;
        let ghost after = before.push(*event);
        proof {
            assert(after.drop_last() =~= before);
            assert(after.last() == *event);
            if before.len() >= 1 {
                assert(after.take(2) =~= if before.len() == 1 {
                    after
                } else {
                    before.take(2)
                });
                assert(after[0] == before[0]);
            }
            lemma_tally_bounds(before, self.show_hidden);
        }
        let outcome = match event {
            WalkEvent::Entry(entry) => {
                let visible = match &entry.name {
                    Some(n) => is_visible(self.show_hidden, Some(n.as_str())),
                    None => is_visible(self.show_hidden, None),
                };
                if visible {
                    self.tally = self.tally + 1;
                    self.last = Some(entry.path.clone());
                    if self.seen == 0 {
                        self.start = true;
                    }
                    Observation::Counted
                } else {
                    self.last = None;
                    Observation::Filtered
                }
            },
            WalkEvent::Failure(failure) => {
                match failure.kind {
                    FailureKind::Other => {
                        return Err(
                            SubtreeError {
                                path: failure.path.clone(),
                                cause: failure.cause.clone(),
                            },
                        );
                    },
                    FailureKind::PermissionDenied => {
                        let taken_back = match &self.last {
                            Some(path) => *path == failure.path,
                            None => false,
                        };
                        if taken_back {
                            self.tally = self.tally - 1;
                            if self.seen == 1 {
                                self.start = false;
                            }
                        }
                        self.last = None;
                        Observation::Denied
                    },
                }
            },
        };
        if self.seen < 2 {
            self.seen = self.seen + 1;
        }
        self.history = Ghost(after);
        Ok(outcome)
    }

    /// The number of entries beneath the directory at which the walk started.
    pub fn count(&self) -> (count: usize)
        requires
            self.wf(),
        ensures
            count == entries_below(self.history(), self.shows_hidden()),
    {
        proof {
            lemma_tally_bounds(self.history@, self.show_hidden);
        }
        if self.start {
            self.tally - 1
        } else {
            self.tally
        }
    }
}

/// What a subtree count came to.
#[derive(Debug)]
pub struct SubtreeReport {
    /// The number of entries beneath the starting directory, or the failure
    /// that ended the walk.
    pub count: Result<usize, SubtreeError>,
    /// The paths at which access was denied before the walk ended, in order.
    pub denied: Vec<String>,
}

/// Counts the entries beneath a directory from the events of a walk that
/// starts at it. The walk meant is a pruned one
/// ([`is_pruned`](crate::event::is_pruned)); of any other, every entry is
/// still judged by its own name.
///
/// The count is the number of entries that pass the hidden-entry filter,
/// less those that a denial at their path takes back, and less one for the
/// starting directory where the walk counts it. Every path at which access
/// was denied is reported. The first failure of any other kind ends the
/// count and is returned.
pub fn count_dir_inodes(events: &Vec<WalkEvent>, show_hidden: bool) -> (report: SubtreeReport)
    ensures
        report.count is Ok <==> runs_through(events@, events@.len() as int),
        match report.count {
            Ok(n) => {
                &&& n == entries_below(events@, show_hidden)
                &&& strings_view(report.denied@) == denials(events@)
            },
            Err(e) => exists|k: int|
                {
                    &&& #[trigger] stops_at(events@, k)
                    &&& events@[k] matches WalkEvent::Failure(f)
                    &&& e.path@ == f.path@
                    &&& e.cause@ == f.cause@
                    &&& strings_view(report.denied@) == denials(events@.take(k))
                },
        },
{
    let mut counter = SubtreeCounter::new(show_hidden);
    let mut denied: Vec<String> = Vec::new();
    let mut k: usize = 0;
    assert(events@.take(0) =~= Seq::<WalkEvent>::empty());
    while k < events.len()
        invariant
            0 <= k <= events.len(),
            counter.wf(),
            counter.shows_hidden() == show_hidden,
            counter.history() == events@.take(k as int),
            strings_view(denied@) == denials(events@.take(k as int)),
            runs_through(events@, k as int),
        decreases events.len() - k,
    {
        let event = &events[k];
        proof {
            assert(events@.take(k + 1).drop_last() =~= events@.take(k as int));
            assert(events@.take(k + 1).last() == events@[k as int]);
            assert(events@.take(k as int).push(events@[k as int]) =~= events@.take(k + 1));
            lemma_tally_bounds(events@.take(k as int), show_hidden);
        }
        match counter.observe(event) {
            Ok(Observation::Denied) => {
                match event {
                    WalkEvent::Failure(f) => {
                        denied.push(f.path.clone());
                        assert(strings_view(denied@) =~= denials(events@.take(k + 1)));
                    },
                    WalkEvent::Entry(_) => {},
                }
            },
            Ok(_) => {},
            Err(e) => {
                assert(stops_at(events@, k as int));
                return SubtreeReport { count: Err(e), denied };
            },
        }
        k = k + 1;
    }
    assert(events@.take(k as int) =~= events@);
    SubtreeReport { count: Ok(counter.count()), denied }
}

/// A walk counts no more entries than it has events, and no fewer than it
/// must: one for a start that it counts, and one for an entry besides the
/// start that it has just counted.
pub proof fn lemma_tally_bounds(events: Seq<WalkEvent>, show_hidden: bool)
    ensures
        tally(events, show_hidden) <= events.len(),
        start_is_counted(events, show_hidden) ==> tally(events, show_hidden) >= 1,
        start_is_counted(events, show_hidden) && events.len() >= 2 && just_counted(
            events,
            show_hidden,
        ) is Some ==> tally(events, show_hidden) >= 2,
        just_counted(events, show_hidden) is Some ==> tally(events, show_hidden) >= 1,
    decreases events.len(),
{
    if events.len() > 0 {
        let before = events.drop_last();
        lemma_tally_bounds(before, show_hidden);
        if before.len() >= 1 {
            assert(events[0] == before[0]);
            if before.len() >= 2 {
                assert(events.take(2) =~= before.take(2));
            } else {
                assert(events.take(2) =~= events);
                assert(before.take(1) =~= before);
            }
        }
    }
}

/// Two walks join where the second does not begin by taking back the last
/// entry of the first.
pub open spec fn joins(a: Seq<WalkEvent>, b: Seq<WalkEvent>, show_hidden: bool) -> bool {
    b.len() == 0 || !takes_back(a.push(b[0]), show_hidden)
}

/// What two walks count that join is what each counts, added.
pub proof fn lemma_tally_concat(a: Seq<WalkEvent>, b: Seq<WalkEvent>, show_hidden: bool)
    requires
        joins(a, b, show_hidden),
    ensures
        tally(a + b, show_hidden) == tally(a, show_hidden) + tally(b, show_hidden),
    decreases b.len(),
{
    if b.len() == 0 {
        assert(a + b =~= a);
    } else {
        let rest = b.drop_last();
        let both = a + b;
        assert(both.drop_last() =~= a + rest);
        assert(both.last() == b.last());
        if rest.len() == 0 {
            assert(a + rest =~= a);
            assert(a.push(b[0]) =~= both);
            assert(!takes_back(both, show_hidden));
            assert(!takes_back(b, show_hidden));
            assert(tally(rest, show_hidden) == 0);
        } else {
            assert(rest[0] == b[0]);
            assert((a + rest).last() == rest.last());
            assert(just_counted(a + rest, show_hidden) == just_counted(rest, show_hidden));
            assert(takes_back(both, show_hidden) == takes_back(b, show_hidden));
            lemma_tally_concat(a, rest, show_hidden);
            lemma_tally_bounds(rest, show_hidden);
        }
    }
}

/// The denials of two walks laid end to end are the denials of the first,
/// then those of the second.
pub proof fn lemma_denials_concat(a: Seq<WalkEvent>, b: Seq<WalkEvent>)
    ensures
        denials(a + b) == denials(a) + denials(b),
    decreases b.len(),
{
    if b.len() == 0 {
        assert(a + b =~= a);
        assert(denials(a) + denials(b) =~= denials(a));
    } else {
        assert((a + b).drop_last() =~= a + b.drop_last());
        assert((a + b).last() == b.last());
        lemma_denials_concat(a, b.drop_last());
        assert(denials(a + b) =~= denials(a) + denials(b));
    }
}

/// The count of a subtree is what the walk counts after its first event,
/// where the walk begins with an entry that it counts: the starting
/// directory is the one entry left out.
pub proof fn lemma_count_is_what_follows_the_start(events: Seq<WalkEvent>, show_hidden: bool)
    requires
        start_is_counted(events, show_hidden),
    ensures
        entries_below(events, show_hidden) == tally(events.skip(1), show_hidden),
{
    let head = events.take(1);
    let tail = events.skip(1);
    assert(head.drop_last() =~= Seq::<WalkEvent>::empty());
    assert(head.last() == events[0]);
    assert(tally(head.drop_last(), show_hidden) == 0);
    assert(events =~= head + tail);
    if tail.len() > 0 {
        assert(head.push(tail[0]) =~= events.take(2));
    }
    lemma_tally_concat(head, tail, show_hidden);
}

/// Showing hidden entries raises what a walk counts by exactly the number of
/// entries with a hidden name that it then counts.
pub proof fn lemma_hidden_entries_are_the_difference(events: Seq<WalkEvent>)
    ensures
        tally(events, true) == tally(events, false) + hidden_tally(events),
    decreases events.len(),
{
    if events.len() > 0 {
        let before = events.drop_last();
        lemma_hidden_entries_are_the_difference(before);
        lemma_tally_bounds(before, true);
        lemma_tally_bounds(before, false);
        if before.len() > 0 && before.last().is_filtered(false) {
            assert(hidden_tally(before) >= 1);
        }
    }
}

/// Showing hidden entries raises the count of a subtree by exactly the
/// number of entries with a hidden name that are then counted, provided the
/// starting directory is counted either way or neither way: it is not itself
/// a hidden entry that only the one walk counts.
pub proof fn lemma_count_differs_by_hidden_entries(events: Seq<WalkEvent>)
    requires
        start_is_counted(events, true) == start_is_counted(events, false),
    ensures
        entries_below(events, true) == entries_below(events, false) + hidden_tally(events),
{
    lemma_hidden_entries_are_the_difference(events);
    lemma_tally_bounds(events, true);
    lemma_tally_bounds(events, false);
}

/// The walk `events` with a directory that cannot be read put in before
/// event `k`: the directory's entry, then the denial at its path.
pub open spec fn with_unreadable(
    events: Seq<WalkEvent>,
    k: int,
    entry: WalkEntry,
    failure: WalkFailure,
) -> Seq<WalkEvent> {
    events.take(k) + seq![WalkEvent::Entry(entry), WalkEvent::Failure(failure)] + events.skip(k)
}

/// Event `k` does not take back the entry before it: nothing put in before
/// it parts a directory's entry from its denial.
pub open spec fn parts_nothing(events: Seq<WalkEvent>, k: int, show_hidden: bool) -> bool {
    !(0 < k < events.len() && takes_back(events.take(k + 1), show_hidden))
}

/// A directory that cannot be read counts as if it were absent. With its
/// entry and the denial at its path put into a walk, the walk counts what it
/// counted, ends where it ended, and warns once more, of that path; and the
/// count of the subtree is the same where the directory is not put before
/// the start.
pub proof fn lemma_unreadable_directory_is_left_out(
    events: Seq<WalkEvent>,
    k: int,
    entry: WalkEntry,
    failure: WalkFailure,
    show_hidden: bool,
)
    requires
        0 <= k <= events.len(),
        failure.kind is PermissionDenied,
        failure.path@ == entry.path@,
        parts_nothing(events, k, show_hidden),
    ensures
        tally(with_unreadable(events, k, entry, failure), show_hidden) == tally(
            events,
            show_hidden,
        ),
        k >= 1 ==> entries_below(with_unreadable(events, k, entry, failure), show_hidden)
            == entries_below(events, show_hidden),
        denials(with_unreadable(events, k, entry, failure)) == denials(events.take(k)).push(
            failure.path@,
        ) + denials(events.skip(k)),
        denials(with_unreadable(events, k, entry, failure)).len() == denials(events).len() + 1,
        runs_through(
            with_unreadable(events, k, entry, failure),
            events.len() as int + 2,
        ) <==> runs_through(events, events.len() as int),
{
    let head = events.take(k);
    let tail = events.skip(k);
    let pair = seq![WalkEvent::Entry(entry), WalkEvent::Failure(failure)];
    let with = with_unreadable(events, k, entry, failure);
    assert(events =~= head + tail);
    assert(with =~= head + (pair + tail));

    // what the pair counts by itself
    let one = seq![WalkEvent::Entry(entry)];
    assert(pair.drop_last() =~= one);
    assert(one.drop_last() =~= Seq::<WalkEvent>::empty());
    assert(tally(one.drop_last(), show_hidden) == 0);
    assert(tally(one, show_hidden) == if entry.visible(show_hidden) {
        1nat
    } else {
        0nat
    });
    assert(pair.last() == WalkEvent::Failure(failure));
    assert(one.last() == WalkEvent::Entry(entry));
    assert(tally(pair, show_hidden) == 0);
    assert(denials(one.drop_last()) =~= Seq::<Seq<char>>::empty());
    assert(denials(one) =~= Seq::<Seq<char>>::empty());
    assert(denials(pair) =~= seq![failure.path@]);

    // the seams
    if tail.len() > 0 {
        assert(pair.push(tail[0]).drop_last() =~= pair);
        assert(head.push(tail[0]) =~= events.take(k + 1));
    }
    assert(head.push(pair[0]).last() == pair[0]);
    assert((pair + tail)[0] == pair[0]);
    lemma_tally_concat(pair, tail, show_hidden);
    lemma_tally_concat(head, pair + tail, show_hidden);
    lemma_tally_concat(head, tail, show_hidden);

    lemma_denials_concat(pair, tail);
    lemma_denials_concat(head, pair + tail);
    lemma_denials_concat(head, tail);
    assert(denials(with) =~= denials(head).push(failure.path@) + denials(tail));

    // where the walk ends
    assert forall|j: int| 0 <= j < with.len() implies (#[trigger] with[j]).is_fatal() == (if j
        < k {
        events[j].is_fatal()
    } else if j < k + 2 {
        false
    } else {
        events[j - 2].is_fatal()
    }) by {}
    if runs_through(events, events.len() as int) {
        assert(runs_through(with, with.len() as int));
    }
    if runs_through(with, with.len() as int) {
        assert forall|j: int| 0 <= j < events.len() implies !(#[trigger] events[j]).is_fatal() by {
            if j < k {
                assert(!with[j].is_fatal());
            } else {
                assert(!with[j + 2].is_fatal());
            }
        }
    }

    // the start
    if k >= 1 {
        assert(with[0] == events[0]);
        if events.len() > 1 {
            if k == 1 {
                assert(with.take(2).last() == pair[0]);
                assert(events.take(2) =~= events.take(k + 1));
            } else {
                assert(with.take(2) =~= events.take(2));
            }
        } else {
            assert(with.take(2).last() == pair[0]);
        }
        lemma_tally_bounds(events, show_hidden);
    }
}

/// A denial that takes no entry back changes nothing but the warnings. With
/// such a failure put into a walk before event `k`, the walk counts what it
/// counted, ends where it ended, and warns once more; and the count of the
/// subtree is the same where the failure is not put before the start.
pub proof fn lemma_denied_entry_is_left_out(
    events: Seq<WalkEvent>,
    k: int,
    failure: WalkFailure,
    show_hidden: bool,
)
    requires
        0 <= k <= events.len(),
        failure.kind is PermissionDenied,
        just_counted(events.take(k), show_hidden) != Some(failure.path@),
        parts_nothing(events, k, show_hidden),
    ensures
        tally(events.insert(k, WalkEvent::Failure(failure)), show_hidden) == tally(
            events,
            show_hidden,
        ),
        k >= 1 ==> entries_below(events.insert(k, WalkEvent::Failure(failure)), show_hidden)
            == entries_below(events, show_hidden),
        denials(events.insert(k, WalkEvent::Failure(failure))) == denials(events.take(k)).push(
            failure.path@,
        ) + denials(events.skip(k)),
        denials(events.insert(k, WalkEvent::Failure(failure))).len() == denials(events).len() + 1,
        runs_through(
            events.insert(k, WalkEvent::Failure(failure)),
            events.len() as int + 1,
        ) <==> runs_through(events, events.len() as int),
{
    let denied = WalkEvent::Failure(failure);
    let with = events.insert(k, denied);
    let head = events.take(k);
    let tail = events.skip(k);
    let one = seq![denied];
    assert(events =~= head + tail);
    assert(with =~= head + (one + tail));

    assert(one.drop_last() =~= Seq::<WalkEvent>::empty());
    assert(tally(one.drop_last(), show_hidden) == 0);
    assert(tally(one, show_hidden) == 0);
    assert(denials(one.drop_last()) =~= Seq::<Seq<char>>::empty());
    assert(denials(one) =~= seq![failure.path@]);

    if tail.len() > 0 {
        assert(one.push(tail[0]).drop_last() =~= one);
        assert(head.push(tail[0]) =~= events.take(k + 1));
    }
    assert(head.push(denied).drop_last() =~= head);
    assert((one + tail)[0] == denied);
    lemma_tally_concat(one, tail, show_hidden);
    lemma_tally_concat(head, one + tail, show_hidden);
    lemma_tally_concat(head, tail, show_hidden);

    lemma_denials_concat(one, tail);
    lemma_denials_concat(head, one + tail);
    lemma_denials_concat(head, tail);
    assert(denials(with) =~= denials(head).push(failure.path@) + denials(tail));

    assert forall|j: int| 0 <= j < with.len() implies (#[trigger] with[j]).is_fatal() == (if j
        < k {
        events[j].is_fatal()
    } else if j == k {
        false
    } else {
        events[j - 1].is_fatal()
    }) by {}
    if runs_through(events, events.len() as int) {
        assert(runs_through(with, with.len() as int));
    }
    if runs_through(with, with.len() as int) {
        assert forall|j: int| 0 <= j < events.len() implies !(#[trigger] events[j]).is_fatal() by {
            if j < k {
                assert(!with[j].is_fatal());
            } else {
                assert(!with[j + 1].is_fatal());
            }
        }
    }

    if k >= 1 {
        assert(with[0] == events[0]);
        if k == 1 {
            assert(with.take(2) =~= head.push(denied));
            assert(head =~= events.take(1));
            if events.len() > 1 {
                assert(events.take(2) =~= events.take(k + 1));
            }
        } else {
            assert(with.take(2) =~= events.take(2));
        }
        lemma_tally_bounds(events, show_hidden);
    }
}

} // verus!
