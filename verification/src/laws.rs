//! What holds of the store as a whole, proved from the definitions of its
//! operations.
//!
//! The laws speak of segments and chains as plain values, as the contracts
//! of the executable functions do. Many of them ask that a chain be
//! chronological and consistent: a chain is so when it is new, and stays so
//! under every event it takes in, every rollover that is not stamped before
//! the history it closes, and every merge.
use vstd::prelude::*;
use vstd::std_specs::cmp::PartialEqSpec;
use crate::chain::{
    all_events, base_of, events_from, is_chronological, is_consistent, is_owner_of, last_due,
    lemma_all_events_concat, lemma_all_events_single, lemma_history_after,
    lemma_history_before, lemma_last_due_is_last, lemma_merge_keeps_owner, lemma_owner_of,
    lemma_owner_of_last, lemma_replay_up_to_segment, lemma_starts_ascend, merged_at, owner_of,
    projected_at, rolled_over, started_by,
};
use crate::error::StoreError;
use crate::event::Event;
use crate::projection::{
    applied, due_count, holds, lemma_due_count_after_due, lemma_due_count_before_late,
    lemma_due_count_unique, lemma_replayed_concat, lemma_replayed_push,
    lemma_replayed_until_between, matches_at, replayed, replayed_until,
};
use crate::segment::SegmentView;
use crate::timestamp::Timestamp;

verus! {

/// An event older than the newest event of a segment is refused as out of
/// order, whatever it carries.
pub proof fn law_disorder_is_refused<T: PartialEq>(segment: SegmentView<T>, e: Event<T>)
    requires
        segment.events.len() > 0,
        e.time()@ < segment.events.last().time()@,
    ensures
        segment.accepted(e) == Err::<SegmentView<T>, StoreError>(StoreError::OutOfOrderEvent),
{
}

/// A create event applies exactly if the projection lacks its entity, and
/// is refused as a duplicate otherwise; an update or delete event applies
/// exactly if the projection holds its entity, and is refused as missing
/// otherwise.
pub proof fn law_misplaced_event_is_refused<T: PartialEq>(s: Seq<T>, e: Event<T>)
    ensures
        e is Create && holds(s, e.payload()) ==> applied(s, e) == Err::<Seq<T>, StoreError>(
            StoreError::DuplicateCreate,
        ),
        !(e is Create) && !holds(s, e.payload()) ==> applied(s, e) == Err::<Seq<T>, StoreError>(
            StoreError::MissingEntity,
        ),
        applied(s, e) is Ok <==> (e is Create <==> !holds(s, e.payload())),
{
}

/// Once an entity is created, a second create event for the same entity is
/// refused as a duplicate.
pub proof fn law_create_after_create<T: PartialEq>(s: Seq<T>, first: Event<T>, second: Event<T>)
    requires
        first is Create,
        second is Create,
        first.payload().eq_spec(&second.payload()),
        applied(s, first) is Ok,
    ensures
        applied(applied(s, first).unwrap(), second) == Err::<Seq<T>, StoreError>(
            StoreError::DuplicateCreate,
        ),
{
    let after = applied(s, first).unwrap();
    assert(after == s.push(first.payload()));
    assert(matches_at(after, second.payload(), s.len() as int));
}

/// A segment that takes in an event stays ordered, and its snapshot stays
/// what its events make of the projection it started from.
pub proof fn law_accept_keeps_segment<T: PartialEq>(
    segment: SegmentView<T>,
    e: Event<T>,
    base: Seq<T>,
)
    requires
        segment.accepted(e) is Ok,
    ensures
        segment.is_ordered() ==> segment.accepted(e).unwrap().is_ordered(),
        segment.continues(base) ==> segment.accepted(e).unwrap().continues(base),
        segment.accepted(e).unwrap().latest() == e.time(),
{
    let grown = segment.accepted(e).unwrap();
    let n = segment.events.len() as int;
    lemma_replayed_push(base, segment.events, e);
    if segment.is_ordered() {
        assert forall|i: int| 0 <= i < grown.events.len() implies grown.start@ <= (
        #[trigger] grown.events[i]).time()@ by {
            if i < n {
                assert(grown.events[i] == segment.events[i]);
            }
        }
        assert forall|i: int, j: int| 0 <= i <= j < grown.events.len() implies (
        #[trigger] grown.events[i]).time()@ <= (#[trigger] grown.events[j]).time()@ by {
            if j < n {
                assert(grown.events[i] == segment.events[i]);
                assert(grown.events[j] == segment.events[j]);
            } else if i < n {
                assert(grown.events[i] == segment.events[i]);
                assert(segment.events[i].time()@ <= segment.events[n - 1].time()@);
            }
        }
    }
}

/// Joining an ordered segment to an ordered segment that ends before it
/// starts gives an ordered segment, whose history ends no later than that
/// of the later one did.
pub proof fn law_join_keeps_order<T: PartialEq>(later: SegmentView<T>, earlier: SegmentView<T>)
    requires
        earlier.is_ordered(),
        later.is_ordered(),
        earlier.latest()@ <= later.start@,
    ensures
        later.joined_after(earlier).is_ordered(),
        later.joined_after(earlier).latest()@ <= later.latest()@,
{
    let joined = later.joined_after(earlier);
    let a = earlier.events;
    let b = later.events;
    if a.len() > 0 {
        assert(earlier.start@ <= a[a.len() - 1].time()@);
    }
    if b.len() > 0 {
        assert(later.start@ <= b[b.len() - 1].time()@);
        assert(joined.events[joined.events.len() - 1] == b[b.len() - 1]);
    } else {
        assert(joined.events =~= a);
    }
    assert forall|i: int| 0 <= i < joined.events.len() implies joined.start@ <= (
    #[trigger] joined.events[i]).time()@ by {
        if i < a.len() {
            assert(joined.events[i] == a[i]);
        } else {
            assert(joined.events[i] == b[i - a.len()]);
        }
    }
    assert forall|i: int, j: int| 0 <= i <= j < joined.events.len() implies (
    #[trigger] joined.events[i]).time()@ <= (#[trigger] joined.events[j]).time()@ by {
        if j < a.len() {
            assert(joined.events[i] == a[i]);
            assert(joined.events[j] == a[j]);
        } else if i < a.len() {
            assert(joined.events[i] == a[i]);
            assert(joined.events[j] == b[j - a.len()]);
            assert(a[i].time()@ <= a[a.len() - 1].time()@);
        } else {
            assert(joined.events[i] == b[i - a.len()]);
            assert(joined.events[j] == b[j - a.len()]);
        }
    }
}

/// Joining a segment to the segment from whose snapshot it started gives a
/// segment that starts from where that one started.
pub proof fn law_join_keeps_snapshot<T: PartialEq>(
    later: SegmentView<T>,
    earlier: SegmentView<T>,
    base: Seq<T>,
)
    requires
        earlier.continues(base),
        later.continues(earlier.snapshot),
    ensures
        later.joined_after(earlier).continues(base),
{
    lemma_replayed_concat(base, earlier.events, later.events);
}

/// A chain of one segment without history is chronological and consistent.
pub proof fn law_new_chain_is_valid<T: PartialEq>(start: Timestamp)
    ensures
        is_chronological(
            seq![
                SegmentView::<T> { start, snapshot: Seq::empty(), events: Seq::empty() },
            ],
        ),
        is_consistent(
            seq![
                SegmentView::<T> { start, snapshot: Seq::empty(), events: Seq::empty() },
            ],
        ),
{
}

/// An event that the latest segment takes in keeps the chain chronological
/// and consistent.
pub proof fn law_push_keeps_invariants<T: PartialEq>(segments: Seq<SegmentView<T>>, e: Event<T>)
    requires
        segments.len() > 0,
        segments.last().accepted(e) is Ok,
    ensures
        is_consistent(segments) ==> is_consistent(
            segments.update(segments.len() - 1, segments.last().accepted(e).unwrap()),
        ),
        is_chronological(segments) ==> is_chronological(
            segments.update(segments.len() - 1, segments.last().accepted(e).unwrap()),
        ),
{
    let n = segments.len() as int;
    let grown = segments.last().accepted(e).unwrap();
    let after = segments.update(n - 1, grown);
    law_accept_keeps_segment(segments.last(), e, base_of(segments, n - 1));
    if is_consistent(segments) {
        assert forall|i: int| 0 <= i < after.len() implies after[i].continues(
            #[trigger] base_of(after, i),
        ) by {
            assert(segments[i].continues(base_of(segments, i)));
            assert(base_of(after, i) == base_of(segments, i));
        }
    }
    if is_chronological(segments) {
        assert forall|i: int| 0 <= i < after.len() implies (#[trigger] after[i]).is_ordered() by {
            assert(segments[i].is_ordered());
        }
        assert forall|i: int, j: int| 0 <= i < j < after.len() implies (
        #[trigger] after[i]).latest()@ <= (#[trigger] after[j]).start@ by {
            assert(segments[i].latest()@ <= segments[j].start@);
        }
    }
}

/// Any rollover keeps the chain consistent, and a rollover at an instant at
/// or after the end of the recorded history keeps it chronological.
pub proof fn law_rollover_keeps_invariants<T: PartialEq>(
    segments: Seq<SegmentView<T>>,
    now: Timestamp,
)
    requires
        segments.len() > 0,
    ensures
        is_consistent(segments) ==> is_consistent(rolled_over(segments, now)),
        is_chronological(segments) && segments.last().latest()@ <= now@ ==> is_chronological(
            rolled_over(segments, now),
        ),
{
    let rolled = rolled_over(segments, now);
    let n = segments.len() as int;
    if is_consistent(segments) {
        assert forall|i: int| 0 <= i < rolled.len() implies rolled[i].continues(
            #[trigger] base_of(rolled, i),
        ) by {
            if i < n {
                assert(rolled[i] == segments[i]);
                assert(segments[i].continues(base_of(segments, i)));
                assert(base_of(rolled, i) == base_of(segments, i));
            }
        }
    }
    if is_chronological(segments) && segments.last().latest()@ <= now@ {
        assert forall|i: int| 0 <= i < rolled.len() implies (#[trigger] rolled[i]).is_ordered() by {
            if i < n {
                assert(rolled[i] == segments[i]);
            }
        }
        assert forall|i: int, j: int| 0 <= i < j < rolled.len() implies (
        #[trigger] rolled[i]).latest()@ <= (#[trigger] rolled[j]).start@ by {
            assert(rolled[i] == segments[i]);
            if j < n {
                assert(rolled[j] == segments[j]);
            } else if i < n - 1 {
                assert(segments[i].latest()@ <= segments[n - 1].start@);
                lemma_starts_ascend(segments, n - 1, n - 1);
            }
        }
    }
}

/// A merge in a chronological and consistent chain leaves the chain
/// chronological and consistent.
pub proof fn law_merge_keeps_invariants<T: PartialEq>(segments: Seq<SegmentView<T>>, t: Timestamp)
    requires
        is_chronological(segments),
        is_consistent(segments),
        merged_at(segments, t) is Ok,
    ensures
        is_chronological(merged_at(segments, t).unwrap()),
        is_consistent(merged_at(segments, t).unwrap()),
{
    lemma_owner_of(segments, t);
    let i = owner_of(segments, t).unwrap();
    let earlier = segments[i - 1];
    let later = segments[i];
    let joined = later.joined_after(earlier);
    let after = segments.remove(i - 1).update(i - 1, joined);
    assert(merged_at(segments, t).unwrap() == after);
    // Where each segment of the merged chain comes from.
    let from = |k: int|
        if k < i {
            k
        } else {
            k + 1
        };
    assert forall|k: int| 0 <= k < after.len() && k != i - 1 implies after[k] == segments[from(
        k,
    )] by {}
    assert(earlier.is_ordered());
    assert(later.is_ordered());
    assert(earlier.latest()@ <= later.start@);
    law_join_keeps_order(later, earlier);
    assert(earlier.continues(base_of(segments, i - 1)));
    assert(later.continues(base_of(segments, i)));
    law_join_keeps_snapshot(later, earlier, base_of(segments, i - 1));

    assert forall|k: int| 0 <= k < after.len() implies (#[trigger] after[k]).is_ordered() by {
        if k != i - 1 {
            assert(segments[from(k)].is_ordered());
        }
    }
    assert forall|k: int, l: int| 0 <= k < l < after.len() implies (#[trigger] after[k]).latest()@
        <= (#[trigger] after[l]).start@ by {
        if k == i - 1 {
            assert(segments[i].latest()@ <= segments[from(l)].start@);
        } else if l == i - 1 {
            assert(segments[k].latest()@ <= segments[i - 1].start@);
        } else {
            assert(segments[from(k)].latest()@ <= segments[from(l)].start@);
        }
    }
    assert forall|k: int| 0 <= k < after.len() implies after[k].continues(
        #[trigger] base_of(after, k),
    ) by {
        if k < i - 1 {
            assert(segments[k].continues(base_of(segments, k)));
            assert(base_of(after, k) == base_of(segments, k));
        } else if k == i - 1 {
            assert(base_of(after, k) == base_of(segments, k));
        } else {
            assert(segments[k + 1].continues(base_of(segments, k + 1)));
            assert(base_of(after, k) == base_of(segments, k + 1));
        }
    }
}

/// Right after a rollover, the projection as of the instant of the rollover
/// is the latest projection, as it stood before the rollover.
pub proof fn law_rollover_serves_latest<T: PartialEq>(segments: Seq<SegmentView<T>>, now: Timestamp)
    requires
        segments.len() > 0,
    ensures
        rolled_over(segments, now).last().snapshot == segments.last().snapshot,
        projected_at(rolled_over(segments, now), now) == Some(segments.last().snapshot),
{
    let n = segments.len() as int;
    let rolled = rolled_over(segments, now);
    assert(is_owner_of(rolled, now, n));
    lemma_owner_of_last(rolled, now, n);
    let fresh = rolled[n];
    lemma_due_count_unique(fresh.events, now, 0);
    assert(fresh.events.take(0) =~= fresh.events);
    assert(base_of(rolled, n) == segments.last().snapshot);
}

/// The projection as of an instant at or after the end of the recorded
/// history is the latest projection. With the law before, a rollover at
/// such an instant changes nothing in the projection as of that instant.
pub proof fn law_rollover_keeps_projection<T: PartialEq>(
    segments: Seq<SegmentView<T>>,
    now: Timestamp,
)
    requires
        segments.len() > 0,
        segments.last().is_ordered(),
        segments.last().continues(base_of(segments, segments.len() - 1)),
        segments.last().latest()@ <= now@,
    ensures
        projected_at(segments, now) == Some(segments.last().snapshot),
        projected_at(rolled_over(segments, now), now) == projected_at(segments, now),
{
    law_rollover_serves_latest(segments, now);
    let last = segments.last();
    let n = segments.len() as int;
    if last.events.len() > 0 {
        assert(last.start@ <= last.events[last.events.len() - 1].time()@);
    }
    assert(is_owner_of(segments, now, n - 1));
    lemma_owner_of_last(segments, now, n - 1);
    assert forall|i: int| 0 <= i < last.events.len() implies (#[trigger] last.events[i]).time()@
        <= now@ by {
        assert(last.events[i].time()@ <= last.events[last.events.len() - 1].time()@);
    }
    lemma_due_count_unique(last.events, now, last.events.len() as int);
    assert(last.events.take(last.events.len() as int) =~= last.events);
}

/// Merge inverts rollover: a rollover at an instant at or after the end of
/// the recorded history, followed by a merge at an instant at or after the
/// rollover, gives back the chain as it was, and with it every projection
/// and every list of events.
pub proof fn law_merge_inverts_rollover<T: PartialEq>(
    segments: Seq<SegmentView<T>>,
    rollover: Timestamp,
    t: Timestamp,
)
    requires
        segments.len() > 0,
        segments.last().events.len() <= usize::MAX,
        segments.last().latest()@ <= rollover@,
        rollover@ <= t@,
    ensures
        merged_at(rolled_over(segments, rollover), t) == Ok::<Seq<SegmentView<T>>, StoreError>(
            segments,
        ),
{
    let n = segments.len() as int;
    let rolled = rolled_over(segments, rollover);
    assert(is_owner_of(rolled, t, n));
    lemma_owner_of_last(rolled, t, n);
    let merged = rolled[n].joined_after(rolled[n - 1]);
    assert(merged.events =~= segments.last().events);
    assert(merged == segments.last());
    assert(rolled.remove(n - 1).update(n - 1, merged) =~= segments);
}

/// A merge neither adds nor drops nor reorders an event.
pub proof fn law_merge_keeps_events<T: PartialEq>(segments: Seq<SegmentView<T>>, t: Timestamp)
    requires
        merged_at(segments, t) is Ok,
    ensures
        all_events(merged_at(segments, t).unwrap()) == all_events(segments),
{
    lemma_owner_of(segments, t);
    let i = owner_of(segments, t).unwrap();
    let n = segments.len() as int;
    let earlier = segments[i - 1];
    let later = segments[i];
    let joined = later.joined_after(earlier);
    let after = merged_at(segments, t).unwrap();
    let head = segments.take(i - 1);
    let tail = segments.subrange(i + 1, n);
    assert(segments =~= head + seq![earlier] + seq![later] + tail);
    assert(after =~= head + seq![joined] + tail);
    lemma_all_events_concat(head, seq![earlier]);
    lemma_all_events_concat(head + seq![earlier], seq![later]);
    lemma_all_events_concat(head + seq![earlier] + seq![later], tail);
    lemma_all_events_concat(head, seq![joined]);
    lemma_all_events_concat(head + seq![joined], tail);
    lemma_all_events_single(earlier);
    lemma_all_events_single(later);
    lemma_all_events_single(joined);
    assert((all_events(head) + earlier.events) + later.events =~= all_events(head) + (
    earlier.events + later.events));
}

/// Where a segment is joined to the one before it, an instant at or after
/// its start gets from the joined segment the projection it got from the
/// later one.
proof fn lemma_join_keeps_late_projection<T: PartialEq>(
    later: SegmentView<T>,
    earlier: SegmentView<T>,
    base: Seq<T>,
    x: Timestamp,
)
    requires
        earlier.is_ordered(),
        earlier.continues(base),
        earlier.latest()@ <= later.start@,
        later.start@ <= x@,
    ensures
        later.joined_after(earlier).projected_onto(x, base) == later.projected_onto(
            x,
            earlier.snapshot,
        ),
{
    let a = earlier.events;
    if a.len() > 0 {
        assert(earlier.start@ <= a[a.len() - 1].time()@);
    }
    assert forall|k: int| 0 <= k < a.len() implies (#[trigger] a[k]).time()@ <= x@ by {
        assert(a[k].time()@ <= a[a.len() - 1].time()@);
    }
    lemma_replayed_until_between(base, a, later.events, Seq::<Event<T>>::empty(), x);
    assert(later.events + Seq::<Event<T>>::empty() =~= later.events);
}

/// Where a segment is joined to the one before it, an instant before its
/// start gets from the joined segment the projection it got from the
/// earlier one.
proof fn lemma_join_keeps_early_projection<T: PartialEq>(
    later: SegmentView<T>,
    earlier: SegmentView<T>,
    base: Seq<T>,
    x: Timestamp,
)
    requires
        later.is_ordered(),
        x@ < later.start@,
    ensures
        later.joined_after(earlier).projected_onto(x, base) == earlier.projected_onto(x, base),
{
    let b = later.events;
    assert forall|k: int| 0 <= k < b.len() implies (#[trigger] b[k]).time()@ > x@ by {
        assert(later.start@ <= b[k].time()@);
    }
    lemma_replayed_until_between(base, Seq::<Event<T>>::empty(), earlier.events, b, x);
    assert(Seq::<Event<T>>::empty() + (earlier.events + b) =~= earlier.events + b);
}

/// A merge in a chronological and consistent chain changes no projection:
/// the state as of any instant is after the merge what it was before.
pub proof fn law_merge_keeps_projections<T: PartialEq>(
    segments: Seq<SegmentView<T>>,
    t: Timestamp,
    x: Timestamp,
)
    requires
        is_chronological(segments),
        is_consistent(segments),
        merged_at(segments, t) is Ok,
    ensures
        projected_at(merged_at(segments, t).unwrap(), x) == projected_at(segments, x),
{
    lemma_owner_of(segments, t);
    let i = owner_of(segments, t).unwrap();
    let earlier = segments[i - 1];
    let later = segments[i];
    let joined = later.joined_after(earlier);
    let after = segments.remove(i - 1).update(i - 1, joined);
    assert(merged_at(segments, t).unwrap() == after);
    assert(earlier.is_ordered());
    assert(later.is_ordered());
    assert(earlier.latest()@ <= later.start@);
    assert(earlier.continues(base_of(segments, i - 1)));
    lemma_starts_ascend(segments, i - 1, i);
    lemma_merge_keeps_owner(segments, after, i, x);
    lemma_owner_of(segments, x);
    match owner_of(segments, x) {
        None => {},
        Some(o) => {
            if o < i - 1 {
                assert(after[o] == segments[o]);
                assert(base_of(after, o) == base_of(segments, o));
            } else if o == i - 1 {
                assert(base_of(after, o) == base_of(segments, o));
                assert(!started_by(segments, x, i));
                lemma_join_keeps_early_projection(later, earlier, base_of(segments, o), x);
            } else if o == i {
                assert(base_of(after, i - 1) == base_of(segments, i - 1));
                assert(started_by(segments, x, i));
                lemma_join_keeps_late_projection(later, earlier, base_of(segments, i - 1), x);
            } else {
                assert(after[o - 1] == segments[o]);
                assert(base_of(after, o - 1) == base_of(segments, o));
            }
        },
    }
}

/// In a consistent chain, the latest projection is what replaying every
/// event of the chain on nothing gives.
pub proof fn law_latest_is_full_replay<T: PartialEq>(segments: Seq<SegmentView<T>>)
    requires
        is_consistent(segments),
        segments.len() > 0,
    ensures
        replayed(Seq::<T>::empty(), all_events(segments)) == Some(segments.last().snapshot),
{
    let n = segments.len() as int;
    lemma_replay_up_to_segment(segments, n - 1);
    assert(segments.drop_last() =~= segments.take(n - 1));
    assert(segments.last().continues(base_of(segments, n - 1)));
    lemma_replayed_concat(
        Seq::<T>::empty(),
        all_events(segments.take(n - 1)),
        segments.last().events,
    );
}

/// Snapshots save work and change no answer: in a chronological and
/// consistent chain, the projection as of an instant is what replaying the
/// whole history on nothing, up to that instant, gives. There is none for
/// an instant before the store began.
pub proof fn law_projection_is_replay_of_history<T: PartialEq>(
    segments: Seq<SegmentView<T>>,
    t: Timestamp,
)
    requires
        is_chronological(segments),
        is_consistent(segments),
        segments.len() > 0,
    ensures
        projected_at(segments, t) == if t@ < segments[0].start@ {
            None
        } else {
            replayed_until(Seq::<T>::empty(), all_events(segments), t)
        },
{
    lemma_owner_of(segments, t);
    let n = segments.len() as int;
    if t@ < segments[0].start@ {
        assert forall|j: int| !started_by(segments, t, j) by {
            if 0 <= j < n {
                lemma_starts_ascend(segments, 0, j);
            }
        }
    } else {
        assert(started_by(segments, t, 0));
        let o = owner_of(segments, t).unwrap();
        let owner = segments[o];
        let head = segments.take(o);
        let tail = segments.subrange(o + 1, n);
        let older = all_events(head);
        let newer = all_events(tail);
        assert(segments =~= head + seq![owner] + tail);
        lemma_all_events_concat(head, seq![owner]);
        lemma_all_events_concat(head + seq![owner], tail);
        lemma_all_events_single(owner);
        assert(all_events(segments) =~= older + (owner.events + newer));

        lemma_history_before(segments, o);
        assert forall|j: int| 0 <= j < tail.len() implies (#[trigger] tail[j]).is_ordered()
            && tail[j].start@ > t@ by {
            assert(tail[j] == segments[o + 1 + j]);
            assert(segments[o + 1 + j].is_ordered());
            assert(!started_by(segments, t, o + 1 + j));
        }
        lemma_history_after(tail, t);
        lemma_replay_up_to_segment(segments, o);
        lemma_replayed_until_between(Seq::<T>::empty(), older, owner.events, newer, t);
    }
}

/// Asked from an instant for which the first segment answers and at or
/// before which its first event, and no other, occurred, the events from
/// that instant onward are all events of the chain.
pub proof fn law_events_from_the_first<T>(segments: Seq<SegmentView<T>>, t: Timestamp)
    requires
        owner_of(segments, t) == Some(0int),
        last_due(segments[0].events, t) == Some(0int),
    ensures
        events_from(segments, t) == all_events(segments),
{
    lemma_owner_of(segments, t);
    let n = segments.len() as int;
    let first = segments[0];
    let tail = segments.subrange(1, n);
    assert(segments =~= seq![first] + tail);
    lemma_all_events_concat(seq![first], tail);
    lemma_all_events_single(first);
    assert(first.events.skip(0) =~= first.events);
}

/// In a chronological chain, the events from an instant onward are the end
/// of the whole history, from the last event due at that instant: where
/// the segment that answers for the instant has a due event, the listing
/// begins with the last of the events of the whole history that are due.
pub proof fn law_events_from_is_end_of_history<T>(segments: Seq<SegmentView<T>>, t: Timestamp)
    requires
        is_chronological(segments),
        owner_of(segments, t) is Some,
        last_due(segments[owner_of(segments, t).unwrap()].events, t) is Some,
    ensures
        due_count(all_events(segments), t) >= 1,
        events_from(segments, t) == all_events(segments).skip(
            due_count(all_events(segments), t) - 1,
        ),
{
    lemma_owner_of(segments, t);
    let n = segments.len() as int;
    let o = owner_of(segments, t).unwrap();
    let owner = segments[o];
    let head = segments.take(o);
    let tail = segments.subrange(o + 1, n);
    let older = all_events(head);
    let newer = all_events(tail);
    assert(segments =~= head + seq![owner] + tail);
    lemma_all_events_concat(head, seq![owner]);
    lemma_all_events_concat(head + seq![owner], tail);
    lemma_all_events_single(owner);
    assert(all_events(segments) =~= older + (owner.events + newer));

    lemma_last_due_is_last(owner.events, t);
    let k = last_due(owner.events, t).unwrap();
    assert(owner.is_ordered());
    assert forall|i: int| 0 <= i < k + 1 implies (#[trigger] owner.events[i]).time()@ <= t@ by {
        assert(owner.events[i].time()@ <= owner.events[k].time()@);
    }
    lemma_due_count_unique(owner.events, t, k + 1);

    lemma_history_before(segments, o);
    assert forall|j: int| 0 <= j < tail.len() implies (#[trigger] tail[j]).is_ordered()
        && tail[j].start@ > t@ by {
        assert(tail[j] == segments[o + 1 + j]);
        assert(segments[o + 1 + j].is_ordered());
        assert(!started_by(segments, t, o + 1 + j));
    }
    lemma_history_after(tail, t);
    lemma_due_count_after_due(older, owner.events + newer, t);
    lemma_due_count_before_late(owner.events, newer, t);
    assert((older + (owner.events + newer)).skip(older.len() + k) =~= owner.events.skip(k)
        + newer);
}

} // verus!
