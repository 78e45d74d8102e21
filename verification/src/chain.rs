//! Chains of segments: what a projector holds, as plain values.
//!
//! A chain is a sequence of segments, oldest first. This module says which
//! segment of a chain answers for an instant, what the projection as of an
//! instant is, and what a rollover and a merge make of a chain.
use vstd::prelude::*;
use crate::error::StoreError;
use crate::event::Event;
use crate::projection::{lemma_replayed_concat, replayed};
use crate::segment::SegmentView;
use crate::timestamp::Timestamp;

verus! {

/// Segment `i` has started by instant `t`.
pub open spec fn started_by<T>(segments: Seq<SegmentView<T>>, t: Timestamp, i: int) -> bool {
    0 <= i < segments.len() && segments[i].start@ <= t@
}

/// Segment `i` is the last one that has started by instant `t`.
pub open spec fn is_owner_of<T>(segments: Seq<SegmentView<T>>, t: Timestamp, i: int) -> bool {
    started_by(segments, t, i) && forall|j: int|
        i < j < segments.len() ==> !started_by(segments, t, j)
}

/// The last segment that has started by instant `t`, if any has.
pub open spec fn owner_of<T>(segments: Seq<SegmentView<T>>, t: Timestamp) -> Option<int> {
    if exists|i: int| started_by(segments, t, i) {
        Some(choose|i: int| is_owner_of(segments, t, i))
    } else {
        None
    }
}

/// The projection from which segment `i` starts: the snapshot of the segment
/// before it, or nothing for the first segment.
pub open spec fn base_of<T>(segments: Seq<SegmentView<T>>, i: int) -> Seq<T> {
    if i == 0 {
        Seq::empty()
    } else {
        segments[i - 1].snapshot
    }
}

/// The projection as of instant `t`: what the segment that answers for `t`
/// makes of the snapshot before it. `None` if `t` lies before the store
/// began.
pub open spec fn projected_at<T: PartialEq>(segments: Seq<SegmentView<T>>, t: Timestamp) -> Option<
    Seq<T>,
> {
    match owner_of(segments, t) {
        Some(i) => segments[i].projected_onto(t, base_of(segments, i)),
        None => None,
    }
}

/// The chain after a rollover at instant `t`: one more segment, which
/// starts at `t` from the latest projection and has no events yet.
pub open spec fn rolled_over<T>(segments: Seq<SegmentView<T>>, t: Timestamp) -> Seq<
    SegmentView<T>,
> {
    segments.push(
        SegmentView { start: t, snapshot: segments.last().snapshot, events: Seq::empty() },
    )
}

/// The chain after merging the segment that answers for `t` with the one
/// before it, or the reason the merge is refused.
pub open spec fn merged_at<T: PartialEq>(segments: Seq<SegmentView<T>>, t: Timestamp) -> Result<
    Seq<SegmentView<T>>,
    StoreError,
> {
    match owner_of(segments, t) {
        None => Err(StoreError::SegmentNotFound),
        Some(i) => if i == 0 {
            Err(StoreError::NoPrecedingSegment)
        } else {
            match segments[i].prepended(segments[i - 1]) {
                Ok(merged) => Ok(segments.remove(i - 1).update(i - 1, merged)),
                Err(reason) => Err(reason),
            }
        },
    }
}

/// What pushing the event `e` makes of the chain `before`: the latest
/// segment takes the event in and `r` is `Ok`, or the chain stays as it is
/// and `r` gives the reason.
pub open spec fn push_outcome<T: PartialEq>(
    before: Seq<SegmentView<T>>,
    e: Event<T>,
    r: Result<(), StoreError>,
    after: Seq<SegmentView<T>>,
) -> bool {
    match before.last().accepted(e) {
        Ok(s) => r is Ok && after == before.update(before.len() - 1, s),
        Err(reason) => r == Err::<(), StoreError>(reason) && after == before,
    }
}

/// All events of the chain, oldest segment first.
pub open spec fn all_events<T>(segments: Seq<SegmentView<T>>) -> Seq<Event<T>>
    decreases segments.len(),
{
    if segments.len() == 0 {
        Seq::empty()
    } else {
        all_events(segments.drop_last()) + segments.last().events
    }
}

/// Event `k` is the last one of the log that occurred at or before `t`.
pub open spec fn is_last_due<T>(events: Seq<Event<T>>, t: Timestamp, k: int) -> bool {
    &&& 0 <= k < events.len()
    &&& events[k].time()@ <= t@
    &&& forall|j: int| k < j < events.len() ==> (#[trigger] events[j]).time()@ > t@
}

/// The last event of the log that occurred at or before `t`, if any did.
pub open spec fn last_due<T>(events: Seq<Event<T>>, t: Timestamp) -> Option<int> {
    if exists|k: int| 0 <= k < events.len() && (#[trigger] events[k]).time()@ <= t@ {
        Some(choose|k: int| is_last_due(events, t, k))
    } else {
        None
    }
}

/// The events from instant `t` onward: in the segment that answers for `t`,
/// the last event that occurred at or before `t` and all that follow it,
/// and then every event of the later segments. Empty if `t` lies before the
/// store began or before every event of that segment.
pub open spec fn events_from<T>(segments: Seq<SegmentView<T>>, t: Timestamp) -> Seq<Event<T>> {
    match owner_of(segments, t) {
        None => Seq::empty(),
        Some(i) => match last_due(segments[i].events, t) {
            None => Seq::empty(),
            Some(k) => segments[i].events.skip(k) + all_events(
                segments.subrange(i + 1, segments.len() as int),
            ),
        },
    }
}

/// Time runs forward along the chain: every segment is ordered, and no
/// segment starts before the history of an earlier one ends.
pub open spec fn is_chronological<T>(segments: Seq<SegmentView<T>>) -> bool {
    &&& forall|i: int| 0 <= i < segments.len() ==> (#[trigger] segments[i]).is_ordered()
    &&& forall|i: int, j: int|
        0 <= i < j < segments.len() ==> (#[trigger] segments[i]).latest()@ <= (
        #[trigger] segments[j]).start@
}

/// Every snapshot is what the events of its segment make of the snapshot
/// before it; the first segment starts from nothing.
pub open spec fn is_consistent<T: PartialEq>(segments: Seq<SegmentView<T>>) -> bool {
    forall|i: int|
        0 <= i < segments.len() ==> segments[i].continues(#[trigger] base_of(segments, i))
}

/// A last due event is the one that `last_due` names.
pub proof fn lemma_last_due<T>(events: Seq<Event<T>>, t: Timestamp, k: int)
    requires
        is_last_due(events, t, k),
    ensures
        last_due(events, t) == Some(k),
{
    assert(events[k].time()@ <= t@);
    let c = choose|c: int| is_last_due(events, t, c);
    if c < k {
        assert(events[k].time()@ > t@);
    }
    if k < c {
        assert(events[c].time()@ > t@);
    }
}

/// Where some event of the log is due at `t`, `last_due` names the last
/// such event; where none is, none is.
pub proof fn lemma_last_due_is_last<T>(events: Seq<Event<T>>, t: Timestamp)
    ensures
        match last_due(events, t) {
            Some(k) => is_last_due(events, t, k),
            None => forall|j: int| 0 <= j < events.len() ==> (#[trigger] events[j]).time()@ > t@,
        },
{
    if exists|k: int| 0 <= k < events.len() && (#[trigger] events[k]).time()@ <= t@ {
        let w = choose|k: int| 0 <= k < events.len() && (#[trigger] events[k]).time()@ <= t@;
        lemma_last_due_exists(events, t, w);
    }
}

proof fn lemma_last_due_exists<T>(events: Seq<Event<T>>, t: Timestamp, w: int)
    requires
        0 <= w < events.len(),
        events[w].time()@ <= t@,
    ensures
        exists|k: int| is_last_due(events, t, k),
    decreases events.len() - w,
{
    if exists|j: int| w < j < events.len() && (#[trigger] events[j]).time()@ <= t@ {
        let j = choose|j: int| w < j < events.len() && (#[trigger] events[j]).time()@ <= t@;
        lemma_last_due_exists(events, t, j);
    } else {
        assert(is_last_due(events, t, w));
    }
}

/// Where some segment has started by `t`, `owner_of` names the last such
/// segment; where none has, none has.
pub proof fn lemma_owner_of<T>(segments: Seq<SegmentView<T>>, t: Timestamp)
    ensures
        match owner_of(segments, t) {
            Some(i) => is_owner_of(segments, t, i),
            None => forall|j: int| !started_by(segments, t, j),
        },
{
    if exists|i: int| started_by(segments, t, i) {
        let w = choose|i: int| started_by(segments, t, i);
        lemma_last_started_exists(segments, t, w);
    }
}

proof fn lemma_last_started_exists<T>(segments: Seq<SegmentView<T>>, t: Timestamp, w: int)
    requires
        started_by(segments, t, w),
    ensures
        exists|i: int| is_owner_of(segments, t, i),
    decreases segments.len() - w,
{
    if exists|j: int| w < j < segments.len() && started_by(segments, t, j) {
        let j = choose|j: int| w < j < segments.len() && started_by(segments, t, j);
        lemma_last_started_exists(segments, t, j);
    } else {
        assert(is_owner_of(segments, t, w));
    }
}

/// The events of two chains joined are the events of the first followed by
/// those of the second.
pub proof fn lemma_all_events_concat<T>(first: Seq<SegmentView<T>>, second: Seq<SegmentView<T>>)
    ensures
        all_events(first + second) == all_events(first) + all_events(second),
    decreases second.len(),
{
    if second.len() == 0 {
        assert(first + second =~= first);
        assert(all_events(first) + all_events(second) =~= all_events(first));
    } else {
        lemma_all_events_concat(first, second.drop_last());
        assert((first + second).drop_last() =~= first + second.drop_last());
        assert((first + second).last() == second.last());
        assert(all_events(first) + (all_events(second.drop_last()) + second.last().events)
            =~= (all_events(first) + all_events(second.drop_last())) + second.last().events);
    }
}

/// A chain of one segment has the events of that segment.
pub proof fn lemma_all_events_single<T>(segment: SegmentView<T>)
    ensures
        all_events(seq![segment]) == segment.events,
{
    assert(seq![segment].drop_last() =~= Seq::<SegmentView<T>>::empty());
    assert(all_events(seq![segment].drop_last()) =~= Seq::<Event<T>>::empty());
    assert(Seq::<Event<T>>::empty() + segment.events =~= segment.events);
}

/// A last started segment is the one that `owner_of` names.
pub proof fn lemma_owner_of_last<T>(segments: Seq<SegmentView<T>>, t: Timestamp, i: int)
    requires
        is_owner_of(segments, t, i),
    ensures
        owner_of(segments, t) == Some(i),
{
    assert(started_by(segments, t, i));
    let k = choose|k: int| is_owner_of(segments, t, k);
    if k < i {
        assert(!started_by(segments, t, i));
    }
    if i < k {
        assert(!started_by(segments, t, k));
    }
}

/// In a chronological chain, a later segment starts no earlier than an
/// earlier one.
pub proof fn lemma_starts_ascend<T>(segments: Seq<SegmentView<T>>, i: int, j: int)
    requires
        is_chronological(segments),
        0 <= i <= j < segments.len(),
    ensures
        segments[i].start@ <= segments[i].latest()@,
        segments[i].start@ <= segments[j].start@,
{
    assert(segments[i].is_ordered());
    let events = segments[i].events;
    if events.len() > 0 {
        assert(segments[i].start@ <= events[events.len() - 1].time()@);
    }
    if i < j {
        assert(segments[i].latest()@ <= segments[j].start@);
    }
}

/// In a chronological chain, every event of the segments before segment
/// `i` occurred at or before the start of segment `i`.
pub proof fn lemma_history_before<T>(segments: Seq<SegmentView<T>>, i: int)
    requires
        is_chronological(segments),
        0 <= i < segments.len(),
    ensures
        forall|k: int|
            0 <= k < all_events(segments.take(i)).len() ==> (#[trigger] all_events(
                segments.take(i),
            )[k]).time()@ <= segments[i].start@,
    decreases i,
{
    if i > 0 {
        lemma_history_before(segments, i - 1);
        lemma_starts_ascend(segments, i - 1, i);
        assert(segments[i - 1].latest()@ <= segments[i].start@);
        assert(segments.take(i).drop_last() =~= segments.take(i - 1));
        assert(segments.take(i).last() == segments[i - 1]);
        let older = all_events(segments.take(i - 1));
        let events = segments[i - 1].events;
        assert(segments[i - 1].is_ordered());
        assert forall|k: int| 0 <= k < all_events(segments.take(i)).len() implies (
        #[trigger] all_events(segments.take(i))[k]).time()@ <= segments[i].start@ by {
            if k < older.len() {
                assert(all_events(segments.take(i))[k] == older[k]);
            } else {
                assert(all_events(segments.take(i))[k] == events[k - older.len()]);
                assert(events[k - older.len()].time()@ <= events[events.len() - 1].time()@);
            }
        }
    } else {
        assert(segments.take(0) =~= Seq::<SegmentView<T>>::empty());
    }
}

/// Where every segment of a chain is ordered and starts after `t`, every
/// event of the chain occurred after `t`.
pub proof fn lemma_history_after<T>(segments: Seq<SegmentView<T>>, t: Timestamp)
    requires
        forall|j: int|
            0 <= j < segments.len() ==> (#[trigger] segments[j]).is_ordered() && segments[j].start@
                > t@,
    ensures
        forall|k: int|
            0 <= k < all_events(segments).len() ==> (#[trigger] all_events(segments)[k]).time()@
                > t@,
    decreases segments.len(),
{
    if segments.len() > 0 {
        let front = segments.drop_last();
        assert forall|j: int| 0 <= j < front.len() implies (#[trigger] front[j]).is_ordered()
            && front[j].start@ > t@ by {
            assert(front[j] == segments[j]);
        }
        lemma_history_after(front, t);
        let older = all_events(front);
        let last = segments[segments.len() - 1];
        assert(last.is_ordered() && last.start@ > t@);
        assert forall|k: int| 0 <= k < all_events(segments).len() implies (#[trigger] all_events(
            segments,
        )[k]).time()@ > t@ by {
            if k < older.len() {
                assert(all_events(segments)[k] == older[k]);
            } else {
                assert(all_events(segments)[k] == last.events[k - older.len()]);
                assert(last.start@ <= last.events[k - older.len()].time()@);
            }
        }
    }
}

/// In a consistent chain, replaying the events of the segments before
/// segment `i` on nothing gives the projection from which segment `i`
/// starts.
pub proof fn lemma_replay_up_to_segment<T: PartialEq>(segments: Seq<SegmentView<T>>, i: int)
    requires
        is_consistent(segments),
        0 <= i < segments.len(),
    ensures
        replayed(Seq::<T>::empty(), all_events(segments.take(i))) == Some(base_of(segments, i)),
    decreases i,
{
    if i > 0 {
        lemma_replay_up_to_segment(segments, i - 1);
        assert(segments.take(i).drop_last() =~= segments.take(i - 1));
        assert(segments.take(i).last() == segments[i - 1]);
        assert(segments[i - 1].continues(base_of(segments, i - 1)));
        lemma_replayed_concat(
            Seq::<T>::empty(),
            all_events(segments.take(i - 1)),
            segments[i - 1].events,
        );
    } else {
        assert(segments.take(0) =~= Seq::<SegmentView<T>>::empty());
    }
}

/// Where segment `i` is merged with the one before it, the segment that
/// answers for an instant is after the merge the one that answered before,
/// or the merged one in place of either of the two.
pub proof fn lemma_merge_keeps_owner<T>(
    segments: Seq<SegmentView<T>>,
    after: Seq<SegmentView<T>>,
    i: int,
    x: Timestamp,
)
    requires
        0 < i < segments.len(),
        after.len() == segments.len() - 1,
        forall|j: int| 0 <= j < i - 1 ==> (#[trigger] after[j]).start == segments[j].start,
        after[i - 1].start == segments[i - 1].start,
        forall|j: int|
            i <= j < after.len() ==> (#[trigger] after[j]).start == segments[j + 1].start,
        segments[i - 1].start@ <= segments[i].start@,
    ensures
        owner_of(after, x) == match owner_of(segments, x) {
            None => None,
            Some(o) => Some(
                if o < i {
                    o
                } else {
                    o - 1
                },
            ),
        },
{
    lemma_owner_of(segments, x);
    lemma_owner_of(after, x);
    match owner_of(segments, x) {
        None => {
            if owner_of(after, x) is Some {
                let j = owner_of(after, x).unwrap();
                if j < i {
                    assert(!started_by(segments, x, j));
                } else {
                    assert(!started_by(segments, x, j + 1));
                }
            }
        },
        Some(o) => {
            let shifted = if o < i {
                o
            } else {
                o - 1
            };
            assert(started_by(segments, x, o));
            assert(started_by(after, x, shifted));
            assert forall|j: int| shifted < j < after.len() implies !started_by(after, x, j) by {
                if j < i {
                    assert(!started_by(segments, x, j));
                } else {
                    assert(!started_by(segments, x, j + 1));
                }
            }
            lemma_owner_of_last(after, x, shifted);
        },
    }
}

} // verus!
