//! Projectors: a chain of segments that answers for every instant since the
//! store began.
use vstd::prelude::*;
use vstd::std_specs::cmp::PartialEqSpec;
use crate::error::StoreError;
use crate::event::Event;
use crate::chain::{
    all_events, events_from, is_chronological, is_consistent, last_due, lemma_last_due,
    lemma_owner_of_last, merged_at, owner_of, projected_at, push_outcome, rolled_over,
    started_by,
};
use crate::laws::{
    law_merge_keeps_invariants, law_new_chain_is_valid, law_push_keeps_invariants,
    law_rollover_keeps_invariants,
};
use crate::projection::exact_clone;
use crate::segment::{Segment, SegmentView};
use crate::timestamp::Timestamp;

verus! {

/// Projects events from an event log.
///
/// A projector holds one or more segments, oldest first. Each segment
/// answers for the instants from its start up to the start of the next one,
/// and the last one for all instants from its start onward.
#[derive(Debug)]
pub struct Projector<T> {
    segments: Vec<Segment<T>>,
}

impl<T> View for Projector<T> {
    type V = Seq<SegmentView<T>>;

    closed spec fn view(&self) -> Seq<SegmentView<T>> {
        views_of(self.segments@)
    }
}

/// The events that a sequence of references points to.
pub open spec fn pointees<T>(refs: Seq<&Event<T>>) -> Seq<Event<T>> {
    Seq::new(refs.len(), |i: int| *refs[i])
}

/// What each of a sequence of segments holds.
pub open spec fn views_of<T>(segments: Seq<Segment<T>>) -> Seq<SegmentView<T>> {
    Seq::new(segments.len(), |i: int| segments[i]@)
}

/// One more reference points to one more event.
pub proof fn lemma_pointees_push<T>(refs: Seq<&Event<T>>, e: &Event<T>)
    ensures
        pointees(refs.push(e)) == pointees(refs).push(*e),
{
    assert(pointees(refs.push(e)) =~= pointees(refs).push(*e));
}

impl<T> Projector<T> {
    /// A projector always holds at least one segment. Every constructor
    /// yields such a projector and every method keeps it so.
    pub open spec fn wf(&self) -> bool {
        self@.len() > 0
    }
}

impl<T: Clone> Clone for Projector<T> {
    /// A copy of the projector; it holds what this one holds where a clone
    /// of an entity is equal to the entity.
    fn clone(&self) -> (p: Self)
        ensures
            exact_clone::<T>() ==> p@ == self@,
    {
        let segments = self.segments.clone();
        proof {
            if exact_clone::<T>() {
                assert forall|i: int| 0 <= i < segments@.len() implies segments@[i]@
                    == self.segments@[i]@ by {
                    assert(cloned(self.segments@[i], segments@[i]));
                }
                assert(views_of(segments@) =~= views_of(self.segments@));
            }
        }
        Projector { segments }
    }
}

impl<T: Clone + PartialEq> Default for Projector<T> {
    /// A new projector, as `new` makes it.
    fn default() -> (p: Self)
        ensures
            p.wf(),
            p@.len() == 1,
            p@[0].snapshot == Seq::<T>::empty(),
            p@[0].events == Seq::<Event<T>>::empty(),
            is_chronological(p@),
            is_consistent(p@),
    {
        Self::new()
    }
}

impl<T> std::ops::Deref for Projector<T> {
    type Target = Vec<Segment<T>>;

    /// Returns a reference to all segments held by this projector.
    fn deref(&self) -> (s: &Vec<Segment<T>>)
        ensures
            views_of(s@) == self@,
    {
        &self.segments
    }
}

impl<T: Clone + PartialEq> Projector<T> {
    /// Generates a new projector: one segment without history, starting at
    /// the current time.
    pub fn new() -> (p: Projector<T>)
        ensures
            p.wf(),
            p@.len() == 1,
            p@[0].snapshot == Seq::<T>::empty(),
            p@[0].events == Seq::<Event<T>>::empty(),
            is_chronological(p@),
            is_consistent(p@),
    {
        let mut segments = Vec::new();
        segments.push(Segment::new());
        let p = Projector { segments };
        proof {
            law_new_chain_is_valid::<T>(p@[0].start);
            assert(p@ =~= seq![
                SegmentView::<T> {
                    start: p@[0].start,
                    snapshot: Seq::empty(),
                    events: Seq::empty(),
                },
            ]);
        }
        p
    }

    /// Returns the current projection as a shared reference.
    pub fn get_projection(&self) -> (p: &Vec<T>)
        requires
            self.wf(),
        ensures
            p@ == self@.last().snapshot,
    {
        self.segments[self.segments.len() - 1].get_projection()
    }

    /// Finds the segment that answers for the instant `timestamp`: the last
    /// one that has started by then.
    pub fn get_latest_segment_pos(&self, timestamp: &Timestamp) -> (r: Option<usize>)
        ensures
            match owner_of(self@, *timestamp) {
                Some(i) => r is Some && r.unwrap() == i && i < self@.len(),
                None => r is None,
            },
    {
        let mut i: usize = self.segments.len();
        while i > 0
            invariant
                i <= self.segments.len(),
                forall|j: int| i <= j < self@.len() ==> !started_by(self@, *timestamp, j),
            decreases i,
        {
            i -= 1;
            if !self.segments[i].get_time().follows(timestamp) {
                proof {
                    lemma_owner_of_last(self@, *timestamp, i as int);
                }
                return Some(i);
            }
        }
        None
    }

    /// Pushes an event onto the latest segment, updating the projection.
    pub fn push(&mut self, event: Event<T>) -> (r: Result<(), StoreError>)
        requires
            old(self).wf(),
        ensures
            final(self).wf(),
            T::obeys_eq_spec() && exact_clone::<T>() ==> push_outcome(
                old(self)@,
                event,
                r,
                final(self)@,
            ),
            event.time()@ < old(self)@.last().start@ || event.time()@ < old(
                self,
            )@.last().latest()@ ==> r == Err::<(), StoreError>(StoreError::OutOfOrderEvent)
                && final(self)@ == old(self)@,
            final(self)@.drop_last() == old(self)@.drop_last(),
            T::obeys_eq_spec() && exact_clone::<T>() && is_chronological(old(self)@)
                ==> is_chronological(final(self)@),
            T::obeys_eq_spec() && exact_clone::<T>() && is_consistent(old(self)@) ==> is_consistent(
                final(self)@,
            ),
    {
        let last = self.segments.len() - 1;
        assert(self@.last() == self.segments[last as int]@);
        let r = self.segments[last].push(event);
        assert(self@ =~= old(self)@.update(last as int, self.segments[last as int]@));
        assert(self.segments[last as int]@ == old(self)@.last() ==> self@ =~= old(self)@);
        assert(self@.drop_last() =~= old(self)@.drop_last());
        proof {
            if T::obeys_eq_spec() && exact_clone::<T>() && r is Ok {
                law_push_keeps_invariants(old(self)@, event);
            }
        }
        r
    }

    /// Generates a projector from segments that were built elsewhere, oldest
    /// first. A projector needs at least one segment: without one there is
    /// `None`.
    pub fn from_segments(segments: Vec<Segment<T>>) -> (r: Option<Projector<T>>)
        ensures
            match r {
                Some(p) => p.wf() && p@ == views_of(segments@),
                None => segments@.len() == 0,
            },
            segments@.len() > 0 ==> r is Some,
    {
        if segments.len() == 0 {
            None
        } else {
            Some(Projector { segments })
        }
    }

    /// Performs a projection at the instant `timestamp`, starting from a
    /// copy of the snapshot of the segment before the one that answers for
    /// it, if there is one.
    pub fn project_at(&self, timestamp: &Timestamp) -> (r: Option<Vec<T>>)
        ensures
            owner_of(self@, *timestamp) is None ==> r is None,
            T::obeys_eq_spec() && exact_clone::<T>() ==> match projected_at(self@, *timestamp) {
                Some(p) => r is Some && r.unwrap()@ == p,
                None => r is None,
            },
    {
        let latest_segment_pos = match self.get_latest_segment_pos(timestamp) {
            Some(pos) => pos,
            None => {
                return None;
            },
        };
        let snapshot = if latest_segment_pos != 0 {
            let previous = self.segments[latest_segment_pos - 1].get_projection();
            let copy = previous.clone();
            assert(exact_clone::<T>() ==> copy@ =~= previous@);
            copy
        } else {
            Vec::new()
        };
        self.segments[latest_segment_pos].project_at_onto(timestamp, snapshot)
    }

    /// Makes a new snapshot of the projector by starting a new segment at
    /// the current time.
    pub fn make_snapshot(&mut self)
        requires
            old(self).wf(),
        ensures
            final(self).wf(),
            final(self)@.drop_last() == old(self)@,
            final(self)@.last().events == Seq::<Event<T>>::empty(),
            exact_clone::<T>() ==> final(self)@ == rolled_over(
                old(self)@,
                final(self)@.last().start,
            ),
            exact_clone::<T>() && is_consistent(old(self)@) ==> is_consistent(final(self)@),
            exact_clone::<T>() && is_chronological(old(self)@) && old(self)@.last().latest()@
                <= final(self)@.last().start@ ==> is_chronological(final(self)@),
    {
        self.make_snapshot_at(Timestamp::now());
    }

    /// Makes a new snapshot of the projector by starting a new segment at
    /// the instant `timestamp`.
    pub fn make_snapshot_at(&mut self, timestamp: Timestamp)
        requires
            old(self).wf(),
        ensures
            final(self).wf(),
            final(self)@.drop_last() == old(self)@,
            final(self)@.last().start == timestamp,
            final(self)@.last().events == Seq::<Event<T>>::empty(),
            exact_clone::<T>() ==> final(self)@ == rolled_over(old(self)@, timestamp),
            exact_clone::<T>() && is_consistent(old(self)@) ==> is_consistent(final(self)@),
            exact_clone::<T>() && is_chronological(old(self)@) && old(self)@.last().latest()@
                <= timestamp@ ==> is_chronological(final(self)@),
    {
        let latest_segment = &self.segments[self.segments.len() - 1];
        let copy = latest_segment.get_projection().clone();
        assert(exact_clone::<T>() ==> copy@ =~= latest_segment@.snapshot);
        let new_segment = Segment::from_parts(timestamp, copy, Vec::new());
        self.segments.push(new_segment);
        assert(self@.drop_last() =~= old(self)@);
        assert(exact_clone::<T>() ==> self@ =~= rolled_over(old(self)@, timestamp));
        proof {
            law_rollover_keeps_invariants(old(self)@, timestamp);
        }
    }

    /// Merges the segment that answers for the instant `timestamp` with the
    /// one before it, which thereby leaves the chain.
    pub fn merge_at(&mut self, timestamp: &Timestamp) -> (r: Result<(), StoreError>)
        requires
            old(self).wf(),
        ensures
            final(self).wf(),
            match merged_at(old(self)@, *timestamp) {
                Ok(s) => r is Ok && final(self)@ == s,
                Err(reason) => r == Err::<(), StoreError>(reason) && final(self)@ == old(self)@,
            },
            is_chronological(old(self)@) && is_consistent(old(self)@) ==> is_chronological(
                final(self)@,
            ) && is_consistent(final(self)@),
    {
        let latest_segment_pos = match self.get_latest_segment_pos(timestamp) {
            Some(pos) => pos,
            None => {
                return Err(StoreError::SegmentNotFound);
            },
        };
        if latest_segment_pos == 0 {
            return Err(StoreError::NoPrecedingSegment);
        }
        let predating_pos = latest_segment_pos - 1;
        match self.segments[latest_segment_pos].check_prepend(&self.segments[predating_pos]) {
            Ok(()) => {},
            Err(reason) => {
                return Err(reason);
            },
        }
        let predating_segment = self.segments.remove(predating_pos);
        self.segments[predating_pos].prepend_unchecked(predating_segment);
        assert(self@ =~= merged_at(old(self)@, *timestamp).unwrap());
        proof {
            if is_chronological(old(self)@) && is_consistent(old(self)@) {
                law_merge_keeps_invariants(old(self)@, *timestamp);
            }
        }
        Ok(())
    }

    /// Returns a reference to all segments held by this projector.
    pub fn get_segments(&self) -> (s: &Vec<Segment<T>>)
        ensures
            views_of(s@) == self@,
    {
        &self.segments
    }

    /// Returns references to the events from the instant `starting_date`
    /// onward: in the segment that answers for it, the last event that
    /// occurred at or before it and all that follow, and then every event
    /// of the later segments. The result is empty if `starting_date` lies
    /// before the store began or before every event of that segment.
    pub fn get_events_from(&self, starting_date: &Timestamp) -> (r: Vec<&Event<T>>)
        ensures
            pointees(r@) == events_from(self@, *starting_date),
    {
        let mut events: Vec<&Event<T>> = Vec::new();
        assert(pointees(events@) =~= Seq::<Event<T>>::empty());
        if let Some(latest_segment_pos) = self.get_latest_segment_pos(starting_date) {
            let containing_segment = &self.segments[latest_segment_pos];
            if let Some(position) = Self::last_position_until(
                containing_segment.get_events(),
                starting_date,
            ) {
                let log = containing_segment.get_events();
                let mut j: usize = position;
                while j < log.len()
                    invariant
                        position <= j <= log.len(),
                        pointees(events@) == log@.subrange(position as int, j as int),
                    decreases log.len() - j,
                {
                    proof {
                        lemma_pointees_push(events@, &log[j as int]);
                        assert(log@.subrange(position as int, j as int).push(log[j as int])
                            =~= log@.subrange(position as int, j + 1));
                    }
                    events.push(&log[j]);
                    j += 1;
                }
                let ghost head = log@.skip(position as int);
                assert(log@.subrange(position as int, log@.len() as int) =~= head);
                let ghost first = latest_segment_pos + 1;
                assert(self@.len() == self.segments.len());
                let mut s: usize = latest_segment_pos + 1;
                assert(self@.subrange(first, s as int) =~= Seq::<SegmentView<T>>::empty());
                assert(head + all_events(self@.subrange(first, s as int)) =~= head);
                while s < self.segments.len()
                    invariant
                        first == latest_segment_pos + 1,
                        first <= s <= self.segments.len(),
                        self.segments.len() == self@.len(),
                        pointees(events@) == head + all_events(
                            self@.subrange(first, s as int),
                        ),
                    decreases self.segments.len() - s,
                {
                    let log = self.segments[s].get_events();
                    let ghost before = pointees(events@);
                    let mut j: usize = 0;
                    while j < log.len()
                        invariant
                            j <= log.len(),
                            pointees(events@) == before + log@.take(j as int),
                        decreases log.len() - j,
                    {
                        proof {
                            lemma_pointees_push(events@, &log[j as int]);
                            assert((before + log@.take(j as int)).push(log[j as int]) =~= before
                                + log@.take(j + 1));
                        }
                        events.push(&log[j]);
                        j += 1;
                    }
                    proof {
                        assert(log@.take(log@.len() as int) =~= log@);
                        let longer = self@.subrange(first, s + 1);
                        assert(longer.drop_last() =~= self@.subrange(first, s as int));
                        assert(longer.last().events == log@);
                    }
                    s += 1;
                }
                assert(self@.subrange(first, s as int) =~= self@.subrange(
                    first,
                    self@.len() as int,
                ));
            }
        }
        events
    }

    /// Finds the last event of `log` that occurred at or before
    /// `timestamp`.
    fn last_position_until(log: &Vec<Event<T>>, timestamp: &Timestamp) -> (r: Option<usize>)
        ensures
            match last_due(log@, *timestamp) {
                Some(k) => r is Some && r.unwrap() == k && k < log@.len(),
                None => r is None,
            },
    {
        let mut i: usize = log.len();
        while i > 0
            invariant
                i <= log.len(),
                forall|j: int| i <= j < log@.len() ==> (#[trigger] log@[j]).time()@ > timestamp@,
            decreases i,
        {
            i -= 1;
            if !log[i].get_time().follows(timestamp) {
                proof {
                    lemma_last_due(log@, *timestamp, i as int);
                }
                return Some(i);
            }
        }
        None
    }
}

} // verus!
