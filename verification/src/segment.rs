//! Segments: a run of events and the projection they lead to.
use vstd::prelude::*;
use vstd::std_specs::cmp::PartialEqSpec;
use crate::error::StoreError;
use crate::event::Event;
use crate::laws::{law_accept_keeps_segment, law_join_keeps_order};
use crate::projection::{
    applied, exact_clone, find_position, holds, due_count, is_due_count, lemma_due_count,
    lemma_due_count_unique, lemma_replayed_prefix_fails, replayed, replayed_until,
};
use crate::timestamp::Timestamp;

verus! {

/// A part of an event log.
///
/// A segment holds the events that occurred from its start onward and the
/// projection that results from them, its snapshot. Starting a new segment
/// freezes the snapshot of the one before it, so that an earlier state can
/// be rebuilt without replaying the whole log.
#[derive(Debug)]
pub struct Segment<T> {
    /// The earliest instant this segment answers for.
    timestamp: Timestamp,
    /// The latest projection of this segment.
    snapshot: Vec<T>,
    /// The event log of this segment.
    events: Vec<Event<T>>,
}

/// What a segment holds, as plain values.
#[verifier::ext_equal]
pub struct SegmentView<T> {
    /// The earliest instant the segment answers for.
    pub start: Timestamp,
    /// The projection after all events of the segment.
    pub snapshot: Seq<T>,
    /// The events of the segment, oldest first.
    pub events: Seq<Event<T>>,
}

impl<T> View for Segment<T> {
    type V = SegmentView<T>;

    closed spec fn view(&self) -> SegmentView<T> {
        SegmentView { start: self.timestamp, snapshot: self.snapshot@, events: self.events@ }
    }
}

impl<T: Clone> Clone for Segment<T> {
    /// A copy of the segment; it holds what this one holds where a clone
    /// of an entity is equal to the entity.
    fn clone(&self) -> (s: Self)
        ensures
            exact_clone::<T>() ==> s@ == self@,
    {
        let snapshot = self.snapshot.clone();
        let events = self.events.clone();
        proof {
            if exact_clone::<T>() {
                assert(snapshot@ =~= self.snapshot@);
                assert forall|i: int| 0 <= i < events@.len() implies events@[i]
                    == self.events@[i] by {
                    assert(cloned(self.events@[i], events@[i]));
                    assert(cloned(self.events@[i].payload(), events@[i].payload()));
                }
                assert(events@ =~= self.events@);
            }
        }
        Segment { timestamp: self.timestamp, snapshot, events }
    }
}

impl<T> SegmentView<T> {
    /// No event is older than the segment, and none is older than an event
    /// that stands before it.
    pub open spec fn is_ordered(self) -> bool {
        &&& forall|i: int|
            0 <= i < self.events.len() ==> self.start@ <= (#[trigger] self.events[i]).time()@
        &&& forall|i: int, j: int|
            0 <= i <= j < self.events.len() ==> (#[trigger] self.events[i]).time()@ <= (
            #[trigger] self.events[j]).time()@
    }

    /// The instant up to which the segment has recorded history: that of
    /// its newest event, or its start if it has none.
    pub open spec fn latest(self) -> Timestamp {
        if self.events.len() > 0 {
            self.events.last().time()
        } else {
            self.start
        }
    }
}

impl<T: PartialEq> SegmentView<T> {
    /// The snapshot is what the events make of the projection `base`.
    pub open spec fn continues(self, base: Seq<T>) -> bool {
        replayed(base, self.events) == Some(self.snapshot)
    }

    /// The projection as of instant `t`, starting from `base`; `None` if
    /// `t` lies before the segment or the events do not replay.
    pub open spec fn projected_onto(self, t: Timestamp, base: Seq<T>) -> Option<Seq<T>> {
        if t@ < self.start@ {
            None
        } else {
            replayed_until(base, self.events, t)
        }
    }

    /// The segment after taking in the event `e`, or the reason it is
    /// refused.
    pub open spec fn accepted(self, e: Event<T>) -> Result<SegmentView<T>, StoreError> {
        if e.time()@ < self.start@ || e.time()@ < self.latest()@ {
            Err(StoreError::OutOfOrderEvent)
        } else {
            match applied(self.snapshot, e) {
                Ok(snapshot) => Ok(
                    SegmentView { start: self.start, snapshot, events: self.events.push(e) },
                ),
                Err(reason) => Err(reason),
            }
        }
    }

    /// The segment with the history of `other` put before its own.
    pub open spec fn joined_after(self, other: SegmentView<T>) -> SegmentView<T> {
        SegmentView {
            start: other.start,
            snapshot: self.snapshot,
            events: other.events + self.events,
        }
    }

    /// The segment after merging the earlier segment `other` into it, or the
    /// reason the merge is refused.
    pub open spec fn prepended(self, other: SegmentView<T>) -> Result<SegmentView<T>, StoreError> {
        if self.events.len() + other.events.len() > usize::MAX {
            Err(StoreError::TooManyEvents)
        } else if self.start@ < other.latest()@ {
            Err(StoreError::OverlappingSegments)
        } else {
            Ok(self.joined_after(other))
        }
    }
}

impl<T: Clone + PartialEq> Segment<T> {
    /// Creates a new segment.
    ///
    /// The new segment starts at the current time and has no history.
    pub fn new() -> (s: Segment<T>)
        ensures
            s@.snapshot == Seq::<T>::empty(),
            s@.events == Seq::<Event<T>>::empty(),
    {
        Self::from_projection(Vec::new(), Vec::new())
    }

    /// Creates a segment from a given projection and event log, starting at
    /// the current time.
    pub fn from_projection(projection: Vec<T>, events: Vec<Event<T>>) -> (s: Segment<T>)
        ensures
            s@.snapshot == projection@,
            s@.events == events@,
    {
        Self::from_parts(Timestamp::now(), projection, events)
    }

    /// Creates a segment from a given projection and event log, starting at
    /// the instant `timestamp`.
    pub fn from_parts(timestamp: Timestamp, projection: Vec<T>, events: Vec<Event<T>>) -> (s:
        Segment<T>)
        ensures
            s@ == (SegmentView { start: timestamp, snapshot: projection@, events: events@ }),
    {
        Segment { timestamp, snapshot: projection, events }
    }

    /// Returns a shared reference to the timestamp of this segment.
    pub fn get_time(&self) -> (t: &Timestamp)
        ensures
            *t == self@.start,
    {
        &self.timestamp
    }

    /// Returns the current projection.
    pub fn get_projection(&self) -> (p: &Vec<T>)
        ensures
            p@ == self@.snapshot,
    {
        &self.snapshot
    }

    /// Returns the event log of this segment.
    pub fn get_events(&self) -> (e: &Vec<Event<T>>)
        ensures
            e@ == self@.events,
    {
        &self.events
    }

    /// Projects the events of this segment that occurred up to and
    /// including `timestamp` onto a given snapshot.
    pub fn project_at_onto(&self, timestamp: &Timestamp, snapshot: Vec<T>) -> (r: Option<Vec<T>>)
        ensures
            timestamp@ < self@.start@ ==> r is None,
            T::obeys_eq_spec() && exact_clone::<T>() ==> match self@.projected_onto(
                *timestamp,
                snapshot@,
            ) {
                Some(p) => r is Some && r.unwrap()@ == p,
                None => r is None,
            },
    {
        if timestamp.precedes(&self.timestamp) {
            return None;
        }
        let ghost faithful = T::obeys_eq_spec() && exact_clone::<T>();
        let ghost base = snapshot@;
        let mut projection = snapshot;
        let mut i: usize = 0;
        proof {
            lemma_due_count(self.events@, *timestamp);
            assert(self.events@.take(0) =~= Seq::<Event<T>>::empty());
        }
        while i < self.events.len()
            invariant_except_break
                faithful ==> replayed(base, self.events@.take(i as int)) == Some(projection@),
            invariant
                faithful == (T::obeys_eq_spec() && exact_clone::<T>()),
                base == snapshot@,
                self@.start@ <= timestamp@,
                i <= self.events.len(),
                forall|k: int| 0 <= k < i ==> (#[trigger] self.events@[k]).time()@ <= timestamp@,
                is_due_count(self.events@, *timestamp, due_count(self.events@, *timestamp)),
            ensures
                faithful ==> replayed_until(base, self.events@, *timestamp) == Some(projection@),
            decreases self.events.len() - i,
        {
            let event = &self.events[i];
            if event.get_time().follows(timestamp) {
                proof {
                    lemma_due_count_unique(self.events@, *timestamp, i as int);
                }
                break;
            }
            let copy = event.clone();
            assert(faithful ==> copy == *event);
            proof {
                assert(self.events@.take(i + 1).drop_last() =~= self.events@.take(i as int));
                assert(self.events@.take(i + 1).last() == *event);
            }
            match Self::apply_event_to(&mut projection, copy) {
                Ok(()) => {},
                Err(_) => {
                    proof {
                        let n = due_count(self.events@, *timestamp);
                        if n <= i {
                            assert(self.events@[n].time()@ <= timestamp@);
                        }
                        if faithful {
                            lemma_replayed_prefix_fails(base, self.events@, i + 1, n);
                        }
                    }
                    return None;
                },
            }
            i += 1;
            proof {
                if i == self.events.len() {
                    lemma_due_count_unique(self.events@, *timestamp, i as int);
                }
            }
        }
        Some(projection)
    }

    /// Applies an event to the snapshot of this segment and appends it to
    /// the log, after checking that it is not older than the segment or its
    /// newest event.
    pub fn push(&mut self, event: Event<T>) -> (r: Result<(), StoreError>)
        ensures
            T::obeys_eq_spec() && exact_clone::<T>() ==> match old(self)@.accepted(event) {
                Ok(s) => r is Ok && final(self)@ == s,
                Err(reason) => r == Err::<(), StoreError>(reason) && final(self)@ == old(self)@,
            },
            event.time()@ < old(self)@.start@ || event.time()@ < old(self)@.latest()@ ==> r
                == Err::<(), StoreError>(StoreError::OutOfOrderEvent) && final(self)@ == old(
                self,
            )@,
            final(self)@.start == old(self)@.start,
            T::obeys_eq_spec() && exact_clone::<T>() && old(self)@.is_ordered()
                ==> final(self)@.is_ordered(),
    {
        if event.get_time().precedes(&self.timestamp) {
            return Err(StoreError::OutOfOrderEvent);
        }
        let n = self.events.len();
        if n > 0 {
            if event.get_time().precedes(self.events[n - 1].get_time()) {
                return Err(StoreError::OutOfOrderEvent);
            }
        }
        proof {
            if old(self)@.accepted(event) is Ok {
                law_accept_keeps_segment(old(self)@, event, Seq::<T>::empty());
            }
        }
        self.push_unchecked(event)
    }

    /// Applies an event to the snapshot of this segment and appends it to
    /// the log, whatever its timestamp.
    fn push_unchecked(&mut self, event: Event<T>) -> (r: Result<(), StoreError>)
        ensures
            final(self)@.start == old(self)@.start,
            T::obeys_eq_spec() && exact_clone::<T>() ==> match applied(
                old(self)@.snapshot,
                event,
            ) {
                Ok(s) => r is Ok && final(self)@.snapshot == s && final(self)@.events == old(
                    self,
                )@.events.push(event),
                Err(reason) => r == Err::<(), StoreError>(reason) && final(self)@ == old(self)@,
            },
    {
        let copy = event.clone();
        assert(exact_clone::<T>() ==> copy == event);
        match self.apply_event(copy) {
            Ok(()) => {
                self.events.push(event);
                Ok(())
            },
            Err(reason) => Err(reason),
        }
    }

    /// Changes the snapshot of this segment to reflect the event.
    fn apply_event(&mut self, event: Event<T>) -> (r: Result<(), StoreError>)
        ensures
            final(self)@.start == old(self)@.start,
            final(self)@.events == old(self)@.events,
            T::obeys_eq_spec() ==> match applied(old(self)@.snapshot, event) {
                Ok(s) => r is Ok && final(self)@.snapshot == s,
                Err(reason) => r == Err::<(), StoreError>(reason) && final(self)@ == old(self)@,
            },
    {
        Self::apply_event_to(&mut self.snapshot, event)
    }

    /// Changes a given snapshot to reflect the event: the rule by which a
    /// projection moves from one state to the next.
    ///
    /// The event is checked before anything is changed, so a refused event
    /// leaves the snapshot as it was.
    pub fn apply_event_to(snapshot: &mut Vec<T>, event: Event<T>) -> (r: Result<(), StoreError>)
        ensures
            T::obeys_eq_spec() ==> match applied(old(snapshot)@, event) {
                Ok(s) => r is Ok && final(snapshot)@ == s,
                Err(reason) => r == Err::<(), StoreError>(reason) && final(snapshot)@ == old(
                    snapshot,
                )@,
            },
            T::obeys_eq_spec() && event is Create && holds(old(snapshot)@, event.payload()) ==> r
                == Err::<(), StoreError>(StoreError::DuplicateCreate) && final(snapshot)@ == old(
                snapshot,
            )@,
            T::obeys_eq_spec() && !(event is Create) && !holds(old(snapshot)@, event.payload())
                ==> r == Err::<(), StoreError>(StoreError::MissingEntity) && final(snapshot)@
                == old(snapshot)@,
            r is Err ==> final(snapshot)@ == old(snapshot)@,
    {
        let prev_position = find_position(snapshot, event.borrow());
        match event {
            Event::Create(content) => {
                if prev_position.is_some() {
                    return Err(StoreError::DuplicateCreate);
                }
                snapshot.push(content.data);
                Ok(())
            },
            Event::Update(content) => {
                if let Some(index) = prev_position {
                    snapshot.set(index, content.data);
                    Ok(())
                } else {
                    Err(StoreError::MissingEntity)
                }
            },
            Event::Delete(_) => {
                if let Some(index) = prev_position {
                    snapshot.remove(index);
                    Ok(())
                } else {
                    Err(StoreError::MissingEntity)
                }
            },
        }
    }

    /// Tells whether `other` can be merged into this segment: `Ok` if it
    /// can, else the reason for which `prepend` would refuse.
    pub fn check_prepend(&self, other: &Self) -> (r: Result<(), StoreError>)
        ensures
            match self@.prepended(other@) {
                Ok(_) => r is Ok,
                Err(reason) => r == Err::<(), StoreError>(reason),
            },
    {
        if self.events.len().checked_add(other.events.len()).is_none() {
            return Err(StoreError::TooManyEvents);
        }
        let m = other.events.len();
        let other_latest = if m > 0 {
            other.events[m - 1].get_time()
        } else {
            other.get_time()
        };
        if self.get_time().precedes(other_latest) {
            return Err(StoreError::OverlappingSegments);
        }
        Ok(())
    }

    /// Merges two consecutive segments by putting the history of `other`
    /// before that of this one, after checking that `other` ends before this
    /// segment starts.
    pub fn prepend(&mut self, other: Self) -> (r: Result<(), StoreError>)
        ensures
            match old(self)@.prepended(other@) {
                Ok(s) => r is Ok && final(self)@ == s,
                Err(reason) => r == Err::<(), StoreError>(reason) && final(self)@ == old(self)@,
            },
            old(self)@.is_ordered() && other@.is_ordered() ==> final(self)@.is_ordered(),
    {
        proof {
            if old(self)@.prepended(other@) is Ok && old(self)@.is_ordered()
                && other@.is_ordered() {
                law_join_keeps_order(old(self)@, other@);
            }
        }
        match self.check_prepend(&other) {
            Ok(()) => {
                self.prepend_unchecked(other);
                Ok(())
            },
            Err(reason) => Err(reason),
        }
    }

    /// Merges two consecutive segments by putting the history of `other`
    /// before that of this one, whether or not `other` ends before this
    /// segment starts.
    pub fn prepend_unchecked(&mut self, other: Self)
        requires
            old(self)@.events.len() + other@.events.len() <= usize::MAX,
        ensures
            final(self)@ == old(self)@.joined_after(other@),
    {
        let mut other = other;
        other.events.append(&mut self.events);
        self.events = other.events;
        self.timestamp = other.timestamp;
    }
}

} // verus!
