//! Repositories: plain create, update and delete calls on top of a
//! projector.
use vstd::prelude::*;
use vstd::std_specs::cmp::PartialEqSpec;
use crate::error::StoreError;
use crate::event::{Event, EventContent};
use crate::projection::exact_clone;
use crate::chain::{base_of, is_chronological, is_consistent, projected_at, push_outcome};
use crate::laws::law_accept_keeps_segment;
use crate::projector::{views_of, Projector};
use crate::segment::{Segment, SegmentView};
use crate::timestamp::Timestamp;

verus! {

/// The `Repository` struct uses a [`Projector`] internally, offering simple
/// create, update and delete methods in place of events that the user makes
/// and manages.
pub struct Repository<T> {
    projector: Projector<T>,
}

impl<T> View for Repository<T> {
    type V = Seq<SegmentView<T>>;

    closed spec fn view(&self) -> Seq<SegmentView<T>> {
        self.projector@
    }
}

/// The segment that starts at `start` without history and then takes in
/// the events of `log` one by one, or the reason for which the first event
/// that it refuses is refused.
pub open spec fn admitted<T: PartialEq>(start: Timestamp, log: Seq<Event<T>>) -> Result<
    SegmentView<T>,
    StoreError,
>
    decreases log.len(),
{
    if log.len() == 0 {
        Ok(SegmentView { start, snapshot: Seq::empty(), events: Seq::empty() })
    } else {
        match admitted(start, log.drop_last()) {
            Ok(s) => s.accepted(log.last()),
            Err(reason) => Err(reason),
        }
    }
}

/// Once a log is refused, every longer log that begins with it is refused
/// for the same reason.
pub proof fn lemma_admitted_prefix_fails<T: PartialEq>(
    start: Timestamp,
    log: Seq<Event<T>>,
    i: int,
)
    requires
        0 <= i <= log.len(),
        admitted(start, log.take(i)) is Err,
    ensures
        admitted(start, log) == admitted(start, log.take(i)),
    decreases log.len(),
{
    if i == log.len() {
        assert(log.take(i) =~= log);
    } else {
        assert(log.drop_last().take(i) =~= log.take(i));
        lemma_admitted_prefix_fails(start, log.drop_last(), i);
    }
}

/// A segment that took in a whole log, one event after the other, is
/// ordered, and its snapshot is what the log makes of nothing.
pub proof fn lemma_admitted_is_valid<T: PartialEq>(start: Timestamp, log: Seq<Event<T>>)
    requires
        admitted(start, log) is Ok,
    ensures
        admitted(start, log).unwrap().start == start,
        admitted(start, log).unwrap().events == log,
        admitted(start, log).unwrap().is_ordered(),
        admitted(start, log).unwrap().continues(Seq::<T>::empty()),
    decreases log.len(),
{
    if log.len() > 0 {
        lemma_admitted_is_valid(start, log.drop_last());
        let before = admitted(start, log.drop_last()).unwrap();
        law_accept_keeps_segment(before, log.last(), Seq::<T>::empty());
        assert(log.drop_last().push(log.last()) =~= log);
    }
}

impl<T> Repository<T> {
    /// A repository always holds at least one segment.
    pub open spec fn wf(&self) -> bool {
        self@.len() > 0
    }
}

impl<T: Clone + PartialEq> Repository<T> {
    /// Constructs a new `Repository` with a given event log (may be
    /// empty).
    ///
    /// The repository begins at the instant of the first event of the log,
    /// or at the current time if the log is empty, and takes in the events
    /// in order. A log with an event that the store refuses yields the
    /// reason for which the first such event is refused.
    pub fn new(event_log: Vec<Event<T>>) -> (r: Result<Repository<T>, StoreError>)
        ensures
            event_log@.len() == 0 ==> r is Ok && r.unwrap()@.len() == 1 && r.unwrap()@[0].snapshot
                == Seq::<T>::empty() && r.unwrap()@[0].events == Seq::<Event<T>>::empty(),
            event_log@.len() > 0 && T::obeys_eq_spec() && exact_clone::<T>() ==> match admitted(
                event_log@[0].time(),
                event_log@,
            ) {
                Ok(s) => r is Ok && r.unwrap()@ == seq![s],
                Err(reason) => r matches Err(e) && e == reason,
            },
            r matches Ok(repository) ==> repository.wf(),
            T::obeys_eq_spec() && exact_clone::<T>() ==> (r matches Ok(repository)
                ==> is_chronological(repository@) && is_consistent(repository@)),
    {
        let n = event_log.len();
        let mut segment = if n > 0 {
            Segment::from_parts(*event_log[0].get_time(), Vec::new(), Vec::new())
        } else {
            Segment::new()
        };
        let ghost start = segment@.start;
        let ghost faithful = T::obeys_eq_spec() && exact_clone::<T>();
        let mut i: usize = 0;
        assert(event_log@.take(0) =~= Seq::<Event<T>>::empty());
        while i < n
            invariant
                faithful == (T::obeys_eq_spec() && exact_clone::<T>()),
                n == event_log@.len(),
                i <= n,
                n > 0 ==> start == event_log@[0].time(),
                segment@.start == start,
                n == 0 ==> segment@.snapshot == Seq::<T>::empty() && segment@.events == Seq::<
                    Event<T>,
                >::empty(),
                faithful ==> admitted(start, event_log@.take(i as int)) == Ok::<
                    SegmentView<T>,
                    StoreError,
                >(segment@),
            decreases n - i,
        {
            let event = event_log[i].clone();
            assert(faithful ==> event == event_log@[i as int]);
            proof {
                assert(event_log@.take(i + 1).drop_last() =~= event_log@.take(i as int));
            }
            match segment.push(event) {
                Ok(()) => {},
                Err(reason) => {
                    proof {
                        if faithful {
                            lemma_admitted_prefix_fails(start, event_log@, i + 1);
                        }
                    }
                    return Err(reason);
                },
            }
            i += 1;
        }
        assert(event_log@.take(n as int) =~= event_log@);
        proof {
            if faithful {
                lemma_admitted_is_valid(start, event_log@);
                assert(base_of(seq![segment@], 0) == Seq::<T>::empty());
            }
        }
        let mut segments = Vec::new();
        segments.push(segment);
        assert(views_of(segments@) =~= seq![segment@]);
        Ok(Repository { projector: Projector::from_segments(segments).unwrap() })
    }

    /// Creates a new entity, at the current time.
    pub fn create(&mut self, entity: T) -> (r: Result<(), StoreError>)
        requires
            old(self).wf(),
        ensures
            final(self).wf(),
            T::obeys_eq_spec() && exact_clone::<T>() ==> exists|t: Timestamp| #[trigger]
                push_outcome(
                    old(self)@,
                    Event::Create(EventContent { timestamp: t, data: entity }),
                    r,
                    final(self)@,
                ),
            T::obeys_eq_spec() && exact_clone::<T>() && is_chronological(old(self)@)
                ==> is_chronological(final(self)@),
            T::obeys_eq_spec() && exact_clone::<T>() && is_consistent(old(self)@) ==> is_consistent(
                final(self)@,
            ),
    {
        let event = Event::create(entity);
        let ghost t = event.time();
        let r = self.projector.push(event);
        assert(T::obeys_eq_spec() && exact_clone::<T>() ==> push_outcome(
            old(self)@,
            Event::Create(EventContent { timestamp: t, data: entity }),
            r,
            self@,
        ));
        r
    }

    /// Mutates an existing entity, at the current time.
    pub fn update(&mut self, entity: T) -> (r: Result<(), StoreError>)
        requires
            old(self).wf(),
        ensures
            final(self).wf(),
            T::obeys_eq_spec() && exact_clone::<T>() ==> exists|t: Timestamp| #[trigger]
                push_outcome(
                    old(self)@,
                    Event::Update(EventContent { timestamp: t, data: entity }),
                    r,
                    final(self)@,
                ),
            T::obeys_eq_spec() && exact_clone::<T>() && is_chronological(old(self)@)
                ==> is_chronological(final(self)@),
            T::obeys_eq_spec() && exact_clone::<T>() && is_consistent(old(self)@) ==> is_consistent(
                final(self)@,
            ),
    {
        let event = Event::update(entity);
        let ghost t = event.time();
        let r = self.projector.push(event);
        assert(T::obeys_eq_spec() && exact_clone::<T>() ==> push_outcome(
            old(self)@,
            Event::Update(EventContent { timestamp: t, data: entity }),
            r,
            self@,
        ));
        r
    }

    /// Deletes an entity, at the current time.
    pub fn delete(&mut self, entity: T) -> (r: Result<(), StoreError>)
        requires
            old(self).wf(),
        ensures
            final(self).wf(),
            T::obeys_eq_spec() && exact_clone::<T>() ==> exists|t: Timestamp| #[trigger]
                push_outcome(
                    old(self)@,
                    Event::Delete(EventContent { timestamp: t, data: entity }),
                    r,
                    final(self)@,
                ),
            T::obeys_eq_spec() && exact_clone::<T>() && is_chronological(old(self)@)
                ==> is_chronological(final(self)@),
            T::obeys_eq_spec() && exact_clone::<T>() && is_consistent(old(self)@) ==> is_consistent(
                final(self)@,
            ),
    {
        let event = Event::delete(entity);
        let ghost t = event.time();
        let r = self.projector.push(event);
        assert(T::obeys_eq_spec() && exact_clone::<T>() ==> push_outcome(
            old(self)@,
            Event::Delete(EventContent { timestamp: t, data: entity }),
            r,
            self@,
        ));
        r
    }

    /// Returns the latest projection.
    pub fn get_projection(&self) -> (p: &Vec<T>)
        requires
            self.wf(),
        ensures
            p@ == self@.last().snapshot,
    {
        self.projector.get_projection()
    }

    /// Generates a new projection at a specified moment in time.
    pub fn project_at(&self, at: &Timestamp) -> (r: Option<Vec<T>>)
        ensures
            T::obeys_eq_spec() && exact_clone::<T>() ==> match projected_at(self@, *at) {
                Some(p) => r is Some && r.unwrap()@ == p,
                None => r is None,
            },
    {
        self.projector.project_at(at)
    }

    /// Persists the segments of the repository using a given persistence
    /// strategy, and hands back what the strategy returns.
    pub fn persist_data<R, F: FnOnce(&Vec<Segment<T>>) -> R>(&mut self, persist_fn: F) -> (r: R)
        requires
            forall|segments: &Vec<Segment<T>>|
                views_of(segments@) == old(self)@ ==> #[trigger] persist_fn.requires((segments,)),
        ensures
            final(self)@ == old(self)@,
            exists|segments: &Vec<Segment<T>>|
                views_of(segments@) == old(self)@ && #[trigger] persist_fn.ensures(
                    (segments,),
                    r,
                ),
    {
        persist_fn(self.projector.get_segments())
    }
}

} // verus!
