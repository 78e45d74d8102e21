//! Events: the immutable records of change.
use vstd::prelude::*;
use std::cmp::Ordering;
use crate::timestamp::Timestamp;
use crate::typings::CRUD;

verus! {

/// What every event carries, whatever its kind.
#[derive(Debug)]
pub struct EventContent<T> {
    /// The moment in time the event occurred.
    pub timestamp: Timestamp,
    /// The entity after the event; for a delete, the entity as last known.
    pub data: T,
}

/// One atomic change to one entity.
#[derive(Debug)]
pub enum Event<T> {
    /// An entity is created.
    Create(EventContent<T>),
    /// An existing entity is changed.
    Update(EventContent<T>),
    /// An entity is deleted.
    Delete(EventContent<T>),
}

impl<T> EventContent<T> {
    /// The content of an event that occurred at `timestamp` and carries
    /// `data`.
    pub fn new(timestamp: Timestamp, data: T) -> (c: Self)
        ensures
            c == (EventContent { timestamp, data }),
    {
        EventContent { timestamp, data }
    }
}

impl<T: Clone> Clone for EventContent<T> {
    /// A copy with the same timestamp and a clone of the entity.
    fn clone(&self) -> (c: Self)
        ensures
            c.timestamp == self.timestamp,
            cloned(self.data, c.data),
    {
        EventContent { timestamp: self.timestamp, data: self.data.clone() }
    }
}

impl<T: Clone> Clone for Event<T> {
    /// A copy of the same kind, with the same timestamp and a clone of the
    /// entity.
    fn clone(&self) -> (e: Self)
        ensures
            e.kind() == self.kind(),
            e.time() == self.time(),
            cloned(self.payload(), e.payload()),
    {
        match self {
            Event::Create(c) => Event::Create(c.clone()),
            Event::Update(c) => Event::Update(c.clone()),
            Event::Delete(c) => Event::Delete(c.clone()),
        }
    }
}

impl<T> PartialEq for Event<T> {
    /// Two events are equal in order if they occurred at the same instant,
    /// whatever they carry.
    fn eq(&self, other: &Self) -> (r: bool) {
        *self.get_time() == *other.get_time()
    }
}

impl<T> vstd::std_specs::cmp::PartialEqSpecImpl for Event<T> {
    open spec fn obeys_eq_spec() -> bool {
        true
    }

    open spec fn eq_spec(&self, other: &Self) -> bool {
        self.time() == other.time()
    }
}

impl<T> PartialOrd for Event<T> {
    /// Events are ordered by the instants at which they occurred.
    fn partial_cmp(&self, other: &Self) -> (r: Option<Ordering>) {
        Some(self.compare(other))
    }
}

impl<T> vstd::std_specs::cmp::PartialOrdSpecImpl for Event<T> {
    open spec fn obeys_partial_cmp_spec() -> bool {
        true
    }

    open spec fn partial_cmp_spec(&self, other: &Self) -> Option<Ordering> {
        if self.time()@ < other.time()@ {
            Some(Ordering::Less)
        } else if self.time()@ > other.time()@ {
            Some(Ordering::Greater)
        } else {
            Some(Ordering::Equal)
        }
    }
}

impl<T> std::ops::Deref for Event<T> {
    type Target = T;

    /// An event stands for the entity it carries.
    fn deref(&self) -> (data: &T)
        ensures
            *data == self.payload(),
    {
        self.borrow()
    }
}

impl<T> Event<T> {
    /// What the event carries.
    pub open spec fn content(self) -> EventContent<T> {
        match self {
            Event::Create(c) => c,
            Event::Update(c) => c,
            Event::Delete(c) => c,
        }
    }

    /// The kind of change the event records.
    pub open spec fn kind(self) -> CRUD {
        match self {
            Event::Create(_) => CRUD::Create,
            Event::Update(_) => CRUD::Update,
            Event::Delete(_) => CRUD::Delete,
        }
    }

    /// The instant at which the event occurred.
    pub open spec fn time(self) -> Timestamp {
        self.content().timestamp
    }

    /// The entity the event carries.
    pub open spec fn payload(self) -> T {
        self.content().data
    }

    /// Constructs a new create event, stamped with the current time.
    pub fn create(data: T) -> (e: Self)
        ensures
            e == Event::Create(EventContent { timestamp: e.time(), data }),
    {
        Event::Create(EventContent::new(Timestamp::now(), data))
    }

    /// Constructs a new update event, stamped with the current time.
    pub fn update(data: T) -> (e: Self)
        ensures
            e == Event::Update(EventContent { timestamp: e.time(), data }),
    {
        Event::Update(EventContent::new(Timestamp::now(), data))
    }

    /// Constructs a new delete event, stamped with the current time.
    pub fn delete(data: T) -> (e: Self)
        ensures
            e == Event::Delete(EventContent { timestamp: e.time(), data }),
    {
        Event::Delete(EventContent::new(Timestamp::now(), data))
    }

    /// The kind of change the event records.
    pub fn operation(&self) -> (k: CRUD)
        ensures
            k == self.kind(),
    {
        match self {
            Event::Create(_) => CRUD::Create,
            Event::Update(_) => CRUD::Update,
            Event::Delete(_) => CRUD::Delete,
        }
    }

    /// Borrow the contained data.
    pub fn borrow(&self) -> (data: &T)
        ensures
            *data == self.payload(),
    {
        match self {
            Event::Create(c) => &c.data,
            Event::Update(c) => &c.data,
            Event::Delete(c) => &c.data,
        }
    }

    /// Borrow the date of the event.
    pub fn get_time(&self) -> (t: &Timestamp)
        ensures
            *t == self.time(),
    {
        match self {
            Event::Create(c) => &c.timestamp,
            Event::Update(c) => &c.timestamp,
            Event::Delete(c) => &c.timestamp,
        }
    }

    /// Compare two events based on their timestamps alone: events that
    /// occurred at the same instant are equal in this order, whatever they
    /// carry.
    pub fn compare(&self, other: &Self) -> (o: Ordering)
        ensures
            o == Ordering::Less <==> self.time()@ < other.time()@,
            o == Ordering::Greater <==> self.time()@ > other.time()@,
            o == Ordering::Equal <==> self.time() == other.time(),
    {
        let t1 = self.get_time();
        let t2 = other.get_time();
        if t1.precedes(t2) {
            Ordering::Less
        } else if t1.follows(t2) {
            Ordering::Greater
        } else {
            Ordering::Equal
        }
    }

    /// Consumes the event, returning the contained data.
    pub fn take(self) -> (data: T)
        ensures
            data == self.payload(),
    {
        match self {
            Event::Create(c) => c.data,
            Event::Update(c) => c.data,
            Event::Delete(c) => c.data,
        }
    }
}

} // verus!
