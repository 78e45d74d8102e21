//! The ways in which the store turns a request down.
use vstd::prelude::*;

verus! {

/// Why an operation on a segment or a projector was rejected.
///
/// A rejected operation leaves the store exactly as it was.
#[derive(Clone, Copy, PartialEq, Eq, Structural, Debug)]
pub enum StoreError {
    /// The event is older than the segment, or older than the newest event
    /// the segment already holds.
    OutOfOrderEvent,
    /// A create event names an entity that the projection already holds.
    DuplicateCreate,
    /// An update or delete event names an entity that the projection lacks.
    MissingEntity,
    /// A merge was asked for the first segment, which has nothing before it.
    NoPrecedingSegment,
    /// No segment covers the requested instant: it lies before the store
    /// began.
    SegmentNotFound,
    /// The segment to merge starts before the history it should follow ends.
    OverlappingSegments,
    /// The two event logs together hold more events than can be counted.
    TooManyEvents,
}

impl StoreError {
    /// What went wrong, in a sentence.
    pub open spec fn text(self) -> Seq<char> {
        match self {
            StoreError::OutOfOrderEvent =>
                "Cannot accept events predating the segment or its latest logged event"@,
            StoreError::DuplicateCreate => "Cannot create pre-existing data"@,
            StoreError::MissingEntity => "Cannot modify or delete non-existent data"@,
            StoreError::NoPrecedingSegment => "Cannot find a preceding segment"@,
            StoreError::SegmentNotFound =>
                "Cannot find segment containing the requested timestamp"@,
            StoreError::OverlappingSegments =>
                "Cannot prepend another segment if this one predates it"@,
            StoreError::TooManyEvents => "Cannot merge segments exceeding usize"@,
        }
    }

    /// What went wrong, in a sentence.
    pub fn message(&self) -> (m: &'static str)
        ensures
            m@ == self.text(),
    {
        match self {
            StoreError::OutOfOrderEvent =>
                "Cannot accept events predating the segment or its latest logged event",
            StoreError::DuplicateCreate => "Cannot create pre-existing data",
            StoreError::MissingEntity => "Cannot modify or delete non-existent data",
            StoreError::NoPrecedingSegment => "Cannot find a preceding segment",
            StoreError::SegmentNotFound =>
                "Cannot find segment containing the requested timestamp",
            StoreError::OverlappingSegments =>
                "Cannot prepend another segment if this one predates it",
            StoreError::TooManyEvents => "Cannot merge segments exceeding usize",
        }
    }
}

} // verus!
