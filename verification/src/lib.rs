//! Versioned storage of entities by event sourcing.
//!
//! Every change to a collection of entities is recorded as a timestamped
//! create, update or delete [`Event`]. A [`Segment`] holds a run of events
//! together with the projection they lead to, and a [`Projector`] chains
//! segments so that the state at any past instant can be rebuilt from the
//! nearest snapshot instead of from the beginning of the log. A
//! [`Repository`] wraps a projector behind plain create, update and delete
//! calls.
pub mod chain;
pub mod error;
pub mod event;
pub mod laws;
pub mod projection;
pub mod projector;
pub mod repository;
pub mod segment;
pub mod table;
pub mod timestamp;
pub mod typings;

pub use error::StoreError;
pub use event::{Event, EventContent};
pub use projector::Projector;
pub use repository::Repository;
pub use segment::{Segment, SegmentView};
pub use timestamp::Timestamp;
pub use typings::CRUD;
