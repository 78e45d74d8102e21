//! Plain tags shared by the rest of the crate.
use vstd::prelude::*;

verus! {

/// The kind of change an event records.
#[derive(Clone, Copy, PartialEq, Eq, Structural, Debug)]
pub enum CRUD {
    /// A new entity comes into being.
    Create,
    /// An existing entity is replaced by a newer version.
    Update,
    /// An existing entity is removed.
    Delete,
}

} // verus!
