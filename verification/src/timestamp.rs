//! Instants on the UTC time line.
use vstd::prelude::*;
use std::cmp::Ordering;

verus! {

/// An instant, held as whole seconds since 1970-01-01T00:00:00Z and the
/// nanoseconds past that second.
///
/// Instants are ordered by their seconds first and their nanoseconds second.
#[derive(Clone, Copy, PartialEq, Eq, Structural, Debug)]
pub struct Timestamp {
    /// Whole seconds since the Unix epoch; negative before it.
    pub secs: i64,
    /// Nanoseconds past the whole second.
    pub nanos: u32,
}

impl View for Timestamp {
    type V = int;

    /// The place of the instant on the time line: a larger number is a later
    /// instant, and two instants have the same number only if they are the
    /// same.
    open spec fn view(&self) -> int {
        self.secs * 0x1_0000_0000 + self.nanos
    }
}

impl PartialOrd for Timestamp {
    /// An instant is less than every later one.
    fn partial_cmp(&self, other: &Self) -> (r: Option<Ordering>) {
        if self.precedes(other) {
            Some(Ordering::Less)
        } else if other.precedes(self) {
            Some(Ordering::Greater)
        } else {
            Some(Ordering::Equal)
        }
    }
}

impl vstd::std_specs::cmp::PartialOrdSpecImpl for Timestamp {
    open spec fn obeys_partial_cmp_spec() -> bool {
        true
    }

    open spec fn partial_cmp_spec(&self, other: &Self) -> Option<Ordering> {
        if self@ < other@ {
            Some(Ordering::Less)
        } else if self@ > other@ {
            Some(Ordering::Greater)
        } else {
            Some(Ordering::Equal)
        }
    }
}

impl Timestamp {
    /// The instant `nanos` nanoseconds past the whole second `secs`.
    pub fn new(secs: i64, nanos: u32) -> (t: Timestamp)
        ensures
            t == (Timestamp { secs, nanos }),
    {
        Timestamp { secs, nanos }
    }

    /// Reads the system clock.
    ///
    /// Calls `chrono::Utc::now` and keeps what `DateTime::timestamp` and
    /// `DateTime::timestamp_subsec_nanos` say of the result. Nothing is
    /// claimed of the instant returned: a clock may stand still or be set
    /// back between two readings. `chrono` itself gives up when the system
    /// clock reads a date before 1970.
    #[verifier::external_body]
    pub(crate) fn now() -> (t: Timestamp) {
        let now = chrono::Utc::now();
        Timestamp { secs: now.timestamp(), nanos: now.timestamp_subsec_nanos() }
    }

    /// Whether this instant lies strictly before `other`.
    pub fn precedes(&self, other: &Timestamp) -> (r: bool)
        ensures
            r == (self@ < other@),
    {
        self.secs < other.secs || (self.secs == other.secs && self.nanos < other.nanos)
    }

    /// Whether this instant lies strictly after `other`.
    pub fn follows(&self, other: &Timestamp) -> (r: bool)
        ensures
            r == (self@ > other@),
    {
        other.precedes(self)
    }
}

/// The place on the time line orders instants by their seconds first and
/// their nanoseconds second, and tells any two instants apart.
pub proof fn law_timestamp_order(a: Timestamp, b: Timestamp)
    ensures
        a@ < b@ <==> a.secs < b.secs || (a.secs == b.secs && a.nanos < b.nanos),
        a@ == b@ <==> a == b,
{
}

} // verus!
