//! A clock that only goes forward.

use vstd::prelude::*;

verus! {

/// `std::time::Instant`: a point in time of a clock that is never set back. It
/// is only carried here.
#[verifier::external_type_specification]
#[verifier::external_body]
pub struct ExInstant(std::time::Instant);

/// `std::time::Instant::now`. Nothing is said of the value.
#[verifier::external_body]
fn this_instant() -> (r: std::time::Instant) {
    std::time::Instant::now()
}

/// `std::time::Instant::elapsed`, in whole milliseconds. Nothing is said of the
/// value.
#[verifier::external_body]
fn millis_since(start: &std::time::Instant) -> (r: u64) {
    start.elapsed().as_millis() as u64
}

/// What a clock shows when it is started, in milliseconds: a day, so that times
/// before the start can be told too.
pub const CLOCK_LEAD_MILLIS: u64 = 86_400_000;

/// A clock that counts milliseconds. Setting the system's time does not touch
/// it.
#[derive(Clone, Copy, Debug)]
pub struct Clock {
    start: std::time::Instant,
}

impl Clock {
    /// A clock that starts now.
    pub fn start() -> (r: Clock) {
        Clock { start: this_instant() }
    }

    /// What the clock shows.
    pub fn millis(&self) -> (r: u64)
        ensures
            r >= CLOCK_LEAD_MILLIS,
    {
        millis_since(&self.start).saturating_add(CLOCK_LEAD_MILLIS)
    }
}

} // verus!
