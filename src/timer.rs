//! A clock started when the game starts.

use vstd::prelude::*;
use std::time::SystemTime;

verus! {

#[verifier::external_type_specification]
#[verifier::external_body]
pub struct ExSystemTime(SystemTime);

/// Relies on `SystemTime::now`: it reads the system clock, so nothing is
/// promised of the value.
pub assume_specification[ SystemTime::now ]() -> SystemTime;

/// The moment a game started.
pub struct Timer {
    start_time: SystemTime,
}

impl Timer {
    /// The moment this timer started.
    pub closed spec fn started_at(&self) -> SystemTime {
        self.start_time
    }

    /// A timer that starts now.
    pub fn new() -> Self {
        Timer::from_start_time(SystemTime::now())
    }

    /// A timer that started at `start_time`.
    pub fn from_start_time(start_time: SystemTime) -> (r: Self)
        ensures
            r.started_at() == start_time,
    {
        Timer { start_time }
    }

    /// When the timer started.
    pub fn start_time(&self) -> (r: SystemTime)
        ensures
            r == self.started_at(),
    {
        self.start_time
    }
}

} // verus!
