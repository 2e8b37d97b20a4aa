use vstd::prelude::*;

verus! {

#[verifier::external_type_specification]
#[verifier::external_body]
pub struct ExInstant(std::time::Instant);

/// Relies on std::time::Instant::now: a reading of the monotonic clock.
/// The reading depends on when the call is made, so nothing is stated of it.
pub assume_specification[ std::time::Instant::now ]() -> std::time::Instant;

/// Relies on std::time::Instant::elapsed: the time since the instant was read.
/// It depends on when the call is made, so nothing is stated of it.
pub assume_specification[ std::time::Instant::elapsed ](
    i: &std::time::Instant,
) -> core::time::Duration;

/// Why a clock could not be made. The native clock is always available.
#[derive(Clone, Copy, Debug, PartialEq, Eq, Structural)]
pub enum ClockError {
    Unavailable,
}

/// A point in time read from a [`TimeClock`].
pub struct TimeInstant {
    value: std::time::Instant,
}

/// A source of monotonic time.
#[derive(Clone, Copy)]
pub struct TimeClock {}

impl TimeClock {
    /// Makes a clock. On native targets this always succeeds.
    pub fn new() -> (r: Result<TimeClock, ClockError>)
        ensures
            r is Ok,
    {
        Ok(TimeClock {})
    }

    /// Reads the clock.
    pub fn now(&self) -> (t: TimeInstant) {
        TimeInstant { value: std::time::Instant::now() }
    }

    /// The time that has passed since `start` was read.
    pub fn elapsed_since(&self, start: &TimeInstant) -> (d: core::time::Duration) {
        start.value.elapsed()
    }
}

/// Measures the time since it was made.
pub struct Timer {
    clock: TimeClock,
    start: TimeInstant,
}

impl Timer {
    /// Starts a timer now.
    pub fn new() -> (r: Result<Timer, ClockError>)
        ensures
            r is Ok,
    {
        let clock = match TimeClock::new() {
            Ok(c) => c,
            Err(e) => return Err(e),
        };
        let start = clock.now();
        Ok(Timer { clock, start })
    }

    /// The time that has passed since the timer was started.
    pub fn elapsed(&self) -> (d: core::time::Duration) {
        self.clock.elapsed_since(&self.start)
    }
}

} // verus!
