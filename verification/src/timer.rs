//! Deadline timers over a monotonic clock that counts milliseconds, and the
//! intervals that the protocol uses.

use rand::Rng;
use vstd::prelude::*;

verus! {

/// The shortest election timeout, in milliseconds.
pub const ELECTION_TIMEOUT_MIN: u64 = 150;

/// The longest election timeout, in milliseconds.
pub const ELECTION_TIMEOUT_MAX: u64 = 300;

/// The time between two heartbeats of a leader, in milliseconds.
pub const HEARTBEAT_INTERVAL: u64 = 50;

/// A deadline, and the duration by which a reset moves it past the present.
#[derive(Debug, Clone, Copy, PartialEq, Eq, Structural)]
pub struct Timer {
    pub deadline: u64,
    pub duration: u64,
}

impl Timer {
    /// The timer that `duration` milliseconds after `now` elapses.
    pub open spec fn started(now: u64, duration: u64) -> Timer {
        Timer { deadline: (now + duration) as u64, duration }
    }

    /// Whether the deadline has been reached at `now`.
    pub open spec fn elapsed_at(self, now: u64) -> bool {
        now >= self.deadline
    }

    pub fn new(now: u64, duration: u64) -> (timer: Self)
        requires
            now + duration <= u64::MAX,
        ensures
            timer == Timer::started(now, duration),
    {
        Self { deadline: now + duration, duration }
    }

    pub fn is_elapsed(&self, now: u64) -> (elapsed: bool)
        ensures
            elapsed == self.elapsed_at(now),
    {
        now >= self.deadline
    }

    /// Discards the deadline and sets it one duration after `now`.
    pub fn reset(&mut self, now: u64)
        requires
            now + old(self).duration <= u64::MAX,
        ensures
            *final(self) == Timer::started(now, old(self).duration),
    {
        self.deadline = now + self.duration;
    }

    /// Discards deadline and duration, and sets the deadline `duration` after `now`.
    pub fn reset_with(&mut self, now: u64, duration: u64)
        requires
            now + duration <= u64::MAX,
        ensures
            *final(self) == Timer::started(now, duration),
    {
        self.deadline = now + duration;
        self.duration = duration;
    }
}

/// Calls `rand::rng` and `Rng::random_range` on the inclusive range from `low`
/// to `high`. The range is not empty, so `random_range` does not panic, and
/// what it returns lies in the range; which value it is differs from call to
/// call. `rand::rng` panics where the operating system cannot seed the
/// generator of the thread, whatever the arguments are.
#[verifier::external_body]
fn random_in_range(low: u64, high: u64) -> (value: u64)
    requires
        low <= high,
    ensures
        low <= value <= high,
{
    let mut rng = rand::rng();
    rng.random_range(low..=high)
}

/// A fresh election timeout in milliseconds, drawn at random so that the nodes
/// of a cluster do not start their elections together.
pub fn random_election_timeout() -> (millis: u64)
    ensures
        ELECTION_TIMEOUT_MIN <= millis <= ELECTION_TIMEOUT_MAX,
{
    random_in_range(ELECTION_TIMEOUT_MIN, ELECTION_TIMEOUT_MAX)
}

/// The heartbeat interval in milliseconds.
pub fn heartbeat_interval() -> (millis: u64)
    ensures
        millis == HEARTBEAT_INTERVAL,
{
    HEARTBEAT_INTERVAL
}

} // verus!
