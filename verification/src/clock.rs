//! Time, as a number of nanoseconds since a clock was started.
use vstd::prelude::*;

verus! {

/// The most that a `std::time::Duration` can hold, in nanoseconds: 2^64 - 1 seconds, and
/// 999,999,999 nanoseconds.
pub const LONGEST_NANOS: u128 = 18_446_744_073_709_551_615_999_999_999;

/// A reading of the machine's monotonic clock.
#[verifier::external_type_specification]
#[verifier::external_body]
pub struct ExInstant(std::time::Instant);

/// `Instant::now` reads the clock; nothing is known of what it shows.
pub assume_specification[ std::time::Instant::now ]() -> std::time::Instant;

/// `Instant::elapsed` reads the clock again; nothing is known of how much time has gone by.
pub assume_specification[ std::time::Instant::elapsed ](instant: &std::time::Instant) -> std::time::Duration;

/// `Duration::as_nanos` is the whole duration in nanoseconds; it is at most that of the longest
/// duration there is.
pub assume_specification[ std::time::Duration::as_nanos ](duration: &std::time::Duration) -> (nanos: u128)
    ensures
        nanos <= LONGEST_NANOS,
;

/// A point in time.
#[derive(Clone, Copy, Debug, PartialEq, Eq, Structural)]
pub struct Moment {
    /// How long after the start of its clock this is, in nanoseconds.
    pub nanos: u128,
}

impl Moment {
    /// The nanoseconds from `earlier` to `self`; none where `earlier` is in fact later.
    pub open spec fn nanos_after(self, earlier: Moment) -> nat {
        if self.nanos >= earlier.nanos {
            (self.nanos - earlier.nanos) as nat
        } else {
            0
        }
    }

    /// The whole milliseconds from `earlier` to `self`.
    pub open spec fn millis_after(self, earlier: Moment) -> nat {
        self.nanos_after(earlier) / 1_000_000
    }

    /// The whole milliseconds from `earlier` to `self`; none where `earlier` is in fact later.
    pub fn millis_since(&self, earlier: Moment) -> (millis: u128)
        ensures
            millis == self.millis_after(earlier),
    {
        self.nanos.saturating_sub(earlier.nanos) / 1_000_000
    }
}

/// The whole milliseconds between two moments are a millionth of the nanoseconds between them, rounded down, and
/// none where the later one is in fact the earlier.
pub proof fn law_millis(later: Moment, earlier: Moment, millis: u128)
    requires
        call_ensures(Moment::millis_since, (&later, earlier), millis),
    ensures
        earlier.nanos <= later.nanos ==> millis * 1_000_000 <= later.nanos - earlier.nanos < (millis + 1) * 1_000_000,
        later.nanos <= earlier.nanos ==> millis == 0,
{
}

/// A monotonic clock. Moments can only be compared where they come from one clock, or from copies of
/// it.
#[derive(Clone, Copy, Debug)]
pub struct Clock {
    /// The reading that all moments of this clock are counted from.
    epoch: std::time::Instant,
}

impl Clock {
    /// A clock that starts now.
    pub fn start() -> Clock {
        Clock { epoch: std::time::Instant::now() }
    }

    /// The time that this clock shows. It is one that the clock of the machine can show; which one is
    /// not known.
    pub fn now(&self) -> (moment: Moment)
        ensures
            moment.nanos <= LONGEST_NANOS,
    {
        let since = self.epoch.elapsed();
        Moment { nanos: since.as_nanos() }
    }
}

} // verus!
