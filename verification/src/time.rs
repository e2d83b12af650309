//! Moments and spans of time as plain numbers, and the clock that reads them.

use std::ops::{Add, Sub};
use vstd::prelude::*;

verus! {

/// A span of time, in nanoseconds.
#[derive(Debug, Clone, Copy, PartialEq, Eq, PartialOrd, Ord, Hash, Structural)]
pub struct Duration {
    pub nanos: u128,
}

/// A moment, in nanoseconds since the origin of the clock that read it. It stands in relation to
/// the moments of that clock only.
#[derive(Debug, Clone, Copy, PartialEq, Eq, PartialOrd, Ord, Hash, Structural)]
pub struct Instant {
    pub nanos: u128,
}

/// The nanoseconds of a span of whole seconds and some nanoseconds more.
pub open spec fn span_nanos(secs: u64, subsec_nanos: u32) -> int {
    secs * 1_000_000_000 + subsec_nanos
}

/// The milliseconds of a wall clock's reading, rounded down: a span since the Unix epoch, or zero
/// where the clock stands before it.
pub open spec fn epoch_millis(reading: Option<(u64, u32)>) -> int {
    match reading {
        Some((secs, subsec_nanos)) => span_nanos(secs, subsec_nanos) / 1_000_000,
        None => 0,
    }
}

impl Duration {
    /// A span of whole seconds and some nanoseconds more.
    pub fn from_parts(secs: u64, subsec_nanos: u32) -> (span: Duration)
        ensures
            span.nanos == span_nanos(secs, subsec_nanos),
    {
        Duration { nanos: secs as u128 * 1_000_000_000 + subsec_nanos as u128 }
    }

    /// A span of whole seconds.
    pub fn from_secs(secs: u64) -> (span: Duration)
        ensures
            span.nanos == secs * 1_000_000_000,
    {
        Duration { nanos: secs as u128 * 1_000_000_000 }
    }

    /// A span of whole milliseconds.
    pub fn from_millis(millis: u64) -> (span: Duration)
        ensures
            span.nanos == millis * 1_000_000,
    {
        Duration { nanos: millis as u128 * 1_000_000 }
    }

    /// The span in whole milliseconds, rounded down.
    pub fn as_millis(&self) -> (millis: u128)
        ensures
            millis == self.nanos / 1_000_000,
    {
        self.nanos / 1_000_000
    }
}

impl Instant {
    /// A moment that a clock can read: its whole seconds are counted in 64 bits, and less than a
    /// second is left over. A span of up to as many seconds can be added to it.
    pub open spec fn is_reading(self) -> bool {
        exists|secs: u64, subsec_nanos: u32|
            subsec_nanos < 1_000_000_000 && self.nanos == #[trigger] span_nanos(secs, subsec_nanos)
    }

    /// The span from `earlier` to this moment, or none when `earlier` is later.
    pub open spec fn since(self, earlier: Instant) -> Duration {
        Duration {
            nanos: if self.nanos >= earlier.nanos {
                (self.nanos - earlier.nanos) as u128
            } else {
                0
            },
        }
    }

    /// The span from `earlier` to this moment, or none when `earlier` is later.
    pub fn saturating_duration_since(&self, earlier: Instant) -> (span: Duration)
        ensures
            span == self.since(earlier),
    {
        if self.nanos >= earlier.nanos {
            Duration { nanos: self.nanos - earlier.nanos }
        } else {
            Duration { nanos: 0 }
        }
    }
}

impl Add<Duration> for Instant {
    type Output = Instant;

    fn add(self, span: Duration) -> (later: Instant) {
        Instant { nanos: self.nanos + span.nanos }
    }
}

impl vstd::std_specs::ops::AddSpecImpl<Duration> for Instant {
    open spec fn obeys_add_spec() -> bool {
        true
    }

    open spec fn add_req(self, span: Duration) -> bool {
        self.nanos + span.nanos <= u128::MAX
    }

    open spec fn add_spec(self, span: Duration) -> Instant {
        Instant { nanos: (self.nanos + span.nanos) as u128 }
    }
}

impl Sub<Duration> for Instant {
    type Output = Instant;

    fn sub(self, span: Duration) -> (earlier: Instant) {
        Instant { nanos: self.nanos - span.nanos }
    }
}

impl vstd::std_specs::ops::SubSpecImpl<Duration> for Instant {
    open spec fn obeys_sub_spec() -> bool {
        true
    }

    open spec fn sub_req(self, span: Duration) -> bool {
        self.nanos >= span.nanos
    }

    open spec fn sub_spec(self, span: Duration) -> Instant {
        Instant { nanos: (self.nanos - span.nanos) as u128 }
    }
}

/// A reading of the system's monotonic clock, `std::time::Instant`. Nothing is known of it.
#[verifier::external_type_specification]
#[verifier::external_body]
pub struct ExMonotonicInstant(std::time::Instant);

/// `std::time::Instant::now` reads the clock. Nothing is promised of what it reads.
pub assume_specification[ std::time::Instant::now ]() -> std::time::Instant;

/// The nanoseconds from one reading of the system's clock to another, and none where the other is
/// the earlier: what `std::time::Instant::saturating_duration_since` returns.
pub uninterp spec fn nanos_between(origin: std::time::Instant, at: std::time::Instant) -> nat;

/// `std::time::Instant::saturating_duration_since`, in whole seconds and the nanoseconds left over:
/// how long after `origin` the reading `at` was made. The span follows from the two readings, which
/// are opaque, so it is only named; what is left over is always less than a second.
#[verifier::external_body]
fn parts_between(origin: &std::time::Instant, at: &std::time::Instant) -> (parts: (u64, u32))
    ensures
        span_nanos(parts.0, parts.1) == nanos_between(*origin, *at),
        parts.1 < 1_000_000_000,
{
    let span = at.saturating_duration_since(*origin);
    (span.as_secs(), span.subsec_nanos())
}

/// A reading of the system's wall clock, `std::time::SystemTime`. Nothing is known of it.
#[verifier::external_type_specification]
#[verifier::external_body]
pub struct ExSystemTime(std::time::SystemTime);

/// `std::time::SystemTime::now` reads the wall clock. Nothing is promised of what it reads.
pub assume_specification[ std::time::SystemTime::now ]() -> std::time::SystemTime;

/// `std::time::SystemTime::duration_since` the Unix epoch, in whole seconds and the nanoseconds
/// left over, and nothing for a moment before it. A reading of the clock is opaque; what is left
/// over is always less than a second.
#[verifier::external_body]
fn parts_since_epoch(at: &std::time::SystemTime) -> (parts: Option<(u64, u32)>)
    ensures
        parts matches Some(p) ==> p.1 < 1_000_000_000,
{
    let span = at.duration_since(std::time::UNIX_EPOCH).ok()?;
    Some((span.as_secs(), span.subsec_nanos()))
}

/// The milliseconds of a wall clock's reading, rounded down, and zero for a moment before the
/// Unix epoch.
pub fn millis_of_reading(reading: Option<(u64, u32)>) -> (millis: u128)
    ensures
        millis == epoch_millis(reading),
{
    match reading {
        Some((secs, subsec_nanos)) => Duration::from_parts(secs, subsec_nanos).as_millis(),
        None => 0,
    }
}

/// The milliseconds since the Unix epoch, by the wall clock, rounded down, and zero for a moment
/// before it. What the clock reads depends on the moment of the call.
pub fn unix_millis() -> (millis: u128)
    ensures
        exists|reading: Option<(u64, u32)>|
            (reading matches Some(parts) ==> parts.1 < 1_000_000_000) && millis
                == #[trigger] epoch_millis(reading),
{
    let at = std::time::SystemTime::now();
    let reading = parts_since_epoch(&at);
    millis_of_reading(reading)
}

/// A monotonic clock that counts from the moment it was started. A copy of a clock reads what the
/// clock reads. A clock that was started at another moment counts from there, so that moments are
/// to be compared only with moments of the same clock. Whoever has one moment for several clocks
/// takes one reading of the system's clock and asks each of them for its moment.
#[derive(Debug, Clone, Copy)]
pub struct Clock {
    origin: std::time::Instant,
}

impl Clock {
    /// The moment of a reading of the system's clock, by this clock: its first moment, where the
    /// reading was made before the clock was started.
    pub closed spec fn moment(self, at: std::time::Instant) -> Instant {
        Instant { nanos: nanos_between(self.origin, at) as u128 }
    }

    /// Whether a moment is that of a reading of the system's clock, by this clock.
    pub open spec fn reads(self, now: Instant) -> bool {
        now.is_reading() && exists|at: std::time::Instant| now == #[trigger] self.moment(at)
    }

    /// Starts a clock. What it will read depends on when it is asked.
    pub fn start() -> (clock: Clock) {
        Clock { origin: std::time::Instant::now() }
    }

    /// The moment of a reading of the system's clock, by this clock: its first moment, where the
    /// reading was made before the clock was started.
    pub fn moment_of(&self, at: &std::time::Instant) -> (now: Instant)
        ensures
            now == self.moment(*at),
            self.reads(now),
    {
        let (secs, subsec_nanos) = parts_between(&self.origin, at);
        let now = Instant { nanos: Duration::from_parts(secs, subsec_nanos).nanos };
        assert(now == self.moment(*at));
        now
    }

    /// The present moment, by this clock. Which moment that is depends on when it is asked.
    pub fn now(&self) -> (now: Instant)
        ensures
            self.reads(now),
    {
        let at = std::time::Instant::now();
        self.moment_of(&at)
    }
}

/// The time between two moments is what has to be added to the earlier one to get the later one, and
/// none where they are the wrong way round.
pub proof fn law_time_adds_up(earlier: Instant, later: Instant)
    ensures
        earlier.nanos <= later.nanos ==> earlier.nanos + later.since(earlier).nanos == later.nanos,
        earlier.nanos >= later.nanos ==> later.since(earlier).nanos == 0,
{
}

/// The milliseconds of a reading of the wall clock are rounded down, and none before the epoch.
pub proof fn law_millis_are_rounded_down(secs: u64, subsec_nanos: u32)
    ensures
        ({
            let millis = epoch_millis(Some((secs, subsec_nanos)));
            millis * 1_000_000 <= secs * 1_000_000_000 + subsec_nanos < (millis + 1) * 1_000_000
        }),
        epoch_millis(None) == 0,
{
}

} // verus!
