//! Instants on the time line of the prediction feed.

use vstd::prelude::*;

verus! {

/// Nanoseconds in one millisecond.
pub const NANOS_PER_MILLI: u32 = 1_000_000;

/// An absolute instant: whole seconds since the Unix epoch and the nanoseconds
/// into that second.
///
/// Its view is the instant as a count of nanoseconds since the epoch.
#[derive(Clone, Copy, Debug, PartialEq, Eq)]
pub struct Timestamp {
    secs: i64,
    nanos: u32,
}

impl View for Timestamp {
    type V = int;

    closed spec fn view(&self) -> int {
        self.secs * 1_000_000_000 + self.nanos
    }
}

impl Timestamp {
    #[verifier::type_invariant]
    spec fn nanos_in_range(self) -> bool {
        self.nanos < 1_000_000_000
    }

    /// Whole seconds since the epoch, rounded toward negative infinity.
    pub fn secs(&self) -> (s: i64)
        ensures
            s == self@ / 1_000_000_000,
    {
        proof {
            use_type_invariant(self);
        }
        self.secs
    }

    /// Nanoseconds since the last whole second.
    pub fn subsec_nanos(&self) -> (n: u32)
        ensures
            n == self@ % 1_000_000_000,
    {
        proof {
            use_type_invariant(self);
        }
        self.nanos
    }

    /// Whether this instant is no later than `other`.
    pub fn le(&self, other: &Timestamp) -> (b: bool)
        ensures
            b == (self@ <= other@),
    {
        proof {
            use_type_invariant(self);
            use_type_invariant(other);
        }
        self.secs < other.secs || (self.secs == other.secs && self.nanos <= other.nanos)
    }
}

/// The quotient of `a` by a positive `b`, rounded toward zero.
pub open spec fn quotient_toward_zero(a: int, b: int) -> int
    recommends
        b > 0,
{
    if a >= 0 {
        a / b
    } else {
        -((-a) / b)
    }
}

/// The whole minutes from the instant `from` to the instant `to`, both in
/// nanoseconds since the epoch; negative where `to` is the earlier one. A
/// started minute does not count.
pub open spec fn minutes_between(from: int, to: int) -> int {
    quotient_toward_zero(to - from, 60_000_000_000)
}

/// The whole minutes from `from` until `to`.
pub fn minutes_until(from: &Timestamp, to: &Timestamp) -> (minutes: i64)
    ensures
        minutes == minutes_between(from@, to@),
{
    proof {
        use_type_invariant(from);
        use_type_invariant(to);
    }
    let secs: i128 = to.secs as i128 - from.secs as i128;
    let nanos: i128 = to.nanos as i128 - from.nanos as i128;
    let span: i128 = secs * 1_000_000_000 + nanos;
    if span >= 0 {
        (span / 60_000_000_000) as i64
    } else {
        -(((-span) / 60_000_000_000) as i64)
    }
}

/// The instant that lies `timestamp` milliseconds after the Unix epoch, or
/// before it where `timestamp` is negative.
///
/// The seconds are rounded toward negative infinity, so the sub-second part
/// is never negative: `-500` is the second `-1` and 500 million nanoseconds.
pub fn datetime_from_millis(timestamp: i64) -> (t: Timestamp)
    ensures
        t@ == timestamp * 1_000_000,
{
    if timestamp >= 0 {
        let secs: i64 = timestamp / 1000;
        let millis: i64 = timestamp % 1000;
        Timestamp { secs, nanos: (millis as u32) * NANOS_PER_MILLI }
    } else {
        // -(timestamp + 1) cannot overflow, and counts the milliseconds
        // before the instant -1.
        let before: i64 = -(timestamp + 1);
        let secs: i64 = -(before / 1000) - 1;
        let millis: i64 = 999 - before % 1000;
        Timestamp { secs, nanos: (millis as u32) * NANOS_PER_MILLI }
    }
}

} // verus!
