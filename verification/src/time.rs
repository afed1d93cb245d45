//! Points in time.

use vstd::prelude::*;

verus! {

/// A point in time: seconds from the Unix epoch, and nanoseconds past that second.
#[derive(Clone, Copy, Debug, PartialEq, Eq, Structural)]
pub struct Timestamp {
    pub secs: i64,
    pub nanos: u32,
}

/// One point in time is not after another.
pub open spec fn not_after(a: Timestamp, b: Timestamp) -> bool {
    a.secs < b.secs || (a.secs == b.secs && a.nanos <= b.nanos)
}

/// A point in time that lies a number of seconds before another, where there is one.
pub open spec fn seconds_before(t: Timestamp, seconds: int) -> Option<Timestamp> {
    if t.secs - seconds < i64::MIN {
        None
    } else {
        Some(Timestamp { secs: (t.secs - seconds) as i64, nanos: t.nanos })
    }
}

impl Timestamp {
    /// Whether this point in time is not after another.
    pub fn is_not_after(self, other: Timestamp) -> (r: bool)
        ensures
            r == not_after(self, other),
    {
        self.secs < other.secs || (self.secs == other.secs && self.nanos <= other.nanos)
    }

    /// The point in time that lies a number of seconds before this one.
    pub fn minus_seconds(self, seconds: u32) -> (r: Option<Timestamp>)
        ensures
            r == seconds_before(self, seconds as int),
    {
        if self.secs < i64::MIN + seconds as i64 {
            None
        } else {
            Some(Timestamp { secs: self.secs - seconds as i64, nanos: self.nanos })
        }
    }
}

/// Points in time are in the order of their nanoseconds from the epoch.
pub proof fn points_are_in_order_of_nanoseconds(a: Timestamp, b: Timestamp)
    requires
        a.nanos < 1_000_000_000,
        b.nanos < 1_000_000_000,
    ensures
        not_after(a, b) <==> a.secs * 1_000_000_000 + a.nanos <= b.secs * 1_000_000_000 + b.nanos,
{
}

/// Going back a number of seconds gives a point in time that is that many seconds earlier,
/// and there is always one within the range of years that a clock shows.
pub proof fn going_back_takes_seconds(t: Timestamp, seconds: int)
    requires
        0 <= seconds <= u32::MAX,
    ensures
        seconds_before(t, seconds) matches Some(u) ==> u.secs + seconds == t.secs && u.nanos
            == t.nanos,
        t.secs >= 0 ==> seconds_before(t, seconds) is Some,
{
}

} // verus!
