//! Points in time, as seconds and nanoseconds around the Unix epoch.
use vstd::prelude::*;

verus! {

/// Nanoseconds in one second.
pub const NANOS_PER_SECOND: i128 = 1_000_000_000;

/// A point in time: `secs` seconds after the Unix epoch (before it, when
/// negative) and `nanos` nanoseconds more.
#[derive(Debug, Clone, Copy, PartialEq, Eq, Structural)]
pub struct Timestamp {
    pub secs: i64,
    pub nanos: u32,
}

impl Timestamp {
    /// The point in time as a number of nanoseconds from the Unix epoch.
    pub open spec fn total(self) -> int {
        self.secs * NANOS_PER_SECOND + self.nanos
    }

    /// The Unix epoch itself.
    pub fn epoch() -> (r: Timestamp)
        ensures
            r.total() == 0,
            r == (Timestamp { secs: 0, nanos: 0 }),
    {
        Timestamp { secs: 0, nanos: 0 }
    }

    /// A whole number of seconds after (or before) the Unix epoch.
    pub fn from_secs(secs: i64) -> (r: Timestamp)
        ensures
            r == (Timestamp { secs, nanos: 0 }),
            r.total() == secs * NANOS_PER_SECOND,
    {
        Timestamp { secs, nanos: 0 }
    }

    /// How many nanoseconds lie between `earlier` and this point in time, or
    /// `None` when `earlier` is in fact the later of the two.
    pub fn nanos_since(&self, earlier: Timestamp) -> (r: Option<u128>)
        ensures
            match r {
                Some(age) => earlier.total() <= self.total() && age == self.total()
                    - earlier.total(),
                None => self.total() < earlier.total(),
            },
    {
        let here: i128 = self.secs as i128 * NANOS_PER_SECOND + self.nanos as i128;
        let there: i128 = earlier.secs as i128 * NANOS_PER_SECOND + earlier.nanos as i128;
        if there <= here {
            Some((here - there) as u128)
        } else {
            None
        }
    }
}

} // verus!
