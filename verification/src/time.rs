use vstd::prelude::*;

verus! {

/// A point in time as a file system records it: whole seconds since the Unix
/// epoch (negative before it) and the nanoseconds that follow.
///
/// Two timestamps are the same point in time exactly when both fields agree.
/// They are ordered by the seconds first and by the nanoseconds second.
#[derive(Debug, Clone, Copy, PartialEq, Eq, Hash, Structural)]
pub struct Timestamp {
    pub seconds: i64,
    pub nanos: u32,
}

impl Timestamp {
    /// `self` is strictly earlier than `other`.
    pub open spec fn precedes(self, other: Timestamp) -> bool {
        self.seconds < other.seconds || (self.seconds == other.seconds && self.nanos
            < other.nanos)
    }

    /// `self` is `other` or earlier.
    pub open spec fn not_after(self, other: Timestamp) -> bool {
        self == other || self.precedes(other)
    }

    /// The timestamp `nanos` nanoseconds after the second `seconds` of the Unix epoch.
    pub fn from_unix_time(seconds: i64, nanos: u32) -> (time: Timestamp)
        ensures
            time == (Timestamp { seconds, nanos }),
    {
        Timestamp { seconds, nanos }
    }

    /// Whether `self` is strictly earlier than `other`.
    pub fn is_before(&self, other: &Timestamp) -> (before: bool)
        ensures
            before == self.precedes(*other),
    {
        self.seconds < other.seconds || (self.seconds == other.seconds && self.nanos
            < other.nanos)
    }
}

} // verus!
