//! The span of time that the recorded entries cover.

use vstd::prelude::*;

verus! {

/// An instant: whole seconds since the Unix epoch and the nanoseconds past
/// them. Two timestamps are the same instant exactly when they are equal,
/// whatever time zone they were written in.
#[derive(Clone, Copy, Debug, PartialEq, Eq, Structural)]
pub struct Timestamp {
    pub seconds: i64,
    pub nanos: u32,
}

impl Timestamp {
    /// Whether `self` is an earlier instant than `other`.
    pub open spec fn before(self, other: Timestamp) -> bool {
        self.seconds < other.seconds || (self.seconds == other.seconds && self.nanos
            < other.nanos)
    }

    /// The latest instant that can be written down.
    pub open spec fn latest() -> Timestamp {
        Timestamp { seconds: i64::MAX, nanos: u32::MAX }
    }

    /// The earliest instant that can be written down.
    pub open spec fn earliest() -> Timestamp {
        Timestamp { seconds: i64::MIN, nanos: 0 }
    }

    /// Whether `self` is an earlier instant than `other`.
    pub fn is_before(&self, other: &Timestamp) -> (earlier: bool)
        ensures
            earlier == self.before(*other),
    {
        self.seconds < other.seconds || (self.seconds == other.seconds && self.nanos
            < other.nanos)
    }
}

/// The earliest and the latest instant seen so far.
///
/// Before anything is seen the window is inside out: `start` is the latest
/// instant there is and `end` the earliest, so that whatever is seen first
/// moves both.
#[derive(Clone, Copy, Debug, PartialEq, Eq, Structural)]
pub struct LogDuration {
    pub start: Timestamp,
    pub end: Timestamp,
}

impl LogDuration {
    /// The window before anything is seen.
    pub open spec fn unset() -> LogDuration {
        LogDuration { start: Timestamp::latest(), end: Timestamp::earliest() }
    }

    /// The window once `timestamp` is seen as well.
    pub open spec fn observed(self, timestamp: Timestamp) -> LogDuration {
        LogDuration {
            start: if timestamp.before(self.start) {
                timestamp
            } else {
                self.start
            },
            end: if self.end.before(timestamp) {
                timestamp
            } else {
                self.end
            },
        }
    }

    /// The window once all of `timestamps` are seen, one after the other.
    pub open spec fn observed_all(self, timestamps: Seq<Timestamp>) -> LogDuration
        decreases timestamps.len(),
    {
        if timestamps.len() == 0 {
            self
        } else {
            self.observed_all(timestamps.drop_last()).observed(timestamps.last())
        }
    }

    /// The window before anything is seen.
    pub fn new() -> (window: LogDuration)
        ensures
            window == LogDuration::unset(),
    {
        LogDuration {
            start: Timestamp { seconds: i64::MAX, nanos: u32::MAX },
            end: Timestamp { seconds: i64::MIN, nanos: 0 },
        }
    }

    /// Widens the window to take in `timestamp`.
    pub fn observe(&mut self, timestamp: Timestamp)
        ensures
            *final(self) == old(self).observed(timestamp),
    {
        if timestamp.is_before(&self.start) {
            self.start = timestamp;
        }
        if self.end.is_before(&timestamp) {
            self.end = timestamp;
        }
    }
}

/// Seeing one instant from the unset window makes it both ends of the window.
pub proof fn lemma_first_observation(timestamp: Timestamp)
    ensures
        LogDuration::unset().observed(timestamp) == (LogDuration {
            start: timestamp,
            end: timestamp,
        }),
{
}

/// Once anything is seen, the window's start is not after its end, and
/// everything seen lies between the two.
pub proof fn lemma_window_spans(timestamps: Seq<Timestamp>, i: int)
    requires
        0 <= i < timestamps.len(),
    ensures
        !LogDuration::unset().observed_all(timestamps).end.before(
            LogDuration::unset().observed_all(timestamps).start,
        ),
        !timestamps[i].before(LogDuration::unset().observed_all(timestamps).start),
        !LogDuration::unset().observed_all(timestamps).end.before(timestamps[i]),
    decreases timestamps.len(),
{
    let earlier = timestamps.drop_last();
    if earlier.len() > 0 {
        if i < earlier.len() {
            lemma_window_spans(earlier, i);
        } else {
            lemma_window_spans(earlier, 0);
        }
    }
}

/// The order in which two instants are seen makes no difference.
pub proof fn lemma_observe_commutes(window: LogDuration, a: Timestamp, b: Timestamp)
    ensures
        window.observed(a).observed(b) == window.observed(b).observed(a),
{
}

} // verus!
