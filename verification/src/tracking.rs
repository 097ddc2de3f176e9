use vstd::prelude::*;

verus! {

/// The kinds of change that a storage tracks, or is asked to track.
#[derive(Clone, Copy, Debug, PartialEq, Eq, Structural, Hash)]
pub struct Tracking {
    pub insertion: bool,
    pub modification: bool,
    pub deletion: bool,
    pub removal: bool,
}

/// Timestamp used to tell when a component was inserted, modified, removed
/// or deleted. Timestamps wrap around: comparisons are made relative to a
/// reference point.
#[derive(Clone, Copy, Debug, PartialEq, Eq, Structural, Hash)]
pub struct TrackingTimestamp(pub u32);

/// Distance from `from` to `to` going forward, modulo 2^32.
pub open spec fn forward_distance(from: u32, to: u32) -> int {
    if to >= from {
        to - from
    } else {
        to - from + 0x1_0000_0000
    }
}

impl TrackingTimestamp {
    /// Timestamp of value `value`.
    pub fn new(value: u32) -> (t: TrackingTimestamp)
        ensures
            t.0 == value,
    {
        TrackingTimestamp(value)
    }

    /// The timestamp given to components that were never modified.
    pub fn origin() -> (t: TrackingTimestamp)
        ensures
            t.0 == 0,
    {
        TrackingTimestamp(0)
    }

    /// The raw value of the timestamp.
    pub fn get(&self) -> (v: u32)
        ensures
            v == self.0,
    {
        self.0
    }

    pub open spec fn is_within_spec(self, last: TrackingTimestamp, current: TrackingTimestamp) -> bool {
        forward_distance(last.0, current.0) > forward_distance(self.0, current.0)
    }

    /// Returns `true` when `self` lies after `last` and no later than `current`.
    pub fn is_within(self, last: TrackingTimestamp, current: TrackingTimestamp) -> (b: bool)
        ensures
            b == self.is_within_spec(last, current),
    {
        current.0.wrapping_sub(last.0) > current.0.wrapping_sub(self.0)
    }

    pub open spec fn is_older_than_spec(self, other: TrackingTimestamp) -> bool {
        0 < forward_distance(self.0, other.0) <= 0x7fff_ffff
    }

    /// Returns `true` when `self` is strictly older than `other`.
    pub fn is_older_than(self, other: TrackingTimestamp) -> (b: bool)
        ensures
            b == self.is_older_than_spec(other),
    {
        other.0.wrapping_sub(1).wrapping_sub(self.0) < 0x7fff_ffff
    }
}

/// Between timestamps less than half the counter's range apart, one is older
/// than the other exactly when its count is smaller; no timestamp is older
/// than itself, and of two timestamps at most one is older than the other.
pub proof fn law_is_older_than_order(a: TrackingTimestamp, b: TrackingTimestamp)
    ensures
        (a.0 - b.0 <= 0x7fff_ffff && b.0 - a.0 <= 0x7fff_ffff) ==> (a.is_older_than_spec(b) == (a.0 < b.0)),
        !a.is_older_than_spec(a),
        !(a.is_older_than_spec(b) && b.is_older_than_spec(a)),
{
}

} // verus!
