//! A single capacity reading of one filesystem.

use vstd::prelude::*;

verus! {

/// Capacity of one filesystem at one point in time.
///
/// `bytes_free <= bytes_total` is what a sane source reports, but nothing
/// here depends on it.
#[derive(Debug, Clone, Copy, PartialEq, Eq, Structural)]
pub struct DiskMeasurement {
    /// Seconds since the epoch.
    pub ts: u64,
    pub bytes_total: u64,
    pub bytes_free: u64,
}

impl DiskMeasurement {
    /// Largest change of `bytes_free` that still counts as "nothing happened"
    /// next to this reading: 0.01% of the filesystem, but at least 1 KiB.
    pub open spec fn tolerance(self) -> int {
        if self.bytes_total / 10000 > 1024 {
            self.bytes_total as int / 10000
        } else {
            1024
        }
    }

    /// Distance between the free space of two readings.
    pub open spec fn free_distance(self, other: DiskMeasurement) -> int {
        if self.bytes_free > other.bytes_free {
            self.bytes_free - other.bytes_free
        } else {
            other.bytes_free - self.bytes_free
        }
    }

    /// `self`, taken as the reference, makes `later` redundant: same size of
    /// filesystem, free space within the reference's tolerance.
    pub open spec fn covers(self, later: DiskMeasurement) -> bool {
        self.bytes_total == later.bytes_total && self.free_distance(later) <= self.tolerance()
    }

    pub fn new(ts: u64, bytes_total: u64, bytes_free: u64) -> (dm: DiskMeasurement)
        ensures
            dm == (DiskMeasurement { ts, bytes_total, bytes_free }),
    {
        DiskMeasurement { ts, bytes_total, bytes_free }
    }

    /// Executable form of [`covers`](Self::covers).
    pub fn is_covering(&self, later: &DiskMeasurement) -> (r: bool)
        ensures
            r == self.covers(*later),
    {
        if self.bytes_total == later.bytes_total {
            let scaled: u64 = self.bytes_total / 10000;
            let limit: u64 = if scaled > 1024 { scaled } else { 1024 };
            let diff: u64 = if self.bytes_free > later.bytes_free {
                self.bytes_free - later.bytes_free
            } else {
                later.bytes_free - self.bytes_free
            };
            diff <= limit
        } else {
            false
        }
    }
}

} // verus!
