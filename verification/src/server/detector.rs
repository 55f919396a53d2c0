//! Presuming the leader dead. This is a liveness policy: whatever it decides,
//! the epoch election keeps two leaders of one epoch apart.

use vstd::prelude::*;

verus! {

/// A follower's view of its leader: alive while packets keep coming in.
/// Times are milliseconds on one monotonic clock.
pub struct FailureDetector {
    last_packets_seen: u64,
    last_progress: u64,
    timeout: u64,
}

impl FailureDetector {
    /// The packet count at the last sign of life.
    pub closed spec fn seen(&self) -> u64 {
        self.last_packets_seen
    }

    /// When the last sign of life was.
    pub closed spec fn since(&self) -> u64 {
        self.last_progress
    }

    /// How long the leader may be silent.
    pub closed spec fn patience(&self) -> u64 {
        self.timeout
    }

    pub fn new(timeout: u64, packets_seen: u64, now: u64) -> (r: Self)
        ensures
            r.seen() == packets_seen,
            r.since() == now,
            r.patience() == timeout,
    {
        FailureDetector { last_packets_seen: packets_seen, last_progress: now, timeout }
    }

    /// Takes note of the packet count: a higher one is a sign of life.
    pub fn observe(&mut self, packets_seen: u64, now: u64)
        ensures
            final(self).patience() == old(self).patience(),
            packets_seen > old(self).seen() ==> final(self).seen() == packets_seen
                && final(self).since() == now,
            packets_seen <= old(self).seen() ==> *final(self) == *old(self),
    {
        if packets_seen > self.last_packets_seen {
            self.last_packets_seen = packets_seen;
            self.last_progress = now;
        }
    }

    /// Whether the leader has been silent for too long.
    pub fn suspects(&self, now: u64) -> (r: bool)
        ensures
            r == (now - self.since() >= self.patience() || self.patience() == 0),
    {
        now.saturating_sub(self.last_progress) >= self.timeout
    }

    /// Starts waiting anew.
    pub fn reset(&mut self, packets_seen: u64, now: u64)
        ensures
            final(self).seen() == packets_seen,
            final(self).since() == now,
            final(self).patience() == old(self).patience(),
    {
        self.last_packets_seen = packets_seen;
        self.last_progress = now;
    }
}

} // verus!
