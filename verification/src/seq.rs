//! Sequence numbers and sequenced time.

use vstd::prelude::*;

verus! {

/// A global, strictly monotonic, gapless sequence number assigned by the
/// sequencer. `SeqNo(0)` is the genesis sentinel: no frame carries it; a
/// service at [`SeqNo::genesis`] has applied no inputs.
#[derive(Debug, Clone, Copy, PartialEq, Eq, PartialOrd, Ord, Hash, Structural)]
pub struct SeqNo(pub u64);

impl SeqNo {
    /// The genesis sentinel (no inputs applied).
    pub fn genesis() -> (r: SeqNo)
        ensures
            r.0 == 0,
    {
        SeqNo(0)
    }

    /// The next sequence number.
    #[must_use]
    pub fn next(self) -> (r: SeqNo)
        requires
            self.0 < u64::MAX,
        ensures
            r.0 == self.0 + 1,
    {
        SeqNo(self.0 + 1)
    }

    pub fn as_u64(self) -> (r: u64)
        ensures
            r == self.0,
    {
        self.0
    }
}

impl Default for SeqNo {
    fn default() -> (r: Self)
        ensures
            r.0 == 0,
    {
        SeqNo(0)
    }
}

impl From<u64> for SeqNo {
    fn from(v: u64) -> (r: Self) {
        SeqNo(v)
    }
}

impl vstd::std_specs::convert::FromSpecImpl<u64> for SeqNo {
    open spec fn obeys_from_spec() -> bool {
        true
    }

    open spec fn from_spec(v: u64) -> Self {
        SeqNo(v)
    }
}

/// Sequencer-assigned time: nanoseconds since the Unix epoch.
///
/// This is the only time a service can observe. It enters the system stamped
/// onto sequenced frames, so every replica sees the same time at the same
/// [`SeqNo`], live or on replay.
#[derive(Debug, Clone, Copy, PartialEq, Eq, PartialOrd, Ord, Hash, Structural)]
pub struct Timestamp(pub u64);

impl Timestamp {
    /// The start of time.
    pub fn zero() -> (r: Timestamp)
        ensures
            r.0 == 0,
    {
        Timestamp(0)
    }

    pub fn as_nanos(self) -> (r: u64)
        ensures
            r == self.0,
    {
        self.0
    }

    pub fn from_nanos(nanos: u64) -> (r: Self)
        ensures
            r.0 == nanos,
    {
        Timestamp(nanos)
    }
}

impl Default for Timestamp {
    fn default() -> (r: Self)
        ensures
            r.0 == 0,
    {
        Timestamp(0)
    }
}

} // verus!
