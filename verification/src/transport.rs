//! Carrying the sequenced stream to followers: packets, in-order delivery
//! over a lossy feed, and retransmission of what was lost.

use vstd::prelude::*;

use crate::frame::FrameError;
use crate::storage::IoError;

pub mod packet;
pub mod publisher;
pub mod reassembler;
pub mod replica;
pub mod retransmit;
pub mod ring;
pub mod store;

verus! {

#[derive(Debug)]
pub enum TransportError {
    Io(IoError),
    /// A packet failed structural validation (bad magic, CRC, layout).
    Corrupt(&'static str),
    /// A frame inside a packet failed its own validation.
    Frame(FrameError),
    /// The packet belongs to a different publisher session.
    SessionMismatch { expected: u64, got: u64 },
    /// A gap could not be filled (no retransmitter configured, or the
    /// retransmitter could not serve the range).
    GapUnrecoverable { from: u64, count: u64 },
}

} // verus!
