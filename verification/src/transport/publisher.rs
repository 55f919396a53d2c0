//! The publishing end of the stream: packing frames into packets and keeping
//! track of what heartbeats announce.

use vstd::prelude::*;

use crate::frame::{Frame, Record};
use crate::journal::records;
use crate::segment::frames_wire;
use crate::seq::SeqNo;
use crate::transport::packet::{encode_data, Packet, PacketModel, MAX_PACKET_BYTES,
    PACKET_HEADER_LEN};

verus! {

broadcast use crate::le::lemma_le_bytes_len;

/// The bytes of a data packet with these frames.
pub open spec fn packet_len(frames: Seq<Record>) -> nat {
    PACKET_HEADER_LEN as nat + frames_wire(frames).len()
}

/// Where the window that starts at `start` and reaches `end` so far ends: it
/// takes in frames as long as the packet fits, and one in any case.
pub open spec fn window_end(frames: Seq<Record>, start: nat, end: nat) -> nat
    decreases frames.len() - end,
{
    if end >= frames.len() {
        frames.len()
    } else if end > start && packet_len(frames.subrange(start as int, end as int + 1))
        > MAX_PACKET_BYTES {
        end
    } else {
        window_end(frames, start, end + 1)
    }
}

pub proof fn lemma_window_end(frames: Seq<Record>, start: nat, end: nat)
    requires
        start <= end <= frames.len(),
        start < frames.len(),
        end > start + 1 ==> packet_len(frames.subrange(start as int, end as int))
            <= MAX_PACKET_BYTES,
    ensures
        ({
            let stop = window_end(frames, start, end);
            &&& end <= stop <= frames.len()
            &&& start < stop
            &&& stop > start + 1 ==> packet_len(frames.subrange(start as int, stop as int))
                <= MAX_PACKET_BYTES
            &&& stop < frames.len() ==> packet_len(frames.subrange(start as int, stop as int + 1))
                > MAX_PACKET_BYTES
        }),
    decreases frames.len() - end,
{
    if end < frames.len() && !(end > start && packet_len(frames.subrange(start as int, end as int + 1))
        > MAX_PACKET_BYTES) {
        lemma_window_end(frames, start, end + 1);
    }
}

/// The windows from `start` on, as index ranges.
pub open spec fn windows(frames: Seq<Record>, start: nat) -> Seq<(usize, usize)>
    decreases frames.len() - start,
    via windows_decreases
{
    if start >= frames.len() {
        Seq::empty()
    } else {
        let end = window_end(frames, start, start);
        seq![(start as usize, end as usize)] + windows(frames, end)
    }
}

#[via_fn]
proof fn windows_decreases(frames: Seq<Record>, start: nat) {
    if start < frames.len() {
        lemma_window_end(frames, start, start);
    }
}

/// The frames of windows, one after the other.
pub open spec fn unpacked(frames: Seq<Record>, list: Seq<(usize, usize)>) -> Seq<Record>
    decreases list.len(),
{
    if list.len() == 0 {
        Seq::empty()
    } else {
        frames.subrange(list[0].0 as int, list[0].1 as int) + unpacked(frames, list.skip(1))
    }
}

/// Packing loses, repeats and reorders nothing; each window fits a packet
/// unless it is a single frame that is too large by itself, and none could
/// have taken in one frame more.
pub proof fn law_windows_carry_everything(frames: Seq<Record>, start: nat)
    requires
        start <= frames.len() <= usize::MAX,
    ensures
        unpacked(frames, windows(frames, start)) == frames.skip(start as int),
        forall|i: int|
            0 <= i < windows(frames, start).len() ==> {
                let (from, to) = #[trigger] windows(frames, start)[i];
                &&& start <= from < to <= frames.len()
                &&& to == from + 1 || packet_len(frames.subrange(from as int, to as int))
                    <= MAX_PACKET_BYTES
                &&& to == frames.len() || packet_len(frames.subrange(from as int, to + 1))
                    > MAX_PACKET_BYTES
            },
    decreases frames.len() - start,
{
    let list = windows(frames, start);
    if start < frames.len() {
        lemma_window_end(frames, start, start);
        let end = window_end(frames, start, start);
        let rest = windows(frames, end);
        law_windows_carry_everything(frames, end);
        assert(list.skip(1) =~= rest);
        assert(frames.subrange(start as int, end as int) + frames.skip(end as int)
            =~= frames.skip(start as int));
        assert forall|i: int| 0 <= i < list.len() implies {
            let (from, to) = #[trigger] list[i];
            &&& start <= from < to <= frames.len()
            &&& to == from + 1 || packet_len(frames.subrange(from as int, to as int))
                <= MAX_PACKET_BYTES
            &&& to == frames.len() || packet_len(frames.subrange(from as int, to + 1))
                > MAX_PACKET_BYTES
        } by {
            if i > 0 {
                assert(list[i] == rest[i - 1]);
            }
        }
    } else {
        assert(frames.skip(start as int) =~= Seq::empty());
        assert(unpacked(frames, list) =~= Seq::empty());
    }
}

/// One more frame takes its bytes more.
proof fn lemma_wire_push(frames: Seq<Record>, f: Record)
    ensures
        frames_wire(frames.push(f)).len() == frames_wire(frames).len() + f.wire().len(),
    decreases frames.len(),
{
    if frames.len() == 0 {
        assert(frames.push(f).skip(1) =~= Seq::empty());
        assert(frames_wire(frames.push(f).skip(1)) =~= Seq::empty());
    } else {
        assert(frames.push(f).skip(1) =~= frames.skip(1).push(f));
        lemma_wire_push(frames.skip(1), f);
    }
}

/// Splits frames into the largest runs that each fit one packet. A single
/// oversized frame gets a window of its own.
pub fn pack_windows(frames: &Vec<Frame>) -> (r: Vec<(usize, usize)>)
    requires
        forall|i: int| 0 <= i < frames@.len() ==> (#[trigger] frames@[i])@.valid(),
    ensures
        r@ == windows(records(frames@), 0),
{
    let ghost all = records(frames@);
    let n: usize = frames.len();
    let mut out: Vec<(usize, usize)> = Vec::new();
    let mut start: usize = 0;
    assert(out@ + windows(all, 0) =~= windows(all, 0));
    while start < n
        invariant
            start <= n == frames@.len() == all.len(),
            all == records(frames@),
            forall|i: int| 0 <= i < frames@.len() ==> (#[trigger] frames@[i])@.valid(),
            out@ + windows(all, start as nat) == windows(all, 0),
        decreases n - start,
    {
        let mut end: usize = start;
        let mut len: usize = PACKET_HEADER_LEN;
        let mut full: bool = false;
        proof {
            assert(all.subrange(start as int, start as int) =~= Seq::empty());
            assert(frames_wire(all.subrange(start as int, start as int)) =~= Seq::empty());
        }
        while end < n && !full
            invariant
                start <= end <= n == frames@.len() == all.len(),
                start < n,
                all == records(frames@),
                forall|i: int| 0 <= i < frames@.len() ==> (#[trigger] frames@[i])@.valid(),
                !full ==> len == packet_len(all.subrange(start as int, end as int)),
                !full ==> window_end(all, start as nat, start as nat) == window_end(
                    all,
                    start as nat,
                    end as nat,
                ),
                full ==> window_end(all, start as nat, start as nat) == end && end > start,
                len <= 67_110_400,
                end > start + 1 ==> packet_len(all.subrange(start as int, end as int))
                    <= MAX_PACKET_BYTES,
                !full && end == start ==> len == PACKET_HEADER_LEN,
                !full && end > start + 1 ==> len <= MAX_PACKET_BYTES,
            decreases
                n - end,
                if full {
                    0nat
                } else {
                    1nat
                },
        {
            let frame = &frames[end];
            let more: usize = frame.encoded_len();
            proof {
                assert(all[end as int] == frame@);
                assert(frame@.valid());
                reveal(Record::wire);
                lemma_wire_push(all.subrange(start as int, end as int), frame@);
                assert(all.subrange(start as int, end + 1) =~= all.subrange(
                    start as int,
                    end as int,
                ).push(frame@));
            }
            if end > start && len + more > MAX_PACKET_BYTES {
                full = true;
            } else {
                len = len + more;
                end = end + 1;
            }
        }
        proof {
            lemma_window_end(all, start as nat, start as nat);
        }
        let ghost before = out@;
        out.push((start, end));
        proof {
            assert(before + (seq![(start, end)] + windows(all, end as nat)) =~= out@ + windows(
                all,
                end as nat,
            ));
        }
        start = end;
    }
    assert(out@ + windows(all, n as nat) =~= out@);
    out
}

/// What a publisher keeps: its session and the seq it will assign next.
#[derive(Debug)]
pub struct Publisher {
    session: u64,
    next_seq: u64,
}

impl Publisher {
    pub closed spec fn id(&self) -> u64 {
        self.session
    }

    /// The seq that heartbeats announce.
    pub closed spec fn next(&self) -> u64 {
        self.next_seq
    }

    pub fn new(session: u64) -> (r: Self)
        ensures
            r.id() == session,
            r.next() == 1,
    {
        Publisher { session, next_seq: 1 }
    }

    /// The packet for one frame.
    pub fn publish(&mut self, frame: &Frame) -> (r: Vec<u8>)
        requires
            frame@.valid(),
            frame@.seq < u64::MAX,
        ensures
            final(self).id() == old(self).id(),
            final(self).next() == frame@.seq + 1,
            r@ == (PacketModel::Data { session: old(self).id(), frames: seq![frame@] }).wire(),
    {
        let mut one: Vec<Frame> = Vec::new();
        one.push(frame.clone());
        self.next_seq = frame.seq.0 + 1;
        assert(records(one@).subrange(0, 1) =~= seq![frame@]);
        encode_data(self.session, &one, 0, 1)
    }

    /// The packets for a run of seq-contiguous frames, as many frames to a
    /// packet as fit.
    pub fn publish_batch(&mut self, frames: &Vec<Frame>) -> (r: Vec<Vec<u8>>)
        requires
            forall|i: int|
                0 <= i < frames@.len() ==> (#[trigger] frames@[i])@.valid() && frames@[i]@.seq
                    < u64::MAX,
        ensures
            final(self).id() == old(self).id(),
            final(self).next() == if frames@.len() > 0 {
                (frames@.last()@.seq + 1) as u64
            } else {
                old(self).next()
            },
            r@.len() == windows(records(frames@), 0).len(),
            forall|i: int|
                0 <= i < r@.len() ==> (#[trigger] r@[i])@ == ({
                    let (from, to) = windows(records(frames@), 0)[i];
                    (PacketModel::Data {
                        session: old(self).id(),
                        frames: records(frames@).subrange(from as int, to as int),
                    }).wire()
                }),
    {
        let ghost all = records(frames@);
        let n: usize = frames.len();
        let list = pack_windows(frames);
        proof {
            law_windows_carry_everything(all, 0);
        }
        let mut out: Vec<Vec<u8>> = Vec::new();
        let mut i: usize = 0;
        while i < list.len()
            invariant
                i <= list@.len(),
                out@.len() == i,
                all == records(frames@),
                list@ == windows(all, 0),
                n == frames@.len() == all.len(),
                forall|k: int|
                    0 <= k < frames@.len() ==> (#[trigger] frames@[k])@.valid() && frames@[k]@.seq
                        < u64::MAX,
                forall|k: int|
                    0 <= k < list@.len() ==> {
                        let (from, to) = #[trigger] windows(all, 0)[k];
                        &&& 0 <= from < to <= all.len()
                        &&& to == from + 1 || packet_len(all.subrange(from as int, to as int))
                            <= MAX_PACKET_BYTES
                    },
                self.session == old(self).session,
                forall|k: int|
                    0 <= k < i ==> (#[trigger] out@[k])@ == ({
                        let (from, to) = windows(all, 0)[k];
                        (PacketModel::Data {
                            session: old(self).id(),
                            frames: all.subrange(from as int, to as int),
                        }).wire()
                    }),
            decreases list@.len() - i,
        {
            let (from, to) = list[i];
            proof {
                assert(windows(all, 0)[i as int] == (from, to));
                if to > from + 1 {
                    lemma_count_bound(all.subrange(from as int, to as int));
                }
            }
            let packet = encode_data(self.session, frames, from, to);
            out.push(packet);
            i = i + 1;
        }
        if n > 0 {
            self.next_seq = frames[n - 1].seq.0 + 1;
        }
        out
    }

    /// The heartbeat: liveness and high-water, so receivers can detect tail
    /// loss.
    pub fn heartbeat(&self) -> (r: Vec<u8>)
        ensures
            r@ == (PacketModel::Heartbeat { session: self.id(), next_seq: self.next() }).wire(),
    {
        let packet = Packet::Heartbeat { session: self.session, next_seq: SeqNo(self.next_seq) };
        packet.encode()
    }
}

/// Every frame takes bytes, so few of them fit a packet.
proof fn lemma_count_bound(frames: Seq<Record>)
    ensures
        frames.len() <= frames_wire(frames).len(),
    decreases frames.len(),
{
    if frames.len() > 0 {
        reveal(Record::wire);
        lemma_count_bound(frames.skip(1));
    }
}

/// Packets are cut to fit a datagram of 1400 bytes, header included; only a frame
/// that is too large by itself goes beyond.
pub proof fn law_packets_fit_a_datagram(session: u64, frames: Seq<Record>, start: nat, i: int)
    requires
        start <= frames.len() <= usize::MAX,
        forall|k: int| 0 <= k < frames.len() ==> (#[trigger] frames[k]).valid(),
        0 <= i < windows(frames, start).len(),
    ensures
        ({
            let (from, to) = windows(frames, start)[i];
            let part = frames.subrange(from as int, to as int);
            &&& 0 < part.len()
            &&& part.len() > 1 ==> (PacketModel::Data { session, frames: part }).wire().len() <= 1400
        }),
{
    law_windows_carry_everything(frames, start);
    let (from, to) = windows(frames, start)[i];
    let part = frames.subrange(from as int, to as int);
    reveal(PacketModel::wire);
    assert((PacketModel::Data { session, frames: part }).wire().len() == packet_len(part));
}

} // verus!
