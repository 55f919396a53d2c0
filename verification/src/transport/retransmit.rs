//! Retransmission: answering a range request with length-prefixed packets, and
//! filling a gap from such answers.

use vstd::prelude::*;

use crate::frame::{field, read_record, Frame, Record};
use crate::journal::records;
use crate::le::{get_le, put_le};
use crate::segment::frames_wire;
use crate::seq::SeqNo;
use crate::transport::packet::{encode_data, read_frames, read_packet, read_request, Packet,
    PacketModel, RetransmitRequest};
use crate::transport::reassembler::{Reassembler, StreamModel};
use crate::transport::store::{undisturbed, FrameStore};
use crate::transport::TransportError;

verus! {

broadcast use crate::le::lemma_le_bytes_len;

/// How many frames an answer puts into one packet.
pub const FRAMES_PER_PACKET: usize = 8;

/// How many frames the first packet of an answer carries.
pub open spec fn first_chunk(n: nat) -> nat {
    if n < FRAMES_PER_PACKET {
        n
    } else {
        FRAMES_PER_PACKET as nat
    }
}

/// The bytes of an answer: a few frames per packet, each packet behind its
/// length.
pub open spec fn reply_wire(session: u64, frames: Seq<Record>) -> Seq<u8>
    decreases frames.len(),
{
    if frames.len() == 0 {
        Seq::empty()
    } else {
        let k = first_chunk(frames.len()) as int;
        let packet = (PacketModel::Data { session, frames: frames.take(k) }).wire();
        crate::le::le_bytes(packet.len(), 4) + packet + reply_wire(session, frames.skip(k))
    }
}

/// The bytes that frames take.
proof fn lemma_frames_wire_len(frames: Seq<Record>)
    requires
        forall|i: int| 0 <= i < frames.len() ==> (#[trigger] frames[i]).valid(),
    ensures
        frames_wire(frames).len() <= frames.len() * 67_108_896,
    decreases frames.len(),
{
    if frames.len() > 0 {
        reveal(Record::wire);
        let rest = frames.skip(1);
        assert forall|i: int| 0 <= i < rest.len() implies (#[trigger] rest[i]).valid() by {
            assert(rest[i] == frames[i + 1]);
        }
        lemma_frames_wire_len(rest);
        assert(frames[0].valid());
    }
}

proof fn lemma_packet_fits(session: u64, frames: Seq<Record>)
    requires
        0 < frames.len() <= 8,
        forall|i: int| 0 <= i < frames.len() ==> (#[trigger] frames[i]).valid(),
    ensures
        (PacketModel::Data { session, frames }).wire().len() < 0x1_0000_0000,
{
    reveal(PacketModel::wire);
    lemma_frames_wire_len(frames);
}

/// Answers a retransmit request that came in as `request` from `store`.
pub fn answer<F: FrameStore>(session: u64, store: &mut F, request: &[u8]) -> (r: Result<
    Vec<u8>,
    TransportError,
>)
    ensures
        final(store).recent() == old(store).recent(),
        undisturbed(*old(store), *final(store)),
        match read_request(request@) {
            Err(e) => r == Err::<Vec<u8>, TransportError>(e),
            Ok(q) => if q.session != session {
                r == Err::<Vec<u8>, TransportError>(
                    TransportError::SessionMismatch { expected: session, got: q.session },
                )
            } else {
                &&& r is Ok
                &&& old(store).serves(q.from.0, q.count as nat) ==> r->Ok_0@ == reply_wire(
                    session,
                    old(store).reply(q.from.0, q.count as nat),
                )
            },
        },
{
    let q = RetransmitRequest::decode(request)?;
    if q.session != session {
        return Err(TransportError::SessionMismatch { expected: session, got: q.session });
    }
    let frames = store.range(q.from, q.count as usize);
    let ghost all = records(frames@);
    let n: usize = frames.len();
    let mut out: Vec<u8> = Vec::new();
    let mut i: usize = 0;
    assert(all.skip(0) =~= all);
    assert(out@ + reply_wire(session, all.skip(0)) =~= reply_wire(session, all));
    while i < n
        invariant
            i <= n == frames@.len() == all.len(),
            all == records(frames@),
            forall|i: int| 0 <= i < frames@.len() ==> (#[trigger] frames@[i])@.valid(),
            out@ + reply_wire(session, all.skip(i as int)) == reply_wire(session, all),
        decreases n - i,
    {
        let ghost before = out@;
        let ghost rest = all.skip(i as int);
        let end: usize = if n - i < FRAMES_PER_PACKET {
            n
        } else {
            i + FRAMES_PER_PACKET
        };
        let ghost part = all.subrange(i as int, end as int);
        let mut packet = encode_data(session, &frames, i, end);
        proof {
            assert(rest.take(end - i) =~= part);
            assert(rest.skip(end - i) =~= all.skip(end as int));
            assert forall|k: int| 0 <= k < part.len() implies (#[trigger] part[k]).valid() by {
                assert(part[k] == frames@[i + k]@);
            }
            lemma_packet_fits(session, part);
        }
        let ghost bytes = packet@;
        put_le(&mut out, packet.len() as u128, 4);
        out.append(&mut packet);
        proof {
            let tail = reply_wire(session, all.skip(end as int));
            assert(out@ =~= before + crate::le::le_bytes(bytes.len(), 4) + bytes);
            assert(out@ + tail =~= before + (crate::le::le_bytes(bytes.len(), 4) + bytes + tail));
        }
        i = end;
    }
    proof {
        assert(all.skip(n as int) =~= Seq::empty());
        assert(out@ + reply_wire(session, all.skip(n as int)) =~= out@);
    }
    Ok(out)
}

/// How many frames a packet carries.
pub open spec fn carried(p: PacketModel) -> nat {
    match p {
        PacketModel::Data { frames, .. } => frames.len(),
        PacketModel::Heartbeat { .. } => 0,
    }
}

/// What a receiver knows after an answer came in, and how many frames it
/// carried; where the answer breaks off or is damaged, what was in front of
/// that was taken in.
pub open spec fn absorbed(m: StreamModel, reply: Seq<u8>, served: nat) -> (
    StreamModel,
    Result<nat, TransportError>,
)
    decreases reply.len(),
{
    let len = field(reply, 0, 4) as int;
    if reply.len() == 0 {
        (m, Ok(served))
    } else if reply.len() < 4 {
        (m, Err(TransportError::Corrupt("truncated retransmit reply")))
    } else if reply.len() - 4 < len {
        (m, Err(TransportError::Corrupt("truncated retransmit packet")))
    } else {
        match read_packet(reply.subrange(4, 4 + len)) {
            Err(e) => (m, Err(e)),
            Ok(p) => if !m.welcomes(p.session()) {
                (
                    m,
                    Err(
                        TransportError::SessionMismatch {
                            expected: m.session->0,
                            got: p.session(),
                        },
                    ),
                )
            } else {
                absorbed(m.ingested(p), reply.skip(4 + len), served + carried(p))
            },
        }
    }
}

/// What a receiver knows once all packets of an answer are taken in.
pub open spec fn ingested_reply(m: StreamModel, session: u64, frames: Seq<Record>) -> StreamModel
    decreases frames.len(),
{
    if frames.len() == 0 {
        m
    } else {
        let k = first_chunk(frames.len()) as int;
        ingested_reply(
            m.ingested(PacketModel::Data { session, frames: frames.take(k) }),
            session,
            frames.skip(k),
        )
    }
}

/// An answer with frames of the session, numbered without a gap, is taken in
/// whole.
pub proof fn law_reply_is_absorbed_whole(
    m: StreamModel,
    session: u64,
    frames: Seq<Record>,
    served: nat,
)
    requires
        m.welcomes(session),
        forall|i: int|
            0 <= i < frames.len() ==> (#[trigger] frames[i]).valid() && frames[i].seq
                == frames[0].seq + i,
    ensures
        absorbed(m, reply_wire(session, frames), served) == (
            ingested_reply(m, session, frames),
            Ok::<nat, TransportError>(served + frames.len()),
        ),
    decreases frames.len(),
{
    if frames.len() > 0 {
        let k = first_chunk(frames.len()) as int;
        let part = frames.take(k);
        let rest = frames.skip(k);
        let p = PacketModel::Data { session, frames: part };
        let packet = p.wire();
        let tail = reply_wire(session, rest);
        let reply = reply_wire(session, frames);
        assert forall|i: int| 0 <= i < part.len() implies (#[trigger] part[i]).valid()
            && part[i].seq == part[0].seq + i by {
            assert(part[i] == frames[i]);
        }
        assert forall|i: int| 0 <= i < rest.len() implies (#[trigger] rest[i]).valid()
            && rest[i].seq == rest[0].seq + i by {
            assert(rest[i] == frames[i + k]);
            assert(rest[0] == frames[k]);
        }
        lemma_packet_fits(session, part);
        crate::transport::packet::law_packet_roundtrip(p);
        crate::le::lemma_pow256_values();
        crate::le::law_le_value_of_bytes(packet.len(), 4);
        assert(reply.subrange(0, 4) =~= crate::le::le_bytes(packet.len(), 4));
        assert(reply.subrange(4, 4 + packet.len() as int) =~= packet);
        assert(reply.skip(4 + packet.len() as int) =~= tail);
        crate::transport::reassembler::law_first_packet_locks_the_session(m, p);
        law_reply_is_absorbed_whole(m.ingested(p), session, rest, served + part.len());
    } else {
        assert(reply_wire(session, frames) =~= Seq::empty());
    }
}

/// A gap that is being filled: what is still wanted.
#[derive(Debug, Clone, Copy, PartialEq, Eq, Structural)]
pub struct GapFill {
    pub session: u64,
    pub wanted: SeqNo,
    pub remaining: u64,
}

/// Reading frames takes at least the bytes of their headers.
proof fn lemma_read_frames_len(buf: Seq<u8>, first: u64, i: nat, count: nat)
    requires
        i <= count,
    ensures
        read_frames(buf, first, i, count) matches Ok((frames, _)) ==> frames.len() == count - i
            && frames.len() * 32 <= buf.len(),
    decreases count - i,
{
    if i < count {
        if let Ok((f, n)) = read_record(buf) {
            reveal(read_record);
            lemma_read_frames_len(buf.skip(n as int), first, i + 1, count);
        }
    }
}

proof fn lemma_carried(bytes: Seq<u8>)
    ensures
        read_packet(bytes) matches Ok(p) ==> carried(p) <= bytes.len(),
{
    reveal(read_packet);
    if bytes.len() >= 27 {
        lemma_read_frames_len(
            bytes.skip(27),
            field(bytes, 15, 23) as u64,
            0,
            field(bytes, 5, 7),
        );
    }
}

impl GapFill {
    /// The request to send next, while something is wanted. One request asks
    /// for as much as its count can say.
    pub fn request(&self) -> (r: Option<RetransmitRequest>)
        ensures
            match r {
                None => self.remaining == 0,
                Some(q) => self.remaining > 0 && q.session == self.session && q.from == self.wanted
                    && q.count == if self.remaining < 0xFFFF_FFFF {
                    self.remaining as int
                } else {
                    0xFFFF_FFFF
                },
            },
    {
        if self.remaining == 0 {
            return None;
        }
        let count: u32 = if self.remaining < 0xFFFF_FFFF {
            self.remaining as u32
        } else {
            0xFFFF_FFFF
        };
        Some(RetransmitRequest { session: self.session, from: self.wanted, count })
    }

    /// The gap after `served` frames came in.
    pub open spec fn after(self, served: nat) -> GapFill {
        GapFill {
            session: self.session,
            wanted: SeqNo(
                if self.wanted.0 + served <= u64::MAX {
                    (self.wanted.0 + served) as u64
                } else {
                    u64::MAX
                },
            ),
            remaining: if served < self.remaining {
                (self.remaining - served) as u64
            } else {
                0
            },
        }
    }

    /// Takes in the answer to a request. Nothing, or nothing but heartbeats,
    /// in answer means that the rest of the gap cannot be recovered.
    pub fn on_reply(&mut self, stream: &mut Reassembler, reply: &[u8]) -> (r: Result<
        (),
        TransportError,
    >)
        ensures
            ({
                let lost = TransportError::GapUnrecoverable {
                    from: old(self).wanted.0,
                    count: old(self).remaining,
                };
                let (model, outcome) = absorbed(old(stream)@, reply@, 0);
                &&& final(stream)@ == model
                &&& match outcome {
                    Err(e) => r == Err::<(), TransportError>(e) && *final(self) == *old(self),
                    Ok(served) => if served == 0 {
                        r == Err::<(), TransportError>(lost) && *final(self) == *old(self)
                    } else {
                        r is Ok && *final(self) == old(self).after(served)
                    },
                }
            }),
    {
        let ghost start = stream@;
        let n: usize = reply.len();
        let mut at: usize = 0;
        let mut served: u64 = 0;
        assert(reply@.skip(0) =~= reply@);
        while at < n
            invariant
                at <= n == reply@.len(),
                served <= at,
                absorbed(start, reply@, 0) == absorbed(
                    stream@,
                    reply@.skip(at as int),
                    served as nat,
                ),
                start == old(stream)@,
                *self == *old(self),
            decreases n - at,
        {
            let ghost rest = reply@.skip(at as int);
            if n - at < 4 {
                return Err(TransportError::Corrupt("truncated retransmit reply"));
            }
            proof {
                crate::le::lemma_pow256_values();
                assert(rest.subrange(0, 4) =~= reply@.subrange(at as int, at + 4));
                crate::le::lemma_le_value_bound(rest.subrange(0, 4));
            }
            let len: u64 = get_le(vstd::slice::slice_subrange(reply, at, at + 4)) as u64;
            if ((n - at - 4) as u64) < len {
                return Err(TransportError::Corrupt("truncated retransmit packet"));
            }
            let end: usize = at + 4 + len as usize;
            let bytes = vstd::slice::slice_subrange(reply, at + 4, end);
            proof {
                assert(bytes@ =~= rest.subrange(4, 4 + len));
                lemma_carried(bytes@);
            }
            let packet = match Packet::decode(bytes) {
                Ok(p) => p,
                Err(e) => {
                    return Err(e);
                },
            };
            let count: u64 = match &packet {
                Packet::Data { frames, .. } => {
                    assert(records(frames@).len() == frames@.len());
                    frames.len() as u64
                },
                Packet::Heartbeat { .. } => 0,
            };
            assert(count == carried(packet@));
            match stream.ingest(packet) {
                Ok(()) => {},
                Err(e) => {
                    return Err(e);
                },
            }
            served = served + count;
            assert(rest.skip(4 + len) =~= reply@.skip(end as int));
            at = end;
        }
        assert(reply@.skip(at as int) =~= Seq::empty());
        if served == 0 {
            return Err(
                TransportError::GapUnrecoverable { from: self.wanted.0, count: self.remaining },
            );
        }
        self.wanted = SeqNo(self.wanted.0.saturating_add(served));
        self.remaining = self.remaining.saturating_sub(served);
        Ok(())
    }
}

/// What a receiver does next.
pub enum PollStep {
    /// The next frame in order.
    Deliver(Frame),
    /// Fill this gap, then look again.
    Fill(GapFill),
    /// Wait for packets.
    Wait,
}

/// The receiving end of the stream: packets go in, frames come out strictly
/// in seq order, and gaps are filled from a retransmitter where there is one.
pub struct Receiver {
    stream: Reassembler,
}

impl Receiver {
    pub closed spec fn model(&self) -> StreamModel {
        self.stream@
    }

    /// `from` is the first seq wanted (1 for the full history).
    pub fn new(from: SeqNo) -> (r: Self)
        ensures
            r.model().next == if from.0 > 1 {
                from.0
            } else {
                1
            },
            r.model().session is None,
            r.model().pending.len() == 0,
            r.model().announced == r.model().next,
            r.model().packets == 0,
    {
        Receiver { stream: Reassembler::new(from) }
    }

    /// Takes in one datagram.
    pub fn on_packet(&mut self, bytes: &[u8]) -> (r: Result<(), TransportError>)
        ensures
            match read_packet(bytes@) {
                Err(e) => r == Err::<(), TransportError>(e) && final(self).model() == old(
                    self,
                ).model(),
                Ok(p) => if old(self).model().welcomes(p.session()) {
                    r is Ok && final(self).model() == old(self).model().ingested(p)
                } else {
                    final(self).model() == old(self).model() && r == Err::<(), TransportError>(
                        TransportError::SessionMismatch {
                            expected: old(self).model().session->0,
                            got: p.session(),
                        },
                    )
                },
            },
    {
        let packet = match Packet::decode(bytes) {
            Ok(p) => p,
            Err(e) => {
                return Err(e);
            },
        };
        self.stream.ingest(packet)
    }

    /// What to do next. A gap with nobody to fill it is an error.
    pub fn step(&mut self, can_fill: bool) -> (r: Result<PollStep, TransportError>)
        ensures
            ({
                let m = old(self).model();
                let count = (m.gap_end() - m.next) as u64;
                if m.deliverable() {
                    &&& r matches Ok(PollStep::Deliver(f)) && f@ == m.pending[0]
                    &&& final(self).model() == m.delivered()
                } else {
                    &&& final(self).model() == m
                    &&& if m.gap_end() <= m.next {
                        r == Ok::<PollStep, TransportError>(PollStep::Wait)
                    } else if can_fill {
                        r == Ok::<PollStep, TransportError>(
                            PollStep::Fill(
                                GapFill {
                                    session: match m.session {
                                        Some(s) => s,
                                        None => 0,
                                    },
                                    wanted: SeqNo(m.next),
                                    remaining: count,
                                },
                            ),
                        )
                    } else {
                        r == Err::<PollStep, TransportError>(
                            TransportError::GapUnrecoverable { from: m.next, count },
                        )
                    }
                }
            }),
    {
        if let Some(frame) = self.stream.next_frame() {
            return Ok(PollStep::Deliver(frame));
        }
        match self.stream.gap() {
            None => Ok(PollStep::Wait),
            Some((from, count)) => {
                if !can_fill {
                    return Err(TransportError::GapUnrecoverable { from: from.0, count });
                }
                let session: u64 = match self.stream.session() {
                    Some(s) => s,
                    None => 0,
                };
                Ok(PollStep::Fill(GapFill { session, wanted: from, remaining: count }))
            },
        }
    }

    /// Takes in the answer to a gap-fill request.
    pub fn on_reply(&mut self, fill: &mut GapFill, reply: &[u8]) -> (r: Result<(), TransportError>)
        ensures
            final(self).model() == absorbed(old(self).model(), reply@, 0).0,
            match absorbed(old(self).model(), reply@, 0).1 {
                Err(e) => r == Err::<(), TransportError>(e) && *final(fill) == *old(fill),
                Ok(served) => if served == 0 {
                    &&& r == Err::<(), TransportError>(
                        TransportError::GapUnrecoverable {
                            from: old(fill).wanted.0,
                            count: old(fill).remaining,
                        },
                    )
                    &&& *final(fill) == *old(fill)
                } else {
                    r is Ok && *final(fill) == old(fill).after(served)
                },
            },
    {
        fill.on_reply(&mut self.stream, reply)
    }

    /// The seq the next delivered frame will carry.
    pub fn next_expected(&self) -> (r: SeqNo)
        ensures
            r.0 == self.model().next,
    {
        self.stream.next_expected()
    }

    /// The highest seq the upstream leader has announced.
    pub fn announced_high_water(&self) -> (r: SeqNo)
        ensures
            r.0 == if self.model().announced > 0 {
                self.model().announced - 1
            } else {
                0
            },
    {
        self.stream.announced_high_water()
    }

    /// How many packets came in. Heartbeats count, so an idle leader is not
    /// mistaken for a failed one.
    pub fn packets_seen(&self) -> (r: u64)
        ensures
            r == self.model().packets,
    {
        self.stream.packets_seen()
    }
}

/// An answer puts eight frames into a packet, and into the last one what is left.
pub proof fn law_answer_is_cut_into_packets(session: u64, frames: Seq<Record>, n: nat)
    ensures
        n <= 8 ==> first_chunk(n) == n,
        n > 8 ==> first_chunk(n) == 8,
        reply_wire(session, Seq::empty()) == Seq::<u8>::empty(),
        0 < frames.len() <= 8 ==> ({
            let packet = (PacketModel::Data { session, frames }).wire();
            reply_wire(session, frames) == crate::le::le_bytes(packet.len(), 4) + packet
        }),
        frames.len() > 8 ==> ({
            let packet = (PacketModel::Data { session, frames: frames.take(8) }).wire();
            reply_wire(session, frames) == crate::le::le_bytes(packet.len(), 4) + packet
                + reply_wire(session, frames.skip(8))
        }),
{
    if 0 < frames.len() <= 8 {
        let k = frames.len() as int;
        let packet = (PacketModel::Data { session, frames }).wire();
        assert(frames.take(k) =~= frames);
        assert(frames.skip(k) =~= Seq::empty());
        assert(reply_wire(session, frames.skip(k)) == Seq::<u8>::empty());
        assert(reply_wire(session, frames) =~= crate::le::le_bytes(packet.len(), 4) + packet);
    }
}

/// A gap shrinks from its front by what came in, and by nothing else: what is
/// still wanted begins behind it, and the end of the gap stays where it was.
pub proof fn law_gap_shrinks_by_what_came_in(gap: GapFill, served: nat, p: PacketModel)
    ensures
        gap.after(served).session == gap.session,
        gap.wanted.0 + served <= u64::MAX ==> gap.after(served).wanted.0 == gap.wanted.0 + served,
        served <= gap.remaining && gap.wanted.0 + gap.remaining <= u64::MAX ==> gap.after(
            served,
        ).wanted.0 + gap.after(served).remaining == gap.wanted.0 + gap.remaining,
        gap.after(served).remaining == 0 <==> served >= gap.remaining,
        gap.after(served).remaining <= gap.remaining,
        p is Heartbeat ==> carried(p) == 0,
        p matches PacketModel::Data { frames, .. } ==> carried(p) == frames.len(),
{
}

/// An answer that ends inside a length or inside a packet is refused, and one
/// from another session too; what was taken in before stays.
pub proof fn law_broken_answer_is_refused(
    m: StreamModel,
    reply: Seq<u8>,
    session: u64,
    next_seq: u64,
    served: nat,
)
    ensures
        reply.len() == 0 ==> absorbed(m, reply, served) == (m, Ok::<nat, TransportError>(served)),
        0 < reply.len() < 4 ==> absorbed(m, reply, served).0 == m && absorbed(
            m,
            reply,
            served,
        ).1 is Err,
        4 <= reply.len() < 4 + field(reply, 0, 4) ==> absorbed(m, reply, served).0 == m && absorbed(
            m,
            reply,
            served,
        ).1 is Err,
        reply.len() >= 4 + field(reply, 0, 4) && reply.len() >= 4 && read_packet(
            reply.subrange(4, 4 + field(reply, 0, 4) as int),
        ) == Ok::<PacketModel, TransportError>(PacketModel::Heartbeat { session, next_seq })
            && m.session is Some && m.session != Some(session) ==> absorbed(m, reply, served) == (
            m,
            Err::<nat, TransportError>(
                TransportError::SessionMismatch { expected: m.session->0, got: session },
            ),
        ),
{
}

} // verus!
