//! Packet layout for the sequenced stream.
//!
//! ```text
//!  offset size field
//!    0     4   magic       "TKTW"
//!    4     1   kind        0 = data, 1 = heartbeat
//!    5     2   count       frames in this packet (0 for a heartbeat)
//!    7     8   session     publisher session id
//!   15     8   first_seq   data: seq of the first frame; heartbeat: the next
//!                          seq the publisher will assign
//!   23     4   header_crc  CRC32C of bytes [0,23)
//!   27   ...   frames      back-to-back encoded frames (data only)
//! ```
//!
//! Frames inside one packet are seq-contiguous starting at `first_seq`. A
//! retransmit request follows the same discipline:
//!
//! ```text
//!    0     4   magic       "TKTR"
//!    4     8   session
//!   12     8   from        first seq wanted
//!   20     4   count       how many frames
//!   24     4   crc         CRC32C of bytes [0,24)
//! ```

use vstd::prelude::*;

use crate::crc32c::crc32c;
use crate::frame::{crc_bytes, field, read_record, Frame, Record};
use crate::journal::records;
use crate::le::{get_le, put_le};
use crate::segment::frames_wire;
use crate::seq::SeqNo;
use crate::transport::TransportError;

verus! {

broadcast use crate::le::lemma_le_bytes_len;

pub const PACKET_HEADER_LEN: usize = 27;

pub const REQUEST_LEN: usize = 28;

/// Keeps packets under a conservative ethernet-safe payload size.
pub const MAX_PACKET_BYTES: usize = 1400;

/// One datagram, as data.
#[verifier::ext_equal]
pub enum PacketModel {
    Data { session: u64, frames: Seq<Record> },
    Heartbeat { session: u64, next_seq: u64 },
}

pub open spec fn packet_magic() -> Seq<u8> {
    seq![0x54u8, 0x4Bu8, 0x54u8, 0x57u8]
}

pub open spec fn request_magic() -> Seq<u8> {
    seq![0x54u8, 0x4Bu8, 0x54u8, 0x52u8]
}

/// The part of a packet header that its CRC covers.
pub open spec fn packet_head(kind: u8, count: nat, session: u64, first: u64) -> Seq<u8> {
    packet_magic() + seq![kind] + crate::le::le_bytes(count, 2) + crate::le::le_bytes(
        session as nat,
        8,
    ) + crate::le::le_bytes(first as nat, 8)
}

impl PacketModel {
    pub open spec fn session(self) -> u64 {
        match self {
            PacketModel::Data { session, .. } => session,
            PacketModel::Heartbeat { session, .. } => session,
        }
    }

    /// Whether the packet can be sent: it carries between one and 65535
    /// frames within the payload cap.
    pub open spec fn sendable(self) -> bool {
        match self {
            PacketModel::Data { frames, .. } => {
                &&& 0 < frames.len() <= 0xFFFF
                &&& forall|i: int| 0 <= i < frames.len() ==> (#[trigger] frames[i]).valid()
            },
            PacketModel::Heartbeat { .. } => true,
        }
    }

    /// Whether the frames are numbered without a gap.
    pub open spec fn contiguous(self) -> bool {
        match self {
            PacketModel::Data { frames, .. } => forall|i: int|
                0 <= i < frames.len() ==> (#[trigger] frames[i]).seq == frames[0].seq + i,
            PacketModel::Heartbeat { .. } => true,
        }
    }

    pub open spec fn head(self) -> Seq<u8> {
        match self {
            PacketModel::Data { session, frames } => packet_head(
                0,
                frames.len(),
                session,
                frames[0].seq,
            ),
            PacketModel::Heartbeat { session, next_seq } => packet_head(1, 0, session, next_seq),
        }
    }

    pub open spec fn body(self) -> Seq<u8> {
        match self {
            PacketModel::Data { frames, .. } => frames_wire(frames),
            PacketModel::Heartbeat { .. } => Seq::empty(),
        }
    }

    /// The bytes of the packet.
    #[verifier::opaque]
    pub open spec fn wire(self) -> Seq<u8> {
        self.head() + crc_bytes(self.head()) + self.body()
    }
}

/// The frames from the `i`-th of `count` on, and what is left behind them.
pub open spec fn read_frames(buf: Seq<u8>, first: u64, i: nat, count: nat) -> Result<
    (Seq<Record>, Seq<u8>),
    TransportError,
>
    decreases count - i,
{
    if i >= count {
        Ok((Seq::empty(), buf))
    } else {
        match read_record(buf) {
            Err(e) => Err(TransportError::Frame(e)),
            Ok((f, n)) => if f.seq != first + i {
                Err(TransportError::Corrupt("non-contiguous frames in packet"))
            } else {
                match read_frames(buf.skip(n as int), first, i + 1, count) {
                    Err(e) => Err(e),
                    Ok((rest, tail)) => Ok((seq![f] + rest, tail)),
                }
            },
        }
    }
}

/// What bytes read as a packet.
#[verifier::opaque]
pub open spec fn read_packet(bytes: Seq<u8>) -> Result<PacketModel, TransportError> {
    if bytes.len() < 27 {
        Err(TransportError::Corrupt("short packet header"))
    } else if bytes.take(4) != packet_magic() {
        Err(TransportError::Corrupt("bad packet magic"))
    } else if crate::crc32c::checksum(bytes.take(23)) as nat != field(bytes, 23, 27) {
        Err(TransportError::Corrupt("packet header CRC mismatch"))
    } else {
        let count = field(bytes, 5, 7);
        let session = field(bytes, 7, 15) as u64;
        let first = field(bytes, 15, 23) as u64;
        if bytes[4] == 1 {
            Ok(PacketModel::Heartbeat { session, next_seq: first })
        } else if bytes[4] == 0 {
            if count == 0 {
                Err(TransportError::Corrupt("data packet with zero frames"))
            } else {
                match read_frames(bytes.skip(27), first, 0, count) {
                    Err(e) => Err(e),
                    Ok((frames, tail)) => if tail.len() > 0 {
                        Err(TransportError::Corrupt("trailing bytes after frames"))
                    } else {
                        Ok(PacketModel::Data { session, frames })
                    },
                }
            }
        } else {
            Err(TransportError::Corrupt("unknown packet kind"))
        }
    }
}

/// Frames that were sent read back as they were.
proof fn lemma_frames_read_back(frames: Seq<Record>, first: u64, i: nat)
    requires
        i <= frames.len(),
        forall|k: int|
            0 <= k < frames.len() ==> (#[trigger] frames[k]).valid() && frames[k].seq == first + k,
    ensures
        read_frames(frames_wire(frames.skip(i as int)), first, i, frames.len()) == Ok::<
            (Seq<Record>, Seq<u8>),
            TransportError,
        >((frames.skip(i as int), Seq::empty())),
    decreases frames.len() - i,
{
    let rest = frames.skip(i as int);
    if i < frames.len() {
        let f = rest[0];
        assert(f == frames[i as int]);
        let tail = frames_wire(rest.skip(1));
        crate::frame::law_frame_roundtrip(f, tail);
        assert(rest.skip(1) =~= frames.skip((i + 1) as int));
        lemma_frames_read_back(frames, first, i + 1);
        let buf = frames_wire(rest);
        let n = (read_record(buf)->Ok_0).1;
        assert(buf.skip(n as int) =~= tail);
        assert(seq![f] + rest.skip(1) =~= rest);
    } else {
        assert(rest =~= Seq::empty());
        assert(frames_wire(rest) =~= Seq::empty());
    }
}

/// The fields of a header.
proof fn lemma_packet_head(kind: u8, count: nat, session: u64, first: u64, tail: Seq<u8>)
    requires
        count <= 0xFFFF,
    ensures
        ({
            let head = packet_head(kind, count, session, first);
            let bytes = head + crc_bytes(head) + tail;
            &&& head.len() == 23
            &&& bytes.len() == 27 + tail.len()
            &&& bytes.take(4) == packet_magic()
            &&& bytes.take(23) == head
            &&& crate::crc32c::checksum(bytes.take(23)) as nat == field(bytes, 23, 27)
            &&& bytes[4] == kind
            &&& field(bytes, 5, 7) == count
            &&& field(bytes, 7, 15) == session
            &&& field(bytes, 15, 23) == first
            &&& bytes.skip(27) == tail
        }),
{
    let head = packet_head(kind, count, session, first);
    let crc = crc_bytes(head);
    let bytes = head + crc + tail;
    crate::le::lemma_pow256_values();
    assert(bytes.take(4) =~= packet_magic());
    assert(bytes.take(23) =~= head);
    assert(bytes.subrange(23, 27) =~= crc);
    assert(bytes.subrange(5, 7) =~= crate::le::le_bytes(count, 2));
    assert(bytes.subrange(7, 15) =~= crate::le::le_bytes(session as nat, 8));
    assert(bytes.subrange(15, 23) =~= crate::le::le_bytes(first as nat, 8));
    assert(bytes.skip(27) =~= tail);
    crate::le::law_le_value_of_bytes(crate::crc32c::checksum(head) as nat, 4);
    crate::le::law_le_value_of_bytes(count, 2);
    crate::le::law_le_value_of_bytes(session as nat, 8);
    crate::le::law_le_value_of_bytes(first as nat, 8);
}

/// A packet reads back as what was sent.
pub proof fn law_packet_roundtrip(p: PacketModel)
    requires
        p.sendable(),
        p.contiguous(),
    ensures
        read_packet(p.wire()) == Ok::<PacketModel, TransportError>(p),
{
    reveal(PacketModel::wire);
    reveal(read_packet);
    match p {
        PacketModel::Data { session, frames } => {
            lemma_packet_head(0, frames.len(), session, frames[0].seq, frames_wire(frames));
            lemma_frames_read_back(frames, frames[0].seq, 0);
            assert(frames.skip(0) =~= frames);
        },
        PacketModel::Heartbeat { session, next_seq } => {
            lemma_packet_head(1, 0, session, next_seq, Seq::empty());
        },
    }
}

/// A packet with one wrong byte in its header is refused.
pub proof fn law_damaged_packet_header_is_refused(p: PacketModel, i: int, byte: u8)
    requires
        p.sendable(),
        0 <= i < 27,
        p.wire()[i] != byte,
    ensures
        read_packet(p.wire().update(i, byte)) matches Err(TransportError::Corrupt(_)),
{
    reveal(PacketModel::wire);
    reveal(read_packet);
    let good = p.wire();
    let bad = good.update(i, byte);
    match p {
        PacketModel::Data { session, frames } => {
            lemma_packet_head(0, frames.len(), session, frames[0].seq, frames_wire(frames));
        },
        PacketModel::Heartbeat { session, next_seq } => {
            lemma_packet_head(1, 0, session, next_seq, Seq::empty());
        },
    }
    if i < 23 {
        assert(bad.take(23) =~= good.take(23).update(i, byte));
        assert(bad.subrange(23, 27) =~= good.subrange(23, 27));
        crate::crc32c::law_single_byte_change_is_detected(good.take(23), i, byte);
    } else {
        assert(bad.take(23) =~= good.take(23));
        let a = good.subrange(23, 27);
        let b = bad.subrange(23, 27);
        assert(a[i - 23] != b[i - 23]);
        if crate::le::le_value(a) == crate::le::le_value(b) {
            crate::le::law_le_bytes_of_value(a);
            crate::le::law_le_bytes_of_value(b);
        }
    }
}

/// One datagram on the sequenced stream.
#[derive(Debug, Clone, PartialEq, Eq)]
pub enum Packet {
    /// Seq-contiguous frames starting at `frames[0].seq`.
    Data { session: u64, frames: Vec<Frame> },
    /// Liveness and high-water: `next_seq` is the next seq the publisher will
    /// assign, so receivers can detect tail loss.
    Heartbeat { session: u64, next_seq: SeqNo },
}

impl View for Packet {
    type V = PacketModel;

    open spec fn view(&self) -> PacketModel {
        match self {
            Packet::Data { session, frames } => PacketModel::Data {
                session: *session,
                frames: records(frames@),
            },
            Packet::Heartbeat { session, next_seq } => PacketModel::Heartbeat {
                session: *session,
                next_seq: next_seq.0,
            },
        }
    }
}

/// Appends the header of a packet.
fn put_head(out: &mut Vec<u8>, kind: u8, count: u16, session: u64, first: u64)
    ensures
        ({
            let head = packet_head(kind, count as nat, session, first);
            final(out)@ == old(out)@ + (head + crc_bytes(head))
        }),
{
    let mut head: Vec<u8> = Vec::with_capacity(PACKET_HEADER_LEN);
    head.push(0x54);
    head.push(0x4B);
    head.push(0x54);
    head.push(0x57);
    head.push(kind);
    put_le(&mut head, count as u128, 2);
    put_le(&mut head, session as u128, 8);
    put_le(&mut head, first as u128, 8);
    let ghost bytes = packet_head(kind, count as nat, session, first);
    assert(head@ =~= bytes);
    let crc: u32 = crc32c(head.as_slice());
    put_le(&mut head, crc as u128, 4);
    assert(head@ =~= bytes + crc_bytes(bytes));
    let ghost before = out@;
    out.append(&mut head);
    assert(out@ =~= before + (bytes + crc_bytes(bytes)));
}

/// The bytes of a data packet that carries the frames from `from` up to `to`.
pub fn encode_data(session: u64, frames: &Vec<Frame>, from: usize, to: usize) -> (out: Vec<u8>)
    requires
        from < to <= frames@.len(),
        to - from <= 0xFFFF,
        forall|i: int| from <= i < to ==> (#[trigger] frames@[i])@.valid(),
    ensures
        out@ == (PacketModel::Data {
            session,
            frames: records(frames@).subrange(from as int, to as int),
        }).wire(),
{
    proof {
        reveal(PacketModel::wire);
    }
    let ghost part = records(frames@).subrange(from as int, to as int);
    let mut out: Vec<u8> = Vec::new();
    let first: u64 = frames[from].seq.0;
    assert(part[0] == frames@[from as int]@);
    put_head(&mut out, 0, (to - from) as u16, session, first);
    let ghost head = out@;
    let mut i: usize = from;
    assert(part.skip(0) =~= part);
    assert(head + frames_wire(part) =~= out@ + frames_wire(part.skip(0)));
    while i < to
        invariant
            from <= i <= to <= frames@.len(),
            part == records(frames@).subrange(from as int, to as int),
            forall|i: int| from <= i < to ==> (#[trigger] frames@[i])@.valid(),
            head + frames_wire(part) == out@ + frames_wire(part.skip(i - from)),
        decreases to - i,
    {
        let ghost before = out@;
        let ghost rest = part.skip(i - from);
        let frame = &frames[i];
        frame.write_to(&mut out);
        proof {
            assert(rest[0] == frame@);
            assert(rest.skip(1) =~= part.skip(i + 1 - from));
            assert(before + (frame@.wire() + frames_wire(rest.skip(1))) =~= out@ + frames_wire(
                rest.skip(1),
            ));
        }
        i = i + 1;
    }
    proof {
        assert(part.skip(to - from) =~= Seq::empty());
        assert(frames_wire(part.skip(to - from)) =~= Seq::empty());
        assert(out@ =~= head + frames_wire(part));
    }
    out
}

impl Packet {
    pub fn session(&self) -> (r: u64)
        ensures
            r == self@.session(),
    {
        match self {
            Packet::Data { session, .. } => *session,
            Packet::Heartbeat { session, .. } => *session,
        }
    }

    pub fn encode(&self) -> (out: Vec<u8>)
        requires
            self@.sendable(),
        ensures
            out@ == self@.wire(),
    {
        match self {
            Packet::Data { session, frames } => {
                let ghost all = records(frames@);
                assert forall|i: int| 0 <= i < frames@.len() implies (
                #[trigger] frames@[i])@.valid() by {
                    assert(all[i] == frames@[i]@);
                }
                let n: usize = frames.len();
                assert(all.len() == n);
                assert(all.subrange(0, n as int) =~= all);
                encode_data(*session, frames, 0, n)
            },
            Packet::Heartbeat { session, next_seq } => {
                proof {
                    reveal(PacketModel::wire);
                }
                let mut out: Vec<u8> = Vec::new();
                put_head(&mut out, 1, 0, *session, next_seq.0);
                assert(out@ =~= self@.wire());
                out
            },
        }
    }

    pub fn decode(bytes: &[u8]) -> (r: Result<Packet, TransportError>)
        ensures
            match read_packet(bytes@) {
                Ok(p) => r matches Ok(packet) && packet@ == p,
                Err(e) => r == Err::<Packet, TransportError>(e),
            },
    {
        proof {
            reveal(read_packet);
        }
        if bytes.len() < PACKET_HEADER_LEN {
            return Err(TransportError::Corrupt("short packet header"));
        }
        proof {
            crate::le::lemma_pow256_values();
            crate::le::lemma_le_value_bound(bytes@.subrange(5, 7));
            crate::le::lemma_le_value_bound(bytes@.subrange(7, 15));
            crate::le::lemma_le_value_bound(bytes@.subrange(15, 23));
            crate::le::lemma_le_value_bound(bytes@.subrange(23, 27));
        }
        let magic: bool = bytes[0] == 0x54 && bytes[1] == 0x4B && bytes[2] == 0x54 && bytes[3]
            == 0x57;
        assert(magic == (bytes@.take(4) == packet_magic())) by {
            if magic {
                assert(bytes@.take(4) =~= packet_magic());
            } else if bytes@.take(4) == packet_magic() {
                assert(bytes@.take(4)[0] == bytes@[0]);
                assert(bytes@.take(4)[1] == bytes@[1]);
                assert(bytes@.take(4)[2] == bytes@[2]);
                assert(bytes@.take(4)[3] == bytes@[3]);
            }
        }
        if !magic {
            return Err(TransportError::Corrupt("bad packet magic"));
        }
        let head = vstd::slice::slice_subrange(bytes, 0, 23);
        assert(head@ =~= bytes@.take(23));
        let stored: u128 = get_le(vstd::slice::slice_subrange(bytes, 23, 27));
        if crc32c(head) as u128 != stored {
            return Err(TransportError::Corrupt("packet header CRC mismatch"));
        }
        let count: u64 = get_le(vstd::slice::slice_subrange(bytes, 5, 7)) as u64;
        let session: u64 = get_le(vstd::slice::slice_subrange(bytes, 7, 15)) as u64;
        let first: u64 = get_le(vstd::slice::slice_subrange(bytes, 15, 23)) as u64;
        let kind: u8 = bytes[4];
        if kind == 1 {
            return Ok(Packet::Heartbeat { session, next_seq: SeqNo(first) });
        }
        if kind != 0 {
            return Err(TransportError::Corrupt("unknown packet kind"));
        }
        if count == 0 {
            return Err(TransportError::Corrupt("data packet with zero frames"));
        }
        let mut cursor: &[u8] = vstd::slice::slice_subrange(bytes, PACKET_HEADER_LEN, bytes.len());
        assert(cursor@ =~= bytes@.skip(27));
        let ghost all = cursor@;
        let mut frames: Vec<Frame> = Vec::new();
        let mut i: u64 = 0;
        assert(records(frames@) =~= Seq::<Record>::empty());
        proof {
            if let Ok((rest, _)) = read_frames(all, first, 0, count as nat) {
                assert(records(frames@) + rest =~= rest);
            }
        }
        while i < count
            invariant
                i <= count,
                match read_frames(cursor@, first, i as nat, count as nat) {
                    Ok((rest, tail)) => read_frames(all, first, 0, count as nat) == Ok::<
                        (Seq<Record>, Seq<u8>),
                        TransportError,
                    >((records(frames@) + rest, tail)),
                    Err(e) => read_frames(all, first, 0, count as nat) == Err::<
                        (Seq<Record>, Seq<u8>),
                        TransportError,
                    >(e),
                },
                read_packet(bytes@) == (match read_frames(all, first, 0, count as nat) {
                    Err(e) => Err::<PacketModel, TransportError>(e),
                    Ok((frames, tail)) => if tail.len() > 0 {
                        Err(TransportError::Corrupt("trailing bytes after frames"))
                    } else {
                        Ok(PacketModel::Data { session, frames })
                    },
                }),
            decreases count - i,
        {
            let frame = match Frame::read_from(&mut cursor) {
                Ok(f) => f,
                Err(e) => {
                    return Err(TransportError::Frame(e));
                },
            };
            if first > u64::MAX - i || frame.seq.0 != first + i {
                return Err(TransportError::Corrupt("non-contiguous frames in packet"));
            }
            let ghost got = records(frames@);
            let ghost f = frame@;
            frames.push(frame);
            proof {
                assert(records(frames@) =~= got.push(f));
                if let Ok((rest, _)) = read_frames(cursor@, first, (i + 1) as nat, count as nat) {
                    assert(got + (seq![f] + rest) =~= got.push(f) + rest);
                }
            }
            i = i + 1;
        }
        assert(read_frames(cursor@, first, i as nat, count as nat) == Ok::<
            (Seq<Record>, Seq<u8>),
            TransportError,
        >((Seq::empty(), cursor@)));
        assert(records(frames@) + Seq::<Record>::empty() =~= records(frames@));
        if cursor.len() > 0 {
            return Err(TransportError::Corrupt("trailing bytes after frames"));
        }
        Ok(Packet::Data { session, frames })
    }
}

/// A retransmit range request.
#[derive(Debug, Clone, Copy, PartialEq, Eq, Structural)]
pub struct RetransmitRequest {
    pub session: u64,
    pub from: SeqNo,
    pub count: u32,
}

/// The part of a request that its CRC covers.
pub open spec fn request_head(r: RetransmitRequest) -> Seq<u8> {
    request_magic() + crate::le::le_bytes(r.session as nat, 8) + crate::le::le_bytes(
        r.from.0 as nat,
        8,
    ) + crate::le::le_bytes(r.count as nat, 4)
}

/// The bytes of a request.
#[verifier::opaque]
pub open spec fn request_wire(r: RetransmitRequest) -> Seq<u8> {
    request_head(r) + crc_bytes(request_head(r))
}

/// What bytes read as a request.
#[verifier::opaque]
pub open spec fn read_request(bytes: Seq<u8>) -> Result<RetransmitRequest, TransportError> {
    if bytes.len() < 28 {
        Err(TransportError::Corrupt("short retransmit request"))
    } else if bytes.take(4) != request_magic() {
        Err(TransportError::Corrupt("bad request magic"))
    } else if crate::crc32c::checksum(bytes.take(24)) as nat != field(bytes, 24, 28) {
        Err(TransportError::Corrupt("request CRC mismatch"))
    } else {
        Ok(
            RetransmitRequest {
                session: field(bytes, 4, 12) as u64,
                from: SeqNo(field(bytes, 12, 20) as u64),
                count: field(bytes, 20, 24) as u32,
            },
        )
    }
}

/// A request reads back as what was sent.
pub proof fn law_request_roundtrip(r: RetransmitRequest)
    ensures
        request_wire(r).len() == 28,
        read_request(request_wire(r)) == Ok::<RetransmitRequest, TransportError>(r),
{
    reveal(request_wire);
    reveal(read_request);
    let head = request_head(r);
    let crc = crc_bytes(head);
    let bytes = head + crc;
    crate::le::lemma_pow256_values();
    assert(bytes.take(4) =~= request_magic());
    assert(bytes.take(24) =~= head);
    assert(bytes.subrange(24, 28) =~= crc);
    assert(bytes.subrange(4, 12) =~= crate::le::le_bytes(r.session as nat, 8));
    assert(bytes.subrange(12, 20) =~= crate::le::le_bytes(r.from.0 as nat, 8));
    assert(bytes.subrange(20, 24) =~= crate::le::le_bytes(r.count as nat, 4));
    crate::le::law_le_value_of_bytes(crate::crc32c::checksum(head) as nat, 4);
    crate::le::law_le_value_of_bytes(r.session as nat, 8);
    crate::le::law_le_value_of_bytes(r.from.0 as nat, 8);
    crate::le::law_le_value_of_bytes(r.count as nat, 4);
}

impl RetransmitRequest {
    pub fn encode(&self) -> (out: Vec<u8>)
        ensures
            out@ == request_wire(*self),
            out@.len() == REQUEST_LEN,
    {
        proof {
            reveal(request_wire);
            law_request_roundtrip(*self);
        }
        let mut out: Vec<u8> = Vec::with_capacity(REQUEST_LEN);
        out.push(0x54);
        out.push(0x4B);
        out.push(0x54);
        out.push(0x52);
        put_le(&mut out, self.session as u128, 8);
        put_le(&mut out, self.from.0 as u128, 8);
        put_le(&mut out, self.count as u128, 4);
        assert(out@ =~= request_head(*self));
        let crc: u32 = crc32c(out.as_slice());
        put_le(&mut out, crc as u128, 4);
        assert(out@ =~= request_wire(*self));
        out
    }

    pub fn decode(bytes: &[u8]) -> (r: Result<RetransmitRequest, TransportError>)
        ensures
            r == read_request(bytes@),
    {
        proof {
            reveal(read_request);
        }
        if bytes.len() < REQUEST_LEN {
            return Err(TransportError::Corrupt("short retransmit request"));
        }
        proof {
            crate::le::lemma_pow256_values();
            crate::le::lemma_le_value_bound(bytes@.subrange(4, 12));
            crate::le::lemma_le_value_bound(bytes@.subrange(12, 20));
            crate::le::lemma_le_value_bound(bytes@.subrange(20, 24));
            crate::le::lemma_le_value_bound(bytes@.subrange(24, 28));
        }
        let magic: bool = bytes[0] == 0x54 && bytes[1] == 0x4B && bytes[2] == 0x54 && bytes[3]
            == 0x52;
        assert(magic == (bytes@.take(4) == request_magic())) by {
            if magic {
                assert(bytes@.take(4) =~= request_magic());
            } else if bytes@.take(4) == request_magic() {
                assert(bytes@.take(4)[0] == bytes@[0]);
                assert(bytes@.take(4)[1] == bytes@[1]);
                assert(bytes@.take(4)[2] == bytes@[2]);
                assert(bytes@.take(4)[3] == bytes@[3]);
            }
        }
        if !magic {
            return Err(TransportError::Corrupt("bad request magic"));
        }
        let head = vstd::slice::slice_subrange(bytes, 0, 24);
        assert(head@ =~= bytes@.take(24));
        let stored: u128 = get_le(vstd::slice::slice_subrange(bytes, 24, 28));
        if crc32c(head) as u128 != stored {
            return Err(TransportError::Corrupt("request CRC mismatch"));
        }
        Ok(
            RetransmitRequest {
                session: get_le(vstd::slice::slice_subrange(bytes, 4, 12)) as u64,
                from: SeqNo(get_le(vstd::slice::slice_subrange(bytes, 12, 20)) as u64),
                count: get_le(vstd::slice::slice_subrange(bytes, 20, 24)) as u32,
            },
        )
    }
}

/// Where the parts of a packet lie: a data packet tells how many frames it
/// carries and the seq of the first, a heartbeat the seq that comes next.
pub proof fn law_packet_layout(p: PacketModel)
    requires
        p.sendable(),
    ensures
        ({
            let b = p.wire();
            &&& b.len() >= 27
            &&& b.take(4) == seq![0x54u8, 0x4Bu8, 0x54u8, 0x57u8]
            &&& b.subrange(23, 27) == crate::le::le_bytes(
                crate::crc32c::checksum(b.take(23)) as nat,
                4,
            )
            &&& match p {
                PacketModel::Data { session, frames } => {
                    &&& b[4] == 0
                    &&& b.subrange(5, 7) == crate::le::le_bytes(frames.len(), 2)
                    &&& b.subrange(7, 15) == crate::le::le_bytes(session as nat, 8)
                    &&& b.subrange(15, 23) == crate::le::le_bytes(frames[0].seq as nat, 8)
                    &&& b.skip(27) == frames_wire(frames)
                },
                PacketModel::Heartbeat { session, next_seq } => {
                    &&& b.len() == 27
                    &&& b[4] == 1
                    &&& b.subrange(5, 7) == crate::le::le_bytes(0, 2)
                    &&& b.subrange(7, 15) == crate::le::le_bytes(session as nat, 8)
                    &&& b.subrange(15, 23) == crate::le::le_bytes(next_seq as nat, 8)
                },
            }
        }),
{
    reveal(PacketModel::wire);
    let b = p.wire();
    assert(b.take(23) =~= p.head());
    assert(b.take(4) =~= seq![0x54u8, 0x4Bu8, 0x54u8, 0x57u8]);
    assert(b.subrange(23, 27) =~= crc_bytes(p.head()));
    match p {
        PacketModel::Data { session, frames } => {
            assert(b.subrange(5, 7) =~= crate::le::le_bytes(frames.len(), 2));
            assert(b.subrange(7, 15) =~= crate::le::le_bytes(session as nat, 8));
            assert(b.subrange(15, 23) =~= crate::le::le_bytes(frames[0].seq as nat, 8));
            assert(b.skip(27) =~= frames_wire(frames));
        },
        PacketModel::Heartbeat { session, next_seq } => {
            assert(b.subrange(5, 7) =~= crate::le::le_bytes(0, 2));
            assert(b.subrange(7, 15) =~= crate::le::le_bytes(session as nat, 8));
            assert(b.subrange(15, 23) =~= crate::le::le_bytes(next_seq as nat, 8));
        },
    }
}

/// Where the parts of a request lie.
pub proof fn law_request_layout(r: RetransmitRequest)
    ensures
        ({
            let b = request_wire(r);
            &&& b.len() == 28
            &&& b.take(4) == seq![0x54u8, 0x4Bu8, 0x54u8, 0x52u8]
            &&& b.subrange(4, 12) == crate::le::le_bytes(r.session as nat, 8)
            &&& b.subrange(12, 20) == crate::le::le_bytes(r.from.0 as nat, 8)
            &&& b.subrange(20, 24) == crate::le::le_bytes(r.count as nat, 4)
            &&& b.skip(24) == crate::le::le_bytes(crate::crc32c::checksum(b.take(24)) as nat, 4)
        }),
{
    reveal(request_wire);
    let b = request_wire(r);
    assert(b.take(24) =~= request_head(r));
    assert(b.take(4) =~= seq![0x54u8, 0x4Bu8, 0x54u8, 0x52u8]);
    assert(b.subrange(4, 12) =~= crate::le::le_bytes(r.session as nat, 8));
    assert(b.subrange(12, 20) =~= crate::le::le_bytes(r.from.0 as nat, 8));
    assert(b.subrange(20, 24) =~= crate::le::le_bytes(r.count as nat, 4));
    assert(b.skip(24) =~= crc_bytes(request_head(r)));
}

/// What reads as a data packet carries as many frames as its header tells, one
/// at least, numbered without a gap from the seq in its header on.
pub proof fn law_packet_carries_what_it_tells(bytes: Seq<u8>)
    ensures
        read_packet(bytes) matches Ok(p) ==> {
            &&& p matches PacketModel::Data { frames, .. } ==> frames.len() == field(bytes, 5, 7)
                && 0 < frames.len() && forall|k: int|
                0 <= k < frames.len() ==> (#[trigger] frames[k]).seq == field(bytes, 15, 23) as u64
                    + k
            &&& p.session() == field(bytes, 7, 15) as u64
        },
        bytes.len() < 27 ==> read_packet(bytes) is Err,
        bytes.take(4) != seq![0x54u8, 0x4Bu8, 0x54u8, 0x57u8] ==> read_packet(bytes) is Err,
{
    reveal(read_packet);
    if bytes.len() >= 27 {
        lemma_read_frames_count(
            bytes.skip(27),
            field(bytes, 15, 23) as u64,
            0,
            field(bytes, 5, 7),
        );
    }
}

/// As many frames are read as are asked for, numbered without a gap.
proof fn lemma_read_frames_count(buf: Seq<u8>, first: u64, i: nat, count: nat)
    requires
        i <= count,
    ensures
        read_frames(buf, first, i, count) matches Ok((frames, _)) ==> frames.len() == count - i
            && forall|k: int|
            0 <= k < frames.len() ==> (#[trigger] frames[k]).seq == first + i + k,
    decreases count - i,
{
    if i < count {
        if let Ok((f, n)) = read_record(buf) {
            lemma_read_frames_count(buf.skip(n as int), first, i + 1, count);
        }
    }
}

} // verus!
