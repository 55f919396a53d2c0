//! The [`Frame`]: the record layout used on the wire and in the journal.
//!
//! Fixed little-endian header, opaque payload, CRC32C over both:
//!
//! ```text
//!  offset size field
//!    0     8   seq           u64  monotonic global sequence number
//!    8     8   timestamp     u64  sequencer-assigned nanos since epoch
//!   16     2   stream_id     u16  logical stream/topic
//!   18     2   kind          u16  frame kind
//!   20     4   payload_len   u32  payload length in bytes
//!   24     4   header_crc    u32  CRC32C of bytes [0,24)
//!   28   ...   payload
//!   ..     4   payload_crc   u32  CRC32C of payload
//! ```

use vstd::prelude::*;
use vstd::slice::slice_subrange;

use crate::crc32c::crc32c;
use crate::le::{get_le, put_le};
use crate::seq::{SeqNo, Timestamp};

verus! {

broadcast use crate::le::lemma_le_bytes_len;

/// Size of the fixed frame header, bytes `[0, 28)`.
pub const FRAME_HEADER_LEN: usize = 28;

/// Sanity cap on payload size (64 MiB). A `payload_len` above this is
/// treated as corruption rather than an allocation request.
pub const MAX_PAYLOAD_LEN: u32 = 67_108_864;

/// What a frame carries. Values are stable wire constants.
#[derive(Debug, Clone, Copy, PartialEq, Eq, Hash, Structural)]
pub enum FrameKind {
    /// Application command (payload = encoded input).
    Input,
    /// Application event (payload = encoded output).
    Output,
    /// Injected time event; payload empty, `timestamp` authoritative.
    Tick,
    /// A deterministic timer reached its deadline. Payload = encoded timer
    /// `id` (u64); the sequencer injects this as a sequenced input when
    /// sequenced time passes the timer's deadline, so firing is journaled
    /// and replays identically on every replica.
    TimerFired,
    /// A gateway session opened.
    SessionOpen,
    /// A gateway session closed.
    SessionClose,
    /// Marks a seq at which a snapshot was taken.
    SnapshotMark,
    /// Leadership epoch transition.
    EpochChange,
    /// Sequencer liveness and current high-water seq.
    Heartbeat,
}

/// The wire constant of a frame kind.
pub open spec fn kind_code(kind: FrameKind) -> u16 {
    match kind {
        FrameKind::Input => 0x0001,
        FrameKind::Output => 0x0002,
        FrameKind::Tick => 0x0010,
        FrameKind::SessionOpen => 0x0011,
        FrameKind::SessionClose => 0x0012,
        FrameKind::TimerFired => 0x0013,
        FrameKind::SnapshotMark => 0x0020,
        FrameKind::EpochChange => 0x0030,
        FrameKind::Heartbeat => 0x00FF,
    }
}

/// The frame kind that a wire constant stands for.
pub open spec fn kind_of_code(code: u16) -> Option<FrameKind> {
    if code == 0x0001 {
        Some(FrameKind::Input)
    } else if code == 0x0002 {
        Some(FrameKind::Output)
    } else if code == 0x0010 {
        Some(FrameKind::Tick)
    } else if code == 0x0011 {
        Some(FrameKind::SessionOpen)
    } else if code == 0x0012 {
        Some(FrameKind::SessionClose)
    } else if code == 0x0013 {
        Some(FrameKind::TimerFired)
    } else if code == 0x0020 {
        Some(FrameKind::SnapshotMark)
    } else if code == 0x0030 {
        Some(FrameKind::EpochChange)
    } else if code == 0x00FF {
        Some(FrameKind::Heartbeat)
    } else {
        None
    }
}

impl FrameKind {
    pub fn from_u16(v: u16) -> (r: Option<FrameKind>)
        ensures
            r == kind_of_code(v),
            r matches Some(k) ==> kind_code(k) == v,
    {
        if v == 0x0001 {
            Some(FrameKind::Input)
        } else if v == 0x0002 {
            Some(FrameKind::Output)
        } else if v == 0x0010 {
            Some(FrameKind::Tick)
        } else if v == 0x0011 {
            Some(FrameKind::SessionOpen)
        } else if v == 0x0012 {
            Some(FrameKind::SessionClose)
        } else if v == 0x0013 {
            Some(FrameKind::TimerFired)
        } else if v == 0x0020 {
            Some(FrameKind::SnapshotMark)
        } else if v == 0x0030 {
            Some(FrameKind::EpochChange)
        } else if v == 0x00FF {
            Some(FrameKind::Heartbeat)
        } else {
            None
        }
    }

    /// The wire constant of this kind.
    pub fn as_u16(self) -> (r: u16)
        ensures
            r == kind_code(self),
            kind_of_code(r) == Some(self),
    {
        match self {
            FrameKind::Input => 0x0001,
            FrameKind::Output => 0x0002,
            FrameKind::Tick => 0x0010,
            FrameKind::SessionOpen => 0x0011,
            FrameKind::SessionClose => 0x0012,
            FrameKind::TimerFired => 0x0013,
            FrameKind::SnapshotMark => 0x0020,
            FrameKind::EpochChange => 0x0030,
            FrameKind::Heartbeat => 0x00FF,
        }
    }
}

/// Errors from decoding a frame out of a byte buffer.
#[derive(Debug, Clone, Copy, PartialEq, Eq, Structural)]
pub enum FrameError {
    /// Fewer bytes remain than a complete frame; distinguishes a clean or
    /// torn tail from mid-stream corruption at the journal layer.
    Truncated,
    /// Header CRC mismatch.
    HeaderCrc,
    /// Payload CRC mismatch.
    PayloadCrc,
    /// Unknown `kind` value.
    UnknownKind(u16),
    /// `payload_len` exceeds the sanity cap.
    PayloadTooLarge(u32),
}

/// One sequenced record.
#[derive(Debug, PartialEq, Eq)]
pub struct Frame {
    pub seq: SeqNo,
    pub timestamp: Timestamp,
    pub stream_id: u16,
    pub kind: FrameKind,
    pub payload: Vec<u8>,
}

/// The contents of a [`Frame`].
#[verifier::ext_equal]
pub struct Record {
    pub seq: u64,
    pub time: u64,
    pub stream_id: u16,
    pub kind: FrameKind,
    pub payload: Seq<u8>,
}

impl View for Frame {
    type V = Record;

    open spec fn view(&self) -> Record {
        Record {
            seq: self.seq.0,
            time: self.timestamp.0,
            stream_id: self.stream_id,
            kind: self.kind,
            payload: self.payload@,
        }
    }
}

impl Record {
    /// The payload respects the cap.
    pub open spec fn valid(self) -> bool {
        self.payload.len() <= MAX_PAYLOAD_LEN
    }

    /// The part of the header that the header CRC covers.
    pub open spec fn head(self) -> Seq<u8> {
        crate::le::le_bytes(self.seq as nat, 8) + crate::le::le_bytes(self.time as nat, 8)
            + crate::le::le_bytes(self.stream_id as nat, 2) + crate::le::le_bytes(
            kind_code(self.kind) as nat,
            2,
        ) + crate::le::le_bytes(self.payload.len(), 4)
    }

    /// The bytes of the record on the wire and on disk.
    #[verifier::opaque]
    pub open spec fn wire(self) -> Seq<u8> {
        self.head() + crc_bytes(self.head()) + self.payload + crc_bytes(self.payload)
    }
}

/// The stored checksum of `data`.
pub open spec fn crc_bytes(data: Seq<u8>) -> Seq<u8> {
    crate::le::le_bytes(crate::crc32c::checksum(data) as nat, 4)
}

/// The number that the bytes `[from, to)` of `buf` hold.
pub open spec fn field(buf: Seq<u8>, from: int, to: int) -> nat {
    crate::le::le_value(buf.subrange(from, to))
}

/// What the front of `buf` reads as: a record and its size, or the error.
#[verifier::opaque]
pub open spec fn read_record(buf: Seq<u8>) -> Result<(Record, nat), FrameError> {
    if buf.len() < 28 {
        Err(FrameError::Truncated)
    } else if crate::crc32c::checksum(buf.take(24)) as nat != field(buf, 24, 28) {
        Err(FrameError::HeaderCrc)
    } else {
        let len = field(buf, 20, 24) as int;
        let code = field(buf, 18, 20) as u16;
        if len > MAX_PAYLOAD_LEN {
            Err(FrameError::PayloadTooLarge(len as u32))
        } else if kind_of_code(code) is None {
            Err(FrameError::UnknownKind(code))
        } else if buf.len() < 28 + len + 4 {
            Err(FrameError::Truncated)
        } else {
            let payload = buf.subrange(28, 28 + len);
            if crate::crc32c::checksum(payload) as nat != field(buf, 28 + len, 28 + len + 4) {
                Err(FrameError::PayloadCrc)
            } else {
                Ok(
                    (
                        Record {
                            seq: field(buf, 0, 8) as u64,
                            time: field(buf, 8, 16) as u64,
                            stream_id: field(buf, 16, 18) as u16,
                            kind: kind_of_code(code)->0,
                            payload,
                        },
                        (28 + len + 4) as nat,
                    ),
                )
            }
        }
    }
}

/// Where the fields of the header lie.
pub proof fn lemma_head_fields(f: Record, buf: Seq<u8>)
    requires
        f.valid(),
        buf.len() >= 24,
        buf.take(24) == f.head(),
    ensures
        f.head().len() == 24,
        field(buf, 0, 8) == f.seq,
        field(buf, 8, 16) == f.time,
        field(buf, 16, 18) == f.stream_id,
        field(buf, 18, 20) == kind_code(f.kind),
        field(buf, 20, 24) == f.payload.len(),
{
    let h = f.head();
    crate::le::lemma_pow256_values();
    assert forall|a: int, b: int| 0 <= a <= b <= 24 implies #[trigger] buf.subrange(a, b)
        == h.subrange(a, b) by {
        assert(buf.subrange(a, b) =~= buf.take(24).subrange(a, b));
    }
    assert(h.subrange(0, 8) =~= crate::le::le_bytes(f.seq as nat, 8));
    assert(h.subrange(8, 16) =~= crate::le::le_bytes(f.time as nat, 8));
    assert(h.subrange(16, 18) =~= crate::le::le_bytes(f.stream_id as nat, 2));
    assert(h.subrange(18, 20) =~= crate::le::le_bytes(kind_code(f.kind) as nat, 2));
    assert(h.subrange(20, 24) =~= crate::le::le_bytes(f.payload.len(), 4));
    crate::le::law_le_value_of_bytes(f.seq as nat, 8);
    crate::le::law_le_value_of_bytes(f.time as nat, 8);
    crate::le::law_le_value_of_bytes(f.stream_id as nat, 2);
    crate::le::law_le_value_of_bytes(kind_code(f.kind) as nat, 2);
    crate::le::law_le_value_of_bytes(f.payload.len(), 4);
}

proof fn lemma_kind_codes(k: FrameKind)
    ensures
        kind_of_code(kind_code(k)) == Some(k),
{
}

pub proof fn lemma_wire_len(f: Record)
    ensures
        f.head().len() == 24,
        f.wire().len() == 32 + f.payload.len(),
{
    reveal(Record::wire);
}

/// A record reads back, whatever follows it, and exactly its bytes are consumed.
pub proof fn law_frame_roundtrip(f: Record, rest: Seq<u8>)
    requires
        f.valid(),
    ensures
        read_record(f.wire() + rest) == Ok::<(Record, nat), FrameError>((f, f.wire().len())),
{
    reveal(read_record);
    reveal(Record::wire);
    let buf = f.wire() + rest;
    let h = f.head();
    let len = f.payload.len() as int;
    lemma_wire_len(f);
    crate::le::lemma_pow256_values();
    assert(buf.take(24) =~= h);
    lemma_head_fields(f, buf);
    assert(buf.subrange(24, 28) =~= crc_bytes(h));
    crate::le::law_le_value_of_bytes(crate::crc32c::checksum(h) as nat, 4);
    assert(buf.subrange(28, 28 + len) =~= f.payload);
    assert(buf.subrange(28 + len, 28 + len + 4) =~= crc_bytes(f.payload));
    crate::le::law_le_value_of_bytes(crate::crc32c::checksum(f.payload) as nat, 4);
    lemma_kind_codes(f.kind);
}

/// Whatever reads as a record is exactly that record's bytes.
pub proof fn law_frame_is_canonical(buf: Seq<u8>)
    requires
        read_record(buf) is Ok,
    ensures
        ({
            let (f, n) = read_record(buf)->Ok_0;
            &&& f.valid()
            &&& n == f.wire().len()
            &&& n <= buf.len()
            &&& buf.take(n as int) == f.wire()
        }),
{
    reveal(read_record);
    reveal(Record::wire);
    let (f, n) = read_record(buf)->Ok_0;
    let len = f.payload.len() as int;
    crate::le::lemma_pow256_values();
    let s0 = buf.subrange(0, 8);
    let s1 = buf.subrange(8, 16);
    let s2 = buf.subrange(16, 18);
    let s3 = buf.subrange(18, 20);
    let s4 = buf.subrange(20, 24);
    let s5 = buf.subrange(24, 28);
    let s6 = buf.subrange(28 + len, 28 + len + 4);
    crate::le::lemma_le_value_bound(s0);
    crate::le::lemma_le_value_bound(s1);
    crate::le::lemma_le_value_bound(s2);
    crate::le::lemma_le_value_bound(s3);
    crate::le::law_le_bytes_of_value(s0);
    crate::le::law_le_bytes_of_value(s1);
    crate::le::law_le_bytes_of_value(s2);
    crate::le::law_le_bytes_of_value(s3);
    crate::le::law_le_bytes_of_value(s4);
    crate::le::law_le_bytes_of_value(s5);
    crate::le::law_le_bytes_of_value(s6);
    lemma_wire_len(f);
    assert(buf.take(24) =~= s0 + s1 + s2 + s3 + s4);
    assert(f.head() =~= buf.take(24));
    assert(buf.take(n as int) =~= buf.take(24) + s5 + f.payload + s6);
}

/// A record cut short reads as truncated, wherever the cut is.
pub proof fn law_torn_frame_is_truncated(f: Record, cut: int)
    requires
        f.valid(),
        0 <= cut < f.wire().len(),
    ensures
        read_record(f.wire().take(cut)) == Err::<(Record, nat), FrameError>(FrameError::Truncated),
{
    reveal(read_record);
    reveal(Record::wire);
    lemma_wire_len(f);
    let w = f.wire();
    let buf = w.take(cut);
    if cut >= 28 {
        law_frame_roundtrip(f, Seq::empty());
        assert(w + Seq::<u8>::empty() =~= w);
        assert(buf.take(24) =~= w.take(24));
        assert(buf.subrange(24, 28) =~= w.subrange(24, 28));
        assert(buf.subrange(20, 24) =~= w.subrange(20, 24));
        assert(buf.subrange(18, 20) =~= w.subrange(18, 20));
    }
}

/// A change of any one byte of a stored record is detected: the header's
/// bytes by the header CRC, the payload's by the payload CRC.
pub proof fn law_frame_corruption_is_detected(f: Record, rest: Seq<u8>, i: int, byte: u8)
    requires
        f.valid(),
        0 <= i < f.wire().len(),
        f.wire()[i] != byte,
    ensures
        read_record(f.wire().update(i, byte) + rest) == Err::<(Record, nat), FrameError>(
            if i < 28 {
                FrameError::HeaderCrc
            } else {
                FrameError::PayloadCrc
            },
        ),
{
    reveal(read_record);
    reveal(Record::wire);
    lemma_wire_len(f);
    law_frame_roundtrip(f, rest);
    let good = f.wire() + rest;
    let bad = f.wire().update(i, byte) + rest;
    let len = f.payload.len() as int;
    if i < 24 {
        assert(bad.take(24) =~= good.take(24).update(i, byte));
        crate::crc32c::law_single_byte_change_is_detected(good.take(24), i, byte);
        assert(bad.subrange(24, 28) =~= good.subrange(24, 28));
    } else if i < 28 {
        assert(bad.take(24) =~= good.take(24));
        let a = good.subrange(24, 28);
        let b = bad.subrange(24, 28);
        assert(a[i - 24] != b[i - 24]);
        crate::le::law_le_bytes_of_value(a);
        crate::le::law_le_bytes_of_value(b);
    } else {
        assert(bad.take(24) =~= good.take(24));
        assert(bad.subrange(24, 28) =~= good.subrange(24, 28));
        assert(bad.subrange(20, 24) =~= good.subrange(20, 24));
        assert(bad.subrange(18, 20) =~= good.subrange(18, 20));
        let gp = good.subrange(28, 28 + len);
        let bp = bad.subrange(28, 28 + len);
        let gc = good.subrange(28 + len, 28 + len + 4);
        let bc = bad.subrange(28 + len, 28 + len + 4);
        if i < 28 + len {
            assert(bp =~= gp.update(i - 28, byte));
            crate::crc32c::law_single_byte_change_is_detected(gp, i - 28, byte);
            assert(bc =~= gc);
        } else {
            assert(bp =~= gp);
            assert(gc[i - 28 - len] != bc[i - 28 - len]);
            crate::le::law_le_bytes_of_value(gc);
            crate::le::law_le_bytes_of_value(bc);
        }
    }
}

/// A record that is cut short and has one byte changed is refused too.
pub proof fn law_torn_and_damaged_frame_is_refused(f: Record, cut: int, i: int, byte: u8)
    requires
        f.valid(),
        0 <= i < cut < f.wire().len(),
        f.wire()[i] != byte,
    ensures
        read_record(f.wire().take(cut).update(i, byte)) is Err,
{
    lemma_wire_len(f);
    law_frame_roundtrip(f, Seq::empty());
    let w = f.wire();
    let bad = w.take(cut).update(i, byte);
    assert(w + Seq::<u8>::empty() =~= w);
    reveal(read_record);
    if cut >= 28 {
        if i < 24 {
            assert(bad.take(24) =~= w.take(24).update(i, byte));
            crate::crc32c::law_single_byte_change_is_detected(w.take(24), i, byte);
            assert(bad.subrange(24, 28) =~= w.subrange(24, 28));
        } else if i < 28 {
            assert(bad.take(24) =~= w.take(24));
            let a = w.subrange(24, 28);
            let b = bad.subrange(24, 28);
            assert(a[i - 24] != b[i - 24]);
            crate::le::law_le_bytes_of_value(a);
            crate::le::law_le_bytes_of_value(b);
        } else {
            assert(bad.take(24) =~= w.take(24));
            assert(bad.subrange(24, 28) =~= w.subrange(24, 28));
            assert(bad.subrange(20, 24) =~= w.subrange(20, 24));
            assert(bad.subrange(18, 20) =~= w.subrange(18, 20));
        }
    }
}

impl Clone for Frame {
    fn clone(&self) -> (r: Self)
        ensures
            r@ == self@,
    {
        let payload = self.payload.clone();
        assert(payload@ =~= self.payload@);
        Frame {
            seq: self.seq,
            timestamp: self.timestamp,
            stream_id: self.stream_id,
            kind: self.kind,
            payload,
        }
    }
}

impl Frame {
    pub fn new(
        seq: SeqNo,
        timestamp: Timestamp,
        stream_id: u16,
        kind: FrameKind,
        payload: Vec<u8>,
    ) -> (r: Frame)
        requires
            payload@.len() <= MAX_PAYLOAD_LEN,
        ensures
            r@ == (Record {
                seq: seq.0,
                time: timestamp.0,
                stream_id,
                kind,
                payload: payload@,
            }),
            r@.valid(),
    {
        Frame { seq, timestamp, stream_id, kind, payload }
    }

    /// Total encoded size: header, payload and payload CRC.
    pub fn encoded_len(&self) -> (n: usize)
        requires
            self@.valid(),
        ensures
            n == self@.wire().len(),
    {
        proof {
            lemma_wire_len(self@);
        }
        FRAME_HEADER_LEN + self.payload.len() + 4
    }

    /// Appends the encoded frame to `out`.
    pub fn write_to(&self, out: &mut Vec<u8>)
        requires
            self@.valid(),
        ensures
            final(out)@ == old(out)@ + self@.wire(),
    {
        proof {
            reveal(Record::wire);
        }
        let mut head: Vec<u8> = Vec::with_capacity(FRAME_HEADER_LEN);
        put_le(&mut head, self.seq.0 as u128, 8);
        put_le(&mut head, self.timestamp.0 as u128, 8);
        put_le(&mut head, self.stream_id as u128, 2);
        put_le(&mut head, self.kind.as_u16() as u128, 2);
        put_le(&mut head, self.payload.len() as u128, 4);
        assert(head@ =~= self@.head());
        let header_crc: u32 = crc32c(head.as_slice());
        put_le(&mut head, header_crc as u128, 4);
        let ghost start = out@;
        out.extend_from_slice(head.as_slice());
        out.extend_from_slice(self.payload.as_slice());
        put_le(out, crc32c(self.payload.as_slice()) as u128, 4);
        assert(out@ =~= start + self@.wire());
    }

    pub fn to_bytes(&self) -> (out: Vec<u8>)
        requires
            self@.valid(),
        ensures
            out@ == self@.wire(),
    {
        let mut out: Vec<u8> = Vec::with_capacity(self.encoded_len());
        self.write_to(&mut out);
        out
    }

    /// Decodes one frame from the front of `buf`, advancing it. On error the
    /// buffer does not move.
    pub fn read_from(buf: &mut &[u8]) -> (r: Result<Frame, FrameError>)
        ensures
            match read_record(old(buf)@) {
                Ok((f, n)) => {
                    &&& r is Ok
                    &&& r->Ok_0@ == f
                    &&& f.valid()
                    &&& n <= old(buf)@.len()
                    &&& final(buf)@ == old(buf)@.skip(n as int)
                },
                Err(e) => r == Err::<Frame, FrameError>(e) && final(buf)@ == old(buf)@,
            },
    {
        proof {
            reveal(read_record);
        }
        let b: &[u8] = *buf;
        if b.len() < FRAME_HEADER_LEN {
            return Err(FrameError::Truncated);
        }
        proof {
            crate::le::lemma_pow256_values();
            crate::le::lemma_le_value_bound(b@.subrange(0, 8));
            crate::le::lemma_le_value_bound(b@.subrange(8, 16));
            crate::le::lemma_le_value_bound(b@.subrange(16, 18));
            crate::le::lemma_le_value_bound(b@.subrange(18, 20));
            crate::le::lemma_le_value_bound(b@.subrange(20, 24));
            assert(b@.subrange(0, 24) =~= b@.take(24));
        }
        let stored_header_crc: u128 = get_le(slice_subrange(b, 24, 28));
        if crc32c(slice_subrange(b, 0, 24)) as u128 != stored_header_crc {
            return Err(FrameError::HeaderCrc);
        }
        let seq = SeqNo(get_le(slice_subrange(b, 0, 8)) as u64);
        let timestamp = Timestamp(get_le(slice_subrange(b, 8, 16)) as u64);
        let stream_id: u16 = get_le(slice_subrange(b, 16, 18)) as u16;
        let kind_raw: u16 = get_le(slice_subrange(b, 18, 20)) as u16;
        let payload_len: u32 = get_le(slice_subrange(b, 20, 24)) as u32;
        if payload_len > MAX_PAYLOAD_LEN {
            return Err(FrameError::PayloadTooLarge(payload_len));
        }
        let kind = match FrameKind::from_u16(kind_raw) {
            Some(kind) => kind,
            None => {
                return Err(FrameError::UnknownKind(kind_raw));
            },
        };
        let body: usize = FRAME_HEADER_LEN + payload_len as usize;
        let total: usize = body + 4;
        if b.len() < total {
            return Err(FrameError::Truncated);
        }
        let content = slice_subrange(b, FRAME_HEADER_LEN, body);
        let stored_payload_crc: u128 = get_le(slice_subrange(b, body, total));
        if crc32c(content) as u128 != stored_payload_crc {
            return Err(FrameError::PayloadCrc);
        }
        let mut payload: Vec<u8> = Vec::new();
        payload.extend_from_slice(content);
        assert(payload@ =~= content@);
        let (_, tail) = b.split_at(total);
        *buf = tail;
        Ok(Frame { seq, timestamp, stream_id, kind, payload })
    }
}

/// Where the parts of a record lie.
pub proof fn law_record_layout(f: Record)
    requires
        f.valid(),
    ensures
        ({
            let b = f.wire();
            let len = f.payload.len() as int;
            &&& b.len() == 28 + len + 4
            &&& b.subrange(0, 8) == crate::le::le_bytes(f.seq as nat, 8)
            &&& b.subrange(8, 16) == crate::le::le_bytes(f.time as nat, 8)
            &&& b.subrange(16, 18) == crate::le::le_bytes(f.stream_id as nat, 2)
            &&& b.subrange(18, 20) == crate::le::le_bytes(kind_code(f.kind) as nat, 2)
            &&& b.subrange(20, 24) == crate::le::le_bytes(f.payload.len(), 4)
            &&& b.subrange(24, 28) == crate::le::le_bytes(
                crate::crc32c::checksum(b.take(24)) as nat,
                4,
            )
            &&& b.subrange(28, 28 + len) == f.payload
            &&& b.skip(28 + len) == crate::le::le_bytes(
                crate::crc32c::checksum(f.payload) as nat,
                4,
            )
        }),
{
    reveal(Record::wire);
    let b = f.wire();
    let len = f.payload.len() as int;
    assert(b.take(24) =~= f.head());
    assert(b.subrange(0, 8) =~= crate::le::le_bytes(f.seq as nat, 8));
    assert(b.subrange(8, 16) =~= crate::le::le_bytes(f.time as nat, 8));
    assert(b.subrange(16, 18) =~= crate::le::le_bytes(f.stream_id as nat, 2));
    assert(b.subrange(18, 20) =~= crate::le::le_bytes(kind_code(f.kind) as nat, 2));
    assert(b.subrange(20, 24) =~= crate::le::le_bytes(f.payload.len(), 4));
    assert(b.subrange(24, 28) =~= crc_bytes(f.head()));
    assert(b.subrange(28, 28 + len) =~= f.payload);
    assert(b.skip(28 + len) =~= crc_bytes(f.payload));
}

/// Every kind has one wire constant, and the constants stay what they are: zero
/// is none, and inputs, ticks, timers, marks and fences keep apart.
pub proof fn law_kind_codes_are_fixed(kind: FrameKind, code: u16)
    ensures
        kind_of_code(kind_code(kind)) == Some(kind),
        kind_of_code(code) == Some(kind) ==> code == kind_code(kind),
        kind_of_code(0) is None,
        kind_code(FrameKind::Input) == 1,
        kind_code(FrameKind::Output) == 2,
        kind_code(FrameKind::Tick) == 16,
        kind_code(FrameKind::SessionOpen) == 17,
        kind_code(FrameKind::SessionClose) == 18,
        kind_code(FrameKind::TimerFired) == 19,
        kind_code(FrameKind::SnapshotMark) == 32,
        kind_code(FrameKind::EpochChange) == 48,
        kind_code(FrameKind::Heartbeat) == 255,
{
}

/// A payload of up to 64 MiB can be framed, and nothing larger is ever read.
pub proof fn law_payloads_are_capped(f: Record, buf: Seq<u8>)
    ensures
        f.valid() <==> f.payload.len() <= 64 * 1024 * 1024,
        read_record(buf) matches Ok((g, _)) ==> g.payload.len() <= 64 * 1024 * 1024,
        buf.len() >= 28 && crate::crc32c::checksum(buf.take(24)) as nat == field(buf, 24, 28)
            && field(buf, 20, 24) > 64 * 1024 * 1024 ==> read_record(buf) == Err::<
            (Record, nat),
            FrameError,
        >(FrameError::PayloadTooLarge(field(buf, 20, 24) as u32)),
{
    reveal(read_record);
    if buf.len() >= 28 {
        crate::le::lemma_le_value_bound(buf.subrange(20, 24));
        crate::le::lemma_pow256_values();
    }
}

} // verus!
