//! Journal segments: their header, and reading the frames behind it.
//!
//! A segment is a 28-byte header (magic, format version, first seq, epoch,
//! CRC) followed by back-to-back encoded frames. Every frame carries its own
//! CRCs, so a torn tail write is detected.

use vstd::prelude::*;
use vstd::slice::slice_subrange;
use vstd::string::StringExecFns;

use crate::crc32c::crc32c;
use crate::frame::{FrameError, Record};
use crate::le::{get_le, put_le};
use crate::seq::SeqNo;
use crate::text::{push_decimal, push_hex4, text};

verus! {

broadcast use crate::le::lemma_le_bytes_len;

/// magic(4) + version(4) + first_seq(8) + epoch(8) + crc(4)
pub const SEGMENT_HEADER_LEN: usize = 28;

/// `TKTJ`, the first bytes of every segment.
pub open spec fn segment_magic() -> Seq<u8> {
    seq![0x54u8, 0x4Bu8, 0x54u8, 0x4Au8]
}

/// The part of a segment header that its CRC covers.
pub open spec fn segment_head(first: u64, epoch: u64) -> Seq<u8> {
    segment_magic() + crate::le::le_bytes(1, 4) + crate::le::le_bytes(first as nat, 8)
        + crate::le::le_bytes(epoch as nat, 8)
}

/// The header of a segment that starts at `first`.
pub open spec fn segment_header(first: u64, epoch: u64) -> Seq<u8> {
    segment_head(first, epoch) + crate::frame::crc_bytes(segment_head(first, epoch))
}

/// First seq and epoch of a segment, or what is wrong with its header.
#[verifier::opaque]
pub open spec fn read_header(bytes: Seq<u8>) -> Result<(u64, u64), Seq<char>> {
    if bytes.len() < 28 {
        Err("file shorter than segment header"@)
    } else if bytes.take(4) != segment_magic() {
        Err("bad magic"@)
    } else if crate::frame::field(bytes, 4, 8) != 1 {
        Err("unsupported format version "@ + crate::text::decimal(crate::frame::field(bytes, 4, 8)))
    } else if crate::crc32c::checksum(bytes.take(24)) as nat != crate::frame::field(bytes, 24, 28) {
        Err("header CRC mismatch"@)
    } else {
        Ok(
            (
                crate::frame::field(bytes, 8, 16) as u64,
                crate::frame::field(bytes, 16, 24) as u64,
            ),
        )
    }
}

/// A header reads back, whatever follows it.
pub proof fn law_header_roundtrip(first: u64, epoch: u64, rest: Seq<u8>)
    ensures
        segment_header(first, epoch).len() == 28,
        read_header(segment_header(first, epoch) + rest) == Ok::<(u64, u64), Seq<char>>(
            (first, epoch),
        ),
{
    reveal(read_header);
    let buf = segment_header(first, epoch) + rest;
    let head = segment_head(first, epoch);
    crate::le::lemma_pow256_values();
    assert(buf.take(4) =~= segment_magic());
    assert(buf.subrange(4, 8) =~= crate::le::le_bytes(1, 4));
    assert(buf.subrange(8, 16) =~= crate::le::le_bytes(first as nat, 8));
    assert(buf.subrange(16, 24) =~= crate::le::le_bytes(epoch as nat, 8));
    assert(buf.take(24) =~= head);
    assert(buf.subrange(24, 28) =~= crate::frame::crc_bytes(head));
    crate::le::law_le_value_of_bytes(1, 4);
    crate::le::law_le_value_of_bytes(first as nat, 8);
    crate::le::law_le_value_of_bytes(epoch as nat, 8);
    crate::le::law_le_value_of_bytes(crate::crc32c::checksum(head) as nat, 4);
}

/// A file that has a header is long enough for one.
pub proof fn lemma_header_len(bytes: Seq<u8>)
    requires
        read_header(bytes) is Ok,
    ensures
        bytes.len() >= 28,
{
    reveal(read_header);
}

/// A header depends on the first 28 bytes alone.
pub proof fn lemma_header_prefix(bytes: Seq<u8>, more: Seq<u8>)
    requires
        bytes.len() >= 28,
    ensures
        read_header(bytes + more) == read_header(bytes),
        (bytes + more).skip(28) == bytes.skip(28) + more,
{
    reveal(read_header);
    let b = bytes + more;
    assert(b.take(4) =~= bytes.take(4));
    assert(b.take(24) =~= bytes.take(24));
    assert(b.subrange(4, 8) =~= bytes.subrange(4, 8));
    assert(b.subrange(8, 16) =~= bytes.subrange(8, 16));
    assert(b.subrange(16, 24) =~= bytes.subrange(16, 24));
    assert(b.subrange(24, 28) =~= bytes.subrange(24, 28));
    assert(b.skip(28) =~= bytes.skip(28) + more);
}

/// How reading a segment's frames ended.
pub enum ScanEnd {
    /// At the end of the file.
    Clean,
    /// At bytes that are no intact frame.
    Bad(FrameError),
    /// At an intact frame with another seq than the one that comes next.
    Gap(u64),
    /// At a frame behind which no seq is left.
    Exhausted,
}

/// What a segment's body holds: its leading frames, the bytes they take, and
/// how reading ended.
#[verifier::ext_equal]
pub struct Scan {
    pub frames: Seq<Record>,
    pub used: nat,
    pub end: ScanEnd,
}

/// Reads `buf` as frames numbered from `expected` on.
pub open spec fn scan(buf: Seq<u8>, expected: u64) -> Scan
    decreases buf.len(),
    via scan_decreases
{
    if buf.len() == 0 {
        Scan { frames: Seq::empty(), used: 0, end: ScanEnd::Clean }
    } else {
        match crate::frame::read_record(buf) {
            Err(e) => Scan { frames: Seq::empty(), used: 0, end: ScanEnd::Bad(e) },
            Ok((f, n)) => if f.seq != expected {
                Scan { frames: Seq::empty(), used: 0, end: ScanEnd::Gap(f.seq) }
            } else if expected == u64::MAX {
                Scan { frames: Seq::empty(), used: 0, end: ScanEnd::Exhausted }
            } else {
                let rest = scan(buf.skip(n as int), (expected + 1) as u64);
                Scan { frames: seq![f] + rest.frames, used: n + rest.used, end: rest.end }
            },
        }
    }
}

#[via_fn]
proof fn scan_decreases(buf: Seq<u8>, expected: u64) {
    if let Ok((f, n)) = crate::frame::read_record(buf) {
        crate::frame::law_frame_is_canonical(buf);
        crate::frame::lemma_wire_len(f);
    }
}

/// Frames written one behind the other.
pub open spec fn frames_wire(frames: Seq<Record>) -> Seq<u8>
    decreases frames.len(),
{
    if frames.len() == 0 {
        Seq::empty()
    } else {
        frames[0].wire() + frames_wire(frames.skip(1))
    }
}

/// A buffer behind frames that are written to it in turn.
pub open spec fn written(out: Seq<u8>, frames: Seq<Record>) -> Seq<u8>
    decreases frames.len(),
{
    if frames.len() == 0 {
        out
    } else {
        written(out, frames.drop_last()) + frames.last().wire()
    }
}

/// What `n` frames that are read in turn from the front of `buf` are, and what
/// is left of it.
pub open spec fn read_in_turn(buf: Seq<u8>, n: nat) -> Result<
    (Seq<Record>, Seq<u8>),
    crate::frame::FrameError,
>
    decreases n,
{
    if n == 0 {
        Ok((Seq::empty(), buf))
    } else {
        match crate::frame::read_record(buf) {
            Err(e) => Err(e),
            Ok((f, used)) => match read_in_turn(buf.skip(used as int), (n - 1) as nat) {
                Err(e) => Err(e),
                Ok((more, rest)) => Ok((seq![f] + more, rest)),
            },
        }
    }
}

/// Frames that were written in turn, any number of them, read back in turn: the
/// same frames in the same order, with what follows them left.
pub proof fn law_frames_read_back_in_turn(frames: Seq<Record>, rest: Seq<u8>)
    requires
        forall|i: int| 0 <= i < frames.len() ==> (#[trigger] frames[i]).valid(),
    ensures
        read_in_turn(written(Seq::empty(), frames) + rest, frames.len()) == Ok::<
            (Seq<Record>, Seq<u8>),
            crate::frame::FrameError,
        >((frames, rest)),
{
    lemma_written(Seq::empty(), frames);
    assert(Seq::<u8>::empty() + frames_wire(frames) =~= frames_wire(frames));
    lemma_read_in_turn(frames, rest);
}

proof fn lemma_written(out: Seq<u8>, frames: Seq<Record>)
    ensures
        written(out, frames) == out + frames_wire(frames),
    decreases frames.len(),
{
    if frames.len() == 0 {
        assert(out + frames_wire(frames) =~= out);
    } else {
        lemma_written(out, frames.drop_last());
        lemma_frames_wire_push(frames.drop_last(), frames.last());
        assert(frames.drop_last().push(frames.last()) =~= frames);
        assert(written(out, frames) =~= out + frames_wire(frames));
    }
}

proof fn lemma_read_in_turn(frames: Seq<Record>, rest: Seq<u8>)
    requires
        forall|i: int| 0 <= i < frames.len() ==> (#[trigger] frames[i]).valid(),
    ensures
        read_in_turn(frames_wire(frames) + rest, frames.len()) == Ok::<
            (Seq<Record>, Seq<u8>),
            crate::frame::FrameError,
        >((frames, rest)),
    decreases frames.len(),
{
    if frames.len() == 0 {
        assert(frames_wire(frames) + rest =~= rest);
        assert(frames =~= Seq::<Record>::empty());
    } else {
        let others = frames.skip(1);
        let f = frames[0];
        let buf = frames_wire(frames) + rest;
        let after = frames_wire(others) + rest;
        assert(buf =~= f.wire() + after);
        crate::frame::law_frame_roundtrip(f, after);
        assert(buf.skip(f.wire().len() as int) =~= after);
        assert forall|i: int| 0 <= i < others.len() implies (#[trigger] others[i]).valid() by {
            assert(others[i] == frames[i + 1]);
        }
        lemma_read_in_turn(others, rest);
        assert(seq![f] + others =~= frames);
    }
}

/// Frames within the payload cap, numbered without a gap from `first` on,
/// with a seq left behind each.
pub open spec fn numbered_from(frames: Seq<Record>, first: u64) -> bool {
    &&& first + frames.len() <= u64::MAX
    &&& forall|i: int|
        0 <= i < frames.len() ==> (#[trigger] frames[i]).valid() && frames[i].seq == first + i
}

/// What a scan reports is there: its frames are numbered in order, and their
/// bytes are the ones used.
pub proof fn lemma_scan(buf: Seq<u8>, expected: u64)
    ensures
        numbered_from(scan(buf, expected).frames, expected),
        scan(buf, expected).used <= buf.len(),
        frames_wire(scan(buf, expected).frames) == buf.take(scan(buf, expected).used as int),
        scan(buf, expected).end is Clean ==> scan(buf, expected).used == buf.len(),
    decreases buf.len(),
{
    let s = scan(buf, expected);
    if buf.len() > 0 {
        if let Ok((f, n)) = crate::frame::read_record(buf) {
            crate::frame::law_frame_is_canonical(buf);
            crate::frame::lemma_wire_len(f);
            if f.seq == expected && expected != u64::MAX {
                let tail = buf.skip(n as int);
                let rest = scan(tail, (expected + 1) as u64);
                lemma_scan(tail, (expected + 1) as u64);
                assert(s.frames.skip(1) =~= rest.frames);
                assert(s.frames[0] == f);
                assert forall|i: int| 0 <= i < s.frames.len() implies (
                #[trigger] s.frames[i]).valid() && s.frames[i].seq == expected + i by {
                    if i > 0 {
                        assert(s.frames[i] == rest.frames[i - 1]);
                    }
                }
                assert(buf.take(s.used as int) =~= buf.take(n as int) + tail.take(
                    rest.used as int,
                ));
            } else {
                assert(buf.take(0) =~= Seq::<u8>::empty());
            }
        } else {
            assert(buf.take(0) =~= Seq::<u8>::empty());
        }
    } else {
        assert(buf.take(0) =~= Seq::<u8>::empty());
    }
}

/// Well-numbered frames in front of anything are read, and reading goes on
/// behind them.
pub proof fn lemma_scan_frames(frames: Seq<Record>, first: u64, rest: Seq<u8>)
    requires
        numbered_from(frames, first),
    ensures
        ({
            let tail = scan(rest, (first + frames.len()) as u64);
            scan(frames_wire(frames) + rest, first) == (Scan {
                frames: frames + tail.frames,
                used: frames_wire(frames).len() + tail.used,
                end: tail.end,
            })
        }),
    decreases frames.len(),
{
    let buf = frames_wire(frames) + rest;
    let tail = scan(rest, (first + frames.len()) as u64);
    if frames.len() == 0 {
        assert(buf =~= rest);
        assert(frames + tail.frames =~= tail.frames);
    } else {
        let others = frames.skip(1);
        let after = frames_wire(others) + rest;
        let f = frames[0];
        assert(buf =~= f.wire() + after);
        crate::frame::law_frame_roundtrip(f, after);
        crate::frame::lemma_wire_len(f);
        assert(buf.skip(f.wire().len() as int) =~= after);
        assert(numbered_from(others, (first + 1) as u64)) by {
            assert forall|i: int| 0 <= i < others.len() implies (#[trigger] others[i]).valid()
                && others[i].seq == first + 1 + i by {
                assert(others[i] == frames[i + 1]);
            }
        }
        lemma_scan_frames(others, (first + 1) as u64, rest);
        assert(seq![f] + (others + tail.frames) =~= frames + tail.frames);
    }
}

pub proof fn lemma_frames_wire_push(frames: Seq<Record>, f: Record)
    ensures
        frames_wire(frames.push(f)) == frames_wire(frames) + f.wire(),
    decreases frames.len(),
{
    let all = frames.push(f);
    if frames.len() == 0 {
        assert(all.skip(1) =~= frames);
        assert(frames_wire(all.skip(1)) =~= Seq::<u8>::empty());
        assert(frames_wire(all) =~= f.wire());
        assert(frames_wire(frames) + f.wire() =~= f.wire());
    } else {
        assert(all.skip(1) =~= frames.skip(1).push(f));
        lemma_frames_wire_push(frames.skip(1), f);
        assert(frames_wire(all) =~= frames_wire(frames) + f.wire());
    }
}

/// A scanned body with one more frame written behind it.
pub proof fn lemma_scan_push(body: Seq<u8>, first: u64, f: Record)
    requires
        scan(body, first).end is Clean,
        f.valid(),
        f.seq == first + scan(body, first).frames.len(),
        f.seq < u64::MAX,
    ensures
        scan(body + f.wire(), first).frames == scan(body, first).frames.push(f),
        scan(body + f.wire(), first).end is Clean,
{
    let s = scan(body, first);
    lemma_scan(body, first);
    assert(body.take(s.used as int) =~= body);
    lemma_scan_frames(s.frames, first, f.wire());
    lemma_scan_one(f);
    assert(s.frames + seq![f] =~= s.frames.push(f));
}

proof fn lemma_scan_one(f: Record)
    requires
        f.valid(),
        f.seq < u64::MAX,
    ensures
        scan(f.wire(), f.seq) == (Scan {
            frames: seq![f],
            used: f.wire().len(),
            end: ScanEnd::Clean,
        }),
{
    let w = f.wire();
    crate::frame::law_frame_roundtrip(f, Seq::empty());
    crate::frame::lemma_wire_len(f);
    assert(w + Seq::<u8>::empty() =~= w);
    let nothing = scan(w.skip(w.len() as int), (f.seq + 1) as u64);
    assert(seq![f] + nothing.frames =~= seq![f]);
}

/// Whatever follows the frames of a clean body, they are read, and reading
/// goes on behind them.
pub proof fn law_scan_goes_on_behind_a_clean_body(body: Seq<u8>, first: u64, rest: Seq<u8>)
    requires
        scan(body, first).end is Clean,
    ensures
        ({
            let s = scan(body, first);
            let tail = scan(rest, (first + s.frames.len()) as u64);
            scan(body + rest, first) == (Scan {
                frames: s.frames + tail.frames,
                used: s.used + tail.used,
                end: tail.end,
            })
        }),
{
    let s = scan(body, first);
    lemma_scan(body, first);
    assert(body.take(s.used as int) =~= body);
    lemma_scan_frames(s.frames, first, rest);
}

/// One changed byte in the `h`-th frame of a clean body ends reading right in
/// front of that frame.
pub proof fn lemma_scan_hit(body: Seq<u8>, first: u64, h: int, at: int, byte: u8)
    requires
        scan(body, first).end is Clean,
        0 <= h < scan(body, first).frames.len(),
        frames_wire(scan(body, first).frames.take(h)).len() <= at < frames_wire(
            scan(body, first).frames.take(h + 1),
        ).len(),
        byte != body[at],
    ensures
        ({
            let frames = scan(body, first).frames;
            let start = frames_wire(frames.take(h)).len();
            &&& at < body.len()
            &&& scan(body.update(at, byte), first) == (Scan {
                frames: frames.take(h),
                used: start,
                end: ScanEnd::Bad(
                    if at < start + 28 {
                        crate::frame::FrameError::HeaderCrc
                    } else {
                        crate::frame::FrameError::PayloadCrc
                    },
                ),
            })
        }),
{
    let frames = scan(body, first).frames;
    let front = frames.take(h);
    let f = frames[h];
    let start = frames_wire(front).len() as int;
    let w = f.wire();
    lemma_scan(body, first);
    assert(body.take(body.len() as int) =~= body);
    assert(frames.take(h + 1) =~= front.push(f));
    lemma_frames_wire_push(front, f);
    lemma_frames_wire_parts(frames, h + 1);
    assert(frames_wire(frames) == body);
    let rest = body.skip(start + w.len());
    assert(body =~= frames_wire(front) + (w + rest));
    let hit = w.update(at - start, byte) + rest;
    assert(body.update(at, byte) =~= frames_wire(front) + hit);
    assert(w[at - start] == body[at]);
    crate::frame::lemma_wire_len(f);
    crate::frame::law_frame_corruption_is_detected(f, rest, at - start, byte);
    assert(numbered_from(front, first)) by {
        assert forall|i: int| 0 <= i < front.len() implies (#[trigger] front[i]).valid()
            && front[i].seq == first + i by {
            assert(front[i] == frames[i]);
        }
    }
    lemma_scan_frames(front, first, hit);
    assert(front + Seq::<Record>::empty() =~= front);
}

/// The bytes of the first `k` frames begin those of all.
pub proof fn lemma_frames_wire_parts(frames: Seq<Record>, k: int)
    requires
        0 <= k <= frames.len(),
    ensures
        frames_wire(frames) == frames_wire(frames.take(k)) + frames_wire(frames.skip(k)),
    decreases k,
{
    if k == 0 {
        assert(frames.skip(0) =~= frames);
        assert(frames_wire(frames.take(0)) + frames_wire(frames) =~= frames_wire(frames));
    } else {
        lemma_frames_wire_parts(frames.skip(1), k - 1);
        assert(frames.take(k).skip(1) =~= frames.skip(1).take(k - 1));
        assert(frames.skip(1).skip(k - 1) =~= frames.skip(k));
        assert(frames_wire(frames) =~= frames_wire(frames.take(k)) + frames_wire(frames.skip(k)));
    }
}

/// The text of a frame error.
pub open spec fn frame_error_text(e: FrameError) -> Seq<char> {
    match e {
        FrameError::Truncated => "truncated frame"@,
        FrameError::HeaderCrc => "frame header CRC mismatch"@,
        FrameError::PayloadCrc => "frame payload CRC mismatch"@,
        FrameError::UnknownKind(k) => "unknown frame kind "@ + crate::text::hex4(k as nat),
        FrameError::PayloadTooLarge(n) => "payload_len "@ + crate::text::decimal(n as nat)
            + " exceeds cap"@,
    }
}

/// The text of a frame error.
pub fn frame_error_reason(err: &FrameError) -> (r: String)
    ensures
        r@ == frame_error_text(*err),
{
    match *err {
        FrameError::Truncated => text("truncated frame"),
        FrameError::HeaderCrc => text("frame header CRC mismatch"),
        FrameError::PayloadCrc => text("frame payload CRC mismatch"),
        FrameError::UnknownKind(k) => {
            let mut out = text("unknown frame kind ");
            push_hex4(&mut out, k);
            out
        },
        FrameError::PayloadTooLarge(n) => {
            let mut out = text("payload_len ");
            push_decimal(&mut out, n as u64);
            out.append(" exceeds cap");
            out
        },
    }
}

/// First seq and epoch of a segment.
pub struct SegmentHeader {
    pub first_seq: SeqNo,
    pub epoch: u64,
}

/// The header of a segment that starts at `first_seq`.
pub fn segment_header_bytes(first_seq: SeqNo, epoch: u64) -> (out: Vec<u8>)
    ensures
        out@ == segment_header(first_seq.0, epoch),
{
    let mut out: Vec<u8> = vec![0x54u8, 0x4Bu8, 0x54u8, 0x4Au8];
    put_le(&mut out, 1, 4);
    put_le(&mut out, first_seq.0 as u128, 8);
    put_le(&mut out, epoch as u128, 8);
    assert(out@ =~= segment_head(first_seq.0, epoch));
    let crc: u32 = crc32c(out.as_slice());
    put_le(&mut out, crc as u128, 4);
    out
}

/// Reads a segment header; the error says what is wrong with it.
pub fn parse_segment_header(bytes: &[u8]) -> (r: Result<SegmentHeader, String>)
    ensures
        match read_header(bytes@) {
            Ok((first, epoch)) => r matches Ok(h) && h.first_seq.0 == first && h.epoch == epoch,
            Err(why) => r matches Err(s) && s@ == why,
        },
{
    proof {
        reveal(read_header);
    }
    if bytes.len() < SEGMENT_HEADER_LEN {
        return Err(text("file shorter than segment header"));
    }
    proof {
        crate::le::lemma_pow256_values();
        crate::le::lemma_le_value_bound(bytes@.subrange(4, 8));
        crate::le::lemma_le_value_bound(bytes@.subrange(8, 16));
        crate::le::lemma_le_value_bound(bytes@.subrange(16, 24));
        assert(bytes@.subrange(0, 24) =~= bytes@.take(24));
    }
    if bytes[0] != 0x54 || bytes[1] != 0x4B || bytes[2] != 0x54 || bytes[3] != 0x4A {
        assert(bytes@.take(4)[0] == bytes@[0] && bytes@.take(4)[1] == bytes@[1]
            && bytes@.take(4)[2] == bytes@[2] && bytes@.take(4)[3] == bytes@[3]);
        return Err(text("bad magic"));
    }
    assert(bytes@.take(4) =~= segment_magic());
    let version: u64 = get_le(slice_subrange(bytes, 4, 8)) as u64;
    if version != 1 {
        let mut why = text("unsupported format version ");
        push_decimal(&mut why, version);
        return Err(why);
    }
    let stored_crc: u128 = get_le(slice_subrange(bytes, 24, 28));
    if crc32c(slice_subrange(bytes, 0, 24)) as u128 != stored_crc {
        return Err(text("header CRC mismatch"));
    }
    Ok(
        SegmentHeader {
            first_seq: SeqNo(get_le(slice_subrange(bytes, 8, 16)) as u64),
            epoch: get_le(slice_subrange(bytes, 16, 24)) as u64,
        },
    )
}

/// Where the parts of a segment header lie.
pub proof fn law_header_layout(first: u64, epoch: u64)
    ensures
        ({
            let b = segment_header(first, epoch);
            &&& b.len() == 28
            &&& b.take(4) == seq![0x54u8, 0x4Bu8, 0x54u8, 0x4Au8]
            &&& b.subrange(4, 8) == seq![1u8, 0u8, 0u8, 0u8]
            &&& b.subrange(8, 16) == crate::le::le_bytes(first as nat, 8)
            &&& b.subrange(16, 24) == crate::le::le_bytes(epoch as nat, 8)
            &&& b.skip(24) == crate::le::le_bytes(crate::crc32c::checksum(b.take(24)) as nat, 4)
        }),
{
    let b = segment_header(first, epoch);
    let one = crate::le::le_bytes(1, 4);
    crate::le::law_low_byte_comes_first(1, 4, 0);
    crate::le::law_low_byte_comes_first(1, 4, 1);
    crate::le::law_low_byte_comes_first(1, 4, 2);
    crate::le::law_low_byte_comes_first(1, 4, 3);
    assert(b.subrange(4, 8) =~= one);
    assert(one =~= seq![1u8, 0u8, 0u8, 0u8]);
    assert(b.take(24) =~= segment_head(first, epoch));
    assert(b.take(4) =~= seq![0x54u8, 0x4Bu8, 0x54u8, 0x4Au8]);
    assert(b.subrange(8, 16) =~= crate::le::le_bytes(first as nat, 8));
    assert(b.subrange(16, 24) =~= crate::le::le_bytes(epoch as nat, 8));
    assert(b.skip(24) =~= crate::frame::crc_bytes(segment_head(first, epoch)));
}

/// Frames that are written in turn lie one behind the other.
pub proof fn law_frames_lie_in_turn(a: Seq<Record>, b: Seq<Record>, f: Record)
    ensures
        frames_wire(Seq::empty()) == Seq::<u8>::empty(),
        frames_wire(seq![f]) == f.wire(),
        frames_wire(a + b) == frames_wire(a) + frames_wire(b),
    decreases a.len(),
{
    assert(seq![f].skip(1) =~= Seq::empty());
    assert(frames_wire(seq![f].skip(1)) == Seq::<u8>::empty());
    assert(frames_wire(seq![f]) =~= f.wire());
    if a.len() == 0 {
        assert(a + b =~= b);
        assert(frames_wire(a) + frames_wire(b) =~= frames_wire(b));
    } else {
        assert((a + b).skip(1) =~= a.skip(1) + b);
        law_frames_lie_in_turn(a.skip(1), b, f);
        assert(frames_wire(a + b) =~= frames_wire(a) + frames_wire(b));
    }
}

/// Reading a body goes frame by frame: one that comes next is taken, one with
/// another seq ends it as a gap, and what is no frame ends it as such; nothing
/// behind the end is taken.
pub proof fn law_scan_stops_at_the_first_fault(f: Record, rest: Seq<u8>, expected: u64, junk: Seq<u8>)
    requires
        f.valid(),
    ensures
        scan(Seq::empty(), expected) == (Scan {
            frames: Seq::empty(),
            used: 0,
            end: ScanEnd::Clean,
        }),
        f.seq == expected && expected < u64::MAX ==> {
            let s = scan(f.wire() + rest, expected);
            let tail = scan(rest, (expected + 1) as u64);
            &&& s.frames == seq![f] + tail.frames
            &&& s.used == f.wire().len() + tail.used
            &&& s.end == tail.end
        },
        f.seq != expected ==> {
            let s = scan(f.wire() + rest, expected);
            s.frames.len() == 0 && s.used == 0 && s.end == ScanEnd::Gap(f.seq)
        },
        f.seq == expected && expected == u64::MAX ==> {
            let s = scan(f.wire() + rest, expected);
            s.frames.len() == 0 && s.used == 0 && s.end == ScanEnd::Exhausted
        },
        junk.len() > 0 ==> (crate::frame::read_record(junk) matches Err(e) ==> {
            let s = scan(junk, expected);
            s.frames.len() == 0 && s.used == 0 && s.end == ScanEnd::Bad(e)
        }),
{
    let buf = f.wire() + rest;
    crate::frame::law_frame_roundtrip(f, rest);
    crate::frame::lemma_wire_len(f);
    assert(buf.skip(f.wire().len() as int) =~= rest);
}

} // verus!
