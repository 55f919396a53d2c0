//! The epoch fence: the first frame a new leader sequences.
//!
//! Everything the previous epoch assigned at or behind the fence is
//! discarded history; stream messages of an older epoch are rejected.

use vstd::prelude::*;

use crate::codec::{encode_to_vec, CodecError, Decode, Encode};
use crate::frame::{Frame, FrameKind, Record};
use crate::seq::{SeqNo, Timestamp};

verus! {

broadcast use crate::le::lemma_le_bytes_len;

#[derive(Debug, Clone, Copy, PartialEq, Eq, Structural)]
pub struct EpochChange {
    pub epoch: u64,
    /// The seq of the fence frame itself: the new epoch's first seq.
    pub first_seq: SeqNo,
    /// The leader's input-schema version. A replica whose own version
    /// differs rejects the stream at this fence.
    pub schema_version: u32,
}

/// The payload of a fence frame: epoch, first seq and schema version.
pub open spec fn fence_payload(change: EpochChange) -> Seq<u8> {
    (change.epoch, change.first_seq.0, change.schema_version).bytes()
}

/// What a fence payload reads as. The older payload without a schema version
/// (anything shorter than 20 bytes is read as one) has schema version 0.
pub open spec fn read_fence(payload: Seq<u8>) -> Result<EpochChange, CodecError> {
    if payload.len() >= 20 {
        if payload.len() == 20 {
            Ok(
                EpochChange {
                    epoch: crate::frame::field(payload, 0, 8) as u64,
                    first_seq: SeqNo(crate::frame::field(payload, 8, 16) as u64),
                    schema_version: crate::frame::field(payload, 16, 20) as u32,
                },
            )
        } else {
            Err(CodecError::TrailingBytes((payload.len() - 20) as usize))
        }
    } else if payload.len() < 16 {
        Err(CodecError::UnexpectedEof)
    } else if payload.len() == 16 {
        Ok(
            EpochChange {
                epoch: crate::frame::field(payload, 0, 8) as u64,
                first_seq: SeqNo(crate::frame::field(payload, 8, 16) as u64),
                schema_version: 0,
            },
        )
    } else {
        Err(CodecError::TrailingBytes((payload.len() - 16) as usize))
    }
}

/// A fence reads back as what was written.
pub proof fn law_fence_roundtrip(change: EpochChange)
    ensures
        fence_payload(change).len() == 20,
        read_fence(fence_payload(change)) == Ok::<EpochChange, CodecError>(change),
{
    let p = fence_payload(change);
    crate::le::lemma_pow256_values();
    assert(p.subrange(0, 8) =~= crate::le::le_bytes(change.epoch as nat, 8));
    assert(p.subrange(8, 16) =~= crate::le::le_bytes(change.first_seq.0 as nat, 8));
    assert(p.subrange(16, 20) =~= crate::le::le_bytes(change.schema_version as nat, 4));
    crate::le::law_le_value_of_bytes(change.epoch as nat, 8);
    crate::le::law_le_value_of_bytes(change.first_seq.0 as nat, 8);
    crate::le::law_le_value_of_bytes(change.schema_version as nat, 4);
}

/// A payload without a schema version reads as one with schema version 0.
pub proof fn law_fence_without_schema(epoch: u64, first_seq: u64)
    ensures
        (epoch, first_seq).bytes().len() == 16,
        read_fence((epoch, first_seq).bytes()) == Ok::<EpochChange, CodecError>(
            EpochChange { epoch, first_seq: SeqNo(first_seq), schema_version: 0 },
        ),
{
    let p = (epoch, first_seq).bytes();
    crate::le::lemma_pow256_values();
    assert(p.subrange(0, 8) =~= crate::le::le_bytes(epoch as nat, 8));
    assert(p.subrange(8, 16) =~= crate::le::le_bytes(first_seq as nat, 8));
    crate::le::law_le_value_of_bytes(epoch as nat, 8);
    crate::le::law_le_value_of_bytes(first_seq as nat, 8);
}

/// A payload of any other length is no fence: one that is too short ends early, and
/// of one that is too long the error tells how many bytes are left over.
pub proof fn law_fence_has_a_length(payload: Seq<u8>)
    ensures
        read_fence(payload) is Ok <==> payload.len() == 16 || payload.len() == 20,
        payload.len() < 16 ==> read_fence(payload) == Err::<EpochChange, CodecError>(
            CodecError::UnexpectedEof,
        ),
        16 < payload.len() < 20 ==> (read_fence(payload) matches Err(CodecError::TrailingBytes(n))
            && n + 16 == payload.len()),
        20 < payload.len() <= usize::MAX ==> (read_fence(payload) matches Err(
            CodecError::TrailingBytes(n),
        ) && n + 20 == payload.len()),
{
}

impl EpochChange {
    /// Builds the fence frame, sequenced at `first_seq`.
    pub fn to_frame(self, timestamp: Timestamp, stream_id: u16) -> (r: Frame)
        ensures
            r@ == (Record {
                seq: self.first_seq.0,
                time: timestamp.0,
                stream_id,
                kind: FrameKind::EpochChange,
                payload: fence_payload(self),
            }),
            r@.valid(),
    {
        proof {
            law_fence_roundtrip(self);
        }
        let payload = encode_to_vec(&(self.epoch, self.first_seq.0, self.schema_version));
        Frame::new(self.first_seq, timestamp, stream_id, FrameKind::EpochChange, payload)
    }

    /// Decodes a fence frame.
    pub fn from_frame(frame: &Frame) -> (r: Result<EpochChange, CodecError>)
        ensures
            r == read_fence(frame.payload@),
    {
        let buf = frame.payload.as_slice();
        proof {
            crate::le::lemma_pow256_values();
            if buf@.len() >= 16 {
                crate::le::lemma_le_value_bound(buf@.subrange(0, 8));
                crate::le::lemma_le_value_bound(buf@.subrange(8, 16));
            }
            if buf@.len() >= 20 {
                crate::le::lemma_le_value_bound(buf@.subrange(16, 20));
            }
        }
        let mut cursor = buf;
        if buf.len() >= 20 {
            let epoch: u64 = u64::decode(&mut cursor)?;
            assert(buf@.take(8) =~= buf@.subrange(0, 8));
            let first_seq: u64 = u64::decode(&mut cursor)?;
            assert(buf@.skip(8).take(8) =~= buf@.subrange(8, 16));
            assert(cursor@ =~= buf@.skip(16));
            let schema_version: u32 = u32::decode(&mut cursor)?;
            assert(buf@.skip(16).take(4) =~= buf@.subrange(16, 20));
            assert(cursor@ =~= buf@.skip(20));
            if cursor.len() > 0 {
                return Err(CodecError::TrailingBytes(cursor.len()));
            }
            Ok(EpochChange { epoch, first_seq: SeqNo(first_seq), schema_version })
        } else {
            let epoch: u64 = u64::decode(&mut cursor)?;
            assert(buf@.take(8) =~= buf@.subrange(0, 8));
            let first_seq: u64 = u64::decode(&mut cursor)?;
            assert(buf@.skip(8).take(8) =~= buf@.subrange(8, 16));
            assert(cursor@ =~= buf@.skip(16));
            if cursor.len() > 0 {
                return Err(CodecError::TrailingBytes(cursor.len()));
            }
            Ok(EpochChange { epoch, first_seq: SeqNo(first_seq), schema_version: 0 })
        }
    }
}

} // verus!
