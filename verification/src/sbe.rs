//! Simple Binary Encoding: fixed-layout little-endian message blocks behind
//! the standard eight-byte message header.
//!
//! A reader takes a longer block than its own (fields that a newer schema
//! appended) and skips what it does not know; a shorter block is refused.
//! [`Sbe`] carries such a message through the canonical encoding, so a service
//! whose input is `Sbe<M>` journals SBE-framed bytes.

use vstd::prelude::*;

use crate::codec::{CodecError, Decode, Encode, Parsed};
use crate::frame::field;
use crate::le::{get_le, put_le};

verus! {

broadcast use crate::le::lemma_le_bytes_len;

/// Header size in bytes.
pub const HEADER_LEN: usize = 8;

/// The message header: four little-endian `u16`.
#[derive(Debug, Clone, Copy, PartialEq, Eq, Structural)]
pub struct SbeHeader {
    /// Bytes in the fixed root block.
    pub block_length: u16,
    /// Which message.
    pub template_id: u16,
    /// Which schema the template belongs to.
    pub schema_id: u16,
    /// The schema version that the writer used.
    pub version: u16,
}

/// What the front of a buffer reads as.
pub open spec fn read_header(buf: Seq<u8>) -> Result<SbeHeader, CodecError> {
    if buf.len() < 8 {
        Err(CodecError::UnexpectedEof)
    } else {
        Ok(
            SbeHeader {
                block_length: field(buf, 0, 2) as u16,
                template_id: field(buf, 2, 4) as u16,
                schema_id: field(buf, 4, 6) as u16,
                version: field(buf, 6, 8) as u16,
            },
        )
    }
}

/// Reads the little-endian `u16` at `at`.
fn short_at(buf: &[u8], at: usize) -> (r: u16)
    requires
        at + 2 <= buf@.len(),
    ensures
        r as nat == field(buf@, at as int, at + 2),
{
    let len: usize = buf.len();
    assert(at + 2 <= len);
    let part = vstd::slice::slice_subrange(buf, at, at + 2);
    proof {
        crate::le::lemma_pow256_values();
        crate::le::lemma_le_value_bound(part@);
    }
    get_le(part) as u16
}

impl SbeHeader {
    /// The header's bytes.
    pub open spec fn wire(self) -> Seq<u8> {
        crate::le::le_bytes(self.block_length as nat, 2) + crate::le::le_bytes(
            self.template_id as nat,
            2,
        ) + crate::le::le_bytes(self.schema_id as nat, 2) + crate::le::le_bytes(
            self.version as nat,
            2,
        )
    }

    pub fn write(&self, out: &mut Vec<u8>)
        ensures
            final(out)@ == old(out)@ + self.wire(),
    {
        let ghost start = out@;
        put_le(out, self.block_length as u128, 2);
        put_le(out, self.template_id as u128, 2);
        put_le(out, self.schema_id as u128, 2);
        put_le(out, self.version as u128, 2);
        assert(out@ =~= start + self.wire());
    }

    pub fn read(buf: &[u8]) -> (r: Result<SbeHeader, CodecError>)
        ensures
            r == read_header(buf@),
    {
        if buf.len() < HEADER_LEN {
            return Err(CodecError::UnexpectedEof);
        }
        Ok(
            SbeHeader {
                block_length: short_at(buf, 0),
                template_id: short_at(buf, 2),
                schema_id: short_at(buf, 4),
                version: short_at(buf, 6),
            },
        )
    }
}

/// A header reads back as it was written, whatever follows.
pub proof fn law_header_roundtrip(h: SbeHeader, rest: Seq<u8>)
    ensures
        h.wire().len() == 8,
        read_header(h.wire() + rest) == Ok::<SbeHeader, CodecError>(h),
{
    let buf = h.wire() + rest;
    crate::le::lemma_pow256_values();
    crate::le::law_le_value_of_bytes(h.block_length as nat, 2);
    crate::le::law_le_value_of_bytes(h.template_id as nat, 2);
    crate::le::law_le_value_of_bytes(h.schema_id as nat, 2);
    crate::le::law_le_value_of_bytes(h.version as nat, 2);
    assert(buf.subrange(0, 2) =~= crate::le::le_bytes(h.block_length as nat, 2));
    assert(buf.subrange(2, 4) =~= crate::le::le_bytes(h.template_id as nat, 2));
    assert(buf.subrange(4, 6) =~= crate::le::le_bytes(h.schema_id as nat, 2));
    assert(buf.subrange(6, 8) =~= crate::le::le_bytes(h.version as nat, 2));
}

/// An application message that SBE can carry: its identity, and the codec of
/// its fixed root block.
pub trait SbeMessage: Sized {
    const TEMPLATE_ID: u16;

    const SCHEMA_ID: u16;

    const SCHEMA_VERSION: u16;

    /// Bytes in the fixed root block that this build writes.
    const BLOCK_LENGTH: u16;

    /// The fixed root block.
    spec fn block(&self) -> Seq<u8>;

    /// The block that a message read from `block` has, or why it does not
    /// read.
    spec fn read_block(block: Seq<u8>) -> Result<Seq<u8>, CodecError>;

    /// Whether two values are the same message.
    spec fn same_message(&self, other: &Self) -> bool;

    /// Appends the fixed root block.
    fn encode_block(&self, out: &mut Vec<u8>)
        ensures
            final(out)@ == old(out)@ + self.block(),
    ;

    /// Reads a message from a block of exactly this build's length.
    fn decode_block(block: &[u8]) -> (r: Result<Self, CodecError>)
        requires
            block@.len() == Self::BLOCK_LENGTH,
        ensures
            match Self::read_block(block@) {
                Ok(b) => r is Ok && r->Ok_0.block() == b,
                Err(e) => r == Err::<Self, CodecError>(e),
            },
    ;

    /// A block has the length that the header says.
    proof fn law_block_length(&self)
        ensures
            self.block().len() == Self::BLOCK_LENGTH,
    ;

    /// A block reads back as the message.
    proof fn law_block_roundtrip(&self)
        ensures
            Self::read_block(self.block()) == Ok::<Seq<u8>, CodecError>(self.block()),
    ;

    /// Two messages have the same block exactly when they are the same.
    proof fn law_block_canonical(&self, other: &Self)
        ensures
            self.same_message(other) <==> self.block() == other.block(),
    ;
}

/// The header that this build writes in front of a message.
pub open spec fn own_header<M: SbeMessage>() -> SbeHeader {
    SbeHeader {
        block_length: M::BLOCK_LENGTH,
        template_id: M::TEMPLATE_ID,
        schema_id: M::SCHEMA_ID,
        version: M::SCHEMA_VERSION,
    }
}

/// A message on the wire: header, then block.
pub open spec fn message_wire<M: SbeMessage>(msg: M) -> Seq<u8> {
    own_header::<M>().wire() + msg.block()
}

/// What the front of a buffer reads as: the block of the message and how many
/// bytes it takes, with what a newer writer appended to the block.
pub open spec fn read_message<M: SbeMessage>(buf: Seq<u8>) -> Result<(Seq<u8>, nat), CodecError> {
    match read_header(buf) {
        Err(e) => Err(e),
        Ok(h) => {
            if h.template_id != M::TEMPLATE_ID || h.schema_id != M::SCHEMA_ID {
                Err(CodecError::InvalidValue("SBE template/schema mismatch"))
            } else if h.block_length < M::BLOCK_LENGTH {
                Err(CodecError::InvalidValue("SBE block shorter than schema"))
            } else if buf.len() < 8 + h.block_length {
                Err(CodecError::UnexpectedEof)
            } else {
                match M::read_block(buf.subrange(8, 8 + M::BLOCK_LENGTH as int)) {
                    Err(e) => Err(e),
                    Ok(block) => Ok((block, (8 + h.block_length) as nat)),
                }
            }
        },
    }
}

/// Appends a message behind its header.
pub fn encode_message<M: SbeMessage>(msg: &M, out: &mut Vec<u8>)
    ensures
        final(out)@ == old(out)@ + message_wire(*msg),
{
    let ghost start = out@;
    let header = SbeHeader {
        block_length: M::BLOCK_LENGTH,
        template_id: M::TEMPLATE_ID,
        schema_id: M::SCHEMA_ID,
        version: M::SCHEMA_VERSION,
    };
    header.write(out);
    msg.encode_block(out);
    assert(out@ =~= start + message_wire(*msg));
}

/// Reads a message and how many bytes it takes, the sender's whole block
/// counted.
pub fn decode_message<M: SbeMessage>(buf: &[u8]) -> (r: Result<(M, usize), CodecError>)
    ensures
        match read_message::<M>(buf@) {
            Ok((block, n)) => r is Ok && (r->Ok_0).0.block() == block && (r->Ok_0).1 == n && n
                <= buf@.len(),
            Err(e) => r == Err::<(M, usize), CodecError>(e),
        },
{
    let header = SbeHeader::read(buf)?;
    if header.template_id != M::TEMPLATE_ID || header.schema_id != M::SCHEMA_ID {
        return Err(CodecError::InvalidValue("SBE template/schema mismatch"));
    }
    let sender_block: usize = header.block_length as usize;
    let ours: usize = M::BLOCK_LENGTH as usize;
    if sender_block < ours {
        return Err(CodecError::InvalidValue("SBE block shorter than schema"));
    }
    if buf.len() < HEADER_LEN + sender_block {
        return Err(CodecError::UnexpectedEof);
    }
    let block = vstd::slice::slice_subrange(buf, HEADER_LEN, HEADER_LEN + ours);
    let msg = M::decode_block(block)?;
    Ok((msg, HEADER_LEN + sender_block))
}

/// A message reads back as it was written, whatever follows.
pub proof fn law_message_roundtrip<M: SbeMessage>(msg: M, rest: Seq<u8>)
    ensures
        read_message::<M>(message_wire(msg) + rest) == Ok::<(Seq<u8>, nat), CodecError>(
            (msg.block(), message_wire(msg).len()),
        ),
{
    law_newer_message_is_read(msg, M::SCHEMA_VERSION, Seq::empty(), rest);
    msg.law_block_length();
    assert(own_header::<M>().wire().len() == 8);
    assert(msg.block() + Seq::<u8>::empty() =~= msg.block());
    assert(message_wire(msg).len() == 8 + M::BLOCK_LENGTH as nat);
}

/// A message whose writer appended fields to the block is read by its known
/// fields; what was appended is consumed with the block.
pub proof fn law_newer_message_is_read<M: SbeMessage>(
    msg: M,
    version: u16,
    appended: Seq<u8>,
    rest: Seq<u8>,
)
    requires
        M::BLOCK_LENGTH + appended.len() <= u16::MAX,
    ensures
        ({
            let h = SbeHeader {
                block_length: (M::BLOCK_LENGTH + appended.len()) as u16,
                version,
                ..own_header::<M>()
            };
            read_message::<M>(h.wire() + (msg.block() + appended) + rest) == Ok::<
                (Seq<u8>, nat),
                CodecError,
            >((msg.block(), 8 + M::BLOCK_LENGTH as nat + appended.len()))
        }),
{
    let h = SbeHeader {
        block_length: (M::BLOCK_LENGTH + appended.len()) as u16,
        version,
        ..own_header::<M>()
    };
    let buf = h.wire() + (msg.block() + appended) + rest;
    msg.law_block_length();
    msg.law_block_roundtrip();
    assert(buf =~= h.wire() + (msg.block() + appended + rest));
    law_header_roundtrip(h, msg.block() + appended + rest);
    assert(buf.subrange(8, 8 + M::BLOCK_LENGTH as int) =~= msg.block());
}

/// An SBE message as a value of the canonical encoding.
#[derive(Debug, Clone, Copy, PartialEq, Eq)]
pub struct Sbe<T>(pub T);

impl<T: SbeMessage> Encode for Sbe<T> {
    open spec fn encodable(&self) -> bool {
        true
    }

    open spec fn bytes(&self) -> Seq<u8> {
        message_wire(self.0)
    }

    fn encode(&self, out: &mut Vec<u8>) {
        encode_message(&self.0, out);
    }

    fn encoded_len(&self) -> usize {
        proof {
            self.0.law_block_length();
        }
        HEADER_LEN + T::BLOCK_LENGTH as usize
    }
}

impl<T: SbeMessage> Decode for Sbe<T> {
    open spec fn parse(buf: Seq<u8>) -> Parsed {
        match read_message::<T>(buf) {
            Err(e) => Err(e),
            Ok((block, n)) => Ok((own_header::<T>().wire() + block, n)),
        }
    }

    open spec fn same(&self, other: &Self) -> bool {
        self.0.same_message(&other.0)
    }

    fn decode(buf: &mut &[u8]) -> (r: Result<Self, CodecError>) {
        let (msg, consumed) = decode_message::<T>(*buf)?;
        let total: usize = buf.len();
        *buf = vstd::slice::slice_subrange(*buf, consumed, total);
        assert(buf@ =~= old(buf)@.skip(consumed as int));
        Ok(Sbe(msg))
    }

    proof fn law_parse_is_bounded(buf: Seq<u8>) {
    }

    proof fn law_roundtrip(&self, rest: Seq<u8>) {
        law_message_roundtrip(self.0, rest);
    }

    proof fn law_cut_ends_early(&self, cut: Seq<u8>) {
        let head = own_header::<T>().wire();
        self.0.law_block_length();
        if cut.len() >= 8 {
            assert(cut =~= head + cut.skip(8));
            law_header_roundtrip(own_header::<T>(), cut.skip(8));
        }
    }

    proof fn law_canonical(&self, other: &Self) {
        self.0.law_block_canonical(&other.0);
        let head = own_header::<T>().wire();
        if self.bytes() == other.bytes() {
            assert(self.bytes().skip(head.len() as int) =~= self.0.block());
            assert(other.bytes().skip(head.len() as int) =~= other.0.block());
        }
    }
}

/// Where the parts of a message lie: the length of the block, the template, the
/// schema and its version, then the block.
pub proof fn law_message_layout<M: SbeMessage>(msg: M, h: SbeHeader)
    ensures
        h.wire().len() == 8,
        h.wire().subrange(0, 2) == crate::le::le_bytes(h.block_length as nat, 2),
        h.wire().subrange(2, 4) == crate::le::le_bytes(h.template_id as nat, 2),
        h.wire().subrange(4, 6) == crate::le::le_bytes(h.schema_id as nat, 2),
        h.wire().subrange(6, 8) == crate::le::le_bytes(h.version as nat, 2),
        message_wire(msg).skip(8) == msg.block(),
        message_wire(msg).subrange(2, 4) == crate::le::le_bytes(M::TEMPLATE_ID as nat, 2),
        message_wire(msg).subrange(4, 6) == crate::le::le_bytes(M::SCHEMA_ID as nat, 2),
{
    law_header_roundtrip(h, Seq::empty());
    let w = h.wire();
    assert(w.subrange(0, 2) =~= crate::le::le_bytes(h.block_length as nat, 2));
    assert(w.subrange(2, 4) =~= crate::le::le_bytes(h.template_id as nat, 2));
    assert(w.subrange(4, 6) =~= crate::le::le_bytes(h.schema_id as nat, 2));
    assert(w.subrange(6, 8) =~= crate::le::le_bytes(h.version as nat, 2));
    law_header_roundtrip(own_header::<M>(), msg.block());
    let m = message_wire(msg);
    assert(m.skip(8) =~= msg.block());
    assert(m.subrange(2, 4) =~= crate::le::le_bytes(M::TEMPLATE_ID as nat, 2));
    assert(m.subrange(4, 6) =~= crate::le::le_bytes(M::SCHEMA_ID as nat, 2));
}

/// A message of another template or schema is refused, and so is one whose block
/// is shorter than this build's.
pub proof fn law_foreign_message_is_refused<M: SbeMessage>(h: SbeHeader, rest: Seq<u8>)
    ensures
        h.template_id != M::TEMPLATE_ID || h.schema_id != M::SCHEMA_ID || h.block_length
            < M::BLOCK_LENGTH ==> read_message::<M>(h.wire() + rest) is Err,
        rest.len() < h.block_length ==> read_message::<M>(h.wire() + rest) is Err,
{
    law_header_roundtrip(h, rest);
}

} // verus!
