//! Vote messages: requests and replies as checksummed fixed-size records.

use vstd::prelude::*;
use vstd::slice::slice_subrange;

use crate::crc32c::crc32c;
use crate::election::{VoteReply, VoteRequest};
use crate::le::{get_le, put_le};
use crate::persist::PersistentAcceptor;
use crate::seq::SeqNo;
use crate::storage::Storage;

verus! {

broadcast use crate::le::lemma_le_bytes_len;

/// magic + epoch + crc
pub const REQUEST_LEN: usize = 16;

/// magic + kind + a + b + crc
pub const REPLY_LEN: usize = 25;

/// `TKVQ`, the first bytes of a vote request.
pub open spec fn request_magic() -> Seq<u8> {
    seq![0x54u8, 0x4Bu8, 0x56u8, 0x51u8]
}

/// `TKVR`, the first bytes of a vote reply.
pub open spec fn reply_magic() -> Seq<u8> {
    seq![0x54u8, 0x4Bu8, 0x56u8, 0x52u8]
}

pub open spec fn request_head(req: VoteRequest) -> Seq<u8> {
    request_magic() + crate::le::le_bytes(req.epoch as nat, 8)
}

/// The bytes of a vote request.
pub open spec fn request_wire(req: VoteRequest) -> Seq<u8> {
    request_head(req) + crate::frame::crc_bytes(request_head(req))
}

pub open spec fn reply_head(reply: VoteReply) -> Seq<u8> {
    match reply {
        VoteReply::Grant { epoch, high_water } => reply_magic() + seq![0u8] + crate::le::le_bytes(
            epoch as nat,
            8,
        ) + crate::le::le_bytes(high_water.0 as nat, 8),
        VoteReply::Reject { promised } => reply_magic() + seq![1u8] + crate::le::le_bytes(
            promised as nat,
            8,
        ) + crate::le::le_bytes(0, 8),
    }
}

/// The bytes of a vote reply.
pub open spec fn reply_wire(reply: VoteReply) -> Seq<u8> {
    reply_head(reply) + crate::frame::crc_bytes(reply_head(reply))
}

/// What the bytes of a vote request read as.
pub open spec fn read_request(bytes: Seq<u8>) -> Option<VoteRequest> {
    if bytes.len() != 16 || bytes.take(4) != request_magic() || crate::crc32c::checksum(
        bytes.take(12),
    ) as nat != crate::frame::field(bytes, 12, 16) {
        None
    } else {
        Some(VoteRequest { epoch: crate::frame::field(bytes, 4, 12) as u64 })
    }
}

/// What the bytes of a vote reply read as.
pub open spec fn read_reply(bytes: Seq<u8>) -> Option<VoteReply> {
    if bytes.len() != 25 || bytes.take(4) != reply_magic() || crate::crc32c::checksum(
        bytes.take(21),
    ) as nat != crate::frame::field(bytes, 21, 25) {
        None
    } else if bytes[4] == 0 {
        Some(
            VoteReply::Grant {
                epoch: crate::frame::field(bytes, 5, 13) as u64,
                high_water: SeqNo(crate::frame::field(bytes, 13, 21) as u64),
            },
        )
    } else if bytes[4] == 1 {
        Some(VoteReply::Reject { promised: crate::frame::field(bytes, 5, 13) as u64 })
    } else {
        None
    }
}

/// A vote request reads back as what was sent.
pub proof fn law_request_roundtrip(req: VoteRequest)
    ensures
        read_request(request_wire(req)) == Some(req),
{
    let b = request_wire(req);
    let head = request_head(req);
    crate::le::lemma_pow256_values();
    assert(b.take(4) =~= request_magic());
    assert(b.take(12) =~= head);
    assert(b.subrange(4, 12) =~= crate::le::le_bytes(req.epoch as nat, 8));
    assert(b.subrange(12, 16) =~= crate::frame::crc_bytes(head));
    crate::le::law_le_value_of_bytes(req.epoch as nat, 8);
    crate::le::law_le_value_of_bytes(crate::crc32c::checksum(head) as nat, 4);
}

/// A vote reply reads back as what was sent.
pub proof fn law_reply_roundtrip(reply: VoteReply)
    ensures
        read_reply(reply_wire(reply)) == Some(reply),
{
    let b = reply_wire(reply);
    let head = reply_head(reply);
    crate::le::lemma_pow256_values();
    assert(head.len() == 21);
    assert(b.take(4) =~= reply_magic());
    assert(b.take(21) =~= head);
    assert(b.subrange(21, 25) =~= crate::frame::crc_bytes(head));
    crate::le::law_le_value_of_bytes(crate::crc32c::checksum(head) as nat, 4);
    match reply {
        VoteReply::Grant { epoch, high_water } => {
            assert(b.subrange(5, 13) =~= crate::le::le_bytes(epoch as nat, 8));
            assert(b.subrange(13, 21) =~= crate::le::le_bytes(high_water.0 as nat, 8));
            crate::le::law_le_value_of_bytes(epoch as nat, 8);
            crate::le::law_le_value_of_bytes(high_water.0 as nat, 8);
        },
        VoteReply::Reject { promised } => {
            assert(b.subrange(5, 13) =~= crate::le::le_bytes(promised as nat, 8));
            crate::le::law_le_value_of_bytes(promised as nat, 8);
        },
    }
}

pub fn encode_request(req: VoteRequest) -> (out: Vec<u8>)
    ensures
        out@ == request_wire(req),
{
    let mut out: Vec<u8> = vec![0x54u8, 0x4Bu8, 0x56u8, 0x51u8];
    put_le(&mut out, req.epoch as u128, 8);
    assert(out@ =~= request_head(req));
    let crc: u32 = crc32c(out.as_slice());
    put_le(&mut out, crc as u128, 4);
    out
}

pub fn decode_request(bytes: &[u8]) -> (r: Option<VoteRequest>)
    ensures
        r == read_request(bytes@),
{
    if bytes.len() != REQUEST_LEN {
        return None;
    }
    if bytes[0] != 0x54 || bytes[1] != 0x4B || bytes[2] != 0x56 || bytes[3] != 0x51 {
        assert(bytes@.take(4)[0] == bytes@[0] && bytes@.take(4)[1] == bytes@[1]
            && bytes@.take(4)[2] == bytes@[2] && bytes@.take(4)[3] == bytes@[3]);
        return None;
    }
    proof {
        assert(bytes@.take(4) =~= request_magic());
        assert(bytes@.subrange(0, 12) =~= bytes@.take(12));
        crate::le::lemma_pow256_values();
        crate::le::lemma_le_value_bound(bytes@.subrange(4, 12));
    }
    if crc32c(slice_subrange(bytes, 0, 12)) as u128 != get_le(slice_subrange(bytes, 12, 16)) {
        return None;
    }
    Some(VoteRequest { epoch: get_le(slice_subrange(bytes, 4, 12)) as u64 })
}

pub fn encode_reply(reply: VoteReply) -> (out: Vec<u8>)
    ensures
        out@ == reply_wire(reply),
{
    let mut out: Vec<u8> = vec![0x54u8, 0x4Bu8, 0x56u8, 0x52u8];
    match reply {
        VoteReply::Grant { epoch, high_water } => {
            out.push(0);
            put_le(&mut out, epoch as u128, 8);
            put_le(&mut out, high_water.0 as u128, 8);
        },
        VoteReply::Reject { promised } => {
            out.push(1);
            put_le(&mut out, promised as u128, 8);
            put_le(&mut out, 0, 8);
        },
    }
    assert(out@ =~= reply_head(reply));
    let crc: u32 = crc32c(out.as_slice());
    put_le(&mut out, crc as u128, 4);
    out
}

pub fn decode_reply(bytes: &[u8]) -> (r: Option<VoteReply>)
    ensures
        r == read_reply(bytes@),
{
    if bytes.len() != REPLY_LEN {
        return None;
    }
    if bytes[0] != 0x54 || bytes[1] != 0x4B || bytes[2] != 0x56 || bytes[3] != 0x52 {
        assert(bytes@.take(4)[0] == bytes@[0] && bytes@.take(4)[1] == bytes@[1]
            && bytes@.take(4)[2] == bytes@[2] && bytes@.take(4)[3] == bytes@[3]);
        return None;
    }
    proof {
        assert(bytes@.take(4) =~= reply_magic());
        assert(bytes@.subrange(0, 21) =~= bytes@.take(21));
        crate::le::lemma_pow256_values();
        crate::le::lemma_le_value_bound(bytes@.subrange(5, 13));
        crate::le::lemma_le_value_bound(bytes@.subrange(13, 21));
    }
    if crc32c(slice_subrange(bytes, 0, 21)) as u128 != get_le(slice_subrange(bytes, 21, 25)) {
        return None;
    }
    let a: u64 = get_le(slice_subrange(bytes, 5, 13)) as u64;
    let b: u64 = get_le(slice_subrange(bytes, 13, 21)) as u64;
    if bytes[4] == 0 {
        Some(VoteReply::Grant { epoch: a, high_water: SeqNo(b) })
    } else if bytes[4] == 1 {
        Some(VoteReply::Reject { promised: a })
    } else {
        None
    }
}

/// Answers the bytes of a vote request with the bytes of a reply. Nothing is
/// answered to a malformed request, nor where the promise could not be
/// persisted: a grant that is not durable must not leave.
pub fn answer_vote<St: Storage>(
    acceptor: &mut PersistentAcceptor,
    storage: &mut St,
    request: &[u8],
) -> (r: Option<Vec<u8>>)
    ensures
        final(acceptor).path() == old(acceptor).path(),
        final(acceptor).mark() == old(acceptor).mark(),
        match read_request(request@) {
            None => r is None && *final(acceptor) == *old(acceptor) && final(storage).view()
                == old(storage).view(),
            Some(req) => {
                &&& final(acceptor).promise() == crate::election::promised_after(
                    old(acceptor).promise(),
                    req.epoch,
                )
                &&& r matches Some(bytes) ==> {
                    let reply = crate::election::vote(
                        old(acceptor).promise(),
                        old(acceptor).mark(),
                        req.epoch,
                    );
                    &&& bytes@ == reply_wire(reply)
                    &&& reply !is Reject || crate::persist::is_durable(
                        old(storage).view(),
                        old(acceptor).path(),
                        old(acceptor).promise(),
                    ) ==> crate::persist::is_durable(
                        final(storage).view(),
                        old(acceptor).path(),
                        final(acceptor).promise(),
                    )
                }
                &&& old(storage).reliable() ==> r is Some
            },
        },
        final(storage).reliable() == old(storage).reliable(),
{
    match decode_request(request) {
        None => None,
        Some(req) => match acceptor.handle(storage, req) {
            Ok(reply) => Some(encode_reply(reply)),
            Err(_) => None,
        },
    }
}

/// Where the parts of a vote request lie.
pub proof fn law_request_layout(req: VoteRequest)
    ensures
        ({
            let b = request_wire(req);
            &&& b.len() == 16
            &&& b.take(4) == seq![0x54u8, 0x4Bu8, 0x56u8, 0x51u8]
            &&& b.subrange(4, 12) == crate::le::le_bytes(req.epoch as nat, 8)
            &&& b.skip(12) == crate::le::le_bytes(crate::crc32c::checksum(b.take(12)) as nat, 4)
        }),
{
    let b = request_wire(req);
    assert(b.take(12) =~= request_head(req));
    assert(b.take(4) =~= seq![0x54u8, 0x4Bu8, 0x56u8, 0x51u8]);
    assert(b.subrange(4, 12) =~= crate::le::le_bytes(req.epoch as nat, 8));
    assert(b.skip(12) =~= crate::frame::crc_bytes(request_head(req)));
}

/// Where the parts of a vote reply lie: a grant carries its epoch and the
/// high-water, a refusal the epoch that was promised.
pub proof fn law_reply_layout(reply: VoteReply)
    ensures
        ({
            let b = reply_wire(reply);
            &&& b.len() == 25
            &&& b.take(4) == seq![0x54u8, 0x4Bu8, 0x56u8, 0x52u8]
            &&& b.skip(21) == crate::le::le_bytes(crate::crc32c::checksum(b.take(21)) as nat, 4)
            &&& match reply {
                VoteReply::Grant { epoch, high_water } => {
                    &&& b[4] == 0
                    &&& b.subrange(5, 13) == crate::le::le_bytes(epoch as nat, 8)
                    &&& b.subrange(13, 21) == crate::le::le_bytes(high_water.0 as nat, 8)
                },
                VoteReply::Reject { promised } => {
                    &&& b[4] == 1
                    &&& b.subrange(5, 13) == crate::le::le_bytes(promised as nat, 8)
                    &&& b.subrange(13, 21) == crate::le::le_bytes(0, 8)
                },
            }
        }),
{
    let b = reply_wire(reply);
    assert(b.take(21) =~= reply_head(reply));
    assert(b.take(4) =~= seq![0x54u8, 0x4Bu8, 0x56u8, 0x52u8]);
    assert(b.skip(21) =~= crate::frame::crc_bytes(reply_head(reply)));
    match reply {
        VoteReply::Grant { epoch, high_water } => {
            assert(b.subrange(5, 13) =~= crate::le::le_bytes(epoch as nat, 8));
            assert(b.subrange(13, 21) =~= crate::le::le_bytes(high_water.0 as nat, 8));
        },
        VoteReply::Reject { promised } => {
            assert(b.subrange(5, 13) =~= crate::le::le_bytes(promised as nat, 8));
            assert(b.subrange(13, 21) =~= crate::le::le_bytes(0, 8));
        },
    }
}

} // verus!
