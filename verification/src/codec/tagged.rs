//! Enums: a `u16` discriminant, in declaration order, then the variant's
//! fields in order.

use vstd::prelude::*;

use crate::codec::{parse_next, CodecError, Decode, Encode, Parsed};

verus! {

broadcast use crate::le::lemma_le_bytes_len;

/// The bytes of a variant: its discriminant, then its fields.
pub open spec fn tagged_bytes<B: Encode>(tag: u16, body: B) -> Seq<u8> {
    tag.bytes() + body.bytes()
}

/// The discriminant at the front of a buffer.
pub open spec fn parse_tag(buf: Seq<u8>) -> Result<u16, CodecError> {
    match u16::parse(buf) {
        Ok((bytes, _)) => Ok(crate::le::le_value(bytes) as u16),
        Err(e) => Err(e),
    }
}

/// What a buffer with a discriminant in front reads as, given the fields.
pub open spec fn parse_tagged<B: Decode>(buf: Seq<u8>) -> Parsed {
    parse_next::<B>(buf, u16::parse(buf))
}

/// What a buffer with an unknown discriminant reads as.
pub open spec fn unknown_tag() -> Parsed {
    Err(CodecError::InvalidValue("enum discriminant"))
}

/// The bytes of a variant read back as they were.
pub proof fn lemma_tagged_roundtrip<B: Decode>(tag: u16, body: B, rest: Seq<u8>)
    requires
        body.encodable(),
    ensures
        parse_tag(tagged_bytes(tag, body) + rest) == Ok::<u16, CodecError>(tag),
        parse_tagged::<B>(tagged_bytes(tag, body) + rest) == Ok::<(Seq<u8>, nat), CodecError>(
            (tagged_bytes(tag, body), tagged_bytes(tag, body).len()),
        ),
{
    let buf = tagged_bytes(tag, body) + rest;
    assert(buf =~= tag.bytes() + (body.bytes() + rest));
    tag.law_roundtrip(body.bytes() + rest);
    crate::le::lemma_pow256_values();
    crate::le::law_le_value_of_bytes(tag as nat, 2);
    crate::codec::lemma_parse_next(buf, tag.bytes(), body, rest);
}

/// Variants with different discriminants have different bytes.
pub proof fn lemma_tags_differ(a: u16, b: u16, x: Seq<u8>, y: Seq<u8>)
    requires
        a != b,
    ensures
        a.bytes() + x != b.bytes() + y,
{
    if a.bytes() + x == b.bytes() + y {
        assert((a.bytes() + x).take(2) =~= a.bytes());
        assert((b.bytes() + y).take(2) =~= b.bytes());
        a.law_canonical(&b);
    }
}

/// Values of one variant have the same bytes exactly when their fields are the
/// same.
pub proof fn lemma_tagged_canonical<B: Decode>(tag: u16, a: B, b: B)
    requires
        a.encodable(),
        b.encodable(),
    ensures
        a.same(&b) <==> tagged_bytes(tag, a) == tagged_bytes(tag, b),
{
    a.law_canonical(&b);
    if tagged_bytes(tag, a) == tagged_bytes(tag, b) {
        assert(tagged_bytes(tag, a).skip(2) =~= a.bytes());
        assert(tagged_bytes(tag, b).skip(2) =~= b.bytes());
    }
}

/// Reading never runs past the end of the buffer.
pub proof fn lemma_tagged_bounded<B: Decode>(buf: Seq<u8>)
    ensures
        parse_tagged::<B>(buf) matches Ok((_, n)) ==> n <= buf.len(),
{
    u16::law_parse_is_bounded(buf);
    if let Ok((_, n)) = u16::parse(buf) {
        B::law_parse_is_bounded(buf.skip(n as int));
    }
}

/// Reads the fields behind a discriminant that was read from the front of
/// `start`.
pub fn decode_body<B: Decode>(buf: &mut &[u8], Ghost(start): Ghost<Seq<u8>>) -> (r: Result<
    B,
    CodecError,
>)
    requires
        u16::parse(start) is Ok,
        old(buf)@ == start.skip((u16::parse(start)->Ok_0).1 as int),
    ensures
        match parse_tagged::<B>(start) {
            Ok((canonical, n)) => {
                &&& r is Ok
                &&& r->Ok_0.encodable()
                &&& (u16::parse(start)->Ok_0).0 + r->Ok_0.bytes() == canonical
                &&& n <= start.len()
                &&& final(buf)@ == start.skip(n as int)
            },
            Err(e) => r == Err::<B, CodecError>(e),
        },
{
    let ghost used = (u16::parse(start)->Ok_0).1;
    proof {
        u16::law_parse_is_bounded(start);
    }
    let body = B::decode(buf)?;
    proof {
        let m = (B::parse(start.skip(used as int))->Ok_0).1;
        assert(start.skip(used as int).skip(m as int) =~= start.skip((used + m) as int));
    }
    Ok(body)
}

} // verus!
