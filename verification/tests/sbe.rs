//! SBE messages and the adapter into the canonical encoding.

use ticktape::codec::{decode_all, encode_to_vec, Bytes, CodecError, Encode};
use ticktape::sbe::{
    decode_message, encode_message, Sbe, SbeHeader, SbeMessage, HEADER_LEN,
};

/// A NewOrderSingle-shaped message: a 22-byte fixed block.
#[derive(Debug, Clone, Copy, PartialEq, Eq)]
struct NewOrder {
    order_id: u64,
    price: i64,
    qty: u32,
    side: u8,
    ord_type: u8,
}

impl SbeMessage for NewOrder {
    const TEMPLATE_ID: u16 = 1;
    const SCHEMA_ID: u16 = 91;
    const SCHEMA_VERSION: u16 = 0;
    const BLOCK_LENGTH: u16 = 8 + 8 + 4 + 1 + 1; // 22

    fn block(&self) -> Bytes {
        unreachable!()
    }
    fn read_block(_: Bytes) -> Result<Bytes, CodecError> {
        unreachable!()
    }
    fn same_message(&self, _: &Self) -> bool {
        unreachable!()
    }
    fn law_block_length(&self) {}
    fn law_block_roundtrip(&self) {}
    fn law_block_canonical(&self, _: &Self) {}

    fn encode_block(&self, out: &mut Vec<u8>) {
        out.extend_from_slice(&self.order_id.to_le_bytes());
        out.extend_from_slice(&self.price.to_le_bytes());
        out.extend_from_slice(&self.qty.to_le_bytes());
        out.push(self.side);
        out.push(self.ord_type);
    }

    fn decode_block(b: &[u8]) -> Result<Self, CodecError> {
        Ok(NewOrder {
            order_id: u64::from_le_bytes(b[0..8].try_into().unwrap()),
            price: i64::from_le_bytes(b[8..16].try_into().unwrap()),
            qty: u32::from_le_bytes(b[16..20].try_into().unwrap()),
            side: b[20],
            ord_type: b[21],
        })
    }
}

fn sample() -> NewOrder {
    NewOrder { order_id: 0xABCD_1234_5678, price: -125, qty: 500, side: 1, ord_type: 2 }
}

#[test]
fn header_is_eight_le_bytes_in_sbe_order() {
    let mut out = Vec::new();
    encode_message(&sample(), &mut out);
    // block_length=22, template=1, schema=91, version=0: all u16 LE.
    assert_eq!(&out[0..2], &22u16.to_le_bytes());
    assert_eq!(&out[2..4], &1u16.to_le_bytes());
    assert_eq!(&out[4..6], &91u16.to_le_bytes());
    assert_eq!(&out[6..8], &0u16.to_le_bytes());
    assert_eq!(out.len(), HEADER_LEN + 22);
}

#[test]
fn message_round_trips() {
    let mut out = Vec::new();
    encode_message(&sample(), &mut out);
    let (back, consumed) = decode_message::<NewOrder>(&out).unwrap();
    assert_eq!(back, sample());
    assert_eq!(consumed, out.len());
}

#[test]
fn adapter_flows_through_ticktape_codec() {
    // Sbe<NewOrder> encodes and decodes canonically, so it can be a service's
    // input and land in the journal SBE-framed.
    let value = Sbe(sample());
    let bytes = encode_to_vec(&value);
    assert_eq!(bytes.len(), value.encoded_len());
    assert_eq!(decode_all::<Sbe<NewOrder>>(&bytes).unwrap(), value);
}

#[test]
fn newer_writer_with_a_longer_block_is_read_by_an_older_decoder() {
    // A v1 writer appended a 4-byte field: block_length is larger, and the
    // extra bytes trail the known fields. An old decoder (BLOCK_LENGTH=22)
    // must read the known prefix and skip the rest.
    let mut out = Vec::new();
    SbeHeader { block_length: 22 + 4, template_id: 1, schema_id: 91, version: 1 }.write(&mut out);
    sample().encode_block(&mut out);
    out.extend_from_slice(&0x0102_0304u32.to_le_bytes()); // the new field
    let (back, consumed) = decode_message::<NewOrder>(&out).unwrap();
    assert_eq!(back, sample());
    assert_eq!(consumed, HEADER_LEN + 26, "must consume the full advertised block");
}

#[test]
fn shorter_block_and_wrong_template_are_rejected() {
    // Older writer missing fields.
    let mut short = Vec::new();
    SbeHeader { block_length: 10, template_id: 1, schema_id: 91, version: 0 }.write(&mut short);
    short.extend_from_slice(&[0u8; 10]);
    assert!(decode_message::<NewOrder>(&short).is_err());

    // Right schema, wrong template.
    let mut wrong = Vec::new();
    encode_message(&sample(), &mut wrong);
    wrong[2..4].copy_from_slice(&999u16.to_le_bytes());
    assert!(decode_message::<NewOrder>(&wrong).is_err());
}

#[test]
fn cut_messages_are_eof() {
    let mut out = Vec::new();
    encode_message(&sample(), &mut out);
    assert_eq!(decode_message::<NewOrder>(&out[..5]).unwrap_err(), CodecError::UnexpectedEof);
    assert_eq!(decode_message::<NewOrder>(&out[..29]).unwrap_err(), CodecError::UnexpectedEof);
}
