//! Canonical encoding: primitives, collections and hand-composed types.

use ticktape::codec::{decode_all, encode_to_vec, Bytes, CodecError, Decode, Encode, Parsed};
use ticktape::seq::{SeqNo, Timestamp};

fn roundtrip<T: Encode + Decode + PartialEq + core::fmt::Debug>(value: T) {
    let bytes = encode_to_vec(&value);
    assert_eq!(bytes.len(), value.encoded_len(), "encoded_len mismatch");
    let back: T = decode_all(&bytes).expect("decode");
    assert_eq!(back, value);
}

#[test]
fn primitives_roundtrip() {
    roundtrip(0xDEAD_BEEFu32);
    roundtrip(-42i64);
    roundtrip(true);
    roundtrip(u128::MAX);
    roundtrip(String::from("héllo"));
    roundtrip(vec![1u16, 2, 3]);
    roundtrip(Some(7u8));
    roundtrip(Option::<u8>::None);
    roundtrip((1u8, String::from("k"), vec![9u64]));
    roundtrip(SeqNo(17));
    roundtrip(Timestamp(1_700_000_000_000_000_000));
}

#[test]
fn signed_extremes_roundtrip() {
    roundtrip(i8::MIN);
    roundtrip(i16::MIN);
    roundtrip(i32::MIN);
    roundtrip(i64::MIN);
    roundtrip(i128::MIN);
    roundtrip(-1i128);
    roundtrip(());
    roundtrip((3u8,));
    roundtrip((1u8, 2u16, 3u32, 4u64));
}

#[test]
fn canonical_bytes_are_stable() {
    // Little-endian, declaration order: this exact byte string is the
    // wire contract; changing it is a format break.
    let bytes = encode_to_vec(&(0x0102u16, String::from("ab")));
    assert_eq!(bytes, [0x02, 0x01, 2, 0, 0, 0, b'a', b'b']);
}

#[test]
fn decode_rejects_trailing_and_eof() {
    assert_eq!(decode_all::<u32>(&[1, 2, 3]).unwrap_err(), CodecError::UnexpectedEof);
    assert_eq!(decode_all::<u16>(&[1, 2, 3]).unwrap_err(), CodecError::TrailingBytes(1));
}

#[test]
fn corrupt_length_prefix_is_eof_not_alloc() {
    // u32::MAX length prefix with 2 bytes of data must error, not OOM.
    let mut bytes = encode_to_vec(&u32::MAX);
    bytes.extend_from_slice(b"ab");
    assert_eq!(decode_all::<Vec<u8>>(&bytes).unwrap_err(), CodecError::UnexpectedEof);
}

#[test]
fn bad_values_are_refused() {
    assert!(matches!(decode_all::<bool>(&[2]), Err(CodecError::InvalidValue(_))));
    assert!(matches!(decode_all::<Option<u8>>(&[7]), Err(CodecError::InvalidValue(_))));
    assert_eq!(decode_all::<String>(&[1, 0, 0, 0, 0xFF]).unwrap_err(), CodecError::InvalidUtf8);
}

#[derive(PartialEq, Debug, Clone)]
struct Named {
    a: u32,
    b: String,
    c: Vec<u16>,
    d: Option<bool>,
}

impl Encode for Named {
    fn encodable(&self) -> bool {
        true
    }
    fn bytes(&self) -> Bytes {
        unreachable!()
    }
    fn encode(&self, out: &mut Vec<u8>) {
        self.a.encode(out);
        self.b.encode(out);
        self.c.encode(out);
        self.d.encode(out);
    }
    fn encoded_len(&self) -> usize {
        self.a.encoded_len() + self.b.encoded_len() + self.c.encoded_len() + self.d.encoded_len()
    }
}

impl Decode for Named {
    fn parse(_: Bytes) -> Parsed {
        unreachable!()
    }
    fn same(&self, _: &Self) -> bool {
        unreachable!()
    }
    fn law_parse_is_bounded(_: Bytes) {}
    fn law_roundtrip(&self, _: Bytes) {}
    fn law_cut_ends_early(&self, _: Bytes) {}
    fn law_canonical(&self, _: &Self) {}
    fn decode(buf: &mut &[u8]) -> Result<Self, CodecError> {
        Ok(Named {
            a: Decode::decode(buf)?,
            b: Decode::decode(buf)?,
            c: Decode::decode(buf)?,
            d: Decode::decode(buf)?,
        })
    }
}

#[derive(PartialEq, Debug)]
struct Tuple(u8, String);

impl Encode for Tuple {
    fn encodable(&self) -> bool {
        true
    }
    fn bytes(&self) -> Bytes {
        unreachable!()
    }
    fn encode(&self, out: &mut Vec<u8>) {
        self.0.encode(out);
        self.1.encode(out);
    }
    fn encoded_len(&self) -> usize {
        self.0.encoded_len() + self.1.encoded_len()
    }
}

impl Decode for Tuple {
    fn parse(_: Bytes) -> Parsed {
        unreachable!()
    }
    fn same(&self, _: &Self) -> bool {
        unreachable!()
    }
    fn law_parse_is_bounded(_: Bytes) {}
    fn law_roundtrip(&self, _: Bytes) {}
    fn law_cut_ends_early(&self, _: Bytes) {}
    fn law_canonical(&self, _: &Self) {}
    fn decode(buf: &mut &[u8]) -> Result<Self, CodecError> {
        Ok(Tuple(Decode::decode(buf)?, Decode::decode(buf)?))
    }
}

#[derive(PartialEq, Debug)]
struct Unit;

impl Encode for Unit {
    fn encodable(&self) -> bool {
        true
    }
    fn bytes(&self) -> Bytes {
        unreachable!()
    }
    fn encode(&self, _out: &mut Vec<u8>) {}
    fn encoded_len(&self) -> usize {
        0
    }
}

impl Decode for Unit {
    fn parse(_: Bytes) -> Parsed {
        unreachable!()
    }
    fn same(&self, _: &Self) -> bool {
        unreachable!()
    }
    fn law_parse_is_bounded(_: Bytes) {}
    fn law_roundtrip(&self, _: Bytes) {}
    fn law_cut_ends_early(&self, _: Bytes) {}
    fn law_canonical(&self, _: &Self) {}
    fn decode(_buf: &mut &[u8]) -> Result<Self, CodecError> {
        Ok(Unit)
    }
}

#[derive(PartialEq, Debug)]
enum Mixed {
    Nothing,
    One(u64),
    Pair { x: i32, y: i32 },
    Nested(Named),
}

impl Encode for Mixed {
    fn encodable(&self) -> bool {
        true
    }
    fn bytes(&self) -> Bytes {
        unreachable!()
    }
    fn encode(&self, out: &mut Vec<u8>) {
        match self {
            Mixed::Nothing => 0u16.encode(out),
            Mixed::One(v) => {
                1u16.encode(out);
                v.encode(out);
            }
            Mixed::Pair { x, y } => {
                2u16.encode(out);
                x.encode(out);
                y.encode(out);
            }
            Mixed::Nested(n) => {
                3u16.encode(out);
                n.encode(out);
            }
        }
    }
    fn encoded_len(&self) -> usize {
        2 + match self {
            Mixed::Nothing => 0,
            Mixed::One(v) => v.encoded_len(),
            Mixed::Pair { x, y } => x.encoded_len() + y.encoded_len(),
            Mixed::Nested(n) => n.encoded_len(),
        }
    }
}

impl Decode for Mixed {
    fn parse(_: Bytes) -> Parsed {
        unreachable!()
    }
    fn same(&self, _: &Self) -> bool {
        unreachable!()
    }
    fn law_parse_is_bounded(_: Bytes) {}
    fn law_roundtrip(&self, _: Bytes) {}
    fn law_cut_ends_early(&self, _: Bytes) {}
    fn law_canonical(&self, _: &Self) {}
    fn decode(buf: &mut &[u8]) -> Result<Self, CodecError> {
        match u16::decode(buf)? {
            0 => Ok(Mixed::Nothing),
            1 => Ok(Mixed::One(Decode::decode(buf)?)),
            2 => Ok(Mixed::Pair { x: Decode::decode(buf)?, y: Decode::decode(buf)? }),
            3 => Ok(Mixed::Nested(Decode::decode(buf)?)),
            _ => Err(CodecError::InvalidValue("enum discriminant")),
        }
    }
}

#[derive(PartialEq, Debug)]
struct Wrap<T> {
    tag: u16,
    value: T,
}

impl<T: Encode> Encode for Wrap<T> {
    fn encodable(&self) -> bool {
        true
    }
    fn bytes(&self) -> Bytes {
        unreachable!()
    }
    fn encode(&self, out: &mut Vec<u8>) {
        self.tag.encode(out);
        self.value.encode(out);
    }
    fn encoded_len(&self) -> usize {
        self.tag.encoded_len() + self.value.encoded_len()
    }
}

impl<T: Decode> Decode for Wrap<T> {
    fn parse(_: Bytes) -> Parsed {
        unreachable!()
    }
    fn same(&self, _: &Self) -> bool {
        unreachable!()
    }
    fn law_parse_is_bounded(_: Bytes) {}
    fn law_roundtrip(&self, _: Bytes) {}
    fn law_cut_ends_early(&self, _: Bytes) {}
    fn law_canonical(&self, _: &Self) {}
    fn decode(buf: &mut &[u8]) -> Result<Self, CodecError> {
        Ok(Wrap { tag: Decode::decode(buf)?, value: Decode::decode(buf)? })
    }
}

#[derive(PartialEq, Debug)]
enum Env<T> {
    Empty,
    Full { id: u64, payload: T },
}

impl<T: Encode> Encode for Env<T> {
    fn encodable(&self) -> bool {
        true
    }
    fn bytes(&self) -> Bytes {
        unreachable!()
    }
    fn encode(&self, out: &mut Vec<u8>) {
        match self {
            Env::Empty => 0u16.encode(out),
            Env::Full { id, payload } => {
                1u16.encode(out);
                id.encode(out);
                payload.encode(out);
            }
        }
    }
    fn encoded_len(&self) -> usize {
        match self {
            Env::Empty => 2,
            Env::Full { id, payload } => 2 + id.encoded_len() + payload.encoded_len(),
        }
    }
}

impl<T: Decode> Decode for Env<T> {
    fn parse(_: Bytes) -> Parsed {
        unreachable!()
    }
    fn same(&self, _: &Self) -> bool {
        unreachable!()
    }
    fn law_parse_is_bounded(_: Bytes) {}
    fn law_roundtrip(&self, _: Bytes) {}
    fn law_cut_ends_early(&self, _: Bytes) {}
    fn law_canonical(&self, _: &Self) {}
    fn decode(buf: &mut &[u8]) -> Result<Self, CodecError> {
        match u16::decode(buf)? {
            0 => Ok(Env::Empty),
            1 => Ok(Env::Full { id: Decode::decode(buf)?, payload: Decode::decode(buf)? }),
            _ => Err(CodecError::InvalidValue("enum discriminant")),
        }
    }
}

#[test]
fn derived_struct_roundtrip() {
    roundtrip(Named { a: 1, b: "two".into(), c: vec![3, 4], d: Some(true) });
    roundtrip(Tuple(9, "t".into()));
    roundtrip(Unit);
}

#[test]
fn derived_enum_roundtrip() {
    roundtrip(Mixed::Nothing);
    roundtrip(Mixed::One(u64::MAX));
    roundtrip(Mixed::Pair { x: -5, y: 5 });
    roundtrip(Mixed::Nested(Named { a: 0, b: String::new(), c: vec![], d: None }));
}

#[test]
fn derived_generic_roundtrip() {
    roundtrip(Wrap { tag: 7, value: String::from("hi") });
    roundtrip(Wrap { tag: 1, value: vec![1u32, 2, 3] });
    roundtrip(Env::<u64>::Empty);
    roundtrip(Env::Full { id: 42, payload: Tuple(3, "x".into()) });
}

#[test]
fn generic_bytes_match_the_monomorphized_layout() {
    // The wire format is the type's layout, not its genericity.
    // Wrap<u32>{tag, value} = [tag u16][value u32].
    let bytes = encode_to_vec(&Wrap { tag: 0x0102u16, value: 0x0304_0506u32 });
    let mut expected = Vec::new();
    0x0102u16.encode(&mut expected);
    0x0304_0506u32.encode(&mut expected);
    assert_eq!(bytes, expected);
}

#[test]
fn enum_discriminant_is_declaration_index() {
    let bytes = encode_to_vec(&Mixed::One(1));
    assert_eq!(&bytes[..2], &[1, 0], "discriminant must be u16 LE of variant index");
}

#[test]
fn unknown_discriminant_rejected() {
    let bytes = encode_to_vec(&99u16);
    assert!(matches!(decode_all::<Mixed>(&bytes), Err(CodecError::InvalidValue(_))));
}
