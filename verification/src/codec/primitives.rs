//! Canonical encoding of integers, booleans, the unit and sequenced numbers.

use vstd::prelude::*;

use crate::codec::{take, CodecError, Decode, Encode, Parsed};
use crate::le::{get_le, put_le};
use crate::seq::{SeqNo, Timestamp};

verus! {

broadcast use crate::le::lemma_le_bytes_len;

/// What the front of `buf` reads as where a value is any `n` bytes.
pub open spec fn parse_fixed(buf: Seq<u8>, n: nat) -> Parsed {
    if buf.len() < n {
        Err(CodecError::UnexpectedEof)
    } else {
        Ok((buf.take(n as int), n))
    }
}

/// The two's-complement representation of `v` in `n` bytes.
pub open spec fn twos_complement(v: int, n: nat) -> nat {
    (v % (crate::le::pow256(n) as int)) as nat
}

proof fn lemma_parse_fixed(bytes: Seq<u8>, rest: Seq<u8>)
    ensures
        parse_fixed(bytes + rest, bytes.len()) == Ok::<(Seq<u8>, nat), CodecError>(
            (bytes, bytes.len()),
        ),
{
    assert((bytes + rest).take(bytes.len() as int) =~= bytes);
}

/// The number that the first `n` bytes hold; the buffer moves past them.
fn take_le(buf: &mut &[u8], n: usize) -> (r: Result<u128, CodecError>)
    requires
        n <= 16,
    ensures
        old(buf)@.len() < n ==> r == Err::<u128, CodecError>(CodecError::UnexpectedEof),
        old(buf)@.len() >= n ==> {
            &&& r is Ok
            &&& r->Ok_0 as nat == crate::le::le_value(old(buf)@.take(n as int))
            &&& (r->Ok_0 as nat) < crate::le::pow256(n as nat)
            &&& crate::le::le_bytes(r->Ok_0 as nat, n as nat) == old(buf)@.take(n as int)
            &&& final(buf)@ == old(buf)@.skip(n as int)
        },
{
    let head = take(buf, n)?;
    proof {
        crate::le::law_le_bytes_of_value(head@);
        crate::le::lemma_le_value_bound(head@);
    }
    Ok(get_le(head))
}

impl Encode for u8 {
    open spec fn encodable(&self) -> bool {
        true
    }

    open spec fn bytes(&self) -> Seq<u8> {
        crate::le::le_bytes(*self as nat, 1)
    }

    fn encode(&self, out: &mut Vec<u8>) {
        put_le(out, *self as u128, 1);
    }

    fn encoded_len(&self) -> usize {
        1
    }
}

impl Decode for u8 {
    open spec fn parse(buf: Seq<u8>) -> Parsed {
        parse_fixed(buf, 1)
    }

    open spec fn same(&self, other: &Self) -> bool {
        self == other
    }

    fn decode(buf: &mut &[u8]) -> (r: Result<Self, CodecError>)
        ensures
            r matches Ok(v) ==> v as nat == crate::le::le_value(old(buf)@.take(1)),
    {
        proof {
            crate::le::lemma_pow256_values();
        }
        Ok(take_le(buf, 1)? as u8)
    }

    proof fn law_parse_is_bounded(buf: Seq<u8>) {
    }

    proof fn law_roundtrip(&self, rest: Seq<u8>) {
        lemma_parse_fixed(self.bytes(), rest);
    }

    proof fn law_cut_ends_early(&self, cut: Seq<u8>) {
    }

    proof fn law_canonical(&self, other: &Self) {
        crate::le::lemma_pow256_values();
        if self.bytes() == other.bytes() {
            crate::le::lemma_le_bytes_injective(*self as nat, *other as nat, 1);
        }
    }
}

impl Encode for u16 {
    open spec fn encodable(&self) -> bool {
        true
    }

    open spec fn bytes(&self) -> Seq<u8> {
        crate::le::le_bytes(*self as nat, 2)
    }

    fn encode(&self, out: &mut Vec<u8>) {
        put_le(out, *self as u128, 2);
    }

    fn encoded_len(&self) -> usize {
        2
    }
}

impl Decode for u16 {
    open spec fn parse(buf: Seq<u8>) -> Parsed {
        parse_fixed(buf, 2)
    }

    open spec fn same(&self, other: &Self) -> bool {
        self == other
    }

    fn decode(buf: &mut &[u8]) -> (r: Result<Self, CodecError>)
        ensures
            r matches Ok(v) ==> v as nat == crate::le::le_value(old(buf)@.take(2)),
    {
        proof {
            crate::le::lemma_pow256_values();
        }
        Ok(take_le(buf, 2)? as u16)
    }

    proof fn law_parse_is_bounded(buf: Seq<u8>) {
    }

    proof fn law_roundtrip(&self, rest: Seq<u8>) {
        lemma_parse_fixed(self.bytes(), rest);
    }

    proof fn law_cut_ends_early(&self, cut: Seq<u8>) {
    }

    proof fn law_canonical(&self, other: &Self) {
        crate::le::lemma_pow256_values();
        if self.bytes() == other.bytes() {
            crate::le::lemma_le_bytes_injective(*self as nat, *other as nat, 2);
        }
    }
}

impl Encode for u32 {
    open spec fn encodable(&self) -> bool {
        true
    }

    open spec fn bytes(&self) -> Seq<u8> {
        crate::le::le_bytes(*self as nat, 4)
    }

    fn encode(&self, out: &mut Vec<u8>) {
        put_le(out, *self as u128, 4);
    }

    fn encoded_len(&self) -> usize {
        4
    }
}

impl Decode for u32 {
    open spec fn parse(buf: Seq<u8>) -> Parsed {
        parse_fixed(buf, 4)
    }

    open spec fn same(&self, other: &Self) -> bool {
        self == other
    }

    fn decode(buf: &mut &[u8]) -> (r: Result<Self, CodecError>)
        ensures
            r matches Ok(v) ==> v as nat == crate::le::le_value(old(buf)@.take(4)),
    {
        proof {
            crate::le::lemma_pow256_values();
        }
        Ok(take_le(buf, 4)? as u32)
    }

    proof fn law_parse_is_bounded(buf: Seq<u8>) {
    }

    proof fn law_roundtrip(&self, rest: Seq<u8>) {
        lemma_parse_fixed(self.bytes(), rest);
    }

    proof fn law_cut_ends_early(&self, cut: Seq<u8>) {
    }

    proof fn law_canonical(&self, other: &Self) {
        crate::le::lemma_pow256_values();
        if self.bytes() == other.bytes() {
            crate::le::lemma_le_bytes_injective(*self as nat, *other as nat, 4);
        }
    }
}

impl Encode for u64 {
    open spec fn encodable(&self) -> bool {
        true
    }

    open spec fn bytes(&self) -> Seq<u8> {
        crate::le::le_bytes(*self as nat, 8)
    }

    fn encode(&self, out: &mut Vec<u8>) {
        put_le(out, *self as u128, 8);
    }

    fn encoded_len(&self) -> usize {
        8
    }
}

impl Decode for u64 {
    open spec fn parse(buf: Seq<u8>) -> Parsed {
        parse_fixed(buf, 8)
    }

    open spec fn same(&self, other: &Self) -> bool {
        self == other
    }

    fn decode(buf: &mut &[u8]) -> (r: Result<Self, CodecError>)
        ensures
            r matches Ok(v) ==> v as nat == crate::le::le_value(old(buf)@.take(8)),
    {
        proof {
            crate::le::lemma_pow256_values();
        }
        Ok(take_le(buf, 8)? as u64)
    }

    proof fn law_parse_is_bounded(buf: Seq<u8>) {
    }

    proof fn law_roundtrip(&self, rest: Seq<u8>) {
        lemma_parse_fixed(self.bytes(), rest);
    }

    proof fn law_cut_ends_early(&self, cut: Seq<u8>) {
    }

    proof fn law_canonical(&self, other: &Self) {
        crate::le::lemma_pow256_values();
        if self.bytes() == other.bytes() {
            crate::le::lemma_le_bytes_injective(*self as nat, *other as nat, 8);
        }
    }
}

impl Encode for u128 {
    open spec fn encodable(&self) -> bool {
        true
    }

    open spec fn bytes(&self) -> Seq<u8> {
        crate::le::le_bytes(*self as nat, 16)
    }

    fn encode(&self, out: &mut Vec<u8>) {
        put_le(out, *self as u128, 16);
    }

    fn encoded_len(&self) -> usize {
        16
    }
}

impl Decode for u128 {
    open spec fn parse(buf: Seq<u8>) -> Parsed {
        parse_fixed(buf, 16)
    }

    open spec fn same(&self, other: &Self) -> bool {
        self == other
    }

    fn decode(buf: &mut &[u8]) -> (r: Result<Self, CodecError>)
        ensures
            r matches Ok(v) ==> v as nat == crate::le::le_value(old(buf)@.take(16)),
    {
        proof {
            crate::le::lemma_pow256_values();
        }
        Ok(take_le(buf, 16)? as u128)
    }

    proof fn law_parse_is_bounded(buf: Seq<u8>) {
    }

    proof fn law_roundtrip(&self, rest: Seq<u8>) {
        lemma_parse_fixed(self.bytes(), rest);
    }

    proof fn law_cut_ends_early(&self, cut: Seq<u8>) {
    }

    proof fn law_canonical(&self, other: &Self) {
        crate::le::lemma_pow256_values();
        if self.bytes() == other.bytes() {
            crate::le::lemma_le_bytes_injective(*self as nat, *other as nat, 16);
        }
    }
}

impl Encode for i8 {
    open spec fn encodable(&self) -> bool {
        true
    }

    open spec fn bytes(&self) -> Seq<u8> {
        crate::le::le_bytes(twos_complement(*self as int, 1), 1)
    }

    fn encode(&self, out: &mut Vec<u8>) {
        proof {
            crate::le::lemma_pow256_values();
        }
        let wide: i128 = *self as i128;
        let repr: u128 = if wide >= 0 {
            wide as u128
        } else {
            (wide + 0x100) as u128
        };
        put_le(out, repr, 1);
    }

    fn encoded_len(&self) -> usize {
        1
    }
}

impl Decode for i8 {
    open spec fn parse(buf: Seq<u8>) -> Parsed {
        parse_fixed(buf, 1)
    }

    open spec fn same(&self, other: &Self) -> bool {
        self == other
    }

    fn decode(buf: &mut &[u8]) -> (r: Result<Self, CodecError>)
        ensures
            r matches Ok(v) ==> twos_complement(v as int, 1) == crate::le::le_value(
                old(buf)@.take(1),
            ),
    {
        proof {
            crate::le::lemma_pow256_values();
        }
        let repr: u128 = take_le(buf, 1)?;
        if repr < 0x80 {
            Ok(repr as i8)
        } else {
            Ok((repr as i128 - 0x100) as i8)
        }
    }

    proof fn law_parse_is_bounded(buf: Seq<u8>) {
    }

    proof fn law_roundtrip(&self, rest: Seq<u8>) {
        lemma_parse_fixed(self.bytes(), rest);
    }

    proof fn law_cut_ends_early(&self, cut: Seq<u8>) {
    }

    proof fn law_canonical(&self, other: &Self) {
        crate::le::lemma_pow256_values();
        if self.bytes() == other.bytes() {
            crate::le::lemma_le_bytes_injective(
                twos_complement(*self as int, 1),
                twos_complement(*other as int, 1),
                1,
            );
        }
    }
}

impl Encode for i16 {
    open spec fn encodable(&self) -> bool {
        true
    }

    open spec fn bytes(&self) -> Seq<u8> {
        crate::le::le_bytes(twos_complement(*self as int, 2), 2)
    }

    fn encode(&self, out: &mut Vec<u8>) {
        proof {
            crate::le::lemma_pow256_values();
        }
        let wide: i128 = *self as i128;
        let repr: u128 = if wide >= 0 {
            wide as u128
        } else {
            (wide + 0x10000) as u128
        };
        put_le(out, repr, 2);
    }

    fn encoded_len(&self) -> usize {
        2
    }
}

impl Decode for i16 {
    open spec fn parse(buf: Seq<u8>) -> Parsed {
        parse_fixed(buf, 2)
    }

    open spec fn same(&self, other: &Self) -> bool {
        self == other
    }

    fn decode(buf: &mut &[u8]) -> (r: Result<Self, CodecError>)
        ensures
            r matches Ok(v) ==> twos_complement(v as int, 2) == crate::le::le_value(
                old(buf)@.take(2),
            ),
    {
        proof {
            crate::le::lemma_pow256_values();
        }
        let repr: u128 = take_le(buf, 2)?;
        if repr < 0x8000 {
            Ok(repr as i16)
        } else {
            Ok((repr as i128 - 0x10000) as i16)
        }
    }

    proof fn law_parse_is_bounded(buf: Seq<u8>) {
    }

    proof fn law_roundtrip(&self, rest: Seq<u8>) {
        lemma_parse_fixed(self.bytes(), rest);
    }

    proof fn law_cut_ends_early(&self, cut: Seq<u8>) {
    }

    proof fn law_canonical(&self, other: &Self) {
        crate::le::lemma_pow256_values();
        if self.bytes() == other.bytes() {
            crate::le::lemma_le_bytes_injective(
                twos_complement(*self as int, 2),
                twos_complement(*other as int, 2),
                2,
            );
        }
    }
}

impl Encode for i32 {
    open spec fn encodable(&self) -> bool {
        true
    }

    open spec fn bytes(&self) -> Seq<u8> {
        crate::le::le_bytes(twos_complement(*self as int, 4), 4)
    }

    fn encode(&self, out: &mut Vec<u8>) {
        proof {
            crate::le::lemma_pow256_values();
        }
        let wide: i128 = *self as i128;
        let repr: u128 = if wide >= 0 {
            wide as u128
        } else {
            (wide + 0x100000000) as u128
        };
        put_le(out, repr, 4);
    }

    fn encoded_len(&self) -> usize {
        4
    }
}

impl Decode for i32 {
    open spec fn parse(buf: Seq<u8>) -> Parsed {
        parse_fixed(buf, 4)
    }

    open spec fn same(&self, other: &Self) -> bool {
        self == other
    }

    fn decode(buf: &mut &[u8]) -> (r: Result<Self, CodecError>)
        ensures
            r matches Ok(v) ==> twos_complement(v as int, 4) == crate::le::le_value(
                old(buf)@.take(4),
            ),
    {
        proof {
            crate::le::lemma_pow256_values();
        }
        let repr: u128 = take_le(buf, 4)?;
        if repr < 0x80000000 {
            Ok(repr as i32)
        } else {
            Ok((repr as i128 - 0x100000000) as i32)
        }
    }

    proof fn law_parse_is_bounded(buf: Seq<u8>) {
    }

    proof fn law_roundtrip(&self, rest: Seq<u8>) {
        lemma_parse_fixed(self.bytes(), rest);
    }

    proof fn law_cut_ends_early(&self, cut: Seq<u8>) {
    }

    proof fn law_canonical(&self, other: &Self) {
        crate::le::lemma_pow256_values();
        if self.bytes() == other.bytes() {
            crate::le::lemma_le_bytes_injective(
                twos_complement(*self as int, 4),
                twos_complement(*other as int, 4),
                4,
            );
        }
    }
}

impl Encode for i64 {
    open spec fn encodable(&self) -> bool {
        true
    }

    open spec fn bytes(&self) -> Seq<u8> {
        crate::le::le_bytes(twos_complement(*self as int, 8), 8)
    }

    fn encode(&self, out: &mut Vec<u8>) {
        proof {
            crate::le::lemma_pow256_values();
        }
        let wide: i128 = *self as i128;
        let repr: u128 = if wide >= 0 {
            wide as u128
        } else {
            (wide + 0x10000000000000000) as u128
        };
        put_le(out, repr, 8);
    }

    fn encoded_len(&self) -> usize {
        8
    }
}

impl Decode for i64 {
    open spec fn parse(buf: Seq<u8>) -> Parsed {
        parse_fixed(buf, 8)
    }

    open spec fn same(&self, other: &Self) -> bool {
        self == other
    }

    fn decode(buf: &mut &[u8]) -> (r: Result<Self, CodecError>)
        ensures
            r matches Ok(v) ==> twos_complement(v as int, 8) == crate::le::le_value(
                old(buf)@.take(8),
            ),
    {
        proof {
            crate::le::lemma_pow256_values();
        }
        let repr: u128 = take_le(buf, 8)?;
        if repr < 0x8000000000000000 {
            Ok(repr as i64)
        } else {
            Ok((repr as i128 - 0x10000000000000000) as i64)
        }
    }

    proof fn law_parse_is_bounded(buf: Seq<u8>) {
    }

    proof fn law_roundtrip(&self, rest: Seq<u8>) {
        lemma_parse_fixed(self.bytes(), rest);
    }

    proof fn law_cut_ends_early(&self, cut: Seq<u8>) {
    }

    proof fn law_canonical(&self, other: &Self) {
        crate::le::lemma_pow256_values();
        if self.bytes() == other.bytes() {
            crate::le::lemma_le_bytes_injective(
                twos_complement(*self as int, 8),
                twos_complement(*other as int, 8),
                8,
            );
        }
    }
}

impl Encode for i128 {
    open spec fn encodable(&self) -> bool {
        true
    }

    open spec fn bytes(&self) -> Seq<u8> {
        crate::le::le_bytes(twos_complement(*self as int, 16), 16)
    }

    fn encode(&self, out: &mut Vec<u8>) {
        proof {
            crate::le::lemma_pow256_values();
        }
        let repr: u128 = if *self >= 0 {
            *self as u128
        } else {
            u128::MAX - ((-(*self + 1)) as u128)
        };
        put_le(out, repr, 16);
    }

    fn encoded_len(&self) -> usize {
        16
    }
}

impl Decode for i128 {
    open spec fn parse(buf: Seq<u8>) -> Parsed {
        parse_fixed(buf, 16)
    }

    open spec fn same(&self, other: &Self) -> bool {
        self == other
    }

    fn decode(buf: &mut &[u8]) -> (r: Result<Self, CodecError>)
        ensures
            r matches Ok(v) ==> twos_complement(v as int, 16) == crate::le::le_value(
                old(buf)@.take(16),
            ),
    {
        proof {
            crate::le::lemma_pow256_values();
        }
        let repr: u128 = take_le(buf, 16)?;
        if repr < 0x80000000000000000000000000000000 {
            Ok(repr as i128)
        } else {
            Ok(-((u128::MAX - repr) as i128) - 1)
        }
    }

    proof fn law_parse_is_bounded(buf: Seq<u8>) {
    }

    proof fn law_roundtrip(&self, rest: Seq<u8>) {
        lemma_parse_fixed(self.bytes(), rest);
    }

    proof fn law_cut_ends_early(&self, cut: Seq<u8>) {
    }

    proof fn law_canonical(&self, other: &Self) {
        crate::le::lemma_pow256_values();
        if self.bytes() == other.bytes() {
            crate::le::lemma_le_bytes_injective(
                twos_complement(*self as int, 16),
                twos_complement(*other as int, 16),
                16,
            );
        }
    }
}

impl Encode for bool {
    open spec fn encodable(&self) -> bool {
        true
    }

    open spec fn bytes(&self) -> Seq<u8> {
        seq![
            if *self {
                1u8
            } else {
                0u8
            },
        ]
    }

    fn encode(&self, out: &mut Vec<u8>) {
        if *self {
            out.push(1);
        } else {
            out.push(0);
        }
    }

    fn encoded_len(&self) -> usize {
        1
    }
}

impl Decode for bool {
    open spec fn parse(buf: Seq<u8>) -> Parsed {
        if buf.len() < 1 {
            Err(CodecError::UnexpectedEof)
        } else if buf[0] == 0 || buf[0] == 1 {
            Ok((buf.take(1), 1))
        } else {
            Err(CodecError::InvalidValue("bool tag"))
        }
    }

    open spec fn same(&self, other: &Self) -> bool {
        self == other
    }

    fn decode(buf: &mut &[u8]) -> (r: Result<Self, CodecError>)
        ensures
            r matches Ok(v) ==> v == (old(buf)@[0] == 1),
    {
        let tag = take(buf, 1)?;
        match tag[0] {
            0 => Ok(false),
            1 => Ok(true),
            _ => Err(CodecError::InvalidValue("bool tag")),
        }
    }

    proof fn law_parse_is_bounded(buf: Seq<u8>) {
    }

    proof fn law_roundtrip(&self, rest: Seq<u8>) {
        assert((self.bytes() + rest).take(1) =~= self.bytes());
    }

    proof fn law_cut_ends_early(&self, cut: Seq<u8>) {
    }

    proof fn law_canonical(&self, other: &Self) {
        assert(self.bytes()[0] == other.bytes()[0] ==> self == other);
    }
}

impl Encode for () {
    open spec fn encodable(&self) -> bool {
        true
    }

    open spec fn bytes(&self) -> Seq<u8> {
        Seq::empty()
    }

    fn encode(&self, out: &mut Vec<u8>) {
        assert(out@ + self.bytes() =~= out@);
    }

    fn encoded_len(&self) -> usize {
        0
    }
}

impl Decode for () {
    open spec fn parse(buf: Seq<u8>) -> Parsed {
        Ok((Seq::empty(), 0))
    }

    open spec fn same(&self, other: &Self) -> bool {
        true
    }

    fn decode(buf: &mut &[u8]) -> Result<Self, CodecError> {
        assert(buf@.skip(0) =~= buf@);
        Ok(())
    }

    proof fn law_parse_is_bounded(buf: Seq<u8>) {
    }

    proof fn law_roundtrip(&self, rest: Seq<u8>) {
    }

    proof fn law_cut_ends_early(&self, cut: Seq<u8>) {
    }

    proof fn law_canonical(&self, other: &Self) {
    }
}

impl Encode for SeqNo {
    open spec fn encodable(&self) -> bool {
        true
    }

    open spec fn bytes(&self) -> Seq<u8> {
        self.0.bytes()
    }

    fn encode(&self, out: &mut Vec<u8>) {
        self.0.encode(out);
    }

    fn encoded_len(&self) -> usize {
        8
    }
}

impl Decode for SeqNo {
    open spec fn parse(buf: Seq<u8>) -> Parsed {
        u64::parse(buf)
    }

    open spec fn same(&self, other: &Self) -> bool {
        self == other
    }

    fn decode(buf: &mut &[u8]) -> (r: Result<Self, CodecError>)
        ensures
            r matches Ok(v) ==> v.0 as nat == crate::le::le_value(old(buf)@.take(8)),
    {
        Ok(SeqNo(u64::decode(buf)?))
    }

    proof fn law_parse_is_bounded(buf: Seq<u8>) {
    }

    proof fn law_roundtrip(&self, rest: Seq<u8>) {
        self.0.law_roundtrip(rest);
    }

    proof fn law_cut_ends_early(&self, cut: Seq<u8>) {
    }

    proof fn law_canonical(&self, other: &Self) {
        self.0.law_canonical(&other.0);
    }
}

impl Encode for Timestamp {
    open spec fn encodable(&self) -> bool {
        true
    }

    open spec fn bytes(&self) -> Seq<u8> {
        self.0.bytes()
    }

    fn encode(&self, out: &mut Vec<u8>) {
        self.0.encode(out);
    }

    fn encoded_len(&self) -> usize {
        8
    }
}

impl Decode for Timestamp {
    open spec fn parse(buf: Seq<u8>) -> Parsed {
        u64::parse(buf)
    }

    open spec fn same(&self, other: &Self) -> bool {
        self == other
    }

    fn decode(buf: &mut &[u8]) -> (r: Result<Self, CodecError>)
        ensures
            r matches Ok(v) ==> v.0 as nat == crate::le::le_value(old(buf)@.take(8)),
    {
        Ok(Timestamp(u64::decode(buf)?))
    }

    proof fn law_parse_is_bounded(buf: Seq<u8>) {
    }

    proof fn law_roundtrip(&self, rest: Seq<u8>) {
        self.0.law_roundtrip(rest);
    }

    proof fn law_cut_ends_early(&self, cut: Seq<u8>) {
    }

    proof fn law_canonical(&self, other: &Self) {
        self.0.law_canonical(&other.0);
    }
}

/// Numbers take the bytes of their width, the low byte first.
pub proof fn law_numbers_are_little_endian(a: u8, b: u16, c: u32, d: u64, e: u128)
    ensures
        a.bytes() == seq![a],
        b.bytes() == seq![(b % 256) as u8, (b / 256) as u8],
        c.bytes() == ((c % 65536) as u16).bytes() + ((c / 65536) as u16).bytes(),
        d.bytes().len() == 8 && d.bytes()[0] == d % 256,
        d <= u32::MAX ==> d.bytes() == (d as u32).bytes() + seq![0u8, 0u8, 0u8, 0u8],
        e.bytes().len() == 16 && e.bytes()[0] == e % 256,
        e <= u64::MAX ==> e.bytes().take(8) == (e as u64).bytes(),
        SeqNo(d).bytes() == d.bytes(),
        Timestamp(d).bytes() == d.bytes(),
{
    reveal_with_fuel(crate::le::le_bytes, 17);
    assert(a.bytes() =~= seq![a]);
    assert(b.bytes() =~= seq![(b % 256) as u8, (b / 256) as u8]);
    let low = c % 65536;
    let high = c / 65536;
    assert(low % 256 == c % 256);
    assert(low / 256 == (c / 256) % 256);
    assert(high % 256 == (c / 256 / 256) % 256);
    assert(high / 256 == (c / 256 / 256 / 256) % 256);
    assert(c.bytes() =~= ((c % 65536) as u16).bytes() + ((c / 65536) as u16).bytes());
    if d <= u32::MAX {
        let n = d as nat;
        assert(n / 256 / 256 / 256 / 256 == 0);
        assert(d.bytes() =~= (d as u32).bytes() + seq![0u8, 0u8, 0u8, 0u8]);
    }
    if e <= u64::MAX {
        assert(e.bytes().take(8) =~= (e as u64).bytes());
    }
}

/// A signed number that is not negative is written as the unsigned one, and a
/// negative one as what is left of it below the end of its range.
pub proof fn law_signed_numbers_wrap_around(a: i8, b: i16, c: i32, d: i64)
    ensures
        a >= 0 ==> a.bytes() == (a as u8).bytes(),
        a < 0 ==> a.bytes() == ((a + 0x100) as u8).bytes(),
        b >= 0 ==> b.bytes() == (b as u16).bytes(),
        b < 0 ==> b.bytes() == ((b + 0x1_0000) as u16).bytes(),
        c >= 0 ==> c.bytes() == (c as u32).bytes(),
        c < 0 ==> c.bytes() == ((c + 0x1_0000_0000) as u32).bytes(),
        d >= 0 ==> d.bytes() == (d as u64).bytes(),
        d < 0 ==> d.bytes() == ((d + 0x1_0000_0000_0000_0000) as u64).bytes(),
{
    crate::le::lemma_pow256_values();
}

/// A truth value is one byte: 0 or 1. Nothing takes no byte.
pub proof fn law_truth_values_are_one_byte(holds: bool)
    ensures
        !holds ==> holds.bytes() == seq![0u8],
        holds ==> holds.bytes() == seq![1u8],
        ().bytes() == Seq::<u8>::empty(),
{
}

} // verus!
