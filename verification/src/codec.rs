//! Canonical byte encoding.
//!
//! The same logical value encodes to identical bytes on every node. The
//! format is little-endian, declaration-order, with length-prefixed variable
//! data. There are no floats and no collections whose iteration order is not
//! determined by their contents.
//!
//! Decoding is cursor-style: it takes `&mut &[u8]` and advances past what it
//! consumed, so decoders compose field by field. Use [`decode_all`] at the
//! top level to also reject trailing bytes.

use vstd::prelude::*;

pub mod collections;
pub mod cut;
pub mod primitives;
pub mod tagged;

verus! {

/// Errors from decoding canonical bytes.
#[derive(Debug, Clone, PartialEq, Eq)]
pub enum CodecError {
    /// Input ended before the value was complete.
    UnexpectedEof,
    /// A length prefix or enum discriminant was out of range.
    InvalidValue(&'static str),
    /// A `String` field held invalid UTF-8.
    InvalidUtf8,
    /// `decode_all` finished with bytes left over.
    TrailingBytes(usize),
}

/// A byte string, as a model.
pub type Bytes = Seq<u8>;

/// What reading a value from the front of a buffer yields: the canonical
/// bytes of the value and how many bytes were consumed, or the error.
pub type Parsed = Result<(Seq<u8>, nat), CodecError>;

/// Encoding as canonical bytes: identical logical value, identical bytes.
pub trait Encode {
    /// Whether every length in the value fits its prefix.
    spec fn encodable(&self) -> bool;

    /// The canonical bytes of the value.
    spec fn bytes(&self) -> Seq<u8>;

    /// Appends the canonical bytes.
    fn encode(&self, out: &mut Vec<u8>)
        requires
            self.encodable(),
        ensures
            final(out)@ == old(out)@ + self.bytes(),
    ;

    /// The number of canonical bytes.
    fn encoded_len(&self) -> (n: usize)
        requires
            self.encodable(),
            self.bytes().len() <= usize::MAX,
        ensures
            n == self.bytes().len(),
    ;
}

/// Decoding a value from the front of a buffer.
pub trait Decode: Encode + Sized {
    /// What the front of `buf` reads as.
    spec fn parse(buf: Seq<u8>) -> Parsed;

    /// Whether two values are the same logical value.
    spec fn same(&self, other: &Self) -> bool;

    /// Reads a value, advancing `buf` past the bytes consumed.
    fn decode(buf: &mut &[u8]) -> (r: Result<Self, CodecError>)
        ensures
            match Self::parse(old(buf)@) {
                Ok((canonical, n)) => {
                    &&& r is Ok
                    &&& r->Ok_0.encodable()
                    &&& r->Ok_0.bytes() == canonical
                    &&& n <= old(buf)@.len()
                    &&& final(buf)@ == old(buf)@.skip(n as int)
                },
                Err(e) => r == Err::<Self, CodecError>(e),
            },
    ;

    /// Reading never runs past the end of the buffer.
    proof fn law_parse_is_bounded(buf: Seq<u8>)
        ensures
            Self::parse(buf) matches Ok((_, n)) ==> n <= buf.len(),
    ;

    /// Whatever follows, the bytes of a value read back as that value.
    proof fn law_roundtrip(&self, rest: Seq<u8>)
        requires
            self.encodable(),
        ensures
            Self::parse(self.bytes() + rest) == Ok::<(Seq<u8>, nat), CodecError>(
                (self.bytes(), self.bytes().len()),
            ),
    ;

    /// Cut anywhere, the bytes of a value read as a buffer that ends too early.
    proof fn law_cut_ends_early(&self, cut: Seq<u8>)
        requires
            self.encodable(),
            cut.len() < self.bytes().len(),
            cut == self.bytes().take(cut.len() as int),
        ensures
            Self::parse(cut) == Err::<(Seq<u8>, nat), CodecError>(CodecError::UnexpectedEof),
    ;

    /// Two values have the same bytes exactly when they are the same value.
    proof fn law_canonical(&self, other: &Self)
        requires
            self.encodable(),
            other.encodable(),
        ensures
            self.same(other) <==> self.bytes() == other.bytes(),
    ;
}

/// What a buffer that must hold exactly one value reads as.
pub open spec fn parse_all<T: Decode>(buf: Seq<u8>) -> Result<Seq<u8>, CodecError> {
    match T::parse(buf) {
        Err(e) => Err(e),
        Ok((canonical, n)) => if n == buf.len() {
            Ok(canonical)
        } else {
            Err(CodecError::TrailingBytes((buf.len() - n) as usize))
        },
    }
}

/// Encodes a value into a fresh, exactly-sized buffer.
pub fn encode_to_vec<T: Encode>(value: &T) -> (out: Vec<u8>)
    requires
        value.encodable(),
        value.bytes().len() <= usize::MAX,
    ensures
        out@ == value.bytes(),
{
    let mut out: Vec<u8> = Vec::with_capacity(value.encoded_len());
    value.encode(&mut out);
    out
}

/// Decodes a value that must consume the entire buffer.
pub fn decode_all<T: Decode>(buf: &[u8]) -> (r: Result<T, CodecError>)
    ensures
        match parse_all::<T>(buf@) {
            Ok(canonical) => r matches Ok(v) && v.encodable() && v.bytes() == canonical,
            Err(e) => r == Err::<T, CodecError>(e),
        },
{
    let mut rest = buf;
    let value = T::decode(&mut rest)?;
    if rest.len() == 0 {
        Ok(value)
    } else {
        Err(CodecError::TrailingBytes(rest.len()))
    }
}

/// Encoding a value and decoding the whole result gives the same value back.
pub proof fn law_decode_inverts_encode<T: Decode>(value: T, back: T)
    requires
        value.encodable(),
        back.encodable(),
        parse_all::<T>(value.bytes()) == Ok::<Seq<u8>, CodecError>(back.bytes()),
    ensures
        value.same(&back),
{
    value.law_roundtrip(Seq::empty());
    assert(value.bytes() + Seq::<u8>::empty() =~= value.bytes());
    value.law_canonical(&back);
}

/// The bytes of an encodable value are accepted by [`decode_all`].
pub proof fn law_encoding_is_accepted<T: Decode>(value: T)
    requires
        value.encodable(),
    ensures
        parse_all::<T>(value.bytes()) == Ok::<Seq<u8>, CodecError>(value.bytes()),
{
    value.law_roundtrip(Seq::empty());
    assert(value.bytes() + Seq::<u8>::empty() =~= value.bytes());
}

/// The bytes of a value, cut anywhere, are refused by [`decode_all`] as a buffer
/// that ends too early.
pub proof fn law_cut_encoding_is_refused<T: Decode>(value: T, len: int)
    requires
        value.encodable(),
        0 <= len < value.bytes().len(),
    ensures
        parse_all::<T>(value.bytes().take(len)) == Err::<Seq<u8>, CodecError>(
            CodecError::UnexpectedEof,
        ),
{
    value.law_cut_ends_early(value.bytes().take(len));
}

/// The bytes of a value with more behind them are refused by [`decode_all`],
/// which tells how many bytes are left.
pub proof fn law_trailing_bytes_are_refused<T: Decode>(value: T, rest: Seq<u8>)
    requires
        value.encodable(),
        0 < rest.len() <= usize::MAX,
    ensures
        parse_all::<T>(value.bytes() + rest) == Err::<Seq<u8>, CodecError>(
            CodecError::TrailingBytes(rest.len() as usize),
        ),
{
    value.law_roundtrip(rest);
}

/// No encoding is a proper prefix of another: where two values, each with
/// something behind it, give the same buffer, the values' bytes agree.
pub proof fn law_prefix_free<T: Decode>(a: T, b: T, after_a: Seq<u8>, after_b: Seq<u8>)
    requires
        a.encodable(),
        b.encodable(),
        a.bytes() + after_a == b.bytes() + after_b,
    ensures
        a.bytes() == b.bytes(),
        after_a == after_b,
{
    a.law_roundtrip(after_a);
    b.law_roundtrip(after_b);
    assert(after_a =~= (a.bytes() + after_a).skip(a.bytes().len() as int));
    assert(after_b =~= (b.bytes() + after_b).skip(b.bytes().len() as int));
}

/// Reading a `T` behind what `head` consumed from the front of `buf`.
pub open spec fn parse_next<T: Decode>(buf: Seq<u8>, head: Parsed) -> Parsed {
    match head {
        Err(e) => Err(e),
        Ok((c, n)) => match T::parse(buf.skip(n as int)) {
            Err(e) => Err(e),
            Ok((d, m)) => Ok((c + d, n + m)),
        },
    }
}

/// One more field read back after the fields in front of it.
pub proof fn lemma_parse_next<T: Decode>(buf: Seq<u8>, front: Seq<u8>, value: T, rest: Seq<u8>)
    requires
        value.encodable(),
        buf == front + value.bytes() + rest,
    ensures
        parse_next::<T>(buf, Ok((front, front.len()))) == Ok::<(Seq<u8>, nat), CodecError>(
            (front + value.bytes(), (front + value.bytes()).len()),
        ),
{
    assert(buf.skip(front.len() as int) =~= value.bytes() + rest);
    value.law_roundtrip(rest);
}

/// Reads `n` bytes off the front of the buffer.
pub fn take<'a>(buf: &mut &'a [u8], n: usize) -> (r: Result<&'a [u8], CodecError>)
    ensures
        old(buf)@.len() < n ==> r == Err::<&'a [u8], CodecError>(CodecError::UnexpectedEof),
        old(buf)@.len() >= n ==> {
            &&& r is Ok
            &&& r->Ok_0@ == old(buf)@.take(n as int)
            &&& final(buf)@ == old(buf)@.skip(n as int)
        },
{
    if buf.len() < n {
        return Err(CodecError::UnexpectedEof);
    }
    let (head, tail) = buf.split_at(n);
    *buf = tail;
    Ok(head)
}

} // verus!
