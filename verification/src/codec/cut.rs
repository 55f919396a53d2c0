//! What a cut encoding reads as: a buffer that ends too early, whichever value
//! it was cut from.

use vstd::prelude::*;

use crate::codec::collections::{concat_bytes, parse_items};
use crate::codec::tagged::{parse_tag, parse_tagged, tagged_bytes};
use crate::codec::{parse_next, CodecError, Decode, Encode, Parsed};

verus! {

broadcast use crate::le::lemma_le_bytes_len;

/// A buffer that ends too early.
pub open spec fn ended() -> Parsed {
    Err(CodecError::UnexpectedEof)
}

/// Cut anywhere, the bytes of `value` read as a buffer that ends too early.
pub open spec fn ends_early<T: Decode>(value: T) -> bool {
    forall|k: int|
        0 <= k < value.bytes().len() ==> T::parse(#[trigger] value.bytes().take(k)) == ended()
}

/// Whatever can be encoded ends too early when its bytes are cut.
proof fn lemma_ends_early<T: Decode>(value: T)
    requires
        value.encodable(),
    ensures
        ends_early(value),
{
    assert forall|k: int| 0 <= k < value.bytes().len() implies T::parse(
        #[trigger] value.bytes().take(k),
    ) == ended() by {
        value.law_cut_ends_early(value.bytes().take(k));
    }
}

/// Texts, cut anywhere, end too early.
pub proof fn lemma_cut_text(text: String, k: int)
    requires
        text.encodable(),
        0 <= k < text.bytes().len(),
    ensures
        String::parse(text.bytes().take(k)) == ended(),
{
    let body = vstd::utf8::encode_utf8(text@);
    let bytes = text.bytes();
    crate::le::lemma_pow256_values();
    crate::le::law_le_value_of_bytes(body.len(), 4);
    if k >= 4 {
        assert(bytes.take(k).take(4) =~= crate::le::le_bytes(body.len(), 4));
    }
}

/// What is read behind `front` ends too early where the buffer is cut in
/// front of its end.
proof fn lemma_cut_next<T: Decode>(front: Seq<u8>, value: T, k: int, head: Parsed)
    requires
        ends_early(value),
        0 <= k < front.len() + value.bytes().len(),
        k < front.len() ==> head == ended(),
        k >= front.len() ==> head == Ok::<(Seq<u8>, nat), CodecError>((front, front.len())),
    ensures
        parse_next::<T>((front + value.bytes()).take(k), head) == ended(),
{
    if k >= front.len() {
        let cut = k - front.len();
        assert((front + value.bytes()).take(k).skip(front.len() as int) =~= value.bytes().take(
            cut,
        ));
    }
}

/// What is read from a cut buffer that begins with `value`.
proof fn lemma_cut_head<T: Decode>(value: T, rest: Seq<u8>, k: int)
    requires
        value.encodable(),
        ends_early(value),
        0 <= k <= value.bytes().len() + rest.len(),
    ensures
        k < value.bytes().len() ==> T::parse((value.bytes() + rest).take(k)) == ended(),
        k >= value.bytes().len() ==> T::parse((value.bytes() + rest).take(k)) == Ok::<
            (Seq<u8>, nat),
            CodecError,
        >((value.bytes(), value.bytes().len())),
{
    let n = value.bytes().len() as int;
    if k < n {
        assert((value.bytes() + rest).take(k) =~= value.bytes().take(k));
    } else {
        assert((value.bytes() + rest).take(k) =~= value.bytes() + rest.take(k - n));
        value.law_roundtrip(rest.take(k - n));
    }
}

/// Pairs, cut anywhere, end too early.
pub proof fn lemma_cut_pair<A: Decode, B: Decode>(a: A, b: B, k: int)
    requires
        (a, b).encodable(),
        0 <= k < (a, b).bytes().len(),
    ensures
        <(A, B)>::parse((a, b).bytes().take(k)) == ended(),
{
    let bytes = (a, b).bytes();
    lemma_ends_early(a);
    lemma_ends_early(b);
    lemma_cut_head(a, b.bytes(), k);
    lemma_cut_next(a.bytes(), b, k, A::parse(bytes.take(k)));
}

/// Triples, cut anywhere, end too early.
pub proof fn lemma_cut_triple<A: Decode, B: Decode, C: Decode>(a: A, b: B, c: C, k: int)
    requires
        (a, b, c).encodable(),
        0 <= k < (a, b, c).bytes().len(),
    ensures
        <(A, B, C)>::parse((a, b, c).bytes().take(k)) == ended(),
{
    let bytes = (a, b, c).bytes();
    let front = a.bytes() + b.bytes();
    let buf = bytes.take(k);
    lemma_ends_early(a);
    lemma_ends_early(b);
    lemma_ends_early(c);
    assert(bytes =~= a.bytes() + (b.bytes() + c.bytes()));
    lemma_cut_head(a, b.bytes() + c.bytes(), k);
    let head = A::parse(buf);
    if k < front.len() {
        assert(buf =~= front.take(k));
        lemma_cut_next(a.bytes(), b, k, head);
    } else {
        assert(buf =~= a.bytes() + b.bytes() + c.bytes().take(k - front.len()));
        crate::codec::lemma_parse_next(buf, a.bytes(), b, c.bytes().take(k - front.len()));
    }
    lemma_cut_next(front, c, k, parse_next::<B>(buf, head));
}

/// Quadruples, cut anywhere, end too early.
pub proof fn lemma_cut_quadruple<A: Decode, B: Decode, C: Decode, D: Decode>(
    a: A,
    b: B,
    c: C,
    d: D,
    k: int,
)
    requires
        (a, b, c, d).encodable(),
        0 <= k < (a, b, c, d).bytes().len(),
    ensures
        <(A, B, C, D)>::parse((a, b, c, d).bytes().take(k)) == ended(),
{
    let bytes = (a, b, c, d).bytes();
    let two = a.bytes() + b.bytes();
    let three = two + c.bytes();
    let buf = bytes.take(k);
    lemma_ends_early(a);
    lemma_ends_early(b);
    lemma_ends_early(c);
    lemma_ends_early(d);
    assert(bytes =~= a.bytes() + (b.bytes() + c.bytes() + d.bytes()));
    lemma_cut_head(a, b.bytes() + c.bytes() + d.bytes(), k);
    let head = A::parse(buf);
    let next = parse_next::<B>(buf, head);
    if k < two.len() {
        assert(buf =~= two.take(k));
        lemma_cut_next(a.bytes(), b, k, head);
    } else {
        let rest = (c.bytes() + d.bytes()).take(k - two.len());
        assert(buf =~= a.bytes() + b.bytes() + rest);
        crate::codec::lemma_parse_next(buf, a.bytes(), b, rest);
    }
    if k < three.len() {
        assert(buf =~= three.take(k));
        lemma_cut_next(two, c, k, next);
    } else {
        let rest = d.bytes().take(k - three.len());
        assert(buf =~= two + c.bytes() + rest);
        crate::codec::lemma_parse_next(buf, two, c, rest);
    }
    lemma_cut_next(three, d, k, parse_next::<C>(buf, next));
}

/// Options, cut anywhere, end too early.
pub proof fn lemma_cut_option<T: Decode>(value: Option<T>, k: int)
    requires
        value.encodable(),
        0 <= k < value.bytes().len(),
    ensures
        <Option<T>>::parse(value.bytes().take(k)) == ended(),
{
    let bytes = value.bytes();
    if let Some(v) = value {
        if k >= 1 {
            lemma_ends_early(v);
            assert(bytes.take(k).skip(1) =~= v.bytes().take(k - 1));
            assert(bytes.take(k)[0] == 1u8);
        }
    }
}

/// Items one behind the other, cut anywhere, end too early.
proof fn lemma_cut_items<T: Decode>(items: Seq<T>, k: int)
    requires
        forall|i: int| 0 <= i < items.len() ==> (#[trigger] items[i]).encodable(),
        0 <= k < concat_bytes(items).len(),
    ensures
        parse_items::<T>(concat_bytes(items).take(k), items.len()) == ended(),
    decreases items.len(),
{
    if items.len() > 0 {
        let tail = items.skip(1);
        let first = items[0];
        let n = first.bytes().len() as int;
        assert(concat_bytes(items) =~= first.bytes() + concat_bytes(tail));
        lemma_ends_early(first);
        lemma_cut_head(first, concat_bytes(tail), k);
        if k >= n {
            assert(concat_bytes(items).take(k).skip(n) =~= concat_bytes(tail).take(k - n));
            assert forall|i: int| 0 <= i < tail.len() implies (#[trigger] tail[i]).encodable() by {
                assert(tail[i] == items[i + 1]);
            }
            lemma_cut_items(tail, k - n);
        }
    }
}

/// Lists, cut anywhere, end too early.
pub proof fn lemma_cut_list<T: Decode>(list: Vec<T>, k: int)
    requires
        list.encodable(),
        0 <= k < list.bytes().len(),
    ensures
        <Vec<T>>::parse(list.bytes().take(k)) == ended(),
{
    let bytes = list.bytes();
    crate::le::lemma_pow256_values();
    crate::le::law_le_value_of_bytes(list@.len(), 4);
    if k >= 4 {
        assert(bytes.take(k).take(4) =~= crate::le::le_bytes(list@.len(), 4));
        assert(bytes.take(k).skip(4) =~= concat_bytes(list@).take(k - 4));
        lemma_cut_items(list@, k - 4);
    }
}

/// Enum variants, cut anywhere, end too early: in the discriminant, or behind
/// it.
pub proof fn lemma_cut_variant<B: Decode>(tag: u16, body: B, k: int)
    requires
        body.encodable(),
        0 <= k < tagged_bytes(tag, body).len(),
    ensures
        parse_tagged::<B>(tagged_bytes(tag, body).take(k)) == ended(),
        k < 2 ==> parse_tag(tagged_bytes(tag, body).take(k)) == Err::<u16, CodecError>(
            CodecError::UnexpectedEof,
        ),
        k >= 2 ==> parse_tag(tagged_bytes(tag, body).take(k)) == Ok::<u16, CodecError>(tag),
{
    let bytes = tagged_bytes(tag, body);
    lemma_ends_early(tag);
    lemma_ends_early(body);
    lemma_cut_head(tag, body.bytes(), k);
    lemma_cut_next(tag.bytes(), body, k, u16::parse(bytes.take(k)));
    crate::le::lemma_pow256_values();
    crate::le::law_le_value_of_bytes(tag as nat, 2);
}

} // verus!
