//! Canonical encoding of strings, vectors, options and tuples.

use vstd::prelude::*;

use crate::codec::{take, CodecError, Decode, Encode, Parsed};

verus! {

broadcast use crate::le::lemma_le_bytes_len;

/// Writes a length prefix.
pub fn encode_len(len: usize, out: &mut Vec<u8>)
    requires
        len <= u32::MAX,
    ensures
        final(out)@ == old(out)@ + crate::le::le_bytes(len as nat, 4),
{
    (len as u32).encode(out);
}

/// Reads a length prefix.
pub fn decode_len(buf: &mut &[u8]) -> (r: Result<usize, CodecError>)
    ensures
        old(buf)@.len() < 4 ==> r == Err::<usize, CodecError>(CodecError::UnexpectedEof),
        old(buf)@.len() >= 4 ==> {
            &&& r is Ok
            &&& r->Ok_0 as nat == crate::le::le_value(old(buf)@.take(4))
            &&& r->Ok_0 <= u32::MAX
            &&& crate::le::le_bytes(r->Ok_0 as nat, 4) == old(buf)@.take(4)
            &&& final(buf)@ == old(buf)@.skip(4)
        },
{
    let len: u32 = u32::decode(buf)?;
    Ok(len as usize)
}

/// `String::from_utf8`: the bytes as text where they are valid UTF-8, and
/// nothing where they are not.
#[verifier::external_body]
fn string_from_utf8(bytes: Vec<u8>) -> (r: Option<String>)
    ensures
        r is Some <==> vstd::utf8::valid_utf8(bytes@),
        r matches Some(s) ==> vstd::utf8::encode_utf8(s@) == bytes@,
{
    String::from_utf8(bytes).ok()
}

impl Encode for String {
    open spec fn encodable(&self) -> bool {
        vstd::utf8::encode_utf8(self@).len() <= u32::MAX
    }

    open spec fn bytes(&self) -> Seq<u8> {
        let text = vstd::utf8::encode_utf8(self@);
        crate::le::le_bytes(text.len(), 4) + text
    }

    fn encode(&self, out: &mut Vec<u8>) {
        let text = self.as_str().as_bytes();
        encode_len(text.len(), out);
        out.extend_from_slice(text);
    }

    fn encoded_len(&self) -> usize {
        4 + self.as_str().as_bytes().len()
    }
}

impl Decode for String {
    open spec fn parse(buf: Seq<u8>) -> Parsed {
        if buf.len() < 4 {
            Err(CodecError::UnexpectedEof)
        } else {
            let len = crate::le::le_value(buf.take(4));
            if buf.len() < 4 + len {
                Err(CodecError::UnexpectedEof)
            } else if vstd::utf8::valid_utf8(buf.subrange(4, (4 + len) as int)) {
                Ok((buf.take((4 + len) as int), 4 + len))
            } else {
                Err(CodecError::InvalidUtf8)
            }
        }
    }

    open spec fn same(&self, other: &Self) -> bool {
        self@ == other@
    }

    fn decode(buf: &mut &[u8]) -> (r: Result<Self, CodecError>) {
        let ghost b0 = buf@;
        let len: usize = decode_len(buf)?;
        let text = take(buf, len)?;
        assert(text@ =~= b0.subrange(4, 4 + len));
        let mut owned: Vec<u8> = Vec::new();
        owned.extend_from_slice(text);
        assert(owned@ =~= text@);
        match string_from_utf8(owned) {
            Some(s) => {
                assert(s.bytes() =~= b0.take(4 + len));
                assert(b0.skip(4).skip(len as int) =~= b0.skip(4 + len));
                Ok(s)
            },
            None => Err(CodecError::InvalidUtf8),
        }
    }

    proof fn law_parse_is_bounded(buf: Seq<u8>) {
    }

    proof fn law_roundtrip(&self, rest: Seq<u8>) {
        let text = vstd::utf8::encode_utf8(self@);
        let buf = self.bytes() + rest;
        let len = text.len();
        crate::le::lemma_pow256_values();
        assert(buf.take(4) =~= crate::le::le_bytes(len, 4));
        crate::le::law_le_value_of_bytes(len, 4);
        assert(buf.subrange(4, (4 + len) as int) =~= text);
        assert(buf.take((4 + len) as int) =~= self.bytes());
        vstd::utf8::encode_utf8_valid_utf8(self@);
    }

    proof fn law_cut_ends_early(&self, cut: Seq<u8>) {
        crate::codec::cut::lemma_cut_text(*self, cut.len() as int);
    }

    proof fn law_canonical(&self, other: &Self) {
        let a = vstd::utf8::encode_utf8(self@);
        let b = vstd::utf8::encode_utf8(other@);
        assert(self.bytes().skip(4) =~= a);
        assert(other.bytes().skip(4) =~= b);
        vstd::utf8::encode_utf8_decode_utf8(self@);
        vstd::utf8::encode_utf8_decode_utf8(other@);
    }
}

/// The encodings of `items`, one behind the other.
pub open spec fn concat_bytes<T: Encode>(items: Seq<T>) -> Seq<u8>
    decreases items.len(),
{
    if items.len() == 0 {
        Seq::empty()
    } else {
        items[0].bytes() + concat_bytes(items.skip(1))
    }
}

/// What the front of `buf` reads as where it holds `count` items.
pub open spec fn parse_items<T: Decode>(buf: Seq<u8>, count: nat) -> Parsed
    decreases count,
{
    if count == 0 {
        Ok((Seq::empty(), 0))
    } else {
        match T::parse(buf) {
            Err(e) => Err(e),
            Ok((c, n)) => match parse_items::<T>(buf.skip(n as int), (count - 1) as nat) {
                Err(e) => Err(e),
                Ok((d, m)) => Ok((c + d, n + m)),
            },
        }
    }
}

pub proof fn lemma_concat_bytes_push<T: Encode>(items: Seq<T>, last: T)
    ensures
        concat_bytes(items.push(last)) == concat_bytes(items) + last.bytes(),
    decreases items.len(),
{
    let all = items.push(last);
    if items.len() == 0 {
        assert(all.skip(1) =~= items);
        assert(concat_bytes(all.skip(1)) =~= Seq::<u8>::empty());
        assert(concat_bytes(all) =~= last.bytes());
        assert(concat_bytes(items) + last.bytes() =~= last.bytes());
    } else {
        assert(all.skip(1) =~= items.skip(1).push(last));
        lemma_concat_bytes_push(items.skip(1), last);
        assert(concat_bytes(all) =~= concat_bytes(items) + last.bytes());
    }
}

proof fn lemma_concat_bytes_len<T: Encode>(items: Seq<T>, k: int)
    requires
        0 <= k <= items.len(),
    ensures
        concat_bytes(items.take(k)).len() <= concat_bytes(items).len(),
    decreases items.len(),
{
    if k == 0 {
        assert(items.take(0) =~= Seq::<T>::empty());
    } else {
        assert(items.take(k).skip(1) =~= items.skip(1).take(k - 1));
        lemma_concat_bytes_len(items.skip(1), k - 1);
    }
}

pub proof fn lemma_parse_items_bounded<T: Decode>(buf: Seq<u8>, count: nat)
    ensures
        parse_items::<T>(buf, count) matches Ok((_, n)) ==> n <= buf.len(),
    decreases count,
{
    if count > 0 {
        T::law_parse_is_bounded(buf);
        match T::parse(buf) {
            Ok((c, n)) => {
                lemma_parse_items_bounded::<T>(buf.skip(n as int), (count - 1) as nat);
            },
            Err(_) => {},
        }
    }
}

/// Items written one behind the other read back.
pub proof fn lemma_parse_items<T: Decode>(items: Seq<T>, rest: Seq<u8>)
    requires
        forall|i: int| 0 <= i < items.len() ==> (#[trigger] items[i]).encodable(),
    ensures
        parse_items::<T>(concat_bytes(items) + rest, items.len()) == Ok::<
            (Seq<u8>, nat),
            CodecError,
        >((concat_bytes(items), concat_bytes(items).len())),
    decreases items.len(),
{
    let buf = concat_bytes(items) + rest;
    if items.len() > 0 {
        let tail = items.skip(1);
        let after = concat_bytes(tail) + rest;
        assert(buf =~= items[0].bytes() + after);
        items[0].law_roundtrip(after);
        assert(buf.skip(items[0].bytes().len() as int) =~= after);
        assert forall|i: int| 0 <= i < tail.len() implies (#[trigger] tail[i]).encodable() by {
            assert(tail[i] == items[i + 1]);
        }
        lemma_parse_items(tail, rest);
    }
}

pub proof fn lemma_items_canonical<T: Decode>(a: Seq<T>, b: Seq<T>)
    requires
        a.len() == b.len(),
        forall|i: int| 0 <= i < a.len() ==> (#[trigger] a[i]).encodable(),
        forall|i: int| 0 <= i < b.len() ==> (#[trigger] b[i]).encodable(),
    ensures
        (forall|i: int| 0 <= i < a.len() ==> (#[trigger] a[i]).same(&b[i])) <==> concat_bytes(a)
            == concat_bytes(b),
    decreases a.len(),
{
    if a.len() > 0 {
        let ta = a.skip(1);
        let tb = b.skip(1);
        assert forall|i: int| 0 <= i < ta.len() implies (#[trigger] ta[i]).encodable() by {
            assert(ta[i] == a[i + 1]);
        }
        assert forall|i: int| 0 <= i < tb.len() implies (#[trigger] tb[i]).encodable() by {
            assert(tb[i] == b[i + 1]);
        }
        lemma_items_canonical(ta, tb);
        a[0].law_canonical(&b[0]);
        if concat_bytes(a) == concat_bytes(b) {
            crate::codec::law_prefix_free(a[0], b[0], concat_bytes(ta), concat_bytes(tb));
            assert forall|i: int| 0 <= i < a.len() implies (#[trigger] a[i]).same(&b[i]) by {
                if i > 0 {
                    assert(ta[i - 1].same(&tb[i - 1]));
                }
            }
        }
        if forall|i: int| 0 <= i < a.len() ==> (#[trigger] a[i]).same(&b[i]) {
            assert forall|i: int| 0 <= i < ta.len() implies (#[trigger] ta[i]).same(&tb[i]) by {
                assert(a[i + 1].same(&b[i + 1]));
            }
            assert(a[0].same(&b[0]));
        }
    }
}

impl<T: Encode> Encode for Vec<T> {
    open spec fn encodable(&self) -> bool {
        &&& self@.len() <= u32::MAX
        &&& forall|i: int| 0 <= i < self@.len() ==> (#[trigger] self@[i]).encodable()
    }

    open spec fn bytes(&self) -> Seq<u8> {
        crate::le::le_bytes(self@.len(), 4) + concat_bytes(self@)
    }

    fn encode(&self, out: &mut Vec<u8>) {
        let ghost start = out@;
        encode_len(self.len(), out);
        let ghost prefix = crate::le::le_bytes(self@.len(), 4);
        let mut i: usize = 0;
        assert(self@.take(0) =~= Seq::<T>::empty());
        assert(out@ =~= start + prefix + concat_bytes(self@.take(0)));
        while i < self.len()
            invariant
                i <= self@.len(),
                self.encodable(),
                out@ == start + prefix + concat_bytes(self@.take(i as int)),
            decreases self@.len() - i,
        {
            proof {
                assert(self@[i as int].encodable());
                lemma_concat_bytes_push(self@.take(i as int), self@[i as int]);
                assert(self@.take(i + 1) =~= self@.take(i as int).push(self@[i as int]));
            }
            self[i].encode(out);
            assert(out@ =~= start + prefix + concat_bytes(self@.take(i + 1)));
            i = i + 1;
        }
        assert(self@.take(self@.len() as int) =~= self@);
        assert(out@ =~= start + self.bytes());
    }

    fn encoded_len(&self) -> usize {
        let mut total: usize = 4;
        let mut i: usize = 0;
        assert(self@.take(0) =~= Seq::<T>::empty());
        while i < self.len()
            invariant
                i <= self@.len(),
                self.encodable(),
                self.bytes().len() <= usize::MAX,
                total == 4 + concat_bytes(self@.take(i as int)).len(),
            decreases self@.len() - i,
        {
            proof {
                assert(self@[i as int].encodable());
                lemma_concat_bytes_push(self@.take(i as int), self@[i as int]);
                assert(self@.take(i + 1) =~= self@.take(i as int).push(self@[i as int]));
                lemma_concat_bytes_len(self@, i + 1);
            }
            total = total + self[i].encoded_len();
            i = i + 1;
        }
        assert(self@.take(self@.len() as int) =~= self@);
        total
    }
}

impl<T: Decode> Decode for Vec<T> {
    open spec fn parse(buf: Seq<u8>) -> Parsed {
        if buf.len() < 4 {
            Err(CodecError::UnexpectedEof)
        } else {
            match parse_items::<T>(buf.skip(4), crate::le::le_value(buf.take(4))) {
                Err(e) => Err(e),
                Ok((c, n)) => Ok((buf.take(4) + c, 4 + n)),
            }
        }
    }

    open spec fn same(&self, other: &Self) -> bool {
        &&& self@.len() == other@.len()
        &&& forall|i: int| 0 <= i < self@.len() ==> (#[trigger] self@[i]).same(&other@[i])
    }

    fn decode(buf: &mut &[u8]) -> (r: Result<Self, CodecError>) {
        let ghost b0 = buf@;
        let len: usize = decode_len(buf)?;
        let ghost body = buf@;
        let cap: usize = if len < buf.len() {
            len
        } else {
            buf.len()
        };
        let mut items: Vec<T> = Vec::with_capacity(cap);
        let mut i: usize = 0;
        let ghost mut used: nat = 0;
        assert(body.skip(0) =~= body);
        proof {
            match parse_items::<T>(body, len as nat) {
                Ok((c, n)) => {
                    assert(concat_bytes(items@) + c =~= c);
                },
                Err(_) => {},
            }
        }
        while i < len
            invariant
                i <= len <= u32::MAX,
                items@.len() == i,
                used <= body.len(),
                buf@ == body.skip(used as int),
                forall|k: int| 0 <= k < i ==> (#[trigger] items@[k]).encodable(),
                parse_items::<T>(body, len as nat) == (match parse_items::<T>(
                    buf@,
                    (len - i) as nat,
                ) {
                    Err(e) => Err::<(Seq<u8>, nat), CodecError>(e),
                    Ok((c, n)) => Ok((concat_bytes(items@) + c, used + n)),
                }),
                b0 == old(buf)@,
                b0.len() >= 4,
                body == b0.skip(4),
                len == crate::le::le_value(b0.take(4)),
            decreases len - i,
        {
            let ghost before = buf@;
            let ghost old_items = items@;
            let item = T::decode(buf)?;
            proof {
                let (c, n) = T::parse(before)->Ok_0;
                used = used + n;
                assert(before.skip(n as int) =~= body.skip(used as int));
                lemma_concat_bytes_push(old_items, item);
                match parse_items::<T>(buf@, (len - i - 1) as nat) {
                    Ok((d, m)) => {
                        assert(concat_bytes(old_items) + (c + d) =~= concat_bytes(
                            old_items.push(item),
                        ) + d);
                    },
                    Err(_) => {},
                }
            }
            items.push(item);
            i = i + 1;
        }
        proof {
            assert(concat_bytes(items@) + Seq::<u8>::empty() =~= concat_bytes(items@));
            crate::le::law_le_bytes_of_value(b0.take(4));
            assert(b0.skip(4).skip(used as int) =~= b0.skip((4 + used) as int));
        }
        Ok(items)
    }

    proof fn law_parse_is_bounded(buf: Seq<u8>) {
        if buf.len() >= 4 {
            lemma_parse_items_bounded::<T>(buf.skip(4), crate::le::le_value(buf.take(4)));
        }
    }

    proof fn law_roundtrip(&self, rest: Seq<u8>) {
        let buf = self.bytes() + rest;
        let prefix = crate::le::le_bytes(self@.len(), 4);
        crate::le::lemma_pow256_values();
        crate::le::law_le_value_of_bytes(self@.len(), 4);
        assert(buf.take(4) =~= prefix);
        assert(buf.skip(4) =~= concat_bytes(self@) + rest);
        lemma_parse_items(self@, rest);
    }

    proof fn law_cut_ends_early(&self, cut: Seq<u8>) {
        crate::codec::cut::lemma_cut_list(*self, cut.len() as int);
    }

    proof fn law_canonical(&self, other: &Self) {
        assert(self.bytes().skip(4) =~= concat_bytes(self@));
        assert(other.bytes().skip(4) =~= concat_bytes(other@));
        if self.bytes() == other.bytes() {
            assert(self.bytes().take(4) =~= crate::le::le_bytes(self@.len(), 4));
            assert(other.bytes().take(4) =~= crate::le::le_bytes(other@.len(), 4));
            crate::le::lemma_pow256_values();
            crate::le::lemma_le_bytes_injective(self@.len(), other@.len(), 4);
        }
        if self@.len() == other@.len() {
            lemma_items_canonical(self@, other@);
        }
    }
}

impl<T: Encode> Encode for Option<T> {
    open spec fn encodable(&self) -> bool {
        self matches Some(v) ==> v.encodable()
    }

    open spec fn bytes(&self) -> Seq<u8> {
        match self {
            None => seq![0u8],
            Some(v) => seq![1u8] + v.bytes(),
        }
    }

    fn encode(&self, out: &mut Vec<u8>) {
        match self {
            None => {
                out.push(0);
            },
            Some(v) => {
                let ghost start = out@;
                out.push(1);
                v.encode(out);
                assert(out@ =~= start + self.bytes());
            },
        }
    }

    fn encoded_len(&self) -> usize {
        match self {
            None => 1,
            Some(v) => 1 + v.encoded_len(),
        }
    }
}

impl<T: Decode> Decode for Option<T> {
    open spec fn parse(buf: Seq<u8>) -> Parsed {
        if buf.len() < 1 {
            Err(CodecError::UnexpectedEof)
        } else if buf[0] == 0 {
            Ok((seq![0u8], 1))
        } else if buf[0] == 1 {
            match T::parse(buf.skip(1)) {
                Err(e) => Err(e),
                Ok((c, n)) => Ok((seq![1u8] + c, 1 + n)),
            }
        } else {
            Err(CodecError::InvalidValue("Option tag"))
        }
    }

    open spec fn same(&self, other: &Self) -> bool {
        match (self, other) {
            (None, None) => true,
            (Some(a), Some(b)) => a.same(b),
            _ => false,
        }
    }

    fn decode(buf: &mut &[u8]) -> (r: Result<Self, CodecError>) {
        let ghost b0 = buf@;
        let tag = take(buf, 1)?;
        match tag[0] {
            0 => Ok(None),
            1 => {
                let v = T::decode(buf)?;
                proof {
                    let (c, n) = T::parse(b0.skip(1))->Ok_0;
                    assert(b0.skip(1).skip(n as int) =~= b0.skip((1 + n) as int));
                }
                Ok(Some(v))
            },
            _ => Err(CodecError::InvalidValue("Option tag")),
        }
    }

    proof fn law_parse_is_bounded(buf: Seq<u8>) {
        if buf.len() >= 1 {
            T::law_parse_is_bounded(buf.skip(1));
        }
    }

    proof fn law_roundtrip(&self, rest: Seq<u8>) {
        match self {
            None => {},
            Some(v) => {
                v.law_roundtrip(rest);
                assert((self.bytes() + rest).skip(1) =~= v.bytes() + rest);
            },
        }
    }

    proof fn law_cut_ends_early(&self, cut: Seq<u8>) {
        crate::codec::cut::lemma_cut_option(*self, cut.len() as int);
    }

    proof fn law_canonical(&self, other: &Self) {
        match (self, other) {
            (Some(a), Some(b)) => {
                a.law_canonical(b);
                assert(self.bytes().skip(1) =~= a.bytes());
                assert(other.bytes().skip(1) =~= b.bytes());
            },
            (None, None) => {},
            _ => {
                assert(self.bytes()[0] != other.bytes()[0]);
            },
        }
    }
}

impl<A: Encode> Encode for (A,) {
    open spec fn encodable(&self) -> bool {
        self.0.encodable()
    }

    open spec fn bytes(&self) -> Seq<u8> {
        self.0.bytes()
    }

    fn encode(&self, out: &mut Vec<u8>) {
        self.0.encode(out);
    }

    fn encoded_len(&self) -> usize {
        self.0.encoded_len()
    }
}

impl<A: Decode> Decode for (A,) {
    open spec fn parse(buf: Seq<u8>) -> Parsed {
        A::parse(buf)
    }

    open spec fn same(&self, other: &Self) -> bool {
        self.0.same(&other.0)
    }

    fn decode(buf: &mut &[u8]) -> (r: Result<Self, CodecError>) {
        let ghost b0 = buf@;
        let ghost mut used: nat = 0;
        let a = A::decode(buf)?;
        proof {
            used = (A::parse(b0)->Ok_0).1;
        }
        Ok((a,))
    }

    proof fn law_parse_is_bounded(buf: Seq<u8>) {
        A::law_parse_is_bounded(buf);
    }

    proof fn law_roundtrip(&self, rest: Seq<u8>) {
        let buf = self.bytes() + rest;
        let after0 = rest;
        assert(buf =~= self.0.bytes() + after0);
        self.0.law_roundtrip(after0);
    }

    proof fn law_cut_ends_early(&self, cut: Seq<u8>) {
        self.0.law_cut_ends_early(cut);
    }

    proof fn law_canonical(&self, other: &Self) {
        self.0.law_canonical(&other.0);
    }
}

impl<A: Encode, B: Encode> Encode for (A, B) {
    open spec fn encodable(&self) -> bool {
        self.0.encodable() && self.1.encodable()
    }

    open spec fn bytes(&self) -> Seq<u8> {
        self.0.bytes() + self.1.bytes()
    }

    fn encode(&self, out: &mut Vec<u8>) {
        let ghost start = out@;
        self.0.encode(out);
        self.1.encode(out);
        assert(out@ =~= start + self.bytes());
    }

    fn encoded_len(&self) -> usize {
        self.0.encoded_len() + self.1.encoded_len()
    }
}

impl<A: Decode, B: Decode> Decode for (A, B) {
    open spec fn parse(buf: Seq<u8>) -> Parsed {
        crate::codec::parse_next::<B>(buf, A::parse(buf))
    }

    open spec fn same(&self, other: &Self) -> bool {
        self.0.same(&other.0) && self.1.same(&other.1)
    }

    fn decode(buf: &mut &[u8]) -> (r: Result<Self, CodecError>) {
        let ghost b0 = buf@;
        let ghost mut used: nat = 0;
        let a = A::decode(buf)?;
        proof {
            used = (A::parse(b0)->Ok_0).1;
        }
        let b = B::decode(buf)?;
        proof {
            let m = (B::parse(b0.skip(used as int))->Ok_0).1;
            assert(b0.skip(used as int).skip(m as int) =~= b0.skip((used + m) as int));
            used = used + m;
        }
        Ok((a, b))
    }

    proof fn law_parse_is_bounded(buf: Seq<u8>) {
        A::law_parse_is_bounded(buf);
        if let Ok((_, n)) = A::parse(buf) {
            B::law_parse_is_bounded(buf.skip(n as int));
        }
    }

    proof fn law_roundtrip(&self, rest: Seq<u8>) {
        let buf = self.bytes() + rest;
        let after0 = self.1.bytes() + rest;
        assert(buf =~= self.0.bytes() + after0);
        self.0.law_roundtrip(after0);
        let after1 = rest;
        assert(buf =~= self.0.bytes() + self.1.bytes() + after1);
        crate::codec::lemma_parse_next(buf, self.0.bytes(), self.1, after1);
    }

    proof fn law_cut_ends_early(&self, cut: Seq<u8>) {
        crate::codec::cut::lemma_cut_pair(self.0, self.1, cut.len() as int);
    }

    proof fn law_canonical(&self, other: &Self) {
        self.0.law_canonical(&other.0);
        self.1.law_canonical(&other.1);
        if self.bytes() == other.bytes() {
            assert(self.0.bytes() + (self.1.bytes()) =~= self.bytes());
            assert(other.0.bytes() + (other.1.bytes()) =~= other.bytes());
            crate::codec::law_prefix_free(self.0, other.0, self.1.bytes(), other.1.bytes());
        }
    }
}

impl<A: Encode, B: Encode, C: Encode> Encode for (A, B, C) {
    open spec fn encodable(&self) -> bool {
        self.0.encodable() && self.1.encodable() && self.2.encodable()
    }

    open spec fn bytes(&self) -> Seq<u8> {
        self.0.bytes() + self.1.bytes() + self.2.bytes()
    }

    fn encode(&self, out: &mut Vec<u8>) {
        let ghost start = out@;
        self.0.encode(out);
        self.1.encode(out);
        self.2.encode(out);
        assert(out@ =~= start + self.bytes());
    }

    fn encoded_len(&self) -> usize {
        self.0.encoded_len() + self.1.encoded_len() + self.2.encoded_len()
    }
}

impl<A: Decode, B: Decode, C: Decode> Decode for (A, B, C) {
    open spec fn parse(buf: Seq<u8>) -> Parsed {
        crate::codec::parse_next::<C>(buf, crate::codec::parse_next::<B>(buf, A::parse(buf)))
    }

    open spec fn same(&self, other: &Self) -> bool {
        self.0.same(&other.0) && self.1.same(&other.1) && self.2.same(&other.2)
    }

    fn decode(buf: &mut &[u8]) -> (r: Result<Self, CodecError>) {
        let ghost b0 = buf@;
        let ghost mut used: nat = 0;
        let a = A::decode(buf)?;
        proof {
            used = (A::parse(b0)->Ok_0).1;
        }
        let b = B::decode(buf)?;
        proof {
            let m = (B::parse(b0.skip(used as int))->Ok_0).1;
            assert(b0.skip(used as int).skip(m as int) =~= b0.skip((used + m) as int));
            used = used + m;
        }
        let c = C::decode(buf)?;
        proof {
            let m = (C::parse(b0.skip(used as int))->Ok_0).1;
            assert(b0.skip(used as int).skip(m as int) =~= b0.skip((used + m) as int));
            used = used + m;
        }
        Ok((a, b, c))
    }

    proof fn law_parse_is_bounded(buf: Seq<u8>) {
        A::law_parse_is_bounded(buf);
        if let Ok((_, n)) = A::parse(buf) {
            B::law_parse_is_bounded(buf.skip(n as int));
        }
        if let Ok((_, n)) = crate::codec::parse_next::<B>(buf, A::parse(buf)) {
            C::law_parse_is_bounded(buf.skip(n as int));
        }
    }

    proof fn law_roundtrip(&self, rest: Seq<u8>) {
        let buf = self.bytes() + rest;
        let after0 = self.1.bytes() + self.2.bytes() + rest;
        assert(buf =~= self.0.bytes() + after0);
        self.0.law_roundtrip(after0);
        let after1 = self.2.bytes() + rest;
        assert(buf =~= self.0.bytes() + self.1.bytes() + after1);
        crate::codec::lemma_parse_next(buf, self.0.bytes(), self.1, after1);
        let after2 = rest;
        assert(buf =~= self.0.bytes() + self.1.bytes() + self.2.bytes() + after2);
        crate::codec::lemma_parse_next(buf, self.0.bytes() + self.1.bytes(), self.2, after2);
    }

    proof fn law_cut_ends_early(&self, cut: Seq<u8>) {
        crate::codec::cut::lemma_cut_triple(self.0, self.1, self.2, cut.len() as int);
    }

    proof fn law_canonical(&self, other: &Self) {
        self.0.law_canonical(&other.0);
        self.1.law_canonical(&other.1);
        self.2.law_canonical(&other.2);
        if self.bytes() == other.bytes() {
            assert(self.0.bytes() + (self.1.bytes() + self.2.bytes()) =~= self.bytes());
            assert(other.0.bytes() + (other.1.bytes() + other.2.bytes()) =~= other.bytes());
            crate::codec::law_prefix_free(self.0, other.0, self.1.bytes() + self.2.bytes(), other.1.bytes() + other.2.bytes());
            assert(self.1.bytes() + (self.2.bytes()) =~= self.1.bytes() + self.2.bytes());
            assert(other.1.bytes() + (other.2.bytes()) =~= other.1.bytes() + other.2.bytes());
            crate::codec::law_prefix_free(self.1, other.1, self.2.bytes(), other.2.bytes());
        }
    }
}

impl<A: Encode, B: Encode, C: Encode, D: Encode> Encode for (A, B, C, D) {
    open spec fn encodable(&self) -> bool {
        self.0.encodable() && self.1.encodable() && self.2.encodable() && self.3.encodable()
    }

    open spec fn bytes(&self) -> Seq<u8> {
        self.0.bytes() + self.1.bytes() + self.2.bytes() + self.3.bytes()
    }

    fn encode(&self, out: &mut Vec<u8>) {
        let ghost start = out@;
        self.0.encode(out);
        self.1.encode(out);
        self.2.encode(out);
        self.3.encode(out);
        assert(out@ =~= start + self.bytes());
    }

    fn encoded_len(&self) -> usize {
        self.0.encoded_len() + self.1.encoded_len() + self.2.encoded_len() + self.3.encoded_len()
    }
}

impl<A: Decode, B: Decode, C: Decode, D: Decode> Decode for (A, B, C, D) {
    open spec fn parse(buf: Seq<u8>) -> Parsed {
        crate::codec::parse_next::<D>(buf, crate::codec::parse_next::<C>(buf, crate::codec::parse_next::<B>(buf, A::parse(buf))))
    }

    open spec fn same(&self, other: &Self) -> bool {
        self.0.same(&other.0) && self.1.same(&other.1) && self.2.same(&other.2) && self.3.same(&other.3)
    }

    fn decode(buf: &mut &[u8]) -> (r: Result<Self, CodecError>) {
        let ghost b0 = buf@;
        let ghost mut used: nat = 0;
        let a = A::decode(buf)?;
        proof {
            used = (A::parse(b0)->Ok_0).1;
        }
        let b = B::decode(buf)?;
        proof {
            let m = (B::parse(b0.skip(used as int))->Ok_0).1;
            assert(b0.skip(used as int).skip(m as int) =~= b0.skip((used + m) as int));
            used = used + m;
        }
        let c = C::decode(buf)?;
        proof {
            let m = (C::parse(b0.skip(used as int))->Ok_0).1;
            assert(b0.skip(used as int).skip(m as int) =~= b0.skip((used + m) as int));
            used = used + m;
        }
        let d = D::decode(buf)?;
        proof {
            let m = (D::parse(b0.skip(used as int))->Ok_0).1;
            assert(b0.skip(used as int).skip(m as int) =~= b0.skip((used + m) as int));
            used = used + m;
        }
        Ok((a, b, c, d))
    }

    proof fn law_parse_is_bounded(buf: Seq<u8>) {
        A::law_parse_is_bounded(buf);
        if let Ok((_, n)) = A::parse(buf) {
            B::law_parse_is_bounded(buf.skip(n as int));
        }
        if let Ok((_, n)) = crate::codec::parse_next::<B>(buf, A::parse(buf)) {
            C::law_parse_is_bounded(buf.skip(n as int));
        }
        if let Ok((_, n)) = crate::codec::parse_next::<C>(buf, crate::codec::parse_next::<B>(buf, A::parse(buf))) {
            D::law_parse_is_bounded(buf.skip(n as int));
        }
    }

    proof fn law_roundtrip(&self, rest: Seq<u8>) {
        let buf = self.bytes() + rest;
        let after0 = self.1.bytes() + self.2.bytes() + self.3.bytes() + rest;
        assert(buf =~= self.0.bytes() + after0);
        self.0.law_roundtrip(after0);
        let after1 = self.2.bytes() + self.3.bytes() + rest;
        assert(buf =~= self.0.bytes() + self.1.bytes() + after1);
        crate::codec::lemma_parse_next(buf, self.0.bytes(), self.1, after1);
        let after2 = self.3.bytes() + rest;
        assert(buf =~= self.0.bytes() + self.1.bytes() + self.2.bytes() + after2);
        crate::codec::lemma_parse_next(buf, self.0.bytes() + self.1.bytes(), self.2, after2);
        let after3 = rest;
        assert(buf =~= self.0.bytes() + self.1.bytes() + self.2.bytes() + self.3.bytes() + after3);
        crate::codec::lemma_parse_next(buf, self.0.bytes() + self.1.bytes() + self.2.bytes(), self.3, after3);
    }

    proof fn law_cut_ends_early(&self, cut: Seq<u8>) {
        crate::codec::cut::lemma_cut_quadruple(self.0, self.1, self.2, self.3, cut.len() as int);
    }

    proof fn law_canonical(&self, other: &Self) {
        self.0.law_canonical(&other.0);
        self.1.law_canonical(&other.1);
        self.2.law_canonical(&other.2);
        self.3.law_canonical(&other.3);
        if self.bytes() == other.bytes() {
            assert(self.0.bytes() + (self.1.bytes() + self.2.bytes() + self.3.bytes()) =~= self.bytes());
            assert(other.0.bytes() + (other.1.bytes() + other.2.bytes() + other.3.bytes()) =~= other.bytes());
            crate::codec::law_prefix_free(self.0, other.0, self.1.bytes() + self.2.bytes() + self.3.bytes(), other.1.bytes() + other.2.bytes() + other.3.bytes());
            assert(self.1.bytes() + (self.2.bytes() + self.3.bytes()) =~= self.1.bytes() + self.2.bytes() + self.3.bytes());
            assert(other.1.bytes() + (other.2.bytes() + other.3.bytes()) =~= other.1.bytes() + other.2.bytes() + other.3.bytes());
            crate::codec::law_prefix_free(self.1, other.1, self.2.bytes() + self.3.bytes(), other.2.bytes() + other.3.bytes());
            assert(self.2.bytes() + (self.3.bytes()) =~= self.2.bytes() + self.3.bytes());
            assert(other.2.bytes() + (other.3.bytes()) =~= other.2.bytes() + other.3.bytes());
            crate::codec::law_prefix_free(self.2, other.2, self.3.bytes(), other.3.bytes());
        }
    }
}

/// A list is its length in four bytes and then its items in order; what may be
/// missing is one byte, 0 where it is and 1 in front of it where it is not; parts
/// that belong together follow one another.
pub proof fn law_parts_follow_one_another<A: Encode, B: Encode, C: Encode, D: Encode>(
    list: Vec<A>,
    a: A,
    b: B,
    c: C,
    d: D,
)
    ensures
        list.bytes().take(4) == crate::le::le_bytes(list@.len(), 4),
        list.bytes().skip(4) == concat_bytes(list@),
        concat_bytes(Seq::<A>::empty()) == Seq::<u8>::empty(),
        concat_bytes(seq![a]) == a.bytes(),
        None::<A>.bytes() == seq![0u8],
        Some(a).bytes() == seq![1u8] + a.bytes(),
        (a,).bytes() == a.bytes(),
        (a, b).bytes() == a.bytes() + b.bytes(),
        (a, b, c).bytes() == a.bytes() + b.bytes() + c.bytes(),
        (a, b, c, d).bytes() == a.bytes() + b.bytes() + c.bytes() + d.bytes(),
{
    assert(list.bytes().take(4) =~= crate::le::le_bytes(list@.len(), 4));
    assert(list.bytes().skip(4) =~= concat_bytes(list@));
    assert(seq![a].skip(1) =~= Seq::empty());
    assert(concat_bytes(seq![a].skip(1)) == Seq::<u8>::empty());
    assert(concat_bytes(seq![a]) =~= a.bytes());
}

/// The bytes of two runs of items are the bytes of the first, then of the second.
pub proof fn law_items_follow_one_another<A: Encode>(x: Seq<A>, y: Seq<A>)
    ensures
        concat_bytes(x + y) == concat_bytes(x) + concat_bytes(y),
    decreases x.len(),
{
    if x.len() == 0 {
        assert(x + y =~= y);
        assert(concat_bytes(x) + concat_bytes(y) =~= concat_bytes(y));
    } else {
        assert((x + y).skip(1) =~= x.skip(1) + y);
        law_items_follow_one_another(x.skip(1), y);
        assert(concat_bytes(x + y) =~= concat_bytes(x) + concat_bytes(y));
    }
}

} // verus!
