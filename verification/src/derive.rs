//! Writing the canonical codec of a type: the text of its `Encode` and
//! `Decode` impls.
//!
//! Fields are encoded in declaration order. An enum is a `u16` discriminant,
//! the variant's declaration index, then the variant's fields: the order of
//! variants is part of the wire contract. A generic type is encodable where
//! its type parameters are.

use vstd::prelude::*;
use vstd::string::StringExecFns;

use crate::text::{decimal, push_decimal};

verus! {

/// A field: its name (not used for tuple fields) and its type.
pub struct Field {
    pub name: String,
    pub ty: String,
}

/// The fields of a struct or a variant.
pub enum Fields {
    Named(Vec<Field>),
    Unnamed(Vec<Field>),
    Unit,
}

pub struct Variant {
    pub name: String,
    pub fields: Fields,
}

/// What kind of type is declared.
pub enum Shape {
    Struct(Fields),
    Enum(Vec<Variant>),
    Union,
}

/// A generic parameter.
pub enum Param {
    /// A type parameter and its bounds (empty if it has none).
    Type { name: String, bounds: String },
    /// Any other parameter: its name, and how it is declared.
    Other { name: String, declared: String },
}

/// A type declaration.
pub struct TypeDecl {
    pub name: String,
    pub params: Vec<Param>,
    /// The `where` clause, or nothing.
    pub where_clause: String,
    pub shape: Shape,
}

/// Why no impl can be written.
#[derive(Debug, Clone, Copy, PartialEq, Eq, Structural)]
pub enum DeriveError {
    /// The enum has more variants than discriminants.
    TooManyVariants,
    /// Unions have no codec.
    Union,
}

impl DeriveError {
    pub open spec fn said(self, codec: Seq<char>) -> Seq<char> {
        match self {
            DeriveError::TooManyVariants => "enum has more than u16::MAX variants"@,
            DeriveError::Union => "unions cannot derive "@ + codec,
        }
    }

    /// The message for a derive of `codec`.
    pub fn message(self, codec: &str) -> (r: String)
        ensures
            r@ == self.said(codec@),
    {
        match self {
            DeriveError::TooManyVariants => crate::text::text(
                "enum has more than u16::MAX variants",
            ),
            DeriveError::Union => {
                let mut out = crate::text::text("unions cannot derive ");
                out.append(codec);
                out
            },
        }
    }
}

/// The texts of some strings.
pub open spec fn texts(items: Seq<String>) -> Seq<Seq<char>> {
    items.map_values(|s: String| s@)
}

/// Every item between `before` and `after`, one behind the other.
pub open spec fn each(items: Seq<Seq<char>>, before: Seq<char>, after: Seq<char>) -> Seq<char>
    decreases items.len(),
{
    if items.len() == 0 {
        Seq::empty()
    } else {
        each(items.drop_last(), before, after) + before + items.last() + after
    }
}

/// Appends every item between `before` and `after`.
fn push_each(out: &mut String, items: &Vec<String>, before: &str, after: &str)
    ensures
        final(out)@ == old(out)@ + each(texts(items@), before@, after@),
{
    let ghost start = out@;
    let ghost all = texts(items@);
    let mut i: usize = 0;
    assert(all.take(0) =~= Seq::empty());
    assert(out@ =~= start + each(all.take(0), before@, after@));
    while i < items.len()
        invariant
            i <= items@.len(),
            all == texts(items@),
            out@ == start + each(all.take(i as int), before@, after@),
        decreases items@.len() - i,
    {
        out.append(before);
        out.append(items[i].as_str());
        out.append(after);
        proof {
            assert(all.take(i + 1).drop_last() =~= all.take(i as int));
            assert(all.take(i + 1).last() == items@[i as int]@);
            assert(out@ =~= start + each(all.take(i + 1), before@, after@));
        }
        i = i + 1;
    }
    assert(all.take(items@.len() as int) =~= all);
}

/// A copy of a string.
fn copied(s: &String) -> (r: String)
    ensures
        r@ == s@,
{
    crate::text::text(s.as_str())
}

/// `prefix` and the numbers below `n`.
pub open spec fn numbered(prefix: Seq<char>, n: nat) -> Seq<Seq<char>> {
    Seq::new(n, |i: int| prefix + decimal(i as nat))
}

fn number_all(prefix: &str, n: usize) -> (r: Vec<String>)
    ensures
        texts(r@) == numbered(prefix@, n as nat),
{
    let mut out: Vec<String> = Vec::new();
    let mut i: usize = 0;
    assert(texts(out@) =~= numbered(prefix@, 0));
    while i < n
        invariant
            i <= n,
            texts(out@) == numbered(prefix@, i as nat),
        decreases n - i,
    {
        let mut s = String::new();
        s.append(prefix);
        push_decimal(&mut s, i as u64);
        proof {
            assert(s@ =~= prefix@ + decimal(i as nat));
            assert(texts(out@.push(s)) =~= texts(out@).push(s@));
            assert(numbered(prefix@, (i + 1) as nat) =~= numbered(prefix@, i as nat).push(s@));
        }
        out.push(s);
        i = i + 1;
    }
    out
}

/// The names of named fields.
pub open spec fn names(fields: Seq<Field>) -> Seq<Seq<char>> {
    fields.map_values(|f: Field| f.name@)
}

fn names_of(fields: &Vec<Field>) -> (r: Vec<String>)
    ensures
        texts(r@) == names(fields@),
{
    let mut out: Vec<String> = Vec::new();
    let mut i: usize = 0;
    assert(texts(out@) =~= names(fields@.take(0)));
    while i < fields.len()
        invariant
            i <= fields@.len(),
            texts(out@) == names(fields@.take(i as int)),
        decreases fields@.len() - i,
    {
        let s = copied(&fields[i].name);
        proof {
            assert(texts(out@.push(s)) =~= texts(out@).push(s@));
            assert(names(fields@.take(i + 1)) =~= names(fields@.take(i as int)).push(s@));
        }
        out.push(s);
        i = i + 1;
    }
    assert(fields@.take(fields@.len() as int) =~= fields@);
    out
}

impl Fields {
    /// How `self`'s fields are reached: by name, or by position.
    pub open spec fn accessors(&self) -> Seq<Seq<char>> {
        match self {
            Fields::Named(fields) => names(fields@),
            Fields::Unnamed(fields) => numbered(Seq::empty(), fields@.len()),
            Fields::Unit => Seq::empty(),
        }
    }

    /// The names that a match on a variant binds.
    pub open spec fn bindings(&self) -> Seq<Seq<char>> {
        match self {
            Fields::Named(fields) => names(fields@),
            Fields::Unnamed(fields) => numbered("field"@, fields@.len()),
            Fields::Unit => Seq::empty(),
        }
    }

    /// The pattern that binds them.
    pub open spec fn pattern(&self) -> Seq<char> {
        match self {
            Fields::Named(_) => "{ "@ + each(self.bindings(), ""@, ", "@) + "}"@,
            Fields::Unnamed(_) => "( "@ + each(self.bindings(), ""@, ", "@) + ")"@,
            Fields::Unit => ""@,
        }
    }

    /// What each field is decoded into.
    pub open spec fn targets(&self) -> Seq<Seq<char>> {
        match self {
            Fields::Named(fields) => fields@.map_values(|f: Field| f.name@ + ": <"@ + f.ty@),
            Fields::Unnamed(fields) => fields@.map_values(|f: Field| "<"@ + f.ty@),
            Fields::Unit => Seq::empty(),
        }
    }

    /// The constructor that decodes each field in declaration order.
    pub open spec fn construction(&self) -> Seq<char> {
        let each_field = each(
            self.targets(),
            ""@,
            " as ::ticktape::codec::Decode>::decode(buf)?, "@,
        );
        match self {
            Fields::Named(_) => "{ "@ + each_field + "}"@,
            Fields::Unnamed(_) => "( "@ + each_field + ")"@,
            Fields::Unit => ""@,
        }
    }

    /// The ways in which a struct's fields are reached, in order.
    pub fn field_accessors(&self) -> (r: Vec<String>)
        ensures
            texts(r@) == self.accessors(),
    {
        match self {
            Fields::Named(fields) => names_of(fields),
            Fields::Unnamed(fields) => {
                proof {
                    reveal_strlit("");
                    assert(""@ =~= Seq::<char>::empty());
                }
                number_all("", fields.len())
            },
            Fields::Unit => {
                let none: Vec<String> = Vec::new();
                assert(texts(none@) =~= Seq::empty());
                none
            },
        }
    }

    /// The pattern for a variant's fields and the names that it binds.
    pub fn variant_pattern(&self) -> (r: (String, Vec<String>))
        ensures
            r.0@ == self.pattern(),
            texts(r.1@) == self.bindings(),
    {
        let mut out = String::new();
        match self {
            Fields::Named(fields) => {
                let bound = names_of(fields);
                out.append("{ ");
                push_each(&mut out, &bound, "", ", ");
                out.append("}");
                assert(out@ =~= self.pattern());
                (out, bound)
            },
            Fields::Unnamed(fields) => {
                let bound = number_all("field", fields.len());
                out.append("( ");
                push_each(&mut out, &bound, "", ", ");
                out.append(")");
                assert(out@ =~= self.pattern());
                (out, bound)
            },
            Fields::Unit => {
                let none: Vec<String> = Vec::new();
                proof {
                    reveal_strlit("");
                    assert(texts(none@) =~= Seq::empty());
                    assert(out@ =~= ""@);
                }
                (out, none)
            },
        }
    }

    /// The constructor that decodes each field in declaration order.
    pub fn decode_fields(&self) -> (r: String)
        ensures
            r@ == self.construction(),
    {
        let mut out = String::new();
        match self {
            Fields::Named(fields) => {
                let items = targets_of(fields, true);
                out.append("{ ");
                push_each(
                    &mut out,
                    &items,
                    "",
                    " as ::ticktape::codec::Decode>::decode(buf)?, ",
                );
                out.append("}");
                assert(out@ =~= self.construction());
            },
            Fields::Unnamed(fields) => {
                let items = targets_of(fields, false);
                out.append("( ");
                push_each(
                    &mut out,
                    &items,
                    "",
                    " as ::ticktape::codec::Decode>::decode(buf)?, ",
                );
                out.append(")");
                assert(out@ =~= self.construction());
            },
            Fields::Unit => {
                proof {
                    reveal_strlit("");
                    assert(out@ =~= ""@);
                }
            },
        }
        out
    }
}

fn targets_of(fields: &Vec<Field>, named: bool) -> (r: Vec<String>)
    ensures
        texts(r@) == (if named {
            fields@.map_values(|f: Field| f.name@ + ": <"@ + f.ty@)
        } else {
            fields@.map_values(|f: Field| "<"@ + f.ty@)
        }),
{
    let ghost spelled = if named {
        |f: Field| f.name@ + ": <"@ + f.ty@
    } else {
        |f: Field| "<"@ + f.ty@
    };
    let mut out: Vec<String> = Vec::new();
    let mut i: usize = 0;
    assert(texts(out@) =~= fields@.take(0).map_values(spelled));
    while i < fields.len()
        invariant
            i <= fields@.len(),
            texts(out@) == fields@.take(i as int).map_values(spelled),
            spelled == (if named {
                |f: Field| f.name@ + ": <"@ + f.ty@
            } else {
                |f: Field| "<"@ + f.ty@
            }),
        decreases fields@.len() - i,
    {
        let mut s = String::new();
        if named {
            s.append(fields[i].name.as_str());
            s.append(": <");
        } else {
            s.append("<");
        }
        s.append(fields[i].ty.as_str());
        proof {
            assert(s@ =~= spelled(fields@[i as int]));
            assert(texts(out@.push(s)) =~= texts(out@).push(s@));
            assert(fields@.take(i + 1).map_values(spelled) =~= fields@.take(
                i as int,
            ).map_values(spelled).push(s@));
        }
        out.push(s);
        i = i + 1;
    }
    assert(fields@.take(fields@.len() as int) =~= fields@);
    out
}

impl Param {
    /// How the parameter is declared in an impl of `codec`.
    pub open spec fn declaration(&self, codec: Seq<char>) -> Seq<char> {
        match self {
            Param::Type { name, bounds } => if bounds@.len() == 0 {
                name@ + ": ::ticktape::codec::"@ + codec
            } else {
                name@ + ": "@ + bounds@ + " + ::ticktape::codec::"@ + codec
            },
            Param::Other { declared, .. } => declared@,
        }
    }

    /// How the parameter is used.
    pub open spec fn used(&self) -> Seq<char> {
        match self {
            Param::Type { name, .. } => name@,
            Param::Other { name, .. } => name@,
        }
    }

    fn declare(&self, codec: &str) -> (r: String)
        ensures
            r@ == self.declaration(codec@),
    {
        let mut out = String::new();
        match self {
            Param::Type { name, bounds } => {
                out.append(name.as_str());
                if bounds.as_str().unicode_len() == 0 {
                    out.append(": ::ticktape::codec::");
                } else {
                    out.append(": ");
                    out.append(bounds.as_str());
                    out.append(" + ::ticktape::codec::");
                }
                out.append(codec);
            },
            Param::Other { declared, .. } => {
                out.append(declared.as_str());
            },
        }
        assert(out@ =~= self.declaration(codec@));
        out
    }

    fn used_name(&self) -> (r: String)
        ensures
            r@ == self.used(),
    {
        match self {
            Param::Type { name, .. } => copied(name),
            Param::Other { name, .. } => copied(name),
        }
    }
}

/// The parameters as they are declared.
pub open spec fn declarations(params: Seq<Param>, codec: Seq<char>) -> Seq<Seq<char>> {
    params.map_values(|p: Param| p.declaration(codec))
}

/// The parameters as they are used.
pub open spec fn uses(params: Seq<Param>) -> Seq<Seq<char>> {
    params.map_values(|p: Param| p.used())
}

fn declare_all(params: &Vec<Param>, codec: &str) -> (r: Vec<String>)
    ensures
        texts(r@) == declarations(params@, codec@),
{
    let mut out: Vec<String> = Vec::new();
    let mut i: usize = 0;
    assert(texts(out@) =~= declarations(params@.take(0), codec@));
    while i < params.len()
        invariant
            i <= params@.len(),
            texts(out@) == declarations(params@.take(i as int), codec@),
        decreases params@.len() - i,
    {
        let s = params[i].declare(codec);
        proof {
            assert(texts(out@.push(s)) =~= texts(out@).push(s@));
            assert(declarations(params@.take(i + 1), codec@) =~= declarations(
                params@.take(i as int),
                codec@,
            ).push(s@));
        }
        out.push(s);
        i = i + 1;
    }
    assert(params@.take(params@.len() as int) =~= params@);
    out
}

fn use_all(params: &Vec<Param>) -> (r: Vec<String>)
    ensures
        texts(r@) == uses(params@),
{
    let mut out: Vec<String> = Vec::new();
    let mut i: usize = 0;
    assert(texts(out@) =~= uses(params@.take(0)));
    while i < params.len()
        invariant
            i <= params@.len(),
            texts(out@) == uses(params@.take(i as int)),
        decreases params@.len() - i,
    {
        let s = params[i].used_name();
        proof {
            assert(texts(out@.push(s)) =~= texts(out@).push(s@));
            assert(uses(params@.take(i + 1)) =~= uses(params@.take(i as int)).push(s@));
        }
        out.push(s);
        i = i + 1;
    }
    assert(params@.take(params@.len() as int) =~= params@);
    out
}

impl TypeDecl {
    /// The head of the impl of `codec`.
    pub open spec fn head(&self, codec: Seq<char>) -> Seq<char> {
        "impl< "@ + each(declarations(self.params@, codec), ""@, ", "@) + "> ::ticktape::codec::"@
            + codec + " for "@ + self.name@ + "< "@ + each(uses(self.params@), ""@, ", "@) + "> "@
            + self.where_clause@ + " { "@
    }

    fn push_head(&self, out: &mut String, codec: &str)
        ensures
            final(out)@ == old(out)@ + self.head(codec@),
    {
        let ghost start = out@;
        let declared = declare_all(&self.params, codec);
        let used = use_all(&self.params);
        out.append("impl< ");
        push_each(out, &declared, "", ", ");
        out.append("> ::ticktape::codec::");
        out.append(codec);
        out.append(" for ");
        out.append(self.name.as_str());
        out.append("< ");
        push_each(out, &used, "", ", ");
        out.append("> ");
        out.append(self.where_clause.as_str());
        out.append(" { ");
        assert(out@ =~= start + self.head(codec@));
    }
}

/// The match arm that encodes the variant with this index.
pub open spec fn encode_arm(v: Variant, index: nat) -> Seq<char> {
    "Self::"@ + v.name@ + " "@ + v.fields.pattern() + " => { ::ticktape::codec::Encode::encode(&"@
        + decimal(index) + "u16, out); "@ + each(
        v.fields.bindings(),
        "::ticktape::codec::Encode::encode("@,
        ", out); "@,
    ) + "} "@
}

/// The match arm that counts the bytes of the variant.
pub open spec fn len_arm(v: Variant) -> Seq<char> {
    "Self::"@ + v.name@ + " "@ + v.fields.pattern() + " => { 2usize"@ + each(
        v.fields.bindings(),
        " + ::ticktape::codec::Encode::encoded_len("@,
        ")"@,
    ) + " } "@
}

/// The match arm that decodes the variant with this index.
pub open spec fn decode_arm(v: Variant, index: nat) -> Seq<char> {
    decimal(index) + "u16 => ::core::result::Result::Ok(Self::"@ + v.name@ + " "@
        + v.fields.construction() + "), "@
}

/// All encoding arms, in declaration order.
pub open spec fn encode_arms(variants: Seq<Variant>) -> Seq<char>
    decreases variants.len(),
{
    if variants.len() == 0 {
        Seq::empty()
    } else {
        encode_arms(variants.drop_last()) + encode_arm(
            variants.last(),
            (variants.len() - 1) as nat,
        )
    }
}

/// All counting arms, in declaration order.
pub open spec fn len_arms(variants: Seq<Variant>) -> Seq<char>
    decreases variants.len(),
{
    if variants.len() == 0 {
        Seq::empty()
    } else {
        len_arms(variants.drop_last()) + len_arm(variants.last())
    }
}

/// All decoding arms, in declaration order.
pub open spec fn decode_arms(variants: Seq<Variant>) -> Seq<char>
    decreases variants.len(),
{
    if variants.len() == 0 {
        Seq::empty()
    } else {
        decode_arms(variants.drop_last()) + decode_arm(
            variants.last(),
            (variants.len() - 1) as nat,
        )
    }
}

impl Shape {
    /// Why there is no codec for this shape, if there is none.
    pub open spec fn refusal(&self) -> Option<DeriveError> {
        match self {
            Shape::Struct(_) => None,
            Shape::Enum(variants) => if variants@.len() > u16::MAX {
                Some(DeriveError::TooManyVariants)
            } else {
                None
            },
            Shape::Union => Some(DeriveError::Union),
        }
    }

    /// The body of `encode`.
    pub open spec fn encode_body(&self) -> Seq<char> {
        match self {
            Shape::Struct(fields) => each(
                fields.accessors(),
                "::ticktape::codec::Encode::encode(&self."@,
                ", out); "@,
            ),
            Shape::Enum(variants) => "match self { "@ + encode_arms(variants@) + "}"@,
            Shape::Union => Seq::empty(),
        }
    }

    /// The body of `encoded_len`.
    pub open spec fn len_body(&self) -> Seq<char> {
        match self {
            Shape::Struct(fields) => "0usize"@ + each(
                fields.accessors(),
                " + ::ticktape::codec::Encode::encoded_len(&self."@,
                ")"@,
            ),
            Shape::Enum(variants) => "match self { "@ + len_arms(variants@) + "}"@,
            Shape::Union => Seq::empty(),
        }
    }

    /// The body of `decode`.
    pub open spec fn decode_body(&self) -> Seq<char> {
        match self {
            Shape::Struct(fields) => "::core::result::Result::Ok(Self "@ + fields.construction()
                + ")"@,
            Shape::Enum(variants) => "match <u16 as ::ticktape::codec::Decode>::decode(buf)? { "@
                + decode_arms(variants@)
                + "_ => ::core::result::Result::Err(::ticktape::codec::CodecError::InvalidValue(\"enum discriminant\")), }"@,
            Shape::Union => Seq::empty(),
        }
    }
}

/// The whole `Encode` impl.
pub open spec fn encode_impl(decl: &TypeDecl) -> Seq<char> {
    decl.head("Encode"@) + "fn encode(&self, out: &mut ::std::vec::Vec<u8>) { "@
        + decl.shape.encode_body() + " } fn encoded_len(&self) -> usize { "@
        + decl.shape.len_body()
        + " } fn encodable(&self) -> bool { true } fn bytes(&self) -> ::ticktape::codec::Bytes { loop {} } }"@
}

/// The whole `Decode` impl.
pub open spec fn decode_impl(decl: &TypeDecl) -> Seq<char> {
    decl.head("Decode"@)
        + "fn decode(buf: &mut &[u8]) -> ::core::result::Result<Self, ::ticktape::codec::CodecError> { "@
        + decl.shape.decode_body()
        + " } fn parse(_: ::ticktape::codec::Bytes) -> ::ticktape::codec::Parsed { loop {} } fn same(&self, _: &Self) -> bool { loop {} } fn law_parse_is_bounded(_: ::ticktape::codec::Bytes) {} fn law_roundtrip(&self, _: ::ticktape::codec::Bytes) {} fn law_canonical(&self, _: &Self) {} }"@
}

/// Appends all encoding arms.
fn push_encode_arms(out: &mut String, variants: &Vec<Variant>)
    ensures
        final(out)@ == old(out)@ + encode_arms(variants@),
{
    let ghost start = out@;
    let mut i: usize = 0;
    assert(out@ =~= start + encode_arms(variants@.take(0)));
    while i < variants.len()
        invariant
            i <= variants@.len(),
            out@ == start + encode_arms(variants@.take(i as int)),
        decreases variants@.len() - i,
    {
        let v = &variants[i];
        let (pattern, bound) = v.fields.variant_pattern();
        out.append("Self::");
        out.append(v.name.as_str());
        out.append(" ");
        out.append(pattern.as_str());
        out.append(" => { ::ticktape::codec::Encode::encode(&");
        push_decimal(out, i as u64);
        out.append("u16, out); ");
        push_each(out, &bound, "::ticktape::codec::Encode::encode(", ", out); ");
        out.append("} ");
        proof {
            assert(variants@.take(i + 1).drop_last() =~= variants@.take(i as int));
            assert(out@ =~= start + encode_arms(variants@.take(i as int)) + encode_arm(
                *v,
                i as nat,
            ));
            assert(out@ =~= start + encode_arms(variants@.take(i + 1)));
        }
        i = i + 1;
    }
    assert(variants@.take(variants@.len() as int) =~= variants@);
}

/// Appends all counting arms.
fn push_len_arms(out: &mut String, variants: &Vec<Variant>)
    ensures
        final(out)@ == old(out)@ + len_arms(variants@),
{
    let ghost start = out@;
    let mut i: usize = 0;
    assert(out@ =~= start + len_arms(variants@.take(0)));
    while i < variants.len()
        invariant
            i <= variants@.len(),
            out@ == start + len_arms(variants@.take(i as int)),
        decreases variants@.len() - i,
    {
        let v = &variants[i];
        let (pattern, bound) = v.fields.variant_pattern();
        out.append("Self::");
        out.append(v.name.as_str());
        out.append(" ");
        out.append(pattern.as_str());
        out.append(" => { 2usize");
        push_each(out, &bound, " + ::ticktape::codec::Encode::encoded_len(", ")");
        out.append(" } ");
        proof {
            assert(variants@.take(i + 1).drop_last() =~= variants@.take(i as int));
            assert(out@ =~= start + len_arms(variants@.take(i as int)) + len_arm(*v));
            assert(out@ =~= start + len_arms(variants@.take(i + 1)));
        }
        i = i + 1;
    }
    assert(variants@.take(variants@.len() as int) =~= variants@);
}

/// Appends all decoding arms.
fn push_decode_arms(out: &mut String, variants: &Vec<Variant>)
    ensures
        final(out)@ == old(out)@ + decode_arms(variants@),
{
    let ghost start = out@;
    let mut i: usize = 0;
    assert(out@ =~= start + decode_arms(variants@.take(0)));
    while i < variants.len()
        invariant
            i <= variants@.len(),
            out@ == start + decode_arms(variants@.take(i as int)),
        decreases variants@.len() - i,
    {
        let v = &variants[i];
        push_decimal(out, i as u64);
        out.append("u16 => ::core::result::Result::Ok(Self::");
        out.append(v.name.as_str());
        out.append(" ");
        let construct = v.fields.decode_fields();
        out.append(construct.as_str());
        out.append("), ");
        proof {
            assert(variants@.take(i + 1).drop_last() =~= variants@.take(i as int));
            assert(out@ =~= start + decode_arms(variants@.take(i as int)) + decode_arm(
                *v,
                i as nat,
            ));
            assert(out@ =~= start + decode_arms(variants@.take(i + 1)));
        }
        i = i + 1;
    }
    assert(variants@.take(variants@.len() as int) =~= variants@);
}

/// The text of the `Encode` impl of a type.
pub fn expand_encode(decl: &TypeDecl) -> (r: Result<String, DeriveError>)
    ensures
        match decl.shape.refusal() {
            Some(e) => r == Err::<String, DeriveError>(e),
            None => r is Ok && r->Ok_0@ == encode_impl(decl),
        },
{
    let mut body = String::new();
    let mut len = String::new();
    match &decl.shape {
        Shape::Struct(fields) => {
            let accessors = fields.field_accessors();
            push_each(
                &mut body,
                &accessors,
                "::ticktape::codec::Encode::encode(&self.",
                ", out); ",
            );
            len.append("0usize");
            push_each(
                &mut len,
                &accessors,
                " + ::ticktape::codec::Encode::encoded_len(&self.",
                ")",
            );
            assert(body@ =~= decl.shape.encode_body());
            assert(len@ =~= decl.shape.len_body());
        },
        Shape::Enum(variants) => {
            if variants.len() > u16::MAX as usize {
                return Err(DeriveError::TooManyVariants);
            }
            body.append("match self { ");
            push_encode_arms(&mut body, variants);
            body.append("}");
            len.append("match self { ");
            push_len_arms(&mut len, variants);
            len.append("}");
            assert(body@ =~= decl.shape.encode_body());
            assert(len@ =~= decl.shape.len_body());
        },
        Shape::Union => {
            return Err(DeriveError::Union);
        },
    }
    let mut out = String::new();
    decl.push_head(&mut out, "Encode");
    out.append("fn encode(&self, out: &mut ::std::vec::Vec<u8>) { ");
    out.append(body.as_str());
    out.append(" } fn encoded_len(&self) -> usize { ");
    out.append(len.as_str());
    out.append(
        " } fn encodable(&self) -> bool { true } fn bytes(&self) -> ::ticktape::codec::Bytes { loop {} } }",
    );
    assert(out@ =~= encode_impl(decl));
    Ok(out)
}

/// The text of the `Decode` impl of a type.
pub fn expand_decode(decl: &TypeDecl) -> (r: Result<String, DeriveError>)
    ensures
        match decl.shape.refusal() {
            Some(e) => r == Err::<String, DeriveError>(e),
            None => r is Ok && r->Ok_0@ == decode_impl(decl),
        },
{
    let mut body = String::new();
    match &decl.shape {
        Shape::Struct(fields) => {
            let construct = fields.decode_fields();
            body.append("::core::result::Result::Ok(Self ");
            body.append(construct.as_str());
            body.append(")");
            assert(body@ =~= decl.shape.decode_body());
        },
        Shape::Enum(variants) => {
            if variants.len() > u16::MAX as usize {
                return Err(DeriveError::TooManyVariants);
            }
            body.append("match <u16 as ::ticktape::codec::Decode>::decode(buf)? { ");
            push_decode_arms(&mut body, variants);
            body.append(
                "_ => ::core::result::Result::Err(::ticktape::codec::CodecError::InvalidValue(\"enum discriminant\")), }",
            );
            assert(body@ =~= decl.shape.decode_body());
        },
        Shape::Union => {
            return Err(DeriveError::Union);
        },
    }
    let mut out = String::new();
    decl.push_head(&mut out, "Decode");
    out.append(
        "fn decode(buf: &mut &[u8]) -> ::core::result::Result<Self, ::ticktape::codec::CodecError> { ",
    );
    out.append(body.as_str());
    out.append(
        " } fn parse(_: ::ticktape::codec::Bytes) -> ::ticktape::codec::Parsed { loop {} } fn same(&self, _: &Self) -> bool { loop {} } fn law_parse_is_bounded(_: ::ticktape::codec::Bytes) {} fn law_roundtrip(&self, _: ::ticktape::codec::Bytes) {} fn law_canonical(&self, _: &Self) {} }",
    );
    assert(out@ =~= decode_impl(decl));
    Ok(out)
}

/// A variant is decoded under the discriminant that it is encoded under: its
/// declaration index, whatever comes behind it.
pub proof fn law_discriminants_agree(variants: Seq<Variant>, index: int)
    requires
        0 <= index < variants.len(),
    ensures
        encode_arms(variants.take(index + 1)) == encode_arms(variants.take(index)) + encode_arm(
            variants[index],
            index as nat,
        ),
        decode_arms(variants.take(index + 1)) == decode_arms(variants.take(index)) + decode_arm(
            variants[index],
            index as nat,
        ),
        encode_arms(variants.take(index + 1)).is_prefix_of(encode_arms(variants)),
        decode_arms(variants.take(index + 1)).is_prefix_of(decode_arms(variants)),
    decreases variants.len(),
{
    let head = variants.take(index + 1);
    assert(head.drop_last() =~= variants.take(index));
    assert(head.last() == variants[index]);
    if index + 1 == variants.len() {
        assert(head =~= variants);
    } else {
        let front = variants.drop_last();
        law_discriminants_agree(front, index);
        assert(front.take(index + 1) =~= head);
        assert(front.take(index) =~= variants.take(index));
    }
}

/// Items are written one behind the other, each once, with the same in front of it
/// and behind it.
pub proof fn law_each_item_is_written_once(
    a: Seq<Seq<char>>,
    b: Seq<Seq<char>>,
    item: Seq<char>,
    before: Seq<char>,
    after: Seq<char>,
)
    ensures
        each(Seq::empty(), before, after) == Seq::<char>::empty(),
        each(seq![item], before, after) == before + item + after,
        each(a + b, before, after) == each(a, before, after) + each(b, before, after),
    decreases b.len(),
{
    assert(seq![item].drop_last() =~= Seq::empty());
    assert(each(seq![item].drop_last(), before, after) == Seq::<char>::empty());
    assert(each(seq![item], before, after) =~= before + item + after);
    if b.len() == 0 {
        assert(a + b =~= a);
        assert(each(a, before, after) + each(b, before, after) =~= each(a, before, after));
    } else {
        assert((a + b).drop_last() =~= a + b.drop_last());
        law_each_item_is_written_once(a, b.drop_last(), item, before, after);
        assert(each(a + b, before, after) =~= each(a, before, after) + each(b, before, after));
    }
}

/// Every field is reached, bound and decoded at its place: by its name where it
/// has one, and else by its position.
pub proof fn law_every_field_has_its_place(fields: Vec<Field>, i: int)
    ensures
        Fields::Named(fields).accessors().len() == fields@.len(),
        Fields::Named(fields).targets().len() == fields@.len(),
        Fields::Unnamed(fields).accessors().len() == fields@.len(),
        Fields::Unnamed(fields).bindings().len() == fields@.len(),
        Fields::Unnamed(fields).targets().len() == fields@.len(),
        Fields::Unit.accessors().len() == 0 && Fields::Unit.targets().len() == 0,
        Fields::Named(fields).bindings() == Fields::Named(fields).accessors(),
        0 <= i < fields@.len() ==> {
            &&& Fields::Named(fields).accessors()[i] == fields@[i].name@
            &&& Fields::Named(fields).targets()[i] == fields@[i].name@ + ": <"@ + fields@[i].ty@
            &&& Fields::Unnamed(fields).accessors()[i] == decimal(i as nat)
            &&& Fields::Unnamed(fields).bindings()[i] == "field"@ + decimal(i as nat)
            &&& Fields::Unnamed(fields).targets()[i] == "<"@ + fields@[i].ty@
        },
{
    if 0 <= i < fields@.len() {
        assert(Fields::Unnamed(fields).accessors()[i] =~= decimal(i as nat));
    }
}

/// What is encoded of a value is counted: the fields of a struct, and of a variant
/// its two bytes of discriminant and its fields, all through the same accessors or
/// bindings.
pub proof fn law_what_is_encoded_is_counted(fields: Fields, v: Variant, variants: Seq<Variant>)
    ensures
        Shape::Struct(fields).encode_body() == each(
            fields.accessors(),
            "::ticktape::codec::Encode::encode(&self."@,
            ", out); "@,
        ),
        Shape::Struct(fields).len_body() == "0usize"@ + each(
            fields.accessors(),
            " + ::ticktape::codec::Encode::encoded_len(&self."@,
            ")"@,
        ),
        len_arm(v) == "Self::"@ + v.name@ + " "@ + v.fields.pattern() + " => { 2usize"@ + each(
            v.fields.bindings(),
            " + ::ticktape::codec::Encode::encoded_len("@,
            ")"@,
        ) + " } "@,
        len_arms(variants.push(v)) == len_arms(variants) + len_arm(v),
        len_arms(Seq::empty()) == Seq::<char>::empty(),
{
    assert(variants.push(v).drop_last() =~= variants);
}

/// A codec is refused for unions, and for enums with more variants than a
/// discriminant can tell apart.
pub proof fn law_refused_shapes(fields: Fields, variants: Vec<Variant>)
    ensures
        Shape::Struct(fields).refusal() is None,
        Shape::Enum(variants).refusal() is Some <==> variants@.len() > 65_535,
        variants@.len() > 65_535 ==> Shape::Enum(variants).refusal() == Some(
            DeriveError::TooManyVariants,
        ),
        Shape::Union.refusal() == Some(DeriveError::Union),
{
}

/// A type parameter is bound by the codec that is derived, behind its own bounds
/// where it has any, and is used by its name; other parameters stay as they are.
pub proof fn law_type_parameters_are_bound(p: Param, codec: Seq<char>)
    ensures
        p matches Param::Type { name, bounds } ==> {
            &&& bounds@.len() == 0 ==> p.declaration(codec) == name@ + ": ::ticktape::codec::"@
                + codec
            &&& bounds@.len() > 0 ==> p.declaration(codec) == name@ + ": "@ + bounds@
                + " + ::ticktape::codec::"@ + codec
            &&& p.used() == name@
        },
        p matches Param::Other { declared, name } ==> p.declaration(codec) == declared@ && p.used()
            == name@,
{
}

} // verus!
