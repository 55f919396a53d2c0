//! Writing codec impls: the text for structs, enums and generic types.

use ticktape::derive::{
    expand_decode, expand_encode, DeriveError, Field, Fields, Param, Shape, TypeDecl, Variant,
};

fn field(name: &str, ty: &str) -> Field {
    Field {
        name: name.to_string(),
        ty: ty.to_string(),
    }
}

fn decl(name: &str, shape: Shape) -> TypeDecl {
    TypeDecl {
        name: name.to_string(),
        params: Vec::new(),
        where_clause: String::new(),
        shape,
    }
}

/// The tokens of a text, so that blanks do not count.
fn tokens(text: &str) -> String {
    text.parse::<proc_macro2::TokenStream>().unwrap().to_string()
}

fn holds(text: &str, part: &str) -> bool {
    tokens(text).contains(&tokens(part))
}

#[test]
fn struct_fields_are_encoded_in_declaration_order() {
    let point = decl(
        "Point",
        Shape::Struct(Fields::Named(vec![field("x", "u32"), field("y", "i64")])),
    );
    let encode = expand_encode(&point).unwrap();
    assert!(holds(
        &encode,
        "::ticktape::codec::Encode::encode(&self.x, out); \
         ::ticktape::codec::Encode::encode(&self.y, out);"
    ));
    assert!(holds(
        &encode,
        "0usize + ::ticktape::codec::Encode::encoded_len(&self.x) \
         + ::ticktape::codec::Encode::encoded_len(&self.y)"
    ));
    let decode = expand_decode(&point).unwrap();
    assert!(holds(
        &decode,
        "x: <u32 as ::ticktape::codec::Decode>::decode(buf)?, \
         y: <i64 as ::ticktape::codec::Decode>::decode(buf)?"
    ));
}

#[test]
fn tuple_structs_are_reached_by_index() {
    let pair = decl(
        "Pair",
        Shape::Struct(Fields::Unnamed(vec![field("", "u8"), field("", "u16")])),
    );
    let encode = expand_encode(&pair).unwrap();
    assert!(holds(
        &encode,
        "::ticktape::codec::Encode::encode(&self.0, out); \
         ::ticktape::codec::Encode::encode(&self.1, out);"
    ));
    let decode = expand_decode(&pair).unwrap();
    assert!(holds(
        &decode,
        "<u8 as ::ticktape::codec::Decode>::decode(buf)?, \
         <u16 as ::ticktape::codec::Decode>::decode(buf)?"
    ));
}

#[test]
fn the_discriminant_is_the_declaration_index() {
    let cmd = decl(
        "Cmd",
        Shape::Enum(vec![
            Variant {
                name: "Zero".to_string(),
                fields: Fields::Unit,
            },
            Variant {
                name: "Bump".to_string(),
                fields: Fields::Unnamed(vec![field("", "i64")]),
            },
            Variant {
                name: "Move".to_string(),
                fields: Fields::Named(vec![field("to", "u8")]),
            },
        ]),
    );
    let encode = expand_encode(&cmd).unwrap();
    assert!(holds(
        &encode,
        "::ticktape::codec::Encode::encode(&0u16, out);"
    ));
    assert!(holds(
        &encode,
        "::ticktape::codec::Encode::encode(&2u16, out);"
    ));
    let decode = expand_decode(&cmd).unwrap();
    assert!(decode.contains("0u16 => ::core::result::Result::Ok(Self::Zero"));
    assert!(decode.contains("1u16 => ::core::result::Result::Ok(Self::Bump"));
    assert!(holds(
        &decode,
        "_ => ::core::result::Result::Err(\
         ::ticktape::codec::CodecError::InvalidValue(\"enum discriminant\"))"
    ));
}

#[test]
fn a_generic_type_is_encodable_where_its_parameters_are() {
    let wrapper = TypeDecl {
        name: "Wrapper".to_string(),
        params: vec![
            Param::Other {
                name: "'a".to_string(),
                declared: "'a".to_string(),
            },
            Param::Type {
                name: "T".to_string(),
                bounds: String::new(),
            },
            Param::Type {
                name: "U".to_string(),
                bounds: "Clone".to_string(),
            },
        ],
        where_clause: "where T: 'a".to_string(),
        shape: Shape::Struct(Fields::Named(vec![field("inner", "T")])),
    };
    let encode = expand_encode(&wrapper).unwrap();
    assert!(holds(
        &encode,
        "T: ::ticktape::codec::Encode, U: Clone + ::ticktape::codec::Encode"
    ));
    assert!(holds(&encode, "for Wrapper< 'a, T, U, > where T: 'a"));
    let decode = expand_decode(&wrapper).unwrap();
    assert!(holds(
        &decode,
        "T: ::ticktape::codec::Decode, U: Clone + ::ticktape::codec::Decode"
    ));
}

#[test]
fn what_has_no_codec_is_refused() {
    let union = decl("U", Shape::Union);
    assert_eq!(expand_encode(&union), Err(DeriveError::Union));
    assert_eq!(expand_decode(&union), Err(DeriveError::Union));
    assert_eq!(
        DeriveError::Union.message("Encode"),
        "unions cannot derive Encode"
    );

    let unit = || Variant {
        name: "V".to_string(),
        fields: Fields::Unit,
    };
    let most = decl("Most", Shape::Enum((0..65_535).map(|_| unit()).collect()));
    assert!(expand_decode(&most).is_ok());
    let more = decl("More", Shape::Enum((0..65_537).map(|_| unit()).collect()));
    assert_eq!(expand_encode(&more), Err(DeriveError::TooManyVariants));
    assert_eq!(
        DeriveError::TooManyVariants.message("Encode"),
        "enum has more than u16::MAX variants"
    );
}
