//! Canonical and textual tag codecs, hex readers, and the JSON grammar.
use mvm_rpc::canon::{parse_canonical, to_canonical};
use mvm_rpc::convert::parse_struct_tag_string3;
use mvm_rpc::errors::Error;
use mvm_rpc::hex::{bytes_to_hex_string, parse_address_literal, parse_hex_string};
use mvm_rpc::json::{parse_json, json_to_bytes, JsonValue};
use mvm_rpc::text::parse_textual;
use mvm_rpc::types::{AccountAddress, Identifier, StructTag, TypeTag};

fn ident(name: &str) -> Identifier {
    Identifier::from_bytes(name.as_bytes().to_vec()).unwrap()
}

fn addr(v: &str) -> AccountAddress {
    parse_address_literal(v.as_bytes()).unwrap()
}

fn coin_tag() -> StructTag {
    StructTag {
        address: addr("0x1"),
        module: ident("Coin"),
        name: ident("Coin"),
        type_args: vec![TypeTag::Struct(StructTag {
            address: addr("0x2a"),
            module: ident("Money"),
            name: ident("USD"),
            type_args: vec![],
        })],
    }
}

#[test]
fn canonical_round_trip_simple() {
    let tag = StructTag {
        address: addr("0x1"),
        module: ident("A"),
        name: ident("B"),
        type_args: vec![],
    };
    let bytes = to_canonical(&tag);
    // 32 address bytes, then length-prefixed "A" and "B", then a zero
    // argument count.
    let mut expected = vec![0u8; 32];
    expected[31] = 1;
    expected.extend_from_slice(&[1, 65, 1, 66, 0]);
    assert_eq!(bytes, expected);
    let back = parse_canonical(&bytes).unwrap();
    assert_eq!(back, tag);
}

#[test]
fn canonical_round_trip_nested() {
    let tag = StructTag {
        address: addr("0xcafe"),
        module: ident("Outer"),
        name: ident("Wrapper"),
        type_args: vec![
            TypeTag::U8,
            TypeTag::Vector(Box::new(TypeTag::U128)),
            TypeTag::Struct(coin_tag()),
            TypeTag::Bool,
            TypeTag::Address,
            TypeTag::Signer,
            TypeTag::U64,
        ],
    };
    let bytes = to_canonical(&tag);
    let back = parse_canonical(&bytes).unwrap();
    assert_eq!(back, tag);
    // the byte-identity direction: re-encoding the decoded tag
    assert_eq!(to_canonical(&back), bytes);
}

#[test]
fn canonical_rejects_trailing_and_truncated() {
    let tag = coin_tag();
    let mut bytes = to_canonical(&tag);
    bytes.push(0);
    assert_eq!(parse_canonical(&bytes).unwrap_err(), Error::CorruptEncoding);
    bytes.pop();
    bytes.pop();
    assert_eq!(parse_canonical(&bytes).unwrap_err(), Error::CorruptEncoding);
}

#[test]
fn canonical_rejects_non_minimal_length() {
    // A module name length written as a two-byte ULEB run for the value 1.
    let mut bytes = Vec::new();
    bytes.extend_from_slice(&[0u8; 31]);
    bytes.push(1);
    // module ident: non-minimal uleb for len 1
    bytes.extend_from_slice(&[0x81, 0x00, 65]);
    bytes.extend_from_slice(&[1, 66, 0]);
    assert_eq!(parse_canonical(&bytes).unwrap_err(), Error::CorruptEncoding);
}

#[test]
fn canonical_rejects_bad_identifier() {
    let mut bytes = Vec::new();
    bytes.extend_from_slice(&[0u8; 31]);
    bytes.push(1);
    // module ident "9A" starts with a digit
    bytes.extend_from_slice(&[2, 57, 65]);
    bytes.extend_from_slice(&[1, 66, 0]);
    assert_eq!(parse_canonical(&bytes).unwrap_err(), Error::CorruptEncoding);
}

#[test]
fn textual_parse_simple() {
    let st = parse_textual(b"0x1::Coin::Coin").unwrap();
    assert_eq!(st.address, addr("0x1"));
    assert_eq!(st.module, ident("Coin"));
    assert_eq!(st.name, ident("Coin"));
    assert!(st.type_args.is_empty());
}

#[test]
fn textual_parse_nested_args() {
    let st = parse_textual(b"0x1::Coin::Coin<0x2a::Money::USD,vector<u8>,bool>").unwrap();
    assert_eq!(st.type_args.len(), 3);
    assert_eq!(
        st.type_args[0],
        TypeTag::Struct(StructTag {
            address: addr("0x2a"),
            module: ident("Money"),
            name: ident("USD"),
            type_args: vec![],
        })
    );
    assert_eq!(st.type_args[1], TypeTag::Vector(Box::new(TypeTag::U8)));
    assert_eq!(st.type_args[2], TypeTag::Bool);
}

#[test]
fn textual_parse_rejects_malformed() {
    assert!(parse_textual(b"0x1::Coin").is_err());
    assert!(parse_textual(b"Coin::Coin::Coin").is_err());
    assert!(parse_textual(b"0x1::Coin::Coin<").is_err());
    assert!(parse_textual(b"0x1::Coin::Coin<u9>").is_err());
    assert!(parse_textual(b"0x1::Coin::Coin trailing").is_err());
}

#[test]
fn textual_to_canonical_chain() {
    let (bytes, st, module_bytes) =
        parse_struct_tag_string3(b"0x1::Coin::Coin<0x2a::Money::USD>".to_vec()).unwrap();
    assert_eq!(bytes, to_canonical(&st));
    // module id bytes: address then the module name
    let mut expected = st.address.bytes.clone();
    expected.extend_from_slice(&[4, 67, 111, 105, 110]);
    assert_eq!(module_bytes, expected);
    let back = parse_canonical(&bytes).unwrap();
    assert_eq!(back, st);
}

#[test]
fn address_literal_pads_left() {
    let a = addr("0x1");
    let mut expected = vec![0u8; 32];
    expected[31] = 1;
    assert_eq!(a.bytes, expected);
    let b = addr("0xA550C18");
    assert_eq!(&b.bytes[28..], &[0x0A, 0x55, 0x0C, 0x18]);
    assert!(parse_address_literal(b"0x").is_none());
    assert!(parse_address_literal(b"1234").is_none());
    let too_long = format!("0x{}", "0".repeat(65));
    assert!(parse_address_literal(too_long.as_bytes()).is_none());
}

#[test]
fn hex_strings_round_trip() {
    assert_eq!(parse_hex_string(b"0x0102").unwrap(), vec![1, 2]);
    assert_eq!(parse_hex_string(b"0102").unwrap(), vec![1, 2]);
    assert_eq!(parse_hex_string(b"").unwrap(), Vec::<u8>::new());
    assert_eq!(parse_hex_string(b"0x").unwrap(), Vec::<u8>::new());
    assert!(parse_hex_string(b"0x123").is_none());
    assert!(parse_hex_string(b"zz").is_none());
    assert_eq!(bytes_to_hex_string(&[0xde, 0xad]), b"0xdead".to_vec());
    assert_eq!(
        parse_hex_string(&bytes_to_hex_string(&[7, 0, 255])).unwrap(),
        vec![7, 0, 255]
    );
}

#[test]
fn json_parses_scalars_and_nesting() {
    assert_eq!(parse_json(b"true").unwrap(), JsonValue::Bool(true));
    assert_eq!(parse_json(b" null ").unwrap(), JsonValue::Null);
    assert_eq!(
        parse_json(b"340282366920938463463374607431768211455").unwrap(),
        JsonValue::Num { neg: false, mag: u128::MAX }
    );
    assert!(parse_json(b"340282366920938463463374607431768211456").is_err());
    assert_eq!(
        parse_json(b"-12").unwrap(),
        JsonValue::Num { neg: true, mag: 12 }
    );
    assert_eq!(
        parse_json(b"[1, \"a\\n\", {\"k\": []}]").unwrap(),
        JsonValue::Arr(vec![
            JsonValue::Num { neg: false, mag: 1 },
            JsonValue::Str(b"a\n".to_vec()),
            JsonValue::Obj(vec![(b"k".to_vec(), JsonValue::Arr(vec![]))]),
        ])
    );
    assert!(parse_json(b"1.5").is_err());
    assert!(parse_json(b"01").is_err());
    assert!(parse_json(b"[1,]").is_err());
    assert!(parse_json(b"\"unterminated").is_err());
    assert!(parse_json(b"true false").is_err());
}

#[test]
fn json_unicode_escape() {
    assert_eq!(parse_json(b"\"\\u0041\"").unwrap(), JsonValue::Str(b"A".to_vec()));
    assert_eq!(
        parse_json(b"\"\\u00e9\"").unwrap(),
        JsonValue::Str(vec![0xC3, 0xA9])
    );
    assert!(parse_json(b"\"\\ud800\"").is_err());
}

#[test]
fn json_print_is_compact() {
    let v = JsonValue::Obj(vec![
        (b"x".to_vec(), JsonValue::Num { neg: false, mag: 1 }),
        (
            b"y".to_vec(),
            JsonValue::Arr(vec![JsonValue::Bool(false), JsonValue::Str(b"a\"b".to_vec())]),
        ),
    ]);
    assert_eq!(json_to_bytes(&v), b"{\"x\":1,\"y\":[false,\"a\\\"b\"]}".to_vec());
    let back = parse_json(&json_to_bytes(&v)).unwrap();
    assert_eq!(back, v);
}
