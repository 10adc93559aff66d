//! Value conversion properties: field order, the byte-vector hex special
//! case, numeric bounds, table lookups, and the decode/encode inverse.
use mvm_rpc::convert::{
    table_item_key, table_item_value_bytes, struct_to_json, MoveConverter, StateView,
    new_vm_utf8_string, tag_to_layout,
};
use mvm_rpc::errors::Error;
use mvm_rpc::json::{parse_json, json_to_bytes, JsonValue};
use mvm_rpc::hex::parse_address_literal;
use mvm_rpc::info::{
    AbilitySet, CompiledModule, FunctionDecl, Script, TypeAbilities, TypeAbility, Visibility,
    find_script_function,
};
use mvm_rpc::constant::{sig_to_ty, ty_to_sig, SignatureToken};
use mvm_rpc::fn_call::{make_function_call, pontem_parse_address};
use mvm_rpc::types::{AccountAddress, Identifier, TypeTag};
use mvm_rpc::value::{
    decode_value, serialize_value, MoveStructLayout, MoveTypeLayout, MoveValue,
    project_value_to_json,
};

fn ident(name: &str) -> Identifier {
    Identifier::from_bytes(name.as_bytes().to_vec()).unwrap()
}

fn point_layout() -> MoveTypeLayout {
    MoveTypeLayout::Struct(MoveStructLayout {
        fields: vec![
            (ident("x"), MoveTypeLayout::U8),
            (ident("y"), MoveTypeLayout::U64),
        ],
    })
}

#[test]
fn struct_fields_follow_declared_order() {
    // JSON member order is y before x; the encoded fields follow the
    // declared order x, y.
    let json = parse_json(b"{\"y\":2,\"x\":1}").unwrap();
    let v = MoveConverter::try_into_vm_value(&point_layout(), &json).unwrap();
    assert_eq!(v, MoveValue::Struct(vec![MoveValue::U8(1), MoveValue::U64(2)]));
}

#[test]
fn struct_extra_members_are_ignored_and_missing_reported() {
    let json = parse_json(b"{\"x\":1,\"y\":2,\"z\":3}").unwrap();
    let v = MoveConverter::try_into_vm_value(&point_layout(), &json).unwrap();
    assert_eq!(v, MoveValue::Struct(vec![MoveValue::U8(1), MoveValue::U64(2)]));
    let json = parse_json(b"{\"x\":1}").unwrap();
    let e = MoveConverter::try_into_vm_value(&point_layout(), &json).unwrap_err();
    assert_eq!(e, Error::MissingField { field: b"y".to_vec() });
}

#[test]
fn byte_vector_accepts_hex_strings() {
    let layout = MoveTypeLayout::Vector(Box::new(MoveTypeLayout::U8));
    let v = MoveConverter::try_into_vm_value(&layout, &parse_json(b"\"0x0102\"").unwrap())
        .unwrap();
    assert_eq!(v, MoveValue::Vector(vec![MoveValue::U8(1), MoveValue::U8(2)]));
    let v = MoveConverter::try_into_vm_value(&layout, &parse_json(b"\"\"").unwrap()).unwrap();
    assert_eq!(v, MoveValue::Vector(vec![]));
    // A JSON array is not accepted for byte vectors.
    let e = MoveConverter::try_into_vm_value(&layout, &parse_json(b"[1,2]").unwrap())
        .unwrap_err();
    assert_eq!(e, Error::TypeMismatch);
}

#[test]
fn numeric_overflow_is_reported() {
    let e = MoveConverter::try_into_vm_value(&MoveTypeLayout::U8, &parse_json(b"256").unwrap())
        .unwrap_err();
    assert_eq!(e, Error::NumericOverflow);
    let v = MoveConverter::try_into_vm_value(&MoveTypeLayout::U8, &parse_json(b"255").unwrap())
        .unwrap();
    assert_eq!(v, MoveValue::U8(255));
    let e = MoveConverter::try_into_vm_value(
        &MoveTypeLayout::U64,
        &parse_json(b"18446744073709551616").unwrap(),
    )
    .unwrap_err();
    assert_eq!(e, Error::NumericOverflow);
    let e = MoveConverter::try_into_vm_value(&MoveTypeLayout::U8, &parse_json(b"-1").unwrap())
        .unwrap_err();
    assert_eq!(e, Error::TypeMismatch);
}

#[test]
fn signer_target_is_rejected() {
    let e = MoveConverter::try_into_vm_value(&MoveTypeLayout::Signer, &JsonValue::Null)
        .unwrap_err();
    assert_eq!(e, Error::UnexpectedSignerType);
}

#[test]
fn decode_then_encode_reproduces_the_value() {
    // A value of every data kind, serialized to canonical bytes, decoded
    // back, projected to JSON, and re-encoded: the same value comes out.
    let layout = MoveTypeLayout::Struct(MoveStructLayout {
        fields: vec![
            (ident("flag"), MoveTypeLayout::Bool),
            (ident("small"), MoveTypeLayout::U8),
            (ident("big"), MoveTypeLayout::U128),
            (ident("who"), MoveTypeLayout::Address),
            (ident("blob"), MoveTypeLayout::Vector(Box::new(MoveTypeLayout::U8))),
            (
                ident("pairs"),
                MoveTypeLayout::Vector(Box::new(MoveTypeLayout::Vector(Box::new(
                    MoveTypeLayout::U64,
                )))),
            ),
        ],
    });
    let value = MoveValue::Struct(vec![
        MoveValue::Bool(true),
        MoveValue::U8(7),
        MoveValue::U128(u128::MAX),
        MoveValue::Address(parse_address_literal(b"0xa550c18").unwrap()),
        MoveValue::Vector(vec![MoveValue::U8(0), MoveValue::U8(255)]),
        MoveValue::Vector(vec![
            MoveValue::Vector(vec![MoveValue::U64(1), MoveValue::U64(2)]),
            MoveValue::Vector(vec![]),
        ]),
    ]);
    let bytes = serialize_value(&value);
    let decoded = decode_value(&layout, &bytes).unwrap();
    assert_eq!(decoded, value);
    let json = project_value_to_json(&layout, &decoded);
    let reencoded = MoveConverter::try_into_vm_value(&layout, &json).unwrap();
    assert_eq!(reencoded, value);
    // And the projection survives a print/parse cycle too.
    let text = json_to_bytes(&json);
    let reparsed = parse_json(&text).unwrap();
    let reencoded = MoveConverter::try_into_vm_value(&layout, &reparsed).unwrap();
    assert_eq!(reencoded, value);
}

#[test]
fn value_bytes_reject_corrupt_input() {
    assert_eq!(
        decode_value(&MoveTypeLayout::Bool, &[2]).unwrap_err(),
        Error::CorruptEncoding
    );
    assert_eq!(
        decode_value(&MoveTypeLayout::U64, &[1, 2, 3]).unwrap_err(),
        Error::CorruptEncoding
    );
    // trailing bytes
    assert_eq!(
        decode_value(&MoveTypeLayout::U8, &[1, 2]).unwrap_err(),
        Error::CorruptEncoding
    );
}

#[test]
fn table_value_on_empty_bytes_is_absent_not_an_error() {
    let r = table_item_value_bytes(&MoveTypeLayout::U64, &[]).unwrap();
    assert!(r.is_none());
}

#[test]
fn table_value_renders_json_text() {
    let bytes = serialize_value(&MoveValue::U64(513));
    let r = table_item_value_bytes(&MoveTypeLayout::U64, &bytes).unwrap().unwrap();
    assert_eq!(r, b"513".to_vec());
}

#[test]
fn table_key_builds_canonical_bytes() {
    let key = table_item_key(b"u64".to_vec(), b"513".to_vec()).unwrap();
    assert_eq!(key, serialize_value(&MoveValue::U64(513)));
    let key = table_item_key(b"vector<u8>".to_vec(), b"\"0x0102\"".to_vec()).unwrap();
    assert_eq!(
        key,
        serialize_value(&MoveValue::Vector(vec![MoveValue::U8(1), MoveValue::U8(2)]))
    );
    let e = table_item_key(b"nonsense".to_vec(), b"1".to_vec()).unwrap_err();
    assert_eq!(e, Error::KeyConstructionFailed);
    let e = table_item_key(b"u64".to_vec(), b"not json".to_vec()).unwrap_err();
    assert_eq!(e, Error::KeyConstructionFailed);
}

#[test]
fn resource_blob_renders_as_json() {
    let layout = point_layout();
    let value = MoveValue::Struct(vec![MoveValue::U8(1), MoveValue::U64(2)]);
    let bytes = serialize_value(&value);
    let json = struct_to_json(&layout, &bytes).unwrap();
    assert_eq!(json_to_bytes(&json), b"{\"x\":1,\"y\":2}".to_vec());
}

#[test]
fn mapper_is_a_partial_inverse() {
    let toks = vec![
        SignatureToken::Bool,
        SignatureToken::U8,
        SignatureToken::U64,
        SignatureToken::U128,
        SignatureToken::Address,
        SignatureToken::Signer,
        SignatureToken::Vector(Box::new(SignatureToken::U8)),
    ];
    for t in toks {
        let layout = sig_to_ty(&t).unwrap();
        assert_eq!(ty_to_sig(&layout).unwrap(), t);
    }
    assert!(sig_to_ty(&SignatureToken::Reference(Box::new(SignatureToken::U8))).is_none());
    assert!(sig_to_ty(&SignatureToken::TypeParameter(0)).is_none());
    assert!(sig_to_ty(&SignatureToken::Struct(3)).is_none());
    assert!(ty_to_sig(&MoveTypeLayout::Struct(MoveStructLayout { fields: vec![] })).is_none());
}

fn demo_module() -> CompiledModule {
    CompiledModule {
        functions: vec![
            FunctionDecl {
                name: ident("hidden"),
                visibility: Visibility::Private,
                parameters: vec![],
                returns: vec![],
                type_parameters: vec![],
            },
            FunctionDecl {
                name: ident("transfer"),
                visibility: Visibility::Script,
                parameters: vec![
                    SignatureToken::Signer,
                    SignatureToken::Address,
                    SignatureToken::U64,
                ],
                returns: vec![],
                type_parameters: vec![AbilitySet {
                    has_copy: true,
                    has_drop: true,
                    has_store: false,
                    has_key: false,
                }],
            },
        ],
    }
}

#[test]
fn find_script_function_filters_and_describes() {
    let module = demo_module();
    // "hidden" is not script-visible.
    assert!(find_script_function(&module, b"hidden").is_none());
    assert!(find_script_function(&module, b"missing").is_none());
    let sc: Script = find_script_function(&module, b"transfer").unwrap();
    assert_eq!(sc.name, ident("transfer"));
    assert_eq!(
        sc.parameters,
        vec![
            Some(MoveTypeLayout::Signer),
            Some(MoveTypeLayout::Address),
            Some(MoveTypeLayout::U64),
        ]
    );
    assert_eq!(sc.type_params_count(), 1);
    assert_eq!(
        sc.type_parameters,
        vec![TypeAbilities { abilities: vec![TypeAbility::Copy, TypeAbility::Drop] }]
    );
}

#[test]
fn make_function_call_builds_a_transaction() {
    let module = demo_module();
    let addr = pontem_parse_address("0x1").unwrap();
    let tx = make_function_call(
        &module,
        addr,
        "Bank",
        "transfer",
        &["0x1::A::B".to_string()],
        &["\"0x2\"".to_string(), "77".to_string()],
    )
    .unwrap();
    // version tag, one placeholder signer
    assert_eq!(&tx[..3], &[0, 1, 1]);
    let e = make_function_call(
        &module,
        pontem_parse_address("0x1").unwrap(),
        "Bank",
        "transfer",
        &[],
        &["\"0x2\"".to_string(), "77".to_string()],
    )
    .unwrap_err();
    assert_eq!(e, Error::ArityMismatch { expected: 1, got: 0 });
    let e = make_function_call(
        &module,
        pontem_parse_address("0x1").unwrap(),
        "Bank",
        "missing",
        &[],
        &[],
    )
    .unwrap_err();
    assert_eq!(e, Error::NotFound);
}

#[test]
fn make_function_call_exact_bytes() {
    let module = demo_module();
    let addr = pontem_parse_address("0x1").unwrap();
    let tx = make_function_call(
        &module,
        addr,
        "Bank",
        "transfer",
        &["0x1::A::B".to_string()],
        &["\"0x2\"".to_string(), "77".to_string()],
    )
    .unwrap();
    let mut expected = vec![0u8];
    // one implicit placeholder signer
    expected.extend_from_slice(&[1, 1]);
    // callee address 0x1
    let mut a1 = vec![0u8; 32];
    a1[31] = 1;
    expected.extend_from_slice(&a1);
    // function name then module name, length-prefixed
    expected.push(8);
    expected.extend_from_slice(b"transfer");
    expected.push(4);
    expected.extend_from_slice(b"Bank");
    // two arguments, each length-prefixed canonical bytes
    expected.push(2);
    expected.push(32);
    let mut a2 = vec![0u8; 32];
    a2[31] = 2;
    expected.extend_from_slice(&a2);
    expected.push(8);
    expected.extend_from_slice(&[77, 0, 0, 0, 0, 0, 0, 0]);
    // no type arguments
    expected.push(0);
    assert_eq!(tx, expected);
}

#[test]
fn utf8_string_value_is_a_wrapped_byte_vector() {
    let v = new_vm_utf8_string("hi");
    assert_eq!(
        v,
        MoveValue::Struct(vec![MoveValue::Vector(vec![
            MoveValue::U8(104),
            MoveValue::U8(105)
        ])])
    );
}

#[test]
fn state_view_hands_back_its_blobs() {
    let view = StateView::new(vec![1, 2], vec![3, 4]);
    let id = mvm_rpc::types::ModuleId {
        address: parse_address_literal(b"0x1").unwrap(),
        name: ident("A"),
    };
    assert_eq!(view.get_module(&id).unwrap(), vec![3, 4]);
    assert_eq!(
        view.get_resource(&parse_address_literal(b"0x1").unwrap(), &mvm_rpc::text::parse_textual(b"0x1::A::B").unwrap())
            .unwrap(),
        vec![1, 2]
    );
}

#[test]
fn tag_layouts_resolve_without_structs() {
    assert_eq!(
        tag_to_layout(&TypeTag::Vector(Box::new(TypeTag::U8))).unwrap(),
        MoveTypeLayout::Vector(Box::new(MoveTypeLayout::U8))
    );
    assert!(tag_to_layout(&TypeTag::Struct(mvm_rpc::text::parse_textual(b"0x1::A::B").unwrap()))
        .is_none());
}
