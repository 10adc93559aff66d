//! Binder behaviour: arity, signer handling, and argument conversion.
use mvm_rpc::errors::Error;
use mvm_rpc::fn_call::prepare_function_signature;
use mvm_rpc::model::{Signer, Signers};
use mvm_rpc::types::AccountAddress;
use mvm_rpc::value::{MoveTypeLayout, MoveValue};

fn s(v: &str) -> String {
    v.to_string()
}

fn addr(v: &str) -> AccountAddress {
    mvm_rpc::fn_call::pontem_parse_address(v).unwrap()
}

#[test]
fn test_args_types() {
    let (signers, args) = prepare_function_signature(&[], &[]).unwrap();
    assert_eq!(signers.len(), 0);
    assert_eq!(args.len(), 0);

    let (signers, args) = prepare_function_signature(&[MoveTypeLayout::U8], &[s("1")]).unwrap();
    assert_eq!(signers.len(), 0);
    assert_eq!(args, vec![MoveValue::U8(1)]);

    let (signers, args) = prepare_function_signature(
        &[MoveTypeLayout::Bool, MoveTypeLayout::Bool],
        &[s("true"), s("false")],
    )
    .unwrap();
    assert_eq!(signers.len(), 0);
    assert_eq!(args, vec![MoveValue::Bool(true), MoveValue::Bool(false)]);

    let (signers, args) = prepare_function_signature(
        &[MoveTypeLayout::U64, MoveTypeLayout::U64, MoveTypeLayout::U128],
        &[s("0"), s("1000000000"), s("10000000000000000")],
    )
    .unwrap();
    assert_eq!(signers.len(), 0);
    assert_eq!(
        args,
        vec![MoveValue::U64(0), MoveValue::U64(1000000000), MoveValue::U128(10000000000000000),]
    );

    let (signers, args) =
        prepare_function_signature(&[MoveTypeLayout::Address], &[s("\"0x1\"")]).unwrap();
    assert_eq!(signers.len(), 0);
    assert_eq!(args, vec![MoveValue::Address(addr("0x1"))]);

    let (signers, args) = prepare_function_signature(
        &[
            MoveTypeLayout::Vector(Box::new(MoveTypeLayout::Bool)),
            MoveTypeLayout::Vector(Box::new(MoveTypeLayout::U8)),
            MoveTypeLayout::Vector(Box::new(MoveTypeLayout::U8)),
            MoveTypeLayout::Vector(Box::new(MoveTypeLayout::U8)),
            MoveTypeLayout::Vector(Box::new(MoveTypeLayout::U64)),
            MoveTypeLayout::Vector(Box::new(MoveTypeLayout::U128)),
            MoveTypeLayout::Vector(Box::new(MoveTypeLayout::Address)),
        ],
        &[
            s("[true, false]"),
            s("\"0x1000\""),
            s("\"\""),
            s("\"0x0102\""),
            s("[1000, 0]"),
            s("[0]"),
            s("[\"0x1\",\"0x2\"]"),
        ],
    )
    .unwrap();
    assert_eq!(signers.len(), 0);
    assert_eq!(
        args,
        vec![
            MoveValue::Vector(vec![MoveValue::Bool(true), MoveValue::Bool(false)]),
            MoveValue::Vector(vec![MoveValue::U8(16), MoveValue::U8(0)]),
            MoveValue::Vector(vec![]),
            MoveValue::Vector(vec![MoveValue::U8(1), MoveValue::U8(2)]),
            MoveValue::Vector(vec![MoveValue::U64(1000), MoveValue::U64(0)]),
            MoveValue::Vector(vec![MoveValue::U128(0)]),
            MoveValue::Vector(vec![
                MoveValue::Address(addr("0x1")),
                MoveValue::Address(addr("0x2"))
            ]),
        ]
    );
}

#[test]
fn signer_defaulting_fills_placeholders() {
    // Two leading signer slots with both designators omitted: both are
    // filled with placeholders, and the one data value converts.
    let (signers, args) = prepare_function_signature(
        &[MoveTypeLayout::Signer, MoveTypeLayout::Signer, MoveTypeLayout::Bool],
        &[s("true")],
    )
    .unwrap();
    assert_eq!(signers.len(), 2);
    match signers {
        Signers::Implicit(v) => {
            assert_eq!(v, vec![Signer::Placeholder, Signer::Placeholder]);
        }
        Signers::Explicit(_) => panic!("expected implicit signers"),
    }
    assert_eq!(args, vec![MoveValue::Bool(true)]);
}

#[test]
fn signer_designators_are_parsed_case_insensitively() {
    let (signers, args) = prepare_function_signature(
        &[MoveTypeLayout::Signer, MoveTypeLayout::Signer, MoveTypeLayout::U8],
        &[s("Root"), s("_"), s("7")],
    )
    .unwrap();
    assert_eq!(signers.len(), 2);
    match signers {
        Signers::Implicit(v) => {
            assert_eq!(v, vec![Signer::Root, Signer::Placeholder]);
        }
        Signers::Explicit(_) => panic!("expected implicit signers"),
    }
    assert_eq!(args, vec![MoveValue::U8(7)]);

    let (signers, _) = prepare_function_signature(
        &[MoveTypeLayout::Signer, MoveTypeLayout::U8],
        &[s("dR"), s("7")],
    )
    .unwrap();
    match signers {
        Signers::Implicit(v) => assert_eq!(v, vec![Signer::Root]),
        Signers::Explicit(_) => panic!("expected implicit signers"),
    }
}

#[test]
fn named_signer_keeps_its_name() {
    let (signers, _) = prepare_function_signature(
        &[MoveTypeLayout::Signer, MoveTypeLayout::U8],
        &[s("alice"), s("1")],
    )
    .unwrap();
    match signers {
        Signers::Implicit(v) => assert_eq!(v, vec![Signer::Name(b"alice".to_vec())]),
        Signers::Explicit(_) => panic!("expected implicit signers"),
    }
}

#[test]
fn too_few_data_arguments_is_an_arity_error() {
    let e = prepare_function_signature(&[MoveTypeLayout::U8, MoveTypeLayout::U8], &[s("1")])
        .unwrap_err();
    assert_eq!(e, Error::ArityMismatch { expected: 2, got: 1 });
}

#[test]
fn too_many_data_arguments_is_an_arity_error() {
    // Extra arguments beyond the parameter count: the trailing arguments
    // are the data arguments, the leading ones would be signer designators,
    // but there are no signer slots for them.
    let e = prepare_function_signature(&[MoveTypeLayout::U8], &[s("1"), s("2")]);
    assert!(e.is_ok());
    // The leading "1" is ignored as a surplus signer designator for zero
    // slots; the data argument is the trailing "2".
    let (signers, args) = e.unwrap();
    assert_eq!(signers.len(), 0);
    assert_eq!(args, vec![MoveValue::U8(2)]);
}

#[test]
fn nested_signer_is_rejected() {
    let e = prepare_function_signature(
        &[MoveTypeLayout::U8, MoveTypeLayout::Signer],
        &[s("1"), s("2")],
    )
    .unwrap_err();
    assert_eq!(e, Error::UnexpectedSignerType);
}

#[test]
fn unparseable_argument_is_a_type_mismatch() {
    let e = prepare_function_signature(&[MoveTypeLayout::U8], &[s("nonsense")]).unwrap_err();
    assert_eq!(e, Error::TypeMismatch);
}
