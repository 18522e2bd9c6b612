//! Codec behaviour on concrete schema types and values.

use script_bridge::codec::{decode, encode};
use script_bridge::errors::{DecodeError, ResourceError, TypeKind, ValueKind};
use script_bridge::resource::ResourceTable;
use script_bridge::schema::{FieldDecl, CaseDecl, SchemaType};
use script_bridge::value::{conforms_exec, handle_ids, EncodedValue, SchemaValue};

fn point_type() -> SchemaType {
    SchemaType::Record(vec![
        FieldDecl { name: "name".to_string(), ty: SchemaType::Text },
        FieldDecl { name: "count".to_string(), ty: SchemaType::U32 },
    ])
}

fn point_value() -> SchemaValue {
    SchemaValue::Record(vec![
        SchemaValue::Text("x".to_string()),
        SchemaValue::U32(3),
    ])
}

#[test]
fn record_round_trip() {
    let t = point_type();
    let v = point_value();
    let mut table = ResourceTable::new();
    let e = encode(&t, &v, &table).unwrap();
    assert!(
        e == EncodedValue::Object(vec![
            ("name".to_string(), EncodedValue::Text("x".to_string())),
            ("count".to_string(), EncodedValue::Number(3)),
        ])
    );
    let back = decode(&t, &e, &mut table).unwrap();
    assert!(back == v);
}

#[test]
fn u64_max_round_trip() {
    let t = SchemaType::U64;
    let v = SchemaValue::U64(18446744073709551615);
    let mut table = ResourceTable::new();
    let e = encode(&t, &v, &table).unwrap();
    assert!(e == EncodedValue::BigInt(18446744073709551615i128));
    let back = decode(&t, &e, &mut table).unwrap();
    assert!(back == SchemaValue::U64(18446744073709551615));
}

#[test]
fn s64_min_round_trip() {
    let t = SchemaType::S64;
    let v = SchemaValue::S64(i64::MIN);
    let mut table = ResourceTable::new();
    let e = encode(&t, &v, &table).unwrap();
    assert!(e == EncodedValue::BigInt(i64::MIN as i128));
    assert!(decode(&t, &e, &mut table).unwrap() == v);
}

#[test]
fn u8_out_of_range_is_mismatch() {
    let t = SchemaType::U8;
    let mut table = ResourceTable::new();
    let r = decode(&t, &EncodedValue::Number(256), &mut table);
    assert_eq!(
        r.unwrap_err(),
        DecodeError::TypeMismatch {
            expected: TypeKind::U8Type,
            actual: ValueKind::NumberValue,
        }
    );
}

#[test]
fn u64_from_float_is_mismatch() {
    let t = SchemaType::U64;
    let mut table = ResourceTable::new();
    let r = decode(&t, &EncodedValue::Float(0x3FF8000000000000), &mut table);
    assert_eq!(
        r.unwrap_err(),
        DecodeError::TypeMismatch {
            expected: TypeKind::U64Type,
            actual: ValueKind::FloatValue,
        }
    );
}

#[test]
fn u64_from_huge_int_is_mismatch() {
    let t = SchemaType::U64;
    let mut table = ResourceTable::new();
    let r = decode(&t, &EncodedValue::HugeInt, &mut table);
    assert_eq!(
        r.unwrap_err(),
        DecodeError::TypeMismatch {
            expected: TypeKind::U64Type,
            actual: ValueKind::HugeIntValue,
        }
    );
}

#[test]
fn char_round_trip_multibyte() {
    let t = SchemaType::Char;
    let v = SchemaValue::Char('é');
    let mut table = ResourceTable::new();
    let e = encode(&t, &v, &table).unwrap();
    assert!(e == EncodedValue::Text("é".to_string()));
    assert!(decode(&t, &e, &mut table).unwrap() == v);
}

#[test]
fn char_from_two_characters_is_mismatch() {
    let t = SchemaType::Char;
    let mut table = ResourceTable::new();
    let r = decode(&t, &EncodedValue::Text("ab".to_string()), &mut table);
    assert_eq!(
        r.unwrap_err(),
        DecodeError::TypeMismatch {
            expected: TypeKind::CharType,
            actual: ValueKind::TextValue,
        }
    );
}

#[test]
fn record_field_order_insensitive() {
    let t = point_type();
    // Pairs enumerated in the reverse of the declared order.
    let e = EncodedValue::Object(vec![
        ("count".to_string(), EncodedValue::Number(3)),
        ("name".to_string(), EncodedValue::Text("x".to_string())),
    ]);
    let mut table = ResourceTable::new();
    let back = decode(&t, &e, &mut table).unwrap();
    assert!(back == point_value());
}

#[test]
fn record_missing_field() {
    let t = point_type();
    let e = EncodedValue::Object(vec![(
        "name".to_string(),
        EncodedValue::Text("x".to_string()),
    )]);
    let mut table = ResourceTable::new();
    let r = decode(&t, &e, &mut table);
    assert_eq!(r.unwrap_err(), DecodeError::MissingField("count".to_string()));
}

fn shape_type() -> SchemaType {
    SchemaType::Variant(vec![
        CaseDecl { name: "circle".to_string(), payload: Some(SchemaType::U32) },
        CaseDecl { name: "empty-shape".to_string(), payload: None },
    ])
}

#[test]
fn variant_round_trip_with_payload() {
    let t = shape_type();
    let v = SchemaValue::Variant {
        case: 0,
        payload: Some(Box::new(SchemaValue::U32(7))),
    };
    let mut table = ResourceTable::new();
    let e = encode(&t, &v, &table).unwrap();
    assert!(
        e == EncodedValue::Object(vec![
            ("tag".to_string(), EncodedValue::Text("circle".to_string())),
            ("value".to_string(), EncodedValue::Number(7)),
        ])
    );
    assert!(decode(&t, &e, &mut table).unwrap() == v);
}

#[test]
fn variant_round_trip_without_payload() {
    let t = shape_type();
    let v = SchemaValue::Variant { case: 1, payload: None };
    let mut table = ResourceTable::new();
    let e = encode(&t, &v, &table).unwrap();
    assert!(
        e == EncodedValue::Object(vec![(
            "tag".to_string(),
            EncodedValue::Text("empty-shape".to_string()),
        )])
    );
    assert!(decode(&t, &e, &mut table).unwrap() == v);
}

#[test]
fn unknown_variant_tag_rejected() {
    let t = shape_type();
    let e = EncodedValue::Object(vec![(
        "tag".to_string(),
        EncodedValue::Text("mystery".to_string()),
    )]);
    let mut table = ResourceTable::new();
    let r = decode(&t, &e, &mut table);
    assert_eq!(r.unwrap_err(), DecodeError::UnknownCase("mystery".to_string()));
}

#[test]
fn variant_missing_tag() {
    let t = shape_type();
    let e = EncodedValue::Object(vec![(
        "value".to_string(),
        EncodedValue::Number(7),
    )]);
    let mut table = ResourceTable::new();
    let r = decode(&t, &e, &mut table);
    assert_eq!(r.unwrap_err(), DecodeError::MissingField("tag".to_string()));
}

fn mode_type() -> SchemaType {
    SchemaType::Enumeration(vec!["owned".to_string(), "borrowed".to_string()])
}

#[test]
fn enumeration_encodes_as_bare_name() {
    let t = mode_type();
    let v = SchemaValue::Enumeration(1);
    let mut table = ResourceTable::new();
    let e = encode(&t, &v, &table).unwrap();
    assert!(e == EncodedValue::Text("borrowed".to_string()));
    assert!(decode(&t, &e, &mut table).unwrap() == v);
}

#[test]
fn enumeration_unknown_name_rejected() {
    let t = mode_type();
    let mut table = ResourceTable::new();
    let r = decode(&t, &EncodedValue::Text("leased".to_string()), &mut table);
    assert_eq!(r.unwrap_err(), DecodeError::UnknownCase("leased".to_string()));
}

#[test]
fn enumeration_from_number_is_mismatch() {
    let t = mode_type();
    let mut table = ResourceTable::new();
    let r = decode(&t, &EncodedValue::Number(0), &mut table);
    assert_eq!(
        r.unwrap_err(),
        DecodeError::TypeMismatch {
            expected: TypeKind::EnumType,
            actual: ValueKind::NumberValue,
        }
    );
}

fn flags_type() -> SchemaType {
    SchemaType::Flags(vec!["read".to_string(), "write".to_string(), "exec".to_string()])
}

#[test]
fn flags_round_trip_order_insensitive() {
    let t = flags_type();
    let v = SchemaValue::Flags(vec![true, false, true]);
    let mut table = ResourceTable::new();
    let e = encode(&t, &v, &table).unwrap();
    assert!(
        e == EncodedValue::Array(vec![
            EncodedValue::Text("read".to_string()),
            EncodedValue::Text("exec".to_string()),
        ])
    );
    // Decoding is order-insensitive over the set flag names.
    let shuffled = EncodedValue::Array(vec![
        EncodedValue::Text("exec".to_string()),
        EncodedValue::Text("read".to_string()),
    ]);
    assert!(decode(&t, &shuffled, &mut table).unwrap() == v);
}

#[test]
fn flags_duplicate_rejected() {
    let t = flags_type();
    let e = EncodedValue::Array(vec![
        EncodedValue::Text("read".to_string()),
        EncodedValue::Text("read".to_string()),
    ]);
    let mut table = ResourceTable::new();
    let r = decode(&t, &e, &mut table);
    assert_eq!(
        r.unwrap_err(),
        DecodeError::TypeMismatch {
            expected: TypeKind::FlagsType,
            actual: ValueKind::TextValue,
        }
    );
}

#[test]
fn flags_unknown_name_rejected() {
    let t = flags_type();
    let e = EncodedValue::Array(vec![EncodedValue::Text("append".to_string())]);
    let mut table = ResourceTable::new();
    let r = decode(&t, &e, &mut table);
    assert_eq!(r.unwrap_err(), DecodeError::UnknownCase("append".to_string()));
}

#[test]
fn empty_list_round_trip() {
    let t = SchemaType::List(Box::new(SchemaType::U8));
    let v = SchemaValue::List(vec![]);
    let mut table = ResourceTable::new();
    let e = encode(&t, &v, &table).unwrap();
    assert!(e == EncodedValue::Array(vec![]));
    assert!(decode(&t, &e, &mut table).unwrap() == v);
}

#[test]
fn list_round_trip() {
    let t = SchemaType::List(Box::new(SchemaType::Text));
    let v = SchemaValue::List(vec![
        SchemaValue::Text("a".to_string()),
        SchemaValue::Text("b".to_string()),
    ]);
    let mut table = ResourceTable::new();
    let e = encode(&t, &v, &table).unwrap();
    assert!(decode(&t, &e, &mut table).unwrap() == v);
}

#[test]
fn tuple_arity_mismatch() {
    let t = SchemaType::Tuple(vec![SchemaType::U8, SchemaType::Bool]);
    let e = EncodedValue::Array(vec![EncodedValue::Number(1)]);
    let mut table = ResourceTable::new();
    let r = decode(&t, &e, &mut table);
    assert_eq!(
        r.unwrap_err(),
        DecodeError::TypeMismatch {
            expected: TypeKind::TupleType,
            actual: ValueKind::ArrayValue,
        }
    );
}

#[test]
fn tuple_round_trip() {
    let t = SchemaType::Tuple(vec![SchemaType::U8, SchemaType::Bool]);
    let v = SchemaValue::Tuple(vec![SchemaValue::U8(9), SchemaValue::Bool(true)]);
    let mut table = ResourceTable::new();
    let e = encode(&t, &v, &table).unwrap();
    assert!(
        e == EncodedValue::Array(vec![EncodedValue::Number(9), EncodedValue::Bool(true)])
    );
    assert!(decode(&t, &e, &mut table).unwrap() == v);
}

#[test]
fn option_absent_is_null() {
    let t = SchemaType::Optional(Box::new(SchemaType::U32));
    let v = SchemaValue::Optional(None);
    let mut table = ResourceTable::new();
    let e = encode(&t, &v, &table).unwrap();
    assert!(e == EncodedValue::Null);
    assert!(decode(&t, &e, &mut table).unwrap() == v);
}

#[test]
fn option_primitive_payload_is_direct() {
    let t = SchemaType::Optional(Box::new(SchemaType::U32));
    let v = SchemaValue::Optional(Some(Box::new(SchemaValue::U32(5))));
    let mut table = ResourceTable::new();
    let e = encode(&t, &v, &table).unwrap();
    assert!(e == EncodedValue::Number(5));
    assert!(decode(&t, &e, &mut table).unwrap() == v);
}

#[test]
fn nested_option_never_collides_with_absence() {
    let t = SchemaType::Optional(Box::new(SchemaType::Optional(Box::new(SchemaType::U32))));
    let absent = SchemaValue::Optional(None);
    let present_absent = SchemaValue::Optional(Some(Box::new(SchemaValue::Optional(None))));
    let mut table = ResourceTable::new();
    let e_absent = encode(&t, &absent, &table).unwrap();
    let e_present = encode(&t, &present_absent, &table).unwrap();
    assert!(e_absent != e_present);
    assert!(
        e_present == EncodedValue::Object(vec![("some".to_string(), EncodedValue::Null)])
    );
    assert!(decode(&t, &e_absent, &mut table).unwrap() == absent);
    assert!(decode(&t, &e_present, &mut table).unwrap() == present_absent);
}

fn fallible_type() -> SchemaType {
    SchemaType::ResultOf {
        ok: Some(Box::new(SchemaType::U32)),
        err: Some(Box::new(SchemaType::Text)),
    }
}

#[test]
fn result_ok_round_trip() {
    let t = fallible_type();
    let v = SchemaValue::ResultOf {
        is_ok: true,
        payload: Some(Box::new(SchemaValue::U32(1))),
    };
    let mut table = ResourceTable::new();
    let e = encode(&t, &v, &table).unwrap();
    assert!(e == EncodedValue::Object(vec![("ok".to_string(), EncodedValue::Number(1))]));
    assert!(decode(&t, &e, &mut table).unwrap() == v);
}

#[test]
fn result_err_round_trip() {
    let t = fallible_type();
    let v = SchemaValue::ResultOf {
        is_ok: false,
        payload: Some(Box::new(SchemaValue::Text("boom".to_string()))),
    };
    let mut table = ResourceTable::new();
    let e = encode(&t, &v, &table).unwrap();
    assert!(
        e == EncodedValue::Object(vec![(
            "err".to_string(),
            EncodedValue::Text("boom".to_string()),
        )])
    );
    assert!(decode(&t, &e, &mut table).unwrap() == v);
}

#[test]
fn bare_result_round_trip() {
    let t = SchemaType::ResultOf { ok: None, err: None };
    let v = SchemaValue::ResultOf { is_ok: true, payload: None };
    let mut table = ResourceTable::new();
    let e = encode(&t, &v, &table).unwrap();
    assert!(e == EncodedValue::Object(vec![("ok".to_string(), EncodedValue::Null)]));
    assert!(decode(&t, &e, &mut table).unwrap() == v);
}

#[test]
fn encode_dead_handle_is_not_found() {
    let t = SchemaType::Handle { mode: script_bridge::schema::HandleMode::Owned };
    let v = SchemaValue::Handle { id: 42 };
    let table = ResourceTable::new();
    let r = encode(&t, &v, &table);
    assert_eq!(r.unwrap_err(), ResourceError::NotFound(42));
}

#[test]
fn decode_registers_unmarked_object() {
    let t = SchemaType::Handle { mode: script_bridge::schema::HandleMode::Borrowed };
    let mut table = ResourceTable::new();
    let e = EncodedValue::Resource { token: 91, id: None };
    let v = decode(&t, &e, &mut table).unwrap();
    let id = match v {
        SchemaValue::Handle { id } => id,
        _ => unreachable!(),
    };
    assert_eq!(table.lookup(id).unwrap(), 91);
    // A marked object keeps its identifier and registers nothing new.
    let e2 = EncodedValue::Resource { token: 91, id: Some(id) };
    let v2 = decode(&t, &e2, &mut table).unwrap();
    assert!(v2 == SchemaValue::Handle { id });
}

#[test]
fn timestamp_record_uses_big_int_carrier() {
    // A wall-clock instant: 64-bit seconds cross through the big-integer
    // carrier while 32-bit nanoseconds stay a native number.
    let t = SchemaType::Record(vec![
        FieldDecl { name: "seconds".to_string(), ty: SchemaType::U64 },
        FieldDecl { name: "nanoseconds".to_string(), ty: SchemaType::U32 },
    ]);
    let v = SchemaValue::Record(vec![
        SchemaValue::U64(1700000000),
        SchemaValue::U32(999999999),
    ]);
    let mut table = ResourceTable::new();
    let e = encode(&t, &v, &table).unwrap();
    assert!(
        e == EncodedValue::Object(vec![
            ("seconds".to_string(), EncodedValue::BigInt(1700000000)),
            ("nanoseconds".to_string(), EncodedValue::Number(999999999)),
        ])
    );
    assert!(decode(&t, &e, &mut table).unwrap() == v);
}

#[test]
fn type_node_variant_with_list_payload() {
    // A type-description node: a variant whose case payload is a list of
    // (name, index) pairs, as an interface vocabulary declares records.
    let pair = SchemaType::Tuple(vec![SchemaType::Text, SchemaType::S32]);
    let t = SchemaType::Variant(vec![
        CaseDecl {
            name: "record-type".to_string(),
            payload: Some(SchemaType::List(Box::new(pair))),
        },
        CaseDecl { name: "prim-string-type".to_string(), payload: None },
    ]);
    let v = SchemaValue::Variant {
        case: 0,
        payload: Some(Box::new(SchemaValue::List(vec![SchemaValue::Tuple(vec![
            SchemaValue::Text("id".to_string()),
            SchemaValue::S32(4),
        ])]))),
    };
    let mut table = ResourceTable::new();
    let e = encode(&t, &v, &table).unwrap();
    assert!(
        e == EncodedValue::Object(vec![
            ("tag".to_string(), EncodedValue::Text("record-type".to_string())),
            (
                "value".to_string(),
                EncodedValue::Array(vec![EncodedValue::Array(vec![
                    EncodedValue::Text("id".to_string()),
                    EncodedValue::Number(4),
                ])]),
            ),
        ])
    );
    assert!(decode(&t, &e, &mut table).unwrap() == v);
}

#[test]
fn conformance_check_mirrors_the_encoder() {
    let t = point_type();
    assert!(conforms_exec(&t, &point_value()));
    // Wrong shape.
    assert!(!conforms_exec(&t, &SchemaValue::Bool(true)));
    // Wrong field count.
    assert!(!conforms_exec(&t, &SchemaValue::Record(vec![SchemaValue::Text("x".to_string())])));
    // Case index out of range.
    assert!(!conforms_exec(&shape_type(), &SchemaValue::Variant { case: 2, payload: None }));
    // Payload where the case declares none.
    assert!(!conforms_exec(
        &shape_type(),
        &SchemaValue::Variant { case: 1, payload: Some(Box::new(SchemaValue::U32(1))) },
    ));
}

#[test]
fn handle_ids_collects_every_mention() {
    let v = SchemaValue::Record(vec![
        SchemaValue::Handle { id: 4 },
        SchemaValue::List(vec![
            SchemaValue::Handle { id: 9 },
            SchemaValue::Optional(Some(Box::new(SchemaValue::Handle { id: 4 }))),
        ]),
        SchemaValue::Text("no handle".to_string()),
    ]);
    let ids = handle_ids(&v);
    assert!(ids.contains(&4));
    assert!(ids.contains(&9));
    assert!(!ids.contains(&7));
    assert!(handle_ids(&SchemaValue::Bool(false)).is_empty());
}
