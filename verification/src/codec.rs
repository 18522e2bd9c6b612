//! The value codec: a lossless, convention-based encoding of schema values
//! onto scripting-engine values, driven by the schema type description.
//!
//! Conventions:
//! - integers up to 32 bits become native numbers; 64-bit integers cross
//!   through the big-integer carrier, which the native number type cannot
//!   replace without precision loss;
//! - characters become one-character strings;
//! - records become objects whose ordered (name, value) pairs follow the
//!   declared field order; decoding reads fields by name, so any pair order
//!   decodes alike;
//! - every tagged type sets a `tag` field to the declared case name and, for
//!   payload-bearing cases, a `value` field to the payload's encoding;
//! - enumerations become their bare case name; flags become the sequence of
//!   set flag names, order-insensitive, duplicates forbidden;
//! - an absent optional value becomes the engine's null; a present payload
//!   of composite type is wrapped in a one-field object so that the absence
//!   marker can never collide with a legal payload encoding;
//! - a result populates exactly one of an `ok` or `err` field, and the
//!   populated slot is the discriminant;
//! - a handle becomes the engine object registered under its identifier, and
//!   decoding an unregistered implementation object registers it on the
//!   spot.

use vstd::prelude::*;

use crate::errors::DecodeError;
use crate::errors::ErrorModel;
use crate::errors::ResourceError;
use crate::errors::TypeKind;
use crate::errors::ValueKind;
use crate::resource::spec_register;
use crate::resource::ResourceTable;
use crate::resource::TableModel;
use crate::schema::case_names;
use crate::schema::lemma_case_models;
use crate::schema::lemma_field_models;
use crate::schema::lemma_type_models;
use crate::schema::name_models;
use crate::schema::field_models;
use crate::schema::case_models;
use crate::schema::type_models;
use crate::schema::SchemaType;
use crate::schema::TypeModel;
use crate::value::conforms;
use crate::value::encoded_models;
use crate::value::handles_in;
use crate::value::handles_in_seq;
use crate::value::kind_of;
use crate::value::kind_of_type;
use crate::value::lemma_conforms_fields;
use crate::value::lemma_conforms_list;
use crate::value::lemma_conforms_tuple;
use crate::value::lemma_encoded_models;
use crate::value::lemma_handles_in_seq;
use crate::value::lemma_pair_models;
use crate::value::lemma_value_models;
use crate::value::pair_models;
use crate::value::value_models;
use crate::value::EncodedModel;
use crate::value::EncodedValue;
use crate::value::SchemaValue;
use crate::value::ValueModel;

verus! {

/// The reserved field naming the selected case of a tagged value.
pub open spec fn tag_key() -> Seq<char> {
    "tag"@
}

/// The reserved field holding the payload of a tagged value.
pub open spec fn value_key() -> Seq<char> {
    "value"@
}

/// The reserved field wrapping a present optional payload of composite type.
pub open spec fn some_key() -> Seq<char> {
    "some"@
}

/// The field populated by a successful result.
pub open spec fn ok_key() -> Seq<char> {
    "ok"@
}

/// The field populated by a failed result.
pub open spec fn err_key() -> Seq<char> {
    "err"@
}

/// Whether a present optional payload of this type is wrapped. Every
/// composite payload is wrapped, deliberately including the tagged types,
/// whose object and text encodings could never look absent on their own:
/// one uniform rule, rather than a per-type minimum, keeps the absence
/// marker reserved. Primitive and handle encodings cross directly.
pub open spec fn wraps_some(t: TypeModel) -> bool {
    ||| t is Record
    ||| t is Variant
    ||| t is Enumeration
    ||| t is Flags
    ||| t is Tuple
    ||| t is List
    ||| t is Optional
    ||| t is ResultOf
}

/// A mismatch report for a value of the wrong native kind.
pub open spec fn mism(t: TypeModel, e: EncodedModel) -> ErrorModel {
    ErrorModel::TypeMismatch { expected: kind_of_type(t), actual: kind_of(e) }
}

/// What encoding a value of a schema type yields, given the resource table's
/// live entries. `None` exactly when the value does not conform to the type
/// or mentions a handle that is not live.
pub open spec fn spec_encode(t: TypeModel, v: ValueModel, m: Map<u64, u64>) -> Option<EncodedModel>
    decreases t, 0nat,
{
    match (t, v) {
        (TypeModel::U8, ValueModel::U8(n)) => Some(EncodedModel::Number(n as i64)),
        (TypeModel::U16, ValueModel::U16(n)) => Some(EncodedModel::Number(n as i64)),
        (TypeModel::U32, ValueModel::U32(n)) => Some(EncodedModel::Number(n as i64)),
        (TypeModel::U64, ValueModel::U64(n)) => Some(EncodedModel::BigInt(n as i128)),
        (TypeModel::S8, ValueModel::S8(n)) => Some(EncodedModel::Number(n as i64)),
        (TypeModel::S16, ValueModel::S16(n)) => Some(EncodedModel::Number(n as i64)),
        (TypeModel::S32, ValueModel::S32(n)) => Some(EncodedModel::Number(n as i64)),
        (TypeModel::S64, ValueModel::S64(n)) => Some(EncodedModel::BigInt(n as i128)),
        (TypeModel::Bool, ValueModel::Bool(b)) => Some(EncodedModel::Bool(b)),
        (TypeModel::Char, ValueModel::Char(c)) => Some(EncodedModel::Text(seq![c])),
        (TypeModel::Text, ValueModel::Text(s)) => Some(EncodedModel::Text(s)),
        (TypeModel::Record(fields), ValueModel::Record(vals)) => {
            if vals.len() == fields.len() {
                match encode_fields(fields, vals, m) {
                    Some(pairs) => Some(EncodedModel::Object(pairs)),
                    None => None,
                }
            } else {
                None
            }
        },
        (TypeModel::Variant(cases), ValueModel::Variant { case, payload }) => {
            if 0 <= case < cases.len() {
                match (cases[case].1, payload) {
                    (Some(pt), Some(pv)) => match spec_encode(pt, *pv, m) {
                        Some(e) => Some(
                            EncodedModel::Object(
                                seq![
                                    (tag_key(), EncodedModel::Text(cases[case].0)),
                                    (value_key(), e),
                                ],
                            ),
                        ),
                        None => None,
                    },
                    (None, None) => Some(
                        EncodedModel::Object(seq![(tag_key(), EncodedModel::Text(cases[case].0))]),
                    ),
                    _ => None,
                }
            } else {
                None
            }
        },
        (TypeModel::Enumeration(names), ValueModel::Enumeration(i)) => {
            if 0 <= i < names.len() {
                Some(EncodedModel::Text(names[i]))
            } else {
                None
            }
        },
        (TypeModel::Flags(names), ValueModel::Flags(bits)) => {
            if bits.len() == names.len() {
                Some(EncodedModel::Array(encode_flags(names, bits)))
            } else {
                None
            }
        },
        (TypeModel::Tuple(tys), ValueModel::Tuple(vals)) => {
            if vals.len() == tys.len() {
                match encode_tuple(tys, vals, m) {
                    Some(es) => Some(EncodedModel::Array(es)),
                    None => None,
                }
            } else {
                None
            }
        },
        (TypeModel::List(t0), ValueModel::List(vals)) => match encode_list(*t0, vals, m) {
            Some(es) => Some(EncodedModel::Array(es)),
            None => None,
        },
        (TypeModel::Optional(t0), ValueModel::Optional(o)) => match o {
            None => Some(EncodedModel::Null),
            Some(pv) => match spec_encode(*t0, *pv, m) {
                Some(e) => {
                    if wraps_some(*t0) {
                        Some(EncodedModel::Object(seq![(some_key(), e)]))
                    } else {
                        Some(e)
                    }
                },
                None => None,
            },
        },
        (TypeModel::ResultOf { ok, err }, ValueModel::ResultOf { is_ok, payload }) => {
            if is_ok {
                match (ok, payload) {
                    (Some(pt), Some(pv)) => match spec_encode(*pt, *pv, m) {
                        Some(e) => Some(EncodedModel::Object(seq![(ok_key(), e)])),
                        None => None,
                    },
                    (None, None) => Some(
                        EncodedModel::Object(seq![(ok_key(), EncodedModel::Null)]),
                    ),
                    _ => None,
                }
            } else {
                match (err, payload) {
                    (Some(pt), Some(pv)) => match spec_encode(*pt, *pv, m) {
                        Some(e) => Some(EncodedModel::Object(seq![(err_key(), e)])),
                        None => None,
                    },
                    (None, None) => Some(
                        EncodedModel::Object(seq![(err_key(), EncodedModel::Null)]),
                    ),
                    _ => None,
                }
            }
        },
        (TypeModel::Handle { .. }, ValueModel::Handle { id }) => {
            if m.dom().contains(id) {
                Some(EncodedModel::Resource { token: m[id], id: Some(id) })
            } else {
                None
            }
        },
        _ => None,
    }
}

/// The encoded (name, value) pairs of a record, in declared field order.
pub open spec fn encode_fields(
    fields: Seq<(Seq<char>, TypeModel)>,
    vals: Seq<ValueModel>,
    m: Map<u64, u64>,
) -> Option<Seq<(Seq<char>, EncodedModel)>>
    decreases fields, vals.len(),
{
    if vals.len() == 0 || fields.len() == 0 {
        Some(Seq::empty())
    } else {
        match (
            encode_fields(fields.drop_last(), vals.drop_last(), m),
            spec_encode(fields.last().1, vals.last(), m),
        ) {
            (Some(pairs), Some(e)) => Some(pairs.push((fields.last().0, e))),
            _ => None,
        }
    }
}

/// The encoded elements of a tuple, in order.
pub open spec fn encode_tuple(
    tys: Seq<TypeModel>,
    vals: Seq<ValueModel>,
    m: Map<u64, u64>,
) -> Option<Seq<EncodedModel>>
    decreases tys, vals.len(),
{
    if vals.len() == 0 || tys.len() == 0 {
        Some(Seq::empty())
    } else {
        match (
            encode_tuple(tys.drop_last(), vals.drop_last(), m),
            spec_encode(tys.last(), vals.last(), m),
        ) {
            (Some(es), Some(e)) => Some(es.push(e)),
            _ => None,
        }
    }
}

/// The encoded elements of a list, in order.
pub open spec fn encode_list(t0: TypeModel, vals: Seq<ValueModel>, m: Map<u64, u64>) -> Option<
    Seq<EncodedModel>,
>
    decreases t0, vals.len(),
{
    if vals.len() == 0 {
        Some(Seq::empty())
    } else {
        match (encode_list(t0, vals.drop_last(), m), spec_encode(t0, vals.last(), m)) {
            (Some(es), Some(e)) => Some(es.push(e)),
            _ => None,
        }
    }
}

/// The names of the set flags, in declared order.
pub open spec fn encode_flags(names: Seq<Seq<char>>, bits: Seq<bool>) -> Seq<EncodedModel>
    decreases bits.len(),
{
    if bits.len() == 0 || names.len() == 0 {
        Seq::empty()
    } else {
        let init = encode_flags(names.drop_last(), bits.drop_last());
        if bits.last() {
            init.push(EncodedModel::Text(names.last()))
        } else {
            init
        }
    }
}

/// The value under the first pair carrying the name, if any.
pub open spec fn lookup_pair(pairs: Seq<(Seq<char>, EncodedModel)>, name: Seq<char>) -> Option<
    EncodedModel,
>
    decreases pairs.len(),
{
    if pairs.len() == 0 {
        None
    } else if pairs[0].0 == name {
        Some(pairs[0].1)
    } else {
        lookup_pair(pairs.drop_first(), name)
    }
}

/// The index of the first name equal to the sought one, if any.
pub open spec fn find_name(names: Seq<Seq<char>>, sought: Seq<char>) -> Option<int>
    decreases names.len(),
{
    if names.len() == 0 {
        None
    } else if names[0] == sought {
        Some(0int)
    } else {
        match find_name(names.drop_first(), sought) {
            Some(i) => Some(i + 1),
            None => None,
        }
    }
}

/// What decoding an encoded value against a schema type yields, with the
/// resource table state it leaves behind: decoding a handle whose object
/// does not yet carry an identifier registers it.
pub open spec fn spec_decode(t: TypeModel, e: EncodedModel, s: TableModel) -> (Result<
    ValueModel,
    ErrorModel,
>, TableModel)
    decreases t, 0nat,
{
    match t {
        TypeModel::U8 => (
            match e {
                EncodedModel::Number(n) => {
                    if 0 <= n <= u8::MAX {
                        Ok(ValueModel::U8(n as u8))
                    } else {
                        Err(mism(t, e))
                    }
                },
                _ => Err(mism(t, e)),
            },
            s,
        ),
        TypeModel::U16 => (
            match e {
                EncodedModel::Number(n) => {
                    if 0 <= n <= u16::MAX {
                        Ok(ValueModel::U16(n as u16))
                    } else {
                        Err(mism(t, e))
                    }
                },
                _ => Err(mism(t, e)),
            },
            s,
        ),
        TypeModel::U32 => (
            match e {
                EncodedModel::Number(n) => {
                    if 0 <= n <= u32::MAX {
                        Ok(ValueModel::U32(n as u32))
                    } else {
                        Err(mism(t, e))
                    }
                },
                _ => Err(mism(t, e)),
            },
            s,
        ),
        TypeModel::U64 => (
            match e {
                EncodedModel::BigInt(n) => {
                    if 0 <= n <= u64::MAX {
                        Ok(ValueModel::U64(n as u64))
                    } else {
                        Err(mism(t, e))
                    }
                },
                _ => Err(mism(t, e)),
            },
            s,
        ),
        TypeModel::S8 => (
            match e {
                EncodedModel::Number(n) => {
                    if i8::MIN <= n <= i8::MAX {
                        Ok(ValueModel::S8(n as i8))
                    } else {
                        Err(mism(t, e))
                    }
                },
                _ => Err(mism(t, e)),
            },
            s,
        ),
        TypeModel::S16 => (
            match e {
                EncodedModel::Number(n) => {
                    if i16::MIN <= n <= i16::MAX {
                        Ok(ValueModel::S16(n as i16))
                    } else {
                        Err(mism(t, e))
                    }
                },
                _ => Err(mism(t, e)),
            },
            s,
        ),
        TypeModel::S32 => (
            match e {
                EncodedModel::Number(n) => {
                    if i32::MIN <= n <= i32::MAX {
                        Ok(ValueModel::S32(n as i32))
                    } else {
                        Err(mism(t, e))
                    }
                },
                _ => Err(mism(t, e)),
            },
            s,
        ),
        TypeModel::S64 => (
            match e {
                EncodedModel::BigInt(n) => {
                    if i64::MIN <= n <= i64::MAX {
                        Ok(ValueModel::S64(n as i64))
                    } else {
                        Err(mism(t, e))
                    }
                },
                _ => Err(mism(t, e)),
            },
            s,
        ),
        TypeModel::Bool => (
            match e {
                EncodedModel::Bool(b) => Ok(ValueModel::Bool(b)),
                _ => Err(mism(t, e)),
            },
            s,
        ),
        TypeModel::Char => (
            match e {
                EncodedModel::Text(txt) => {
                    if txt.len() == 1 {
                        Ok(ValueModel::Char(txt[0]))
                    } else {
                        Err(mism(t, e))
                    }
                },
                _ => Err(mism(t, e)),
            },
            s,
        ),
        TypeModel::Text => (
            match e {
                EncodedModel::Text(txt) => Ok(ValueModel::Text(txt)),
                _ => Err(mism(t, e)),
            },
            s,
        ),
        TypeModel::Record(fields) => match e {
            EncodedModel::Object(pairs) => match decode_fields(fields, pairs, s) {
                (Ok(vals), s1) => (Ok(ValueModel::Record(vals)), s1),
                (Err(er), s1) => (Err(er), s1),
            },
            _ => (Err(mism(t, e)), s),
        },
        TypeModel::Variant(cases) => match e {
            EncodedModel::Object(pairs) => match lookup_pair(pairs, tag_key()) {
                Some(EncodedModel::Text(tag)) => match find_name(case_names(cases), tag) {
                    Some(i) => {
                        if !(0 <= i < cases.len()) {
                            // `find_name` only returns indexes into its input.
                            (Err(ErrorModel::UnknownCase(tag)), s)
                        } else {
                            match cases[i].1 {
                                Some(pt) => match lookup_pair(pairs, value_key()) {
                                    Some(pe) => match spec_decode(pt, pe, s) {
                                        (Ok(pv), s1) => (
                                            Ok(
                                                ValueModel::Variant {
                                                    case: i,
                                                    payload: Some(Box::new(pv)),
                                                },
                                            ),
                                            s1,
                                        ),
                                        (Err(er), s1) => (Err(er), s1),
                                    },
                                    None => (Err(ErrorModel::MissingField(value_key())), s),
                                },
                                None => (Ok(ValueModel::Variant { case: i, payload: None }), s),
                            }
                        }
                    },
                    None => (Err(ErrorModel::UnknownCase(tag)), s),
                },
                Some(other) => (
                    Err(
                        ErrorModel::TypeMismatch {
                            expected: TypeKind::VariantType,
                            actual: kind_of(other),
                        },
                    ),
                    s,
                ),
                None => (Err(ErrorModel::MissingField(tag_key())), s),
            },
            _ => (Err(mism(t, e)), s),
        },
        TypeModel::Enumeration(names) => (
            match e {
                EncodedModel::Text(txt) => match find_name(names, txt) {
                    Some(i) => Ok(ValueModel::Enumeration(i)),
                    None => Err(ErrorModel::UnknownCase(txt)),
                },
                _ => Err(mism(t, e)),
            },
            s,
        ),
        TypeModel::Flags(names) => (
            match e {
                EncodedModel::Array(items) => {
                    match decode_flags(names, items, Seq::new(names.len(), |i: int| false)) {
                        Ok(bits) => Ok(ValueModel::Flags(bits)),
                        Err(er) => Err(er),
                    }
                },
                _ => Err(mism(t, e)),
            },
            s,
        ),
        TypeModel::Tuple(tys) => match e {
            EncodedModel::Array(items) => {
                if items.len() == tys.len() {
                    match decode_tuple(tys, items, s) {
                        (Ok(vals), s1) => (Ok(ValueModel::Tuple(vals)), s1),
                        (Err(er), s1) => (Err(er), s1),
                    }
                } else {
                    (
                        Err(
                            ErrorModel::TypeMismatch {
                                expected: TypeKind::TupleType,
                                actual: ValueKind::ArrayValue,
                            },
                        ),
                        s,
                    )
                }
            },
            _ => (Err(mism(t, e)), s),
        },
        TypeModel::List(t0) => match e {
            EncodedModel::Array(items) => match decode_list(*t0, items, s) {
                (Ok(vals), s1) => (Ok(ValueModel::List(vals)), s1),
                (Err(er), s1) => (Err(er), s1),
            },
            _ => (Err(mism(t, e)), s),
        },
        TypeModel::Optional(t0) => {
            if e is Null || e is Undefined {
                (Ok(ValueModel::Optional(None)), s)
            } else if wraps_some(*t0) {
                match e {
                    EncodedModel::Object(pairs) => match lookup_pair(pairs, some_key()) {
                        Some(pe) => match spec_decode(*t0, pe, s) {
                            (Ok(pv), s1) => (
                                Ok(ValueModel::Optional(Some(Box::new(pv)))),
                                s1,
                            ),
                            (Err(er), s1) => (Err(er), s1),
                        },
                        None => (
                            Err(
                                ErrorModel::TypeMismatch {
                                    expected: TypeKind::OptionType,
                                    actual: ValueKind::ObjectValue,
                                },
                            ),
                            s,
                        ),
                    },
                    _ => (Err(mism(t, e)), s),
                }
            } else {
                match spec_decode(*t0, e, s) {
                    (Ok(pv), s1) => (Ok(ValueModel::Optional(Some(Box::new(pv)))), s1),
                    (Err(er), s1) => (Err(er), s1),
                }
            }
        },
        TypeModel::ResultOf { ok, err } => match e {
            EncodedModel::Object(pairs) => match lookup_pair(pairs, ok_key()) {
                Some(pe) => match ok {
                    Some(pt) => match spec_decode(*pt, pe, s) {
                        (Ok(pv), s1) => (
                            Ok(
                                ValueModel::ResultOf {
                                    is_ok: true,
                                    payload: Some(Box::new(pv)),
                                },
                            ),
                            s1,
                        ),
                        (Err(er), s1) => (Err(er), s1),
                    },
                    None => (Ok(ValueModel::ResultOf { is_ok: true, payload: None }), s),
                },
                None => match lookup_pair(pairs, err_key()) {
                    Some(pe) => match err {
                        Some(pt) => match spec_decode(*pt, pe, s) {
                            (Ok(pv), s1) => (
                                Ok(
                                    ValueModel::ResultOf {
                                        is_ok: false,
                                        payload: Some(Box::new(pv)),
                                    },
                                ),
                                s1,
                            ),
                            (Err(er), s1) => (Err(er), s1),
                        },
                        None => (
                            Ok(ValueModel::ResultOf { is_ok: false, payload: None }),
                            s,
                        ),
                    },
                    None => (
                        Err(
                            ErrorModel::TypeMismatch {
                                expected: TypeKind::ResultType,
                                actual: ValueKind::ObjectValue,
                            },
                        ),
                        s,
                    ),
                },
            },
            _ => (Err(mism(t, e)), s),
        },
        TypeModel::Handle { .. } => match e {
            EncodedModel::Resource { token, id } => {
                let (rid, s1) = spec_register(s, id, token);
                (Ok(ValueModel::Handle { id: rid }), s1)
            },
            _ => (Err(mism(t, e)), s),
        },
    }
}

/// Record fields decoded in declared order, each looked up by name.
pub open spec fn decode_fields(
    fields: Seq<(Seq<char>, TypeModel)>,
    pairs: Seq<(Seq<char>, EncodedModel)>,
    s: TableModel,
) -> (Result<Seq<ValueModel>, ErrorModel>, TableModel)
    decreases fields, fields.len(),
{
    if fields.len() == 0 {
        (Ok(Seq::empty()), s)
    } else {
        match decode_fields(fields.drop_last(), pairs, s) {
            (Ok(vals), s1) => match lookup_pair(pairs, fields.last().0) {
                Some(fe) => match spec_decode(fields.last().1, fe, s1) {
                    (Ok(v), s2) => (Ok(vals.push(v)), s2),
                    (Err(er), s2) => (Err(er), s2),
                },
                None => (Err(ErrorModel::MissingField(fields.last().0)), s1),
            },
            (Err(er), s1) => (Err(er), s1),
        }
    }
}

/// Tuple elements decoded positionally.
pub open spec fn decode_tuple(
    tys: Seq<TypeModel>,
    items: Seq<EncodedModel>,
    s: TableModel,
) -> (Result<Seq<ValueModel>, ErrorModel>, TableModel)
    decreases tys, tys.len(),
{
    if tys.len() == 0 {
        (Ok(Seq::empty()), s)
    } else {
        match decode_tuple(tys.drop_last(), items.drop_last(), s) {
            (Ok(vals), s1) => match spec_decode(tys.last(), items.last(), s1) {
                (Ok(v), s2) => (Ok(vals.push(v)), s2),
                (Err(er), s2) => (Err(er), s2),
            },
            (Err(er), s1) => (Err(er), s1),
        }
    }
}

/// List elements decoded in order.
pub open spec fn decode_list(t0: TypeModel, items: Seq<EncodedModel>, s: TableModel) -> (Result<
    Seq<ValueModel>,
    ErrorModel,
>, TableModel)
    decreases t0, items.len(),
{
    if items.len() == 0 {
        (Ok(Seq::empty()), s)
    } else {
        match decode_list(t0, items.drop_last(), s) {
            (Ok(vals), s1) => match spec_decode(t0, items.last(), s1) {
                (Ok(v), s2) => (Ok(vals.push(v)), s2),
                (Err(er), s2) => (Err(er), s2),
            },
            (Err(er), s1) => (Err(er), s1),
        }
    }
}

/// Flag items folded over the accumulated bits: each item must be a declared
/// flag name, order-insensitive, and no flag may be set twice.
pub open spec fn decode_flags(
    names: Seq<Seq<char>>,
    items: Seq<EncodedModel>,
    acc: Seq<bool>,
) -> Result<Seq<bool>, ErrorModel>
    decreases items.len(),
{
    if items.len() == 0 {
        Ok(acc)
    } else {
        match decode_flags(names, items.drop_last(), acc) {
            Ok(bits) => match items.last() {
                EncodedModel::Text(nm) => match find_name(names, nm) {
                    Some(i) => {
                        if bits[i] {
                            Err(
                                ErrorModel::TypeMismatch {
                                    expected: TypeKind::FlagsType,
                                    actual: ValueKind::TextValue,
                                },
                            )
                        } else {
                            Ok(bits.update(i, true))
                        }
                    },
                    None => Err(ErrorModel::UnknownCase(nm)),
                },
                other => Err(
                    ErrorModel::TypeMismatch {
                        expected: TypeKind::FlagsType,
                        actual: kind_of(other),
                    },
                ),
            },
            Err(er) => Err(er),
        }
    }
}

/// Decoding never shrinks the identifier generator, never touches the
/// pending drop queue, preserves the table's well-formedness, and never
/// removes or rebinds a live entry: it only registers fresh ones.
pub proof fn lemma_decode_next_mono(t: TypeModel, e: EncodedModel, s: TableModel)
    ensures
        ({
            let (r, s1) = spec_decode(t, e, s);
            &&& s1.next >= s.next
            &&& s1.pending == s.pending
            &&& (s.wf() ==> s1.wf())
            &&& ((s.wf() && s1.next <= u64::MAX as int) ==> forall|id: u64|
                #[trigger] s.entries.dom().contains(id) ==> s1.entries.dom().contains(id)
                    && s1.entries[id] == s.entries[id])
        }),
    decreases t, 0nat,
{
    match t {
        TypeModel::Record(fields) => match e {
            EncodedModel::Object(pairs) => lemma_decode_fields_next_mono(fields, pairs, s),
            _ => {},
        },
        TypeModel::Variant(cases) => match e {
            EncodedModel::Object(pairs) => match lookup_pair(pairs, tag_key()) {
                Some(EncodedModel::Text(tag)) => match find_name(case_names(cases), tag) {
                    Some(i) => {
                        if 0 <= i < cases.len() {
                            match cases[i].1 {
                                Some(pt) => match lookup_pair(pairs, value_key()) {
                                    Some(pe) => lemma_decode_next_mono(pt, pe, s),
                                    None => {},
                                },
                                None => {},
                            }
                        }
                    },
                    None => {},
                },
                _ => {},
            },
            _ => {},
        },
        TypeModel::Tuple(tys) => match e {
            EncodedModel::Array(items) => {
                if items.len() == tys.len() {
                    lemma_decode_tuple_next_mono(tys, items, s);
                }
            },
            _ => {},
        },
        TypeModel::List(t0) => match e {
            EncodedModel::Array(items) => lemma_decode_list_next_mono(*t0, items, s),
            _ => {},
        },
        TypeModel::Optional(t0) => {
            if e is Null || e is Undefined {
            } else if wraps_some(*t0) {
                match e {
                    EncodedModel::Object(pairs) => match lookup_pair(pairs, some_key()) {
                        Some(pe) => lemma_decode_next_mono(*t0, pe, s),
                        None => {},
                    },
                    _ => {},
                }
            } else {
                lemma_decode_next_mono(*t0, e, s);
            }
        },
        TypeModel::ResultOf { ok, err } => match e {
            EncodedModel::Object(pairs) => match lookup_pair(pairs, ok_key()) {
                Some(pe) => match ok {
                    Some(pt) => lemma_decode_next_mono(*pt, pe, s),
                    None => {},
                },
                None => match lookup_pair(pairs, err_key()) {
                    Some(pe) => match err {
                        Some(pt) => lemma_decode_next_mono(*pt, pe, s),
                        None => {},
                    },
                    None => {},
                },
            },
            _ => {},
        },
        _ => {},
    }
}

pub proof fn lemma_decode_fields_next_mono(
    fields: Seq<(Seq<char>, TypeModel)>,
    pairs: Seq<(Seq<char>, EncodedModel)>,
    s: TableModel,
)
    ensures
        ({
            let (r, s1) = decode_fields(fields, pairs, s);
            &&& s1.next >= s.next
            &&& s1.pending == s.pending
            &&& (s.wf() ==> s1.wf())
            &&& ((s.wf() && s1.next <= u64::MAX as int) ==> forall|id: u64|
                #[trigger] s.entries.dom().contains(id) ==> s1.entries.dom().contains(id)
                    && s1.entries[id] == s.entries[id])
        }),
    decreases fields, fields.len(),
{
    if fields.len() > 0 {
        lemma_decode_fields_next_mono(fields.drop_last(), pairs, s);
        let (r0, s1) = decode_fields(fields.drop_last(), pairs, s);
        if r0 is Ok {
            match lookup_pair(pairs, fields.last().0) {
                Some(fe) => lemma_decode_next_mono(fields.last().1, fe, s1),
                None => {},
            }
        }
    }
}

pub proof fn lemma_decode_tuple_next_mono(
    tys: Seq<TypeModel>,
    items: Seq<EncodedModel>,
    s: TableModel,
)
    ensures
        ({
            let (r, s1) = decode_tuple(tys, items, s);
            &&& s1.next >= s.next
            &&& s1.pending == s.pending
            &&& (s.wf() ==> s1.wf())
            &&& ((s.wf() && s1.next <= u64::MAX as int) ==> forall|id: u64|
                #[trigger] s.entries.dom().contains(id) ==> s1.entries.dom().contains(id)
                    && s1.entries[id] == s.entries[id])
        }),
    decreases tys, tys.len(),
{
    if tys.len() > 0 {
        lemma_decode_tuple_next_mono(tys.drop_last(), items.drop_last(), s);
        let (r0, s1) = decode_tuple(tys.drop_last(), items.drop_last(), s);
        if r0 is Ok {
            lemma_decode_next_mono(tys.last(), items.last(), s1);
        }
    }
}

pub proof fn lemma_decode_list_next_mono(t0: TypeModel, items: Seq<EncodedModel>, s: TableModel)
    ensures
        ({
            let (r, s1) = decode_list(t0, items, s);
            &&& s1.next >= s.next
            &&& s1.pending == s.pending
            &&& (s.wf() ==> s1.wf())
            &&& ((s.wf() && s1.next <= u64::MAX as int) ==> forall|id: u64|
                #[trigger] s.entries.dom().contains(id) ==> s1.entries.dom().contains(id)
                    && s1.entries[id] == s.entries[id])
        }),
    decreases t0, items.len(),
{
    if items.len() > 0 {
        lemma_decode_list_next_mono(t0, items.drop_last(), s);
        let (r0, s1) = decode_list(t0, items.drop_last(), s);
        if r0 is Ok {
            lemma_decode_next_mono(t0, items.last(), s1);
        }
    }
}

/// The full record fold agrees with a failing prefix, and never falls behind
/// a prefix's generator position.
pub proof fn lemma_decode_fields_prefix(
    fields: Seq<(Seq<char>, TypeModel)>,
    pairs: Seq<(Seq<char>, EncodedModel)>,
    s: TableModel,
    j: int,
)
    requires
        0 <= j <= fields.len(),
    ensures
        decode_fields(fields.take(j), pairs, s).0 is Err ==> decode_fields(fields, pairs, s)
            == decode_fields(fields.take(j), pairs, s),
        decode_fields(fields, pairs, s).1.next >= decode_fields(fields.take(j), pairs, s).1.next,
    decreases fields.len(),
{
    if j == fields.len() {
        assert(fields.take(j) =~= fields);
    } else {
        lemma_decode_fields_prefix(fields.drop_last(), pairs, s, j);
        assert(fields.drop_last().take(j) =~= fields.take(j));
        let (r0, s1) = decode_fields(fields.drop_last(), pairs, s);
        if r0 is Ok {
            match lookup_pair(pairs, fields.last().0) {
                Some(fe) => lemma_decode_next_mono(fields.last().1, fe, s1),
                None => {},
            }
        }
    }
}

/// The full tuple fold agrees with a failing prefix, and never falls behind
/// a prefix's generator position.
pub proof fn lemma_decode_tuple_prefix(
    tys: Seq<TypeModel>,
    items: Seq<EncodedModel>,
    s: TableModel,
    j: int,
)
    requires
        0 <= j <= tys.len(),
        items.len() == tys.len(),
    ensures
        decode_tuple(tys.take(j), items.take(j), s).0 is Err ==> decode_tuple(tys, items, s)
            == decode_tuple(tys.take(j), items.take(j), s),
        decode_tuple(tys, items, s).1.next >= decode_tuple(tys.take(j), items.take(j), s).1.next,
    decreases tys.len(),
{
    if j == tys.len() {
        assert(tys.take(j) =~= tys);
        assert(items.take(j) =~= items);
    } else {
        lemma_decode_tuple_prefix(tys.drop_last(), items.drop_last(), s, j);
        assert(tys.drop_last().take(j) =~= tys.take(j));
        assert(items.drop_last().take(j) =~= items.take(j));
        let (r0, s1) = decode_tuple(tys.drop_last(), items.drop_last(), s);
        if r0 is Ok {
            lemma_decode_next_mono(tys.last(), items.last(), s1);
        }
    }
}

/// The full list fold agrees with a failing prefix, and never falls behind
/// a prefix's generator position.
pub proof fn lemma_decode_list_prefix(
    t0: TypeModel,
    items: Seq<EncodedModel>,
    s: TableModel,
    j: int,
)
    requires
        0 <= j <= items.len(),
    ensures
        decode_list(t0, items.take(j), s).0 is Err ==> decode_list(t0, items, s) == decode_list(
            t0,
            items.take(j),
            s,
        ),
        decode_list(t0, items, s).1.next >= decode_list(t0, items.take(j), s).1.next,
    decreases items.len(),
{
    if j == items.len() {
        assert(items.take(j) =~= items);
    } else {
        lemma_decode_list_prefix(t0, items.drop_last(), s, j);
        assert(items.drop_last().take(j) =~= items.take(j));
        let (r0, s1) = decode_list(t0, items.drop_last(), s);
        if r0 is Ok {
            lemma_decode_next_mono(t0, items.last(), s1);
        }
    }
}

/// The full flag fold agrees with a failing prefix.
pub proof fn lemma_decode_flags_prefix(
    names: Seq<Seq<char>>,
    items: Seq<EncodedModel>,
    acc: Seq<bool>,
    j: int,
)
    requires
        0 <= j <= items.len(),
        decode_flags(names, items.take(j), acc) is Err,
    ensures
        decode_flags(names, items, acc) == decode_flags(names, items.take(j), acc),
    decreases items.len(),
{
    if j == items.len() {
        assert(items.take(j) =~= items);
    } else {
        assert(items.drop_last().take(j) =~= items.take(j));
        lemma_decode_flags_prefix(names, items.drop_last(), acc, j);
    }
}

pub proof fn lemma_encode_fields_element_none(
    fields: Seq<(Seq<char>, TypeModel)>,
    vals: Seq<ValueModel>,
    m: Map<u64, u64>,
    i: int,
)
    requires
        fields.len() == vals.len(),
        0 <= i < vals.len(),
        spec_encode(fields[i].1, vals[i], m) is None,
    ensures
        encode_fields(fields, vals, m) is None,
    decreases vals.len(),
{
    if i < vals.len() - 1 {
        lemma_encode_fields_element_none(fields.drop_last(), vals.drop_last(), m, i);
    }
}

pub proof fn lemma_encode_tuple_element_none(
    tys: Seq<TypeModel>,
    vals: Seq<ValueModel>,
    m: Map<u64, u64>,
    i: int,
)
    requires
        tys.len() == vals.len(),
        0 <= i < vals.len(),
        spec_encode(tys[i], vals[i], m) is None,
    ensures
        encode_tuple(tys, vals, m) is None,
    decreases vals.len(),
{
    if i < vals.len() - 1 {
        lemma_encode_tuple_element_none(tys.drop_last(), vals.drop_last(), m, i);
    }
}

pub proof fn lemma_encode_list_element_none(
    t0: TypeModel,
    vals: Seq<ValueModel>,
    m: Map<u64, u64>,
    i: int,
)
    requires
        0 <= i < vals.len(),
        spec_encode(t0, vals[i], m) is None,
    ensures
        encode_list(t0, vals, m) is None,
    decreases vals.len(),
{
    if i < vals.len() - 1 {
        lemma_encode_list_element_none(t0, vals.drop_last(), m, i);
    }
}

/// The reserved `tag` field name.
fn key_tag() -> (s: String)
    ensures
        s@ == tag_key(),
{
    "tag".to_owned()
}

/// The reserved `value` field name.
fn key_value() -> (s: String)
    ensures
        s@ == value_key(),
{
    "value".to_owned()
}

/// The reserved wrapper field name for a present optional payload.
fn key_some() -> (s: String)
    ensures
        s@ == some_key(),
{
    "some".to_owned()
}

/// The field name a successful result populates.
fn key_ok() -> (s: String)
    ensures
        s@ == ok_key(),
{
    "ok".to_owned()
}

/// The field name a failed result populates.
fn key_err() -> (s: String)
    ensures
        s@ == err_key(),
{
    "err".to_owned()
}

/// Relies on `String::from` for `char`: the resulting string holds exactly
/// that one character.
#[verifier::external_body]
fn char_to_string(c: char) -> (s: String)
    ensures
        s@ == seq![c],
{
    String::from(c)
}

/// Whether a present optional payload of this type crosses wrapped.
fn is_wrapped(t: &SchemaType) -> (b: bool)
    ensures
        b == wraps_some(t@),
{
    matches!(
        t,
        SchemaType::Record(_) | SchemaType::Variant(_) | SchemaType::Enumeration(_)
            | SchemaType::Flags(_) | SchemaType::Tuple(_) | SchemaType::List(_)
            | SchemaType::Optional(_) | SchemaType::ResultOf { .. }
    )
}

/// Encode a conforming schema value against its schema type, resolving
/// handles through the resource table.
///
/// Succeeds exactly when every handle the value mentions is live; a dead
/// handle is reported as `NotFound`, since it signals a use after release.
#[verifier::loop_isolation(false)]
pub fn encode(t: &SchemaType, v: &SchemaValue, tab: &ResourceTable) -> (r: Result<
    EncodedValue,
    ResourceError,
>)
    requires
        conforms(t@, v@),
    ensures
        r is Ok <==> spec_encode(t@, v@, tab@.entries) is Some,
        (r matches Ok(e) ==> Some(e@) == spec_encode(t@, v@, tab@.entries)),
        (r matches Err(re) ==> re matches ResourceError::NotFound(id) && handles_in(v@).contains(
            id,
        ) && !tab@.entries.dom().contains(id)),
    decreases *t, 0nat,
{
    let ghost m = tab@.entries;
    match (t, v) {
        (SchemaType::U8, SchemaValue::U8(n)) => Ok(EncodedValue::Number(*n as i64)),
        (SchemaType::U16, SchemaValue::U16(n)) => Ok(EncodedValue::Number(*n as i64)),
        (SchemaType::U32, SchemaValue::U32(n)) => Ok(EncodedValue::Number(*n as i64)),
        (SchemaType::U64, SchemaValue::U64(n)) => Ok(EncodedValue::BigInt(*n as i128)),
        (SchemaType::S8, SchemaValue::S8(n)) => Ok(EncodedValue::Number(*n as i64)),
        (SchemaType::S16, SchemaValue::S16(n)) => Ok(EncodedValue::Number(*n as i64)),
        (SchemaType::S32, SchemaValue::S32(n)) => Ok(EncodedValue::Number(*n as i64)),
        (SchemaType::S64, SchemaValue::S64(n)) => Ok(EncodedValue::BigInt(*n as i128)),
        (SchemaType::Bool, SchemaValue::Bool(b)) => Ok(EncodedValue::Bool(*b)),
        (SchemaType::Char, SchemaValue::Char(c)) => Ok(EncodedValue::Text(char_to_string(*c))),
        (SchemaType::Text, SchemaValue::Text(s)) => Ok(EncodedValue::Text(s.clone())),
        (SchemaType::Record(fields), SchemaValue::Record(vals)) => {
            proof {
                lemma_field_models(fields@);
                lemma_value_models(vals@);
                lemma_conforms_fields(field_models(fields@), value_models(vals@));
            }
            let mut pairs: Vec<(String, EncodedValue)> = Vec::new();
            let mut i: usize = 0;
            while i < fields.len()
                invariant
                    conforms(t@, v@),
                    t@ == TypeModel::Record(field_models(fields@)),
                    v@ == ValueModel::Record(value_models(vals@)),
                    m == tab@.entries,
                    field_models(fields@).len() == fields@.len(),
                    value_models(vals@).len() == vals@.len(),
                    forall|j: int|
                        0 <= j < fields@.len() ==> field_models(fields@)[j] == (
                            fields@[j].name@,
                            crate::schema::type_model(fields@[j].ty),
                        ),
                    forall|j: int|
                        0 <= j < vals@.len() ==> value_models(vals@)[j] == crate::value::value_model(
                            vals@[j],
                        ),
                    forall|j: int|
                        0 <= j < vals@.len() ==> conforms(
                            field_models(fields@)[j].1,
                            #[trigger] value_models(vals@)[j],
                        ),
                    vals@.len() == fields@.len(),
                    0 <= i <= fields@.len(),
                    encode_fields(
                        field_models(fields@).take(i as int),
                        value_models(vals@).take(i as int),
                        m,
                    ) == Some(pair_models(pairs@)),
                decreases fields@.len() - i,
            {
                proof {
                    assert(decreases_to!(*t => *fields));
                    assert(decreases_to!(*fields => fields@));
                    assert(decreases_to!(fields@ => fields@[i as int]));
                    assert(decreases_to!(fields@[i as int] => fields@[i as int].ty));
                    assert(conforms(field_models(fields@)[i as int].1, value_models(vals@)[i as int]));
                }
                let fr = encode(&fields[i].ty, &vals[i], tab);
                match fr {
                    Ok(e) => {
                        let ghost old_pairs = pairs@;
                        pairs.push((fields[i].name.clone(), e));
                        proof {
                            lemma_pair_models(old_pairs);
                            lemma_pair_models(pairs@);
                            assert(pairs@.drop_last() =~= old_pairs);
                            assert(pair_models(pairs@) == pair_models(old_pairs).push(
                                (fields@[i as int].name@, e@),
                            ));
                            let ff = field_models(fields@).take(i + 1);
                            let vv = value_models(vals@).take(i + 1);
                            assert(ff.drop_last() =~= field_models(fields@).take(i as int));
                            assert(vv.drop_last() =~= value_models(vals@).take(i as int));
                            assert(ff.last() == field_models(fields@)[i as int]);
                            assert(vv.last() == value_models(vals@)[i as int]);
                        }
                    },
                    Err(re) => {
                        proof {
                            lemma_encode_fields_element_none(
                                field_models(fields@),
                                value_models(vals@),
                                m,
                                i as int,
                            );
                            lemma_handles_in_seq(value_models(vals@));
                            let id = re->0;
                            assert(handles_in(value_models(vals@)[i as int]).contains(id));
                            assert(handles_in_seq(value_models(vals@)).contains(id));
                        }
                        return Err(re);
                    },
                }
                i = i + 1;
            }
            proof {
                assert(field_models(fields@).take(fields@.len() as int) =~= field_models(fields@));
                assert(value_models(vals@).take(fields@.len() as int) =~= value_models(vals@));
            }
            Ok(EncodedValue::Object(pairs))
        },
        (SchemaType::Variant(cases), SchemaValue::Variant { case, payload }) => {
            proof {
                lemma_case_models(cases@);
            }
            let c = &cases[*case];
            match (&c.payload, payload) {
                (Some(pt), Some(pv)) => {
                    match encode(pt, &**pv, tab) {
                        Ok(e) => {
                            let mut pairs: Vec<(String, EncodedValue)> = Vec::new();
                            pairs.push((key_tag(), EncodedValue::Text(c.name.clone())));
                            pairs.push((key_value(), e));
                            proof {
                                lemma_pair_models(pairs@);
                                assert(pair_models(pairs@) =~= seq![
                                    (tag_key(), EncodedModel::Text(cases@[case@ as int].name@)),
                                    (value_key(), e@),
                                ]);
                            }
                            Ok(EncodedValue::Object(pairs))
                        },
                        Err(re) => Err(re),
                    }
                },
                (None, None) => {
                    let mut pairs: Vec<(String, EncodedValue)> = Vec::new();
                    pairs.push((key_tag(), EncodedValue::Text(c.name.clone())));
                    proof {
                        lemma_pair_models(pairs@);
                        assert(pair_models(pairs@) =~= seq![
                            (tag_key(), EncodedModel::Text(cases@[case@ as int].name@)),
                        ]);
                    }
                    Ok(EncodedValue::Object(pairs))
                },
                _ => unreached(),
            }
        },
        (SchemaType::Enumeration(names), SchemaValue::Enumeration(i)) => {
            Ok(EncodedValue::Text(names[*i].clone()))
        },
        (SchemaType::Flags(names), SchemaValue::Flags(bits)) => {
            let mut items: Vec<EncodedValue> = Vec::new();
            let mut i: usize = 0;
            while i < bits.len()
                invariant
                    bits@.len() == names@.len(),
                    0 <= i <= bits@.len(),
                    encoded_models(items@) == encode_flags(
                        name_models(names@).take(i as int),
                        bits@.take(i as int),
                    ),
                decreases bits@.len() - i,
            {
                proof {
                    let nn = name_models(names@).take(i + 1);
                    let bb = bits@.take(i + 1);
                    assert(nn.drop_last() =~= name_models(names@).take(i as int));
                    assert(bb.drop_last() =~= bits@.take(i as int));
                }
                if bits[i] {
                    let ghost old_items = items@;
                    items.push(EncodedValue::Text(names[i].clone()));
                    proof {
                        lemma_encoded_models(old_items);
                        lemma_encoded_models(items@);
                        assert(items@.drop_last() =~= old_items);
                        assert(encoded_models(items@) == encoded_models(old_items).push(
                            EncodedModel::Text(names@[i as int]@),
                        ));
                    }
                }
                i = i + 1;
            }
            proof {
                assert(name_models(names@).take(names@.len() as int) =~= name_models(names@));
                assert(bits@.take(bits@.len() as int) =~= bits@);
            }
            Ok(EncodedValue::Array(items))
        },
        (SchemaType::Tuple(tys), SchemaValue::Tuple(vals)) => {
            proof {
                lemma_type_models(tys@);
                lemma_value_models(vals@);
                lemma_conforms_tuple(type_models(tys@), value_models(vals@));
            }
            let mut items: Vec<EncodedValue> = Vec::new();
            let mut i: usize = 0;
            while i < tys.len()
                invariant
                    conforms(t@, v@),
                    t@ == TypeModel::Tuple(type_models(tys@)),
                    v@ == ValueModel::Tuple(value_models(vals@)),
                    m == tab@.entries,
                    type_models(tys@).len() == tys@.len(),
                    value_models(vals@).len() == vals@.len(),
                    forall|j: int|
                        0 <= j < tys@.len() ==> type_models(tys@)[j] == crate::schema::type_model(
                            tys@[j],
                        ),
                    forall|j: int|
                        0 <= j < vals@.len() ==> value_models(vals@)[j] == crate::value::value_model(
                            vals@[j],
                        ),
                    forall|j: int|
                        0 <= j < vals@.len() ==> conforms(
                            type_models(tys@)[j],
                            #[trigger] value_models(vals@)[j],
                        ),
                    vals@.len() == tys@.len(),
                    0 <= i <= tys@.len(),
                    encode_tuple(
                        type_models(tys@).take(i as int),
                        value_models(vals@).take(i as int),
                        m,
                    ) == Some(encoded_models(items@)),
                decreases tys@.len() - i,
            {
                proof {
                    assert(decreases_to!(*t => *tys));
                    assert(decreases_to!(*tys => tys@));
                    assert(decreases_to!(tys@ => tys@[i as int]));
                    assert(conforms(type_models(tys@)[i as int], value_models(vals@)[i as int]));
                }
                let fr = encode(&tys[i], &vals[i], tab);
                match fr {
                    Ok(e) => {
                        let ghost old_items = items@;
                        items.push(e);
                        proof {
                            lemma_encoded_models(old_items);
                            lemma_encoded_models(items@);
                            assert(items@.drop_last() =~= old_items);
                            assert(encoded_models(items@) == encoded_models(old_items).push(e@));
                            let tt = type_models(tys@).take(i + 1);
                            let vv = value_models(vals@).take(i + 1);
                            assert(tt.drop_last() =~= type_models(tys@).take(i as int));
                            assert(vv.drop_last() =~= value_models(vals@).take(i as int));
                        }
                    },
                    Err(re) => {
                        proof {
                            lemma_encode_tuple_element_none(
                                type_models(tys@),
                                value_models(vals@),
                                m,
                                i as int,
                            );
                            lemma_handles_in_seq(value_models(vals@));
                            let id = re->0;
                            assert(handles_in(value_models(vals@)[i as int]).contains(id));
                            assert(handles_in_seq(value_models(vals@)).contains(id));
                        }
                        return Err(re);
                    },
                }
                i = i + 1;
            }
            proof {
                assert(type_models(tys@).take(tys@.len() as int) =~= type_models(tys@));
                assert(value_models(vals@).take(tys@.len() as int) =~= value_models(vals@));
            }
            Ok(EncodedValue::Array(items))
        },
        (SchemaType::List(t0), SchemaValue::List(vals)) => {
            proof {
                lemma_value_models(vals@);
                lemma_conforms_list(t0@, value_models(vals@));
            }
            let mut items: Vec<EncodedValue> = Vec::new();
            let mut i: usize = 0;
            while i < vals.len()
                invariant
                    conforms(t@, v@),
                    t@ == TypeModel::List(Box::new(t0@)),
                    v@ == ValueModel::List(value_models(vals@)),
                    m == tab@.entries,
                    value_models(vals@).len() == vals@.len(),
                    forall|j: int|
                        0 <= j < vals@.len() ==> value_models(vals@)[j] == crate::value::value_model(
                            vals@[j],
                        ),
                    forall|j: int|
                        0 <= j < vals@.len() ==> conforms(t0@, #[trigger] value_models(vals@)[j]),
                    0 <= i <= vals@.len(),
                    encode_list(t0@, value_models(vals@).take(i as int), m) == Some(
                        encoded_models(items@),
                    ),
                decreases vals@.len() - i,
            {
                proof {
                    assert(decreases_to!(*t => **t0));
                    assert(conforms(t0@, value_models(vals@)[i as int]));
                }
                let fr = encode(t0, &vals[i], tab);
                match fr {
                    Ok(e) => {
                        let ghost old_items = items@;
                        items.push(e);
                        proof {
                            lemma_encoded_models(old_items);
                            lemma_encoded_models(items@);
                            assert(items@.drop_last() =~= old_items);
                            assert(encoded_models(items@) == encoded_models(old_items).push(e@));
                            let vv = value_models(vals@).take(i + 1);
                            assert(vv.drop_last() =~= value_models(vals@).take(i as int));
                        }
                    },
                    Err(re) => {
                        proof {
                            lemma_encode_list_element_none(
                                t0@,
                                value_models(vals@),
                                m,
                                i as int,
                            );
                            lemma_handles_in_seq(value_models(vals@));
                            let id = re->0;
                            assert(handles_in(value_models(vals@)[i as int]).contains(id));
                            assert(handles_in_seq(value_models(vals@)).contains(id));
                        }
                        return Err(re);
                    },
                }
                i = i + 1;
            }
            proof {
                assert(value_models(vals@).take(vals@.len() as int) =~= value_models(vals@));
            }
            Ok(EncodedValue::Array(items))
        },
        (SchemaType::Optional(t0), SchemaValue::Optional(o)) => match o {
            None => Ok(EncodedValue::Null),
            Some(pv) => match encode(t0, &**pv, tab) {
                Ok(e) => {
                    if is_wrapped(t0) {
                        let mut pairs: Vec<(String, EncodedValue)> = Vec::new();
                        pairs.push((key_some(), e));
                        proof {
                            lemma_pair_models(pairs@);
                            assert(pair_models(pairs@) =~= seq![(some_key(), e@)]);
                        }
                        Ok(EncodedValue::Object(pairs))
                    } else {
                        Ok(e)
                    }
                },
                Err(re) => Err(re),
            },
        },
        (SchemaType::ResultOf { ok, err }, SchemaValue::ResultOf { is_ok, payload }) => {
            if *is_ok {
                match (ok, payload) {
                    (Some(pt), Some(pv)) => match encode(pt, &**pv, tab) {
                        Ok(e) => {
                            let mut pairs: Vec<(String, EncodedValue)> = Vec::new();
                            pairs.push((key_ok(), e));
                            proof {
                                lemma_pair_models(pairs@);
                            assert(pair_models(pairs@) =~= seq![(ok_key(), e@)]);
                            }
                            Ok(EncodedValue::Object(pairs))
                        },
                        Err(re) => Err(re),
                    },
                    (None, None) => {
                        let mut pairs: Vec<(String, EncodedValue)> = Vec::new();
                        pairs.push((key_ok(), EncodedValue::Null));
                        proof {
                            lemma_pair_models(pairs@);
                            assert(pair_models(pairs@) =~= seq![(ok_key(), EncodedModel::Null)]);
                        }
                        Ok(EncodedValue::Object(pairs))
                    },
                    _ => unreached(),
                }
            } else {
                match (err, payload) {
                    (Some(pt), Some(pv)) => match encode(pt, &**pv, tab) {
                        Ok(e) => {
                            let mut pairs: Vec<(String, EncodedValue)> = Vec::new();
                            pairs.push((key_err(), e));
                            proof {
                                lemma_pair_models(pairs@);
                            assert(pair_models(pairs@) =~= seq![(err_key(), e@)]);
                            }
                            Ok(EncodedValue::Object(pairs))
                        },
                        Err(re) => Err(re),
                    },
                    (None, None) => {
                        let mut pairs: Vec<(String, EncodedValue)> = Vec::new();
                        pairs.push((key_err(), EncodedValue::Null));
                        proof {
                            lemma_pair_models(pairs@);
                            assert(pair_models(pairs@) =~= seq![(err_key(), EncodedModel::Null)]);
                        }
                        Ok(EncodedValue::Object(pairs))
                    },
                    _ => unreached(),
                }
            }
        },
        (SchemaType::Handle { .. }, SchemaValue::Handle { id }) => {
            match tab.lookup(*id) {
                Ok(token) => Ok(EncodedValue::Resource { token, id: Some(*id) }),
                Err(re) => Err(re),
            }
        },
        _ => unreached(),
    }
}

/// The native kind of an encoded value.
fn value_kind(e: &EncodedValue) -> (k: ValueKind)
    ensures
        k == kind_of(e@),
{
    match e {
        EncodedValue::Undefined => ValueKind::UndefinedValue,
        EncodedValue::Null => ValueKind::NullValue,
        EncodedValue::Bool(_) => ValueKind::BoolValue,
        EncodedValue::Number(_) => ValueKind::NumberValue,
        EncodedValue::Float(_) => ValueKind::FloatValue,
        EncodedValue::BigInt(_) => ValueKind::BigIntValue,
        EncodedValue::HugeInt => ValueKind::HugeIntValue,
        EncodedValue::Text(_) => ValueKind::TextValue,
        EncodedValue::Array(_) => ValueKind::ArrayValue,
        EncodedValue::Object(_) => ValueKind::ObjectValue,
        EncodedValue::Resource { .. } => ValueKind::ResourceValue,
    }
}

/// The kind of a schema type.
fn type_kind(t: &SchemaType) -> (k: TypeKind)
    ensures
        k == kind_of_type(t@),
{
    match t {
        SchemaType::U8 => TypeKind::U8Type,
        SchemaType::U16 => TypeKind::U16Type,
        SchemaType::U32 => TypeKind::U32Type,
        SchemaType::U64 => TypeKind::U64Type,
        SchemaType::S8 => TypeKind::S8Type,
        SchemaType::S16 => TypeKind::S16Type,
        SchemaType::S32 => TypeKind::S32Type,
        SchemaType::S64 => TypeKind::S64Type,
        SchemaType::Bool => TypeKind::BoolType,
        SchemaType::Char => TypeKind::CharType,
        SchemaType::Text => TypeKind::TextType,
        SchemaType::Record(_) => TypeKind::RecordType,
        SchemaType::Variant(_) => TypeKind::VariantType,
        SchemaType::Enumeration(_) => TypeKind::EnumType,
        SchemaType::Flags(_) => TypeKind::FlagsType,
        SchemaType::Tuple(_) => TypeKind::TupleType,
        SchemaType::List(_) => TypeKind::ListType,
        SchemaType::Optional(_) => TypeKind::OptionType,
        SchemaType::ResultOf { .. } => TypeKind::ResultType,
        SchemaType::Handle { .. } => TypeKind::HandleType,
    }
}

/// A mismatch error naming the expected type kind and the actual value kind.
fn mismatch_error(t: &SchemaType, e: &EncodedValue) -> (er: DecodeError)
    ensures
        er@ == mism(t@, e@),
{
    DecodeError::TypeMismatch { expected: type_kind(t), actual: value_kind(e) }
}

/// The value under the first pair carrying the name, if any.
#[verifier::loop_isolation(false)]
fn lookup_pair_exec<'a>(pairs: &'a Vec<(String, EncodedValue)>, name: &String) -> (r: Option<
    &'a EncodedValue,
>)
    ensures
        match r {
            Some(fe) => lookup_pair(pair_models(pairs@), name@) == Some(fe@),
            None => lookup_pair(pair_models(pairs@), name@) is None,
        },
{
    proof {
        lemma_pair_models(pairs@);
        assert(pair_models(pairs@).skip(0) =~= pair_models(pairs@));
    }
    let mut i: usize = 0;
    while i < pairs.len()
        invariant
            0 <= i <= pairs@.len(),
            lookup_pair(pair_models(pairs@), name@) == lookup_pair(
                pair_models(pairs@).skip(i as int),
                name@,
            ),
        decreases pairs@.len() - i,
    {
        proof {
            assert(pair_models(pairs@).skip(i as int)[0] == pair_models(pairs@)[i as int]);
        }
        if pairs[i].0 == *name {
            return Some(&pairs[i].1);
        }
        proof {
            assert(pair_models(pairs@).skip(i as int).drop_first() =~= pair_models(pairs@).skip(
                i + 1,
            ));
        }
        i = i + 1;
    }
    proof {
        assert(pair_models(pairs@).skip(pairs@.len() as int) =~= Seq::<
            (Seq<char>, EncodedModel),
        >::empty());
    }
    None
}

/// The declared index of the first name equal to the sought one, if any.
#[verifier::loop_isolation(false)]
fn find_name_exec(names: &Vec<String>, sought: &String) -> (r: Option<usize>)
    ensures
        match r {
            Some(i) => find_name(name_models(names@), sought@) == Some(i as int) && i
                < names@.len(),
            None => find_name(name_models(names@), sought@) is None,
        },
{
    proof {
        assert(name_models(names@).skip(0) =~= name_models(names@));
    }
    let mut i: usize = 0;
    while i < names.len()
        invariant
            0 <= i <= names@.len(),
            find_name(name_models(names@), sought@) == (match find_name(
                name_models(names@).skip(i as int),
                sought@,
            ) {
                Some(k) => Some(k + i as int),
                None => None,
            }),
        decreases names@.len() - i,
    {
        proof {
            assert(name_models(names@).skip(i as int)[0] == name_models(names@)[i as int]);
        }
        if names[i] == *sought {
            return Some(i);
        }
        proof {
            assert(name_models(names@).skip(i as int).drop_first() =~= name_models(names@).skip(
                i + 1,
            ));
        }
        i = i + 1;
    }
    proof {
        assert(name_models(names@).skip(names@.len() as int) =~= Seq::<Seq<char>>::empty());
    }
    None
}

/// The declared index of the first case carrying the sought name, if any.
#[verifier::loop_isolation(false)]
fn find_case_exec(cases: &Vec<crate::schema::CaseDecl>, sought: &String) -> (r: Option<usize>)
    ensures
        match r {
            Some(i) => find_name(case_names(case_models(cases@)), sought@) == Some(i as int) && i
                < cases@.len(),
            None => find_name(case_names(case_models(cases@)), sought@) is None,
        },
{
    proof {
        lemma_case_models(cases@);
    }
    let ghost names = case_names(case_models(cases@));
    proof {
        assert(names.skip(0) =~= names);
    }
    let mut i: usize = 0;
    while i < cases.len()
        invariant
            0 <= i <= cases@.len(),
            names == case_names(case_models(cases@)),
            names.len() == cases@.len(),
            forall|j: int| 0 <= j < cases@.len() ==> names[j] == cases@[j].name@,
            find_name(names, sought@) == (match find_name(names.skip(i as int), sought@) {
                Some(k) => Some(k + i as int),
                None => None,
            }),
        decreases cases@.len() - i,
    {
        proof {
            assert(names.skip(i as int)[0] == names[i as int]);
        }
        if cases[i].name == *sought {
            return Some(i);
        }
        proof {
            assert(names.skip(i as int).drop_first() =~= names.skip(i + 1));
        }
        i = i + 1;
    }
    proof {
        assert(names.skip(cases@.len() as int) =~= Seq::<Seq<char>>::empty());
    }
    None
}

/// Whether the schema type is a primitive, decoded without touching the
/// resource table.
pub open spec fn is_primitive(t: TypeModel) -> bool {
    ||| t is U8
    ||| t is U16
    ||| t is U32
    ||| t is U64
    ||| t is S8
    ||| t is S16
    ||| t is S32
    ||| t is S64
    ||| t is Bool
    ||| t is Char
    ||| t is Text
}

/// A successfully decoded character value.
fn char_value(c: char) -> (r: Result<SchemaValue, DecodeError>)
    ensures
        res_model(r) == Ok::<ValueModel, ErrorModel>(ValueModel::Char(c)),
{
    Ok(SchemaValue::Char(c))
}

/// Decode a primitive value; the table state is never involved.
fn decode_primitive(t: &SchemaType, e: &EncodedValue) -> (r: Result<SchemaValue, DecodeError>)
    requires
        is_primitive(t@),
    ensures
        forall|s: TableModel| #![trigger spec_decode(t@, e@, s)]
            spec_decode(t@, e@, s) == (res_model(r), s),
{
    match t {
        SchemaType::U8 => match e {
            EncodedValue::Number(n) => {
                if *n >= 0 && *n <= u8::MAX as i64 {
                    Ok(SchemaValue::U8(*n as u8))
                } else {
                    Err(mismatch_error(t, e))
                }
            },
            _ => Err(mismatch_error(t, e)),
        },
        SchemaType::U16 => match e {
            EncodedValue::Number(n) => {
                if *n >= 0 && *n <= u16::MAX as i64 {
                    Ok(SchemaValue::U16(*n as u16))
                } else {
                    Err(mismatch_error(t, e))
                }
            },
            _ => Err(mismatch_error(t, e)),
        },
        SchemaType::U32 => match e {
            EncodedValue::Number(n) => {
                if *n >= 0 && *n <= u32::MAX as i64 {
                    Ok(SchemaValue::U32(*n as u32))
                } else {
                    Err(mismatch_error(t, e))
                }
            },
            _ => Err(mismatch_error(t, e)),
        },
        SchemaType::U64 => match e {
            EncodedValue::BigInt(n) => {
                if *n >= 0 && *n <= u64::MAX as i128 {
                    Ok(SchemaValue::U64(*n as u64))
                } else {
                    Err(mismatch_error(t, e))
                }
            },
            _ => Err(mismatch_error(t, e)),
        },
        SchemaType::S8 => match e {
            EncodedValue::Number(n) => {
                if *n >= i8::MIN as i64 && *n <= i8::MAX as i64 {
                    Ok(SchemaValue::S8(*n as i8))
                } else {
                    Err(mismatch_error(t, e))
                }
            },
            _ => Err(mismatch_error(t, e)),
        },
        SchemaType::S16 => match e {
            EncodedValue::Number(n) => {
                if *n >= i16::MIN as i64 && *n <= i16::MAX as i64 {
                    Ok(SchemaValue::S16(*n as i16))
                } else {
                    Err(mismatch_error(t, e))
                }
            },
            _ => Err(mismatch_error(t, e)),
        },
        SchemaType::S32 => match e {
            EncodedValue::Number(n) => {
                if *n >= i32::MIN as i64 && *n <= i32::MAX as i64 {
                    Ok(SchemaValue::S32(*n as i32))
                } else {
                    Err(mismatch_error(t, e))
                }
            },
            _ => Err(mismatch_error(t, e)),
        },
        SchemaType::S64 => match e {
            EncodedValue::BigInt(n) => {
                if *n >= i64::MIN as i128 && *n <= i64::MAX as i128 {
                    Ok(SchemaValue::S64(*n as i64))
                } else {
                    Err(mismatch_error(t, e))
                }
            },
            _ => Err(mismatch_error(t, e)),
        },
        SchemaType::Bool => match e {
            EncodedValue::Bool(b) => Ok(SchemaValue::Bool(*b)),
            _ => Err(mismatch_error(t, e)),
        },
        SchemaType::Char => match e {
            EncodedValue::Text(s) => match single_char(s) {
                Some(c) => char_value(c),
                None => Err(mismatch_error(t, e)),
            },
            _ => Err(mismatch_error(t, e)),
        },
        SchemaType::Text => match e {
            EncodedValue::Text(s) => Ok(SchemaValue::Text(s.clone())),
            _ => Err(mismatch_error(t, e)),
        },
        _ => unreached(),
    }
}

/// The model of a decode outcome.
pub open spec fn res_model(r: Result<SchemaValue, DecodeError>) -> Result<ValueModel, ErrorModel> {
    match r {
        Ok(v) => Ok(crate::value::value_model(v)),
        Err(er) => Err(er@),
    }
}

/// Decode an encoded value against a schema type, registering any engine
/// object that crosses without an identifier in the resource table.
///
/// The outcome and the table state left behind are exactly those of
/// [`spec_decode`]; in particular nothing is ever removed from the table,
/// and the pending drop queue is untouched.
#[verifier::loop_isolation(false)]
#[verifier::rlimit(100)]
pub fn decode(t: &SchemaType, e: &EncodedValue, tab: &mut ResourceTable) -> (r: Result<
    SchemaValue,
    DecodeError,
>)
    requires
        old(tab)@.wf(),
        spec_decode(t@, e@, old(tab)@).1.next <= u64::MAX as int,
    ensures
        final(tab)@.wf(),
        (res_model(r), final(tab)@) == spec_decode(t@, e@, old(tab)@),
    decreases *t, 0nat,
{
    proof {
        lemma_decode_next_mono(t@, e@, old(tab)@);
    }
    match t {
        SchemaType::U8 | SchemaType::U16 | SchemaType::U32 | SchemaType::U64 | SchemaType::S8
            | SchemaType::S16 | SchemaType::S32 | SchemaType::S64 | SchemaType::Bool
            | SchemaType::Char | SchemaType::Text => decode_primitive(t, e),
        SchemaType::Record(fields) => match e {
            EncodedValue::Object(pairs) => {
                proof {
                    lemma_field_models(fields@);
                    lemma_pair_models(pairs@);
                }
                let ghost fm = field_models(fields@);
                let ghost pm = pair_models(pairs@);
                let mut vals: Vec<SchemaValue> = Vec::new();
                let mut i: usize = 0;
                while i < fields.len()
                    invariant
                        0 <= i <= fields@.len(),
                        tab@.wf(),
                        decode_fields(fm.take(i as int), pm, old(tab)@) == (
                            Ok::<Seq<ValueModel>, ErrorModel>(value_models(vals@)),
                            tab@,
                        ),
                    decreases fields@.len() - i,
                {
                    proof {
                        assert(fm.take(i + 1).drop_last() =~= fm.take(i as int));
                        assert(fm.take(i + 1).last() == fm[i as int]);
                        lemma_decode_fields_prefix(fm, pm, old(tab)@, i + 1);
                    }
                    match lookup_pair_exec(pairs, &fields[i].name) {
                        Some(fe) => {
                            match decode(&fields[i].ty, fe, tab) {
                                Ok(v) => {
                                    let ghost old_vals = vals@;
                                    vals.push(v);
                                    proof {
                                        lemma_value_models(old_vals);
                                        lemma_value_models(vals@);
                                        assert(vals@.drop_last() =~= old_vals);
                                        assert(value_models(vals@) == value_models(old_vals).push(
                                            crate::value::value_model(v),
                                        ));
                                    }
                                },
                                Err(er) => {
                                    proof {
                                        assert(decode_fields(fm.take(i + 1), pm, old(tab)@)
                                            == (Err::<Seq<ValueModel>, ErrorModel>(er@), tab@));
                                    }
                                    return Err(er);
                                },
                            }
                        },
                        None => {
                            proof {
                                assert(decode_fields(fm.take(i + 1), pm, old(tab)@) == (
                                    Err::<Seq<ValueModel>, ErrorModel>(
                                        ErrorModel::MissingField(fm[i as int].0),
                                    ),
                                    tab@,
                                ));
                            }
                            return Err(DecodeError::MissingField(fields[i].name.clone()));
                        },
                    }
                    i = i + 1;
                }
                proof {
                    assert(fm.take(fields@.len() as int) =~= fm);
                    assert(spec_decode(t@, e@, old(tab)@) == (
                        Ok::<ValueModel, ErrorModel>(ValueModel::Record(value_models(vals@))),
                        tab@,
                    ));
                }
                Ok(SchemaValue::Record(vals))
            },
            _ => Err(mismatch_error(t, e)),
        },
        SchemaType::Variant(cases) => match e {
            EncodedValue::Object(pairs) => {
                proof {
                    lemma_case_models(cases@);
                }
                let kt = key_tag();
                match lookup_pair_exec(pairs, &kt) {
                    Some(tv) => match tv {
                        EncodedValue::Text(tag) => {
                            match find_case_exec(cases, tag) {
                                Some(i) => {
                                    match &cases[i].payload {
                                        Some(pt) => {
                                            let kv = key_value();
                                            match lookup_pair_exec(pairs, &kv) {
                                                Some(pe) => {
                                                    match decode(pt, pe, tab) {
                                                        Ok(v) => Ok(
                                                            SchemaValue::Variant {
                                                                case: i,
                                                                payload: Some(Box::new(v)),
                                                            },
                                                        ),
                                                        Err(er) => Err(er),
                                                    }
                                                },
                                                None => Err(DecodeError::MissingField(key_value())),
                                            }
                                        },
                                        None => Ok(SchemaValue::Variant { case: i, payload: None }),
                                    }
                                },
                                None => Err(DecodeError::UnknownCase(tag.clone())),
                            }
                        },
                        other => Err(
                            DecodeError::TypeMismatch {
                                expected: TypeKind::VariantType,
                                actual: value_kind(other),
                            },
                        ),
                    },
                    None => Err(DecodeError::MissingField(key_tag())),
                }
            },
            _ => Err(mismatch_error(t, e)),
        },
        SchemaType::Enumeration(names) => match e {
            EncodedValue::Text(s) => match find_name_exec(names, s) {
                Some(i) => Ok(SchemaValue::Enumeration(i)),
                None => Err(DecodeError::UnknownCase(s.clone())),
            },
            _ => Err(mismatch_error(t, e)),
        },
        SchemaType::Flags(names) => match e {
            EncodedValue::Array(items) => {
                proof {
                    lemma_encoded_models(items@);
                }
                let ghost nm = name_models(names@);
                let ghost im = encoded_models(items@);
                let ghost acc0 = Seq::<bool>::new(nm.len(), |k: int| false);
                proof {
                    assert(acc0 =~= Seq::new(nm.len(), |i: int| false));
                }
                let mut bits: Vec<bool> = Vec::new();
                let mut j: usize = 0;
                while j < names.len()
                    invariant
                        0 <= j <= names@.len(),
                        bits@ =~= Seq::<bool>::new(j as nat, |k: int| false),
                    decreases names@.len() - j,
                {
                    bits.push(false);
                    j = j + 1;
                }
                proof {
                    assert(bits@ =~= acc0);
                }
                let mut i: usize = 0;
                while i < items.len()
                    invariant
                        0 <= i <= items@.len(),
                        bits@.len() == names@.len(),
                        decode_flags(nm, im.take(i as int), acc0) == Ok::<Seq<bool>, ErrorModel>(
                            bits@,
                        ),
                    decreases items@.len() - i,
                {
                    proof {
                        assert(im.take(i + 1).drop_last() =~= im.take(i as int));
                        assert(im.take(i + 1).last() == im[i as int]);
                    }
                    match &items[i] {
                        EncodedValue::Text(s) => match find_name_exec(names, s) {
                            Some(k) => {
                                if bits[k] {
                                    proof {
                                        lemma_decode_flags_prefix(nm, im, acc0, i + 1);
                                    }
                                    return Err(
                                        DecodeError::TypeMismatch {
                                            expected: TypeKind::FlagsType,
                                            actual: ValueKind::TextValue,
                                        },
                                    );
                                } else {
                                    bits.set(k, true);
                                }
                            },
                            None => {
                                proof {
                                    lemma_decode_flags_prefix(nm, im, acc0, i + 1);
                                }
                                return Err(DecodeError::UnknownCase(s.clone()));
                            },
                        },
                        _ => {
                            proof {
                                lemma_decode_flags_prefix(nm, im, acc0, i + 1);
                            }
                            return Err(
                                DecodeError::TypeMismatch {
                                    expected: TypeKind::FlagsType,
                                    actual: value_kind(&items[i]),
                                },
                            );
                        },
                    }
                    i = i + 1;
                }
                proof {
                    assert(im.take(items@.len() as int) =~= im);
                    assert(spec_decode(t@, e@, old(tab)@) == (
                        Ok::<ValueModel, ErrorModel>(ValueModel::Flags(bits@)),
                        tab@,
                    ));
                }
                Ok(SchemaValue::Flags(bits))
            },
            _ => Err(mismatch_error(t, e)),
        },
        SchemaType::Tuple(tys) => match e {
            EncodedValue::Array(items) => {
                proof {
                    lemma_type_models(tys@);
                    lemma_encoded_models(items@);
                }
                let ghost tm = type_models(tys@);
                let ghost im = encoded_models(items@);
                if items.len() != tys.len() {
                    return Err(
                        DecodeError::TypeMismatch {
                            expected: TypeKind::TupleType,
                            actual: ValueKind::ArrayValue,
                        },
                    );
                }
                let mut vals: Vec<SchemaValue> = Vec::new();
                let mut i: usize = 0;
                while i < tys.len()
                    invariant
                        0 <= i <= tys@.len(),
                        tab@.wf(),
                        decode_tuple(tm.take(i as int), im.take(i as int), old(tab)@) == (
                            Ok::<Seq<ValueModel>, ErrorModel>(value_models(vals@)),
                            tab@,
                        ),
                    decreases tys@.len() - i,
                {
                    proof {
                        assert(tm.take(i + 1).drop_last() =~= tm.take(i as int));
                        assert(im.take(i + 1).drop_last() =~= im.take(i as int));
                        assert(tm.take(i + 1).last() == tm[i as int]);
                        assert(im.take(i + 1).last() == im[i as int]);
                        lemma_decode_tuple_prefix(tm, im, old(tab)@, i + 1);
                    }
                    match decode(&tys[i], &items[i], tab) {
                        Ok(v) => {
                            let ghost old_vals = vals@;
                            vals.push(v);
                            proof {
                                lemma_value_models(old_vals);
                                lemma_value_models(vals@);
                                assert(vals@.drop_last() =~= old_vals);
                                assert(value_models(vals@) == value_models(old_vals).push(
                                    crate::value::value_model(v),
                                ));
                            }
                        },
                        Err(er) => {
                            proof {
                                assert(decode_tuple(tm.take(i + 1), im.take(i + 1), old(tab)@) == (
                                    Err::<Seq<ValueModel>, ErrorModel>(er@),
                                    tab@,
                                ));
                            }
                            return Err(er);
                        },
                    }
                    i = i + 1;
                }
                proof {
                    assert(tm.take(tys@.len() as int) =~= tm);
                    assert(im.take(tys@.len() as int) =~= im);
                    assert(spec_decode(t@, e@, old(tab)@) == (
                        Ok::<ValueModel, ErrorModel>(ValueModel::Tuple(value_models(vals@))),
                        tab@,
                    ));
                }
                Ok(SchemaValue::Tuple(vals))
            },
            _ => Err(mismatch_error(t, e)),
        },
        SchemaType::List(t0) => match e {
            EncodedValue::Array(items) => {
                proof {
                    lemma_encoded_models(items@);
                }
                let ghost im = encoded_models(items@);
                let mut vals: Vec<SchemaValue> = Vec::new();
                let mut i: usize = 0;
                while i < items.len()
                    invariant
                        0 <= i <= items@.len(),
                        tab@.wf(),
                        decode_list(t0@, im.take(i as int), old(tab)@) == (
                            Ok::<Seq<ValueModel>, ErrorModel>(value_models(vals@)),
                            tab@,
                        ),
                    decreases items@.len() - i,
                {
                    proof {
                        assert(im.take(i + 1).drop_last() =~= im.take(i as int));
                        assert(im.take(i + 1).last() == im[i as int]);
                        lemma_decode_list_prefix(t0@, im, old(tab)@, i + 1);
                        assert(decreases_to!(*t => **t0));
                    }
                    match decode(t0, &items[i], tab) {
                        Ok(v) => {
                            let ghost old_vals = vals@;
                            vals.push(v);
                            proof {
                                lemma_value_models(old_vals);
                                lemma_value_models(vals@);
                                assert(vals@.drop_last() =~= old_vals);
                                assert(value_models(vals@) == value_models(old_vals).push(
                                    crate::value::value_model(v),
                                ));
                            }
                        },
                        Err(er) => {
                            proof {
                                assert(decode_list(t0@, im.take(i + 1), old(tab)@) == (
                                    Err::<Seq<ValueModel>, ErrorModel>(er@),
                                    tab@,
                                ));
                            }
                            return Err(er);
                        },
                    }
                    i = i + 1;
                }
                proof {
                    assert(im.take(items@.len() as int) =~= im);
                    assert(spec_decode(t@, e@, old(tab)@) == (
                        Ok::<ValueModel, ErrorModel>(ValueModel::List(value_models(vals@))),
                        tab@,
                    ));
                }
                Ok(SchemaValue::List(vals))
            },
            _ => Err(mismatch_error(t, e)),
        },
        SchemaType::Optional(t0) => match e {
            EncodedValue::Null | EncodedValue::Undefined => Ok(SchemaValue::Optional(None)),
            _ => {
                if is_wrapped(t0) {
                    match e {
                        EncodedValue::Object(pairs) => {
                            let ks = key_some();
                            match lookup_pair_exec(pairs, &ks) {
                                Some(pe) => match decode(t0, pe, tab) {
                                    Ok(v) => Ok(SchemaValue::Optional(Some(Box::new(v)))),
                                    Err(er) => Err(er),
                                },
                                None => Err(
                                    DecodeError::TypeMismatch {
                                        expected: TypeKind::OptionType,
                                        actual: ValueKind::ObjectValue,
                                    },
                                ),
                            }
                        },
                        _ => Err(mismatch_error(t, e)),
                    }
                } else {
                    match decode(t0, e, tab) {
                        Ok(v) => Ok(SchemaValue::Optional(Some(Box::new(v)))),
                        Err(er) => Err(er),
                    }
                }
            },
        },
        SchemaType::ResultOf { ok, err } => match e {
            EncodedValue::Object(pairs) => {
                let ko = key_ok();
                match lookup_pair_exec(pairs, &ko) {
                    Some(pe) => match ok {
                        Some(pt) => match decode(pt, pe, tab) {
                            Ok(v) => Ok(
                                SchemaValue::ResultOf {
                                    is_ok: true,
                                    payload: Some(Box::new(v)),
                                },
                            ),
                            Err(er) => Err(er),
                        },
                        None => Ok(SchemaValue::ResultOf { is_ok: true, payload: None }),
                    },
                    None => {
                        let ke = key_err();
                        match lookup_pair_exec(pairs, &ke) {
                            Some(pe) => match err {
                                Some(pt) => match decode(pt, pe, tab) {
                                    Ok(v) => Ok(
                                        SchemaValue::ResultOf {
                                            is_ok: false,
                                            payload: Some(Box::new(v)),
                                        },
                                    ),
                                    Err(er) => Err(er),
                                },
                                None => Ok(
                                    SchemaValue::ResultOf { is_ok: false, payload: None },
                                ),
                            },
                            None => Err(
                                DecodeError::TypeMismatch {
                                    expected: TypeKind::ResultType,
                                    actual: ValueKind::ObjectValue,
                                },
                            ),
                        }
                    },
                }
            },
            _ => Err(mismatch_error(t, e)),
        },
        SchemaType::Handle { .. } => match e {
            EncodedValue::Resource { token, id } => {
                let rid = tab.register_or_lookup(*id, *token);
                proof {
                    assert(spec_decode(t@, e@, old(tab)@) == (
                        Ok::<ValueModel, ErrorModel>(ValueModel::Handle { id: rid }),
                        tab@,
                    ));
                }
                Ok(SchemaValue::Handle { id: rid })
            },
            _ => Err(mismatch_error(t, e)),
        },
    }
}

/// The single character of a one-character string.
fn single_char(s: &String) -> (r: Option<char>)
    ensures
        r == (if s@.len() == 1 {
            Some(s@[0])
        } else {
            None::<char>
        }),
{
    broadcast use vstd::string::next_postcondition;
    broadcast use vstd::string::axiom_spec_iter;

    let mut it = s.as_str().chars();
    let first = it.next();
    let second = it.next();
    match (first, second) {
        (Some(c), None) => Some(c),
        _ => None,
    }
}

} // verus!
