//! Schema values and encoded values.
//!
//! A [`SchemaValue`] is a value of a schema type, as seen on the statically
//! typed side of the boundary. An [`EncodedValue`] models the scripting
//! engine's value universe as plain data: numbers, big integers, text,
//! arrays, insertion-ordered objects, and engine objects tracked by the
//! resource table. The embedding layer converts between this model and the
//! engine's own values one-for-one; the codec never touches the engine.

use vstd::prelude::*;

use crate::errors::TypeKind;
use crate::errors::ValueKind;
use crate::schema::case_models;
use crate::schema::field_models;
use crate::schema::lemma_case_models;
use crate::schema::lemma_field_models;
use crate::schema::lemma_type_models;
use crate::schema::type_models;
use crate::schema::HandleMode;
use crate::schema::SchemaType;
use crate::schema::TypeModel;

verus! {

/// A value of a schema type.
#[derive(Debug, PartialEq, Eq)]
pub enum SchemaValue {
    U8(u8),
    U16(u16),
    U32(u32),
    U64(u64),
    S8(i8),
    S16(i16),
    S32(i32),
    S64(i64),
    Bool(bool),
    Char(char),
    Text(String),
    /// One value per declared field, in declared order.
    Record(Vec<SchemaValue>),
    /// The declared index of the selected case, with its payload if the case
    /// carries one.
    Variant { case: usize, payload: Option<Box<SchemaValue>> },
    /// The declared index of the selected case.
    Enumeration(usize),
    /// One bit per declared flag, in declared order.
    Flags(Vec<bool>),
    Tuple(Vec<SchemaValue>),
    List(Vec<SchemaValue>),
    Optional(Option<Box<SchemaValue>>),
    /// Success or failure, with a payload where the selected side declares
    /// one.
    ResultOf { is_ok: bool, payload: Option<Box<SchemaValue>> },
    /// An opaque resource handle identifier.
    Handle { id: u64 },
}

/// Mathematical model of a schema value; containers become sequences.
pub enum ValueModel {
    U8(u8),
    U16(u16),
    U32(u32),
    U64(u64),
    S8(i8),
    S16(i16),
    S32(i32),
    S64(i64),
    Bool(bool),
    Char(char),
    Text(Seq<char>),
    Record(Seq<ValueModel>),
    Variant { case: int, payload: Option<Box<ValueModel>> },
    Enumeration(int),
    Flags(Seq<bool>),
    Tuple(Seq<ValueModel>),
    List(Seq<ValueModel>),
    Optional(Option<Box<ValueModel>>),
    ResultOf { is_ok: bool, payload: Option<Box<ValueModel>> },
    Handle { id: u64 },
}

/// The model of a schema value.
pub open spec fn value_model(v: SchemaValue) -> ValueModel
    decreases v, 0nat,
{
    match v {
        SchemaValue::U8(n) => ValueModel::U8(n),
        SchemaValue::U16(n) => ValueModel::U16(n),
        SchemaValue::U32(n) => ValueModel::U32(n),
        SchemaValue::U64(n) => ValueModel::U64(n),
        SchemaValue::S8(n) => ValueModel::S8(n),
        SchemaValue::S16(n) => ValueModel::S16(n),
        SchemaValue::S32(n) => ValueModel::S32(n),
        SchemaValue::S64(n) => ValueModel::S64(n),
        SchemaValue::Bool(b) => ValueModel::Bool(b),
        SchemaValue::Char(c) => ValueModel::Char(c),
        SchemaValue::Text(s) => ValueModel::Text(s@),
        SchemaValue::Record(vals) => ValueModel::Record(value_models(vals@)),
        SchemaValue::Variant { case, payload } => ValueModel::Variant {
            case: case as int,
            payload: match payload {
                Some(v) => Some(Box::new(value_model(*v))),
                None => None,
            },
        },
        SchemaValue::Enumeration(i) => ValueModel::Enumeration(i as int),
        SchemaValue::Flags(bits) => ValueModel::Flags(bits@),
        SchemaValue::Tuple(vals) => ValueModel::Tuple(value_models(vals@)),
        SchemaValue::List(vals) => ValueModel::List(value_models(vals@)),
        SchemaValue::Optional(o) => ValueModel::Optional(
            match o {
                Some(v) => Some(Box::new(value_model(*v))),
                None => None,
            },
        ),
        SchemaValue::ResultOf { is_ok, payload } => ValueModel::ResultOf {
            is_ok,
            payload: match payload {
                Some(v) => Some(Box::new(value_model(*v))),
                None => None,
            },
        },
        SchemaValue::Handle { id } => ValueModel::Handle { id },
    }
}

/// The models of a sequence of schema values.
pub open spec fn value_models(s: Seq<SchemaValue>) -> Seq<ValueModel>
    decreases s, s.len(),
{
    if s.len() == 0 {
        Seq::empty()
    } else {
        value_models(s.drop_last()).push(value_model(s.last()))
    }
}

pub broadcast proof fn lemma_value_models(s: Seq<SchemaValue>)
    ensures
        #![trigger value_models(s)]
        value_models(s).len() == s.len(),
        forall|i: int| 0 <= i < s.len() ==> value_models(s)[i] == value_model(s[i]),
    decreases s.len(),
{
    if s.len() > 0 {
        lemma_value_models(s.drop_last());
    }
}

impl View for SchemaValue {
    type V = ValueModel;

    open spec fn view(&self) -> ValueModel {
        value_model(*self)
    }
}

/// A scripting-engine value, modelled as plain data.
#[derive(Debug, PartialEq, Eq)]
pub enum EncodedValue {
    /// The engine's "no value" marker.
    Undefined,
    /// The engine's null reference; the codec's absence marker.
    Null,
    Bool(bool),
    /// A native number holding an integer exactly.
    Number(i64),
    /// A native number that is not an integer, carried by bit pattern and
    /// opaque to the codec.
    Float(u64),
    /// A native big integer within the 128-bit range; the carrier for 64-bit
    /// schema integers, which the native number type cannot represent
    /// exactly.
    BigInt(i128),
    /// A native big integer outside the 128-bit range; opaque to the codec.
    HugeInt,
    Text(String),
    Array(Vec<EncodedValue>),
    /// An insertion-ordered sequence of (name, value) pairs. The sequence,
    /// not any keyed view of it, is authoritative; the embedding layer
    /// produces pairwise distinct names.
    Object(Vec<(String, EncodedValue)>),
    /// An engine object reference tracked by the resource table: an opaque
    /// token chosen by the embedding layer, and the handle identifier the
    /// object carries if it was already registered.
    Resource { token: u64, id: Option<u64> },
}

/// Mathematical model of an encoded value; containers become sequences.
pub enum EncodedModel {
    Undefined,
    Null,
    Bool(bool),
    Number(i64),
    Float(u64),
    BigInt(i128),
    HugeInt,
    Text(Seq<char>),
    Array(Seq<EncodedModel>),
    Object(Seq<(Seq<char>, EncodedModel)>),
    Resource { token: u64, id: Option<u64> },
}

/// The model of an encoded value.
pub open spec fn encoded_model(e: EncodedValue) -> EncodedModel
    decreases e, 0nat,
{
    match e {
        EncodedValue::Undefined => EncodedModel::Undefined,
        EncodedValue::Null => EncodedModel::Null,
        EncodedValue::Bool(b) => EncodedModel::Bool(b),
        EncodedValue::Number(n) => EncodedModel::Number(n),
        EncodedValue::Float(bits) => EncodedModel::Float(bits),
        EncodedValue::BigInt(n) => EncodedModel::BigInt(n),
        EncodedValue::HugeInt => EncodedModel::HugeInt,
        EncodedValue::Text(s) => EncodedModel::Text(s@),
        EncodedValue::Array(elems) => EncodedModel::Array(encoded_models(elems@)),
        EncodedValue::Object(pairs) => EncodedModel::Object(pair_models(pairs@)),
        EncodedValue::Resource { token, id } => EncodedModel::Resource { token, id },
    }
}

/// The models of a sequence of encoded values.
pub open spec fn encoded_models(s: Seq<EncodedValue>) -> Seq<EncodedModel>
    decreases s, s.len(),
{
    if s.len() == 0 {
        Seq::empty()
    } else {
        encoded_models(s.drop_last()).push(encoded_model(s.last()))
    }
}

/// The models of a sequence of (name, value) pairs.
pub open spec fn pair_models(s: Seq<(String, EncodedValue)>) -> Seq<(Seq<char>, EncodedModel)>
    decreases s, s.len(),
{
    if s.len() == 0 {
        Seq::empty()
    } else {
        pair_models(s.drop_last()).push((s.last().0@, encoded_model(s.last().1)))
    }
}

pub broadcast proof fn lemma_encoded_models(s: Seq<EncodedValue>)
    ensures
        #![trigger encoded_models(s)]
        encoded_models(s).len() == s.len(),
        forall|i: int| 0 <= i < s.len() ==> encoded_models(s)[i] == encoded_model(s[i]),
    decreases s.len(),
{
    if s.len() > 0 {
        lemma_encoded_models(s.drop_last());
    }
}

pub broadcast proof fn lemma_pair_models(s: Seq<(String, EncodedValue)>)
    ensures
        #![trigger pair_models(s)]
        pair_models(s).len() == s.len(),
        forall|i: int|
            0 <= i < s.len() ==> pair_models(s)[i] == (s[i].0@, encoded_model(s[i].1)),
    decreases s.len(),
{
    if s.len() > 0 {
        lemma_pair_models(s.drop_last());
    }
}

impl View for EncodedValue {
    type V = EncodedModel;

    open spec fn view(&self) -> EncodedModel {
        encoded_model(*self)
    }
}

/// The native kind of an encoded value, named in mismatch reports.
pub open spec fn kind_of(e: EncodedModel) -> ValueKind {
    match e {
        EncodedModel::Undefined => ValueKind::UndefinedValue,
        EncodedModel::Null => ValueKind::NullValue,
        EncodedModel::Bool(_) => ValueKind::BoolValue,
        EncodedModel::Number(_) => ValueKind::NumberValue,
        EncodedModel::Float(_) => ValueKind::FloatValue,
        EncodedModel::BigInt(_) => ValueKind::BigIntValue,
        EncodedModel::HugeInt => ValueKind::HugeIntValue,
        EncodedModel::Text(_) => ValueKind::TextValue,
        EncodedModel::Array(_) => ValueKind::ArrayValue,
        EncodedModel::Object(_) => ValueKind::ObjectValue,
        EncodedModel::Resource { .. } => ValueKind::ResourceValue,
    }
}

/// The kind of a schema type, named in mismatch reports.
pub open spec fn kind_of_type(t: TypeModel) -> TypeKind {
    match t {
        TypeModel::U8 => TypeKind::U8Type,
        TypeModel::U16 => TypeKind::U16Type,
        TypeModel::U32 => TypeKind::U32Type,
        TypeModel::U64 => TypeKind::U64Type,
        TypeModel::S8 => TypeKind::S8Type,
        TypeModel::S16 => TypeKind::S16Type,
        TypeModel::S32 => TypeKind::S32Type,
        TypeModel::S64 => TypeKind::S64Type,
        TypeModel::Bool => TypeKind::BoolType,
        TypeModel::Char => TypeKind::CharType,
        TypeModel::Text => TypeKind::TextType,
        TypeModel::Record(_) => TypeKind::RecordType,
        TypeModel::Variant(_) => TypeKind::VariantType,
        TypeModel::Enumeration(_) => TypeKind::EnumType,
        TypeModel::Flags(_) => TypeKind::FlagsType,
        TypeModel::Tuple(_) => TypeKind::TupleType,
        TypeModel::List(_) => TypeKind::ListType,
        TypeModel::Optional(_) => TypeKind::OptionType,
        TypeModel::ResultOf { .. } => TypeKind::ResultType,
        TypeModel::Handle { .. } => TypeKind::HandleType,
    }
}

/// The value belongs to the schema type: matching shapes, case indexes in
/// range, field and flag counts equal to the declaration, recursively.
pub open spec fn conforms(t: TypeModel, v: ValueModel) -> bool
    decreases t, 0nat,
{
    match (t, v) {
        (TypeModel::U8, ValueModel::U8(_)) => true,
        (TypeModel::U16, ValueModel::U16(_)) => true,
        (TypeModel::U32, ValueModel::U32(_)) => true,
        (TypeModel::U64, ValueModel::U64(_)) => true,
        (TypeModel::S8, ValueModel::S8(_)) => true,
        (TypeModel::S16, ValueModel::S16(_)) => true,
        (TypeModel::S32, ValueModel::S32(_)) => true,
        (TypeModel::S64, ValueModel::S64(_)) => true,
        (TypeModel::Bool, ValueModel::Bool(_)) => true,
        (TypeModel::Char, ValueModel::Char(_)) => true,
        (TypeModel::Text, ValueModel::Text(_)) => true,
        (TypeModel::Record(fields), ValueModel::Record(vals)) => {
            vals.len() == fields.len() && conforms_fields(fields, vals)
        },
        (TypeModel::Variant(cases), ValueModel::Variant { case, payload }) => {
            &&& 0 <= case < cases.len()
            &&& match (cases[case].1, payload) {
                (Some(pt), Some(pv)) => conforms(pt, *pv),
                (None, None) => true,
                _ => false,
            }
        },
        (TypeModel::Enumeration(names), ValueModel::Enumeration(i)) => 0 <= i < names.len(),
        (TypeModel::Flags(names), ValueModel::Flags(bits)) => bits.len() == names.len(),
        (TypeModel::Tuple(tys), ValueModel::Tuple(vals)) => {
            vals.len() == tys.len() && conforms_tuple(tys, vals)
        },
        (TypeModel::List(t0), ValueModel::List(vals)) => conforms_list(*t0, vals),
        (TypeModel::Optional(t0), ValueModel::Optional(o)) => match o {
            Some(pv) => conforms(*t0, *pv),
            None => true,
        },
        (TypeModel::ResultOf { ok, err }, ValueModel::ResultOf { is_ok, payload }) => {
            match (if is_ok { ok } else { err }, payload) {
                (Some(pt), Some(pv)) => conforms(*pt, *pv),
                (None, None) => true,
                _ => false,
            }
        },
        (TypeModel::Handle { .. }, ValueModel::Handle { .. }) => true,
        _ => false,
    }
}

/// Each value conforms to its field's declared type.
pub open spec fn conforms_fields(fields: Seq<(Seq<char>, TypeModel)>, vals: Seq<ValueModel>) -> bool
    decreases fields, vals.len(),
{
    if vals.len() == 0 || fields.len() == 0 {
        true
    } else {
        conforms_fields(fields.drop_last(), vals.drop_last()) && conforms(
            fields.last().1,
            vals.last(),
        )
    }
}

/// Each value conforms to the type at its position.
pub open spec fn conforms_tuple(tys: Seq<TypeModel>, vals: Seq<ValueModel>) -> bool
    decreases tys, vals.len(),
{
    if vals.len() == 0 || tys.len() == 0 {
        true
    } else {
        conforms_tuple(tys.drop_last(), vals.drop_last()) && conforms(tys.last(), vals.last())
    }
}

/// Each element conforms to the list's element type.
pub open spec fn conforms_list(t0: TypeModel, vals: Seq<ValueModel>) -> bool
    decreases t0, vals.len(),
{
    if vals.len() == 0 {
        true
    } else {
        conforms_list(t0, vals.drop_last()) && conforms(t0, vals.last())
    }
}

pub broadcast proof fn lemma_conforms_fields(
    fields: Seq<(Seq<char>, TypeModel)>,
    vals: Seq<ValueModel>,
)
    requires
        fields.len() == vals.len(),
    ensures
        #![trigger conforms_fields(fields, vals)]
        conforms_fields(fields, vals) <==> (forall|i: int|
            0 <= i < vals.len() ==> conforms(fields[i].1, #[trigger] vals[i])),
    decreases vals.len(),
{
    if vals.len() > 0 {
        lemma_conforms_fields(fields.drop_last(), vals.drop_last());
        assert(forall|i: int|
            0 <= i < vals.len() - 1 ==> vals.drop_last()[i] == #[trigger] vals[i]);
        assert(forall|i: int|
            0 <= i < fields.len() - 1 ==> fields.drop_last()[i] == #[trigger] fields[i]);
    }
}

pub broadcast proof fn lemma_conforms_tuple(tys: Seq<TypeModel>, vals: Seq<ValueModel>)
    requires
        tys.len() == vals.len(),
    ensures
        #![trigger conforms_tuple(tys, vals)]
        conforms_tuple(tys, vals) <==> (forall|i: int|
            0 <= i < vals.len() ==> conforms(tys[i], #[trigger] vals[i])),
    decreases vals.len(),
{
    if vals.len() > 0 {
        lemma_conforms_tuple(tys.drop_last(), vals.drop_last());
        assert(forall|i: int|
            0 <= i < vals.len() - 1 ==> vals.drop_last()[i] == #[trigger] vals[i]);
        assert(forall|i: int| 0 <= i < tys.len() - 1 ==> tys.drop_last()[i] == #[trigger] tys[i]);
    }
}

pub broadcast proof fn lemma_conforms_list(t0: TypeModel, vals: Seq<ValueModel>)
    ensures
        #![trigger conforms_list(t0, vals)]
        conforms_list(t0, vals) <==> (forall|i: int|
            0 <= i < vals.len() ==> conforms(t0, #[trigger] vals[i])),
    decreases vals.len(),
{
    if vals.len() > 0 {
        lemma_conforms_list(t0, vals.drop_last());
        assert(forall|i: int|
            0 <= i < vals.len() - 1 ==> vals.drop_last()[i] == #[trigger] vals[i]);
    }
}

/// Whether the value belongs to the schema type, decided executably. The
/// embedding layer runs this before encoding, since it cannot evaluate the
/// specification predicate that `encode` requires.
#[verifier::loop_isolation(false)]
pub fn conforms_exec(t: &SchemaType, v: &SchemaValue) -> (b: bool)
    ensures
        b == conforms(t@, v@),
    decreases *t, 0nat,
{
    match (t, v) {
        (SchemaType::U8, SchemaValue::U8(_)) => true,
        (SchemaType::U16, SchemaValue::U16(_)) => true,
        (SchemaType::U32, SchemaValue::U32(_)) => true,
        (SchemaType::U64, SchemaValue::U64(_)) => true,
        (SchemaType::S8, SchemaValue::S8(_)) => true,
        (SchemaType::S16, SchemaValue::S16(_)) => true,
        (SchemaType::S32, SchemaValue::S32(_)) => true,
        (SchemaType::S64, SchemaValue::S64(_)) => true,
        (SchemaType::Bool, SchemaValue::Bool(_)) => true,
        (SchemaType::Char, SchemaValue::Char(_)) => true,
        (SchemaType::Text, SchemaValue::Text(_)) => true,
        (SchemaType::Record(fields), SchemaValue::Record(vals)) => {
            proof {
                lemma_field_models(fields@);
                lemma_value_models(vals@);
            }
            if vals.len() != fields.len() {
                return false;
            }
            proof {
                lemma_conforms_fields(field_models(fields@), value_models(vals@));
            }
            let mut i: usize = 0;
            while i < fields.len()
                invariant
                    0 <= i <= fields@.len(),
                    forall|j: int|
                        0 <= j < i ==> conforms(
                            field_models(fields@)[j].1,
                            #[trigger] value_models(vals@)[j],
                        ),
                decreases fields@.len() - i,
            {
                proof {
                    assert(decreases_to!(*t => *fields));
                    assert(decreases_to!(*fields => fields@));
                    assert(decreases_to!(fields@ => fields@[i as int]));
                    assert(decreases_to!(fields@[i as int] => fields@[i as int].ty));
                }
                if !conforms_exec(&fields[i].ty, &vals[i]) {
                    proof {
                        assert(!conforms(
                            field_models(fields@)[i as int].1,
                            value_models(vals@)[i as int],
                        ));
                    }
                    return false;
                }
                i = i + 1;
            }
            true
        },
        (SchemaType::Variant(cases), SchemaValue::Variant { case, payload }) => {
            proof {
                lemma_case_models(cases@);
            }
            if *case >= cases.len() {
                return false;
            }
            match (&cases[*case].payload, payload) {
                (Some(pt), Some(pv)) => conforms_exec(pt, &**pv),
                (None, None) => true,
                _ => false,
            }
        },
        (SchemaType::Enumeration(names), SchemaValue::Enumeration(i)) => *i < names.len(),
        (SchemaType::Flags(names), SchemaValue::Flags(bits)) => bits.len() == names.len(),
        (SchemaType::Tuple(tys), SchemaValue::Tuple(vals)) => {
            proof {
                lemma_type_models(tys@);
                lemma_value_models(vals@);
            }
            if vals.len() != tys.len() {
                return false;
            }
            proof {
                lemma_conforms_tuple(type_models(tys@), value_models(vals@));
            }
            let mut i: usize = 0;
            while i < tys.len()
                invariant
                    0 <= i <= tys@.len(),
                    forall|j: int|
                        0 <= j < i ==> conforms(
                            type_models(tys@)[j],
                            #[trigger] value_models(vals@)[j],
                        ),
                decreases tys@.len() - i,
            {
                proof {
                    assert(decreases_to!(*t => *tys));
                    assert(decreases_to!(*tys => tys@));
                    assert(decreases_to!(tys@ => tys@[i as int]));
                }
                if !conforms_exec(&tys[i], &vals[i]) {
                    proof {
                        assert(!conforms(
                            type_models(tys@)[i as int],
                            value_models(vals@)[i as int],
                        ));
                    }
                    return false;
                }
                i = i + 1;
            }
            true
        },
        (SchemaType::List(t0), SchemaValue::List(vals)) => {
            proof {
                lemma_value_models(vals@);
                lemma_conforms_list(t0@, value_models(vals@));
            }
            let mut i: usize = 0;
            while i < vals.len()
                invariant
                    0 <= i <= vals@.len(),
                    forall|j: int|
                        0 <= j < i ==> conforms(t0@, #[trigger] value_models(vals@)[j]),
                decreases vals@.len() - i,
            {
                proof {
                    assert(decreases_to!(*t => **t0));
                }
                if !conforms_exec(t0, &vals[i]) {
                    proof {
                        assert(!conforms(t0@, value_models(vals@)[i as int]));
                    }
                    return false;
                }
                i = i + 1;
            }
            true
        },
        (SchemaType::Optional(t0), SchemaValue::Optional(o)) => match o {
            Some(pv) => conforms_exec(t0, &**pv),
            None => true,
        },
        (SchemaType::ResultOf { ok, err }, SchemaValue::ResultOf { is_ok, payload }) => {
            if *is_ok {
                match (ok, payload) {
                    (Some(pt), Some(pv)) => conforms_exec(pt, &**pv),
                    (None, None) => true,
                    _ => false,
                }
            } else {
                match (err, payload) {
                    (Some(pt), Some(pv)) => conforms_exec(pt, &**pv),
                    (None, None) => true,
                    _ => false,
                }
            }
        },
        (SchemaType::Handle { .. }, SchemaValue::Handle { .. }) => true,
        _ => false,
    }
}

/// A sequence of identifiers contains exactly those of two concatenated
/// parts.
proof fn lemma_ids_concat(a: Seq<u64>, b: Seq<u64>)
    ensures
        forall|id: u64| #[trigger] (a + b).contains(id) <==> a.contains(id) || b.contains(id),
{
    assert forall|id: u64| #[trigger] (a + b).contains(id) implies a.contains(id) || b.contains(
        id,
    ) by {
        let k = choose|k: int| 0 <= k < (a + b).len() && (a + b)[k] == id;
        if k < a.len() {
            assert(a[k] == id);
        } else {
            assert(b[k - a.len()] == id);
        }
    }
    assert forall|id: u64| a.contains(id) || b.contains(id) implies #[trigger] (a + b).contains(
        id,
    ) by {
        if a.contains(id) {
            let k = choose|k: int| 0 <= k < a.len() && a[k] == id;
            assert((a + b)[k] == id);
        } else {
            let k = choose|k: int| 0 <= k < b.len() && b[k] == id;
            assert((a + b)[k + a.len()] == id);
        }
    }
}

/// The handle identifiers a value mentions, in traversal order, possibly
/// repeated. The embedding layer walks them after an unmarshal to write
/// each identifier back onto the engine object registered under it.
#[verifier::loop_isolation(false)]
pub fn handle_ids(v: &SchemaValue) -> (ids: Vec<u64>)
    ensures
        forall|id: u64| #[trigger] ids@.contains(id) <==> handles_in(v@).contains(id),
    decreases *v, 0nat,
{
    match v {
        SchemaValue::Record(vals) | SchemaValue::Tuple(vals) | SchemaValue::List(vals) => {
            proof {
                lemma_value_models(vals@);
                lemma_handles_in_seq(value_models(vals@));
            }
            let mut ids: Vec<u64> = Vec::new();
            let mut i: usize = 0;
            while i < vals.len()
                invariant
                    0 <= i <= vals@.len(),
                    forall|id: u64|
                        #[trigger] ids@.contains(id) <==> handles_in_seq(
                            value_models(vals@).take(i as int),
                        ).contains(id),
                decreases vals@.len() - i,
            {
                proof {
                    assert(decreases_to!(*v => *vals));
                    assert(decreases_to!(*vals => vals@));
                    assert(decreases_to!(vals@ => vals@[i as int]));
                }
                let mut sub = handle_ids(&vals[i]);
                let ghost pre = ids@;
                let ghost subv = sub@;
                ids.append(&mut sub);
                proof {
                    lemma_ids_concat(pre, subv);
                    let vm = value_models(vals@);
                    assert(vm.take(i + 1).drop_last() =~= vm.take(i as int));
                    assert(vm.take(i + 1).last() == vm[i as int]);
                    lemma_handles_in_seq(vm.take(i as int));
                    lemma_handles_in_seq(vm.take(i + 1));
                    assert forall|id: u64| #[trigger] ids@.contains(id) <==> handles_in_seq(
                        vm.take(i + 1),
                    ).contains(id) by {
                        assert(handles_in_seq(vm.take(i + 1)) == handles_in_seq(
                            vm.take(i as int),
                        ).union(handles_in(vm[i as int])));
                    }
                }
                i = i + 1;
            }
            proof {
                assert(value_models(vals@).take(vals@.len() as int) =~= value_models(vals@));
            }
            ids
        },
        SchemaValue::Variant { payload, .. } => match payload {
            Some(pv) => handle_ids(&**pv),
            None => Vec::new(),
        },
        SchemaValue::Optional(o) => match o {
            Some(pv) => handle_ids(&**pv),
            None => Vec::new(),
        },
        SchemaValue::ResultOf { payload, .. } => match payload {
            Some(pv) => handle_ids(&**pv),
            None => Vec::new(),
        },
        SchemaValue::Handle { id } => {
            let mut ids: Vec<u64> = Vec::new();
            ids.push(*id);
            proof {
                assert forall|x: u64| #[trigger] ids@.contains(x) <==> handles_in(v@).contains(
                    x,
                ) by {
                    if x == id {
                        assert(ids@[0] == x);
                    }
                    if ids@.contains(x) {
                        let k = choose|k: int| 0 <= k < ids@.len() && ids@[k] == x;
                        assert(x == id);
                    }
                }
            }
            ids
        },
        _ => Vec::new(),
    }
}

/// The set of handle identifiers a value mentions.
pub open spec fn handles_in(v: ValueModel) -> Set<u64>
    decreases v, 0nat,
{
    match v {
        ValueModel::Record(vals) => handles_in_seq(vals),
        ValueModel::Variant { payload, .. } => match payload {
            Some(pv) => handles_in(*pv),
            None => Set::empty(),
        },
        ValueModel::Tuple(vals) => handles_in_seq(vals),
        ValueModel::List(vals) => handles_in_seq(vals),
        ValueModel::Optional(o) => match o {
            Some(pv) => handles_in(*pv),
            None => Set::empty(),
        },
        ValueModel::ResultOf { payload, .. } => match payload {
            Some(pv) => handles_in(*pv),
            None => Set::empty(),
        },
        ValueModel::Handle { id } => set![id],
        _ => Set::empty(),
    }
}

/// The handle identifiers mentioned anywhere in a sequence of values.
pub open spec fn handles_in_seq(vals: Seq<ValueModel>) -> Set<u64>
    decreases vals, vals.len(),
{
    if vals.len() == 0 {
        Set::empty()
    } else {
        handles_in_seq(vals.drop_last()).union(handles_in(vals.last()))
    }
}

pub broadcast proof fn lemma_handles_in_seq(vals: Seq<ValueModel>)
    ensures
        #![trigger handles_in_seq(vals)]
        forall|id: u64|
            handles_in_seq(vals).contains(id) <==> (exists|i: int|
                0 <= i < vals.len() && (#[trigger] handles_in(vals[i])).contains(id)),
    decreases vals.len(),
{
    if vals.len() > 0 {
        lemma_handles_in_seq(vals.drop_last());
        assert(forall|i: int|
            0 <= i < vals.len() - 1 ==> vals.drop_last()[i] == #[trigger] vals[i]);
        assert forall|id: u64| handles_in_seq(vals).contains(id) implies (exists|i: int|
            0 <= i < vals.len() && (#[trigger] handles_in(vals[i])).contains(id)) by {
            if handles_in_seq(vals.drop_last()).contains(id) {
                let i = choose|i: int|
                    0 <= i < vals.drop_last().len() && (#[trigger] handles_in(
                        vals.drop_last()[i],
                    )).contains(id);
                assert(handles_in(vals[i]).contains(id));
            } else {
                assert(handles_in(vals[vals.len() - 1]).contains(id));
            }
        };
        assert forall|id: u64| (exists|i: int|
            0 <= i < vals.len() && (#[trigger] handles_in(vals[i])).contains(id)) implies
            handles_in_seq(vals).contains(id) by {
            let i = choose|i: int|
                0 <= i < vals.len() && (#[trigger] handles_in(vals[i])).contains(id);
            assert(handles_in_seq(vals) == handles_in_seq(vals.drop_last()).union(
                handles_in(vals.last()),
            ));
            if i < vals.len() - 1 {
                assert(handles_in(vals.drop_last()[i]).contains(id));
                assert(handles_in_seq(vals.drop_last()).contains(id));
            } else {
                assert(handles_in(vals.last()).contains(id));
            }
        };
    }
}

} // verus!
