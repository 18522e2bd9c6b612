//! Schema types: the statically typed interface description that drives the
//! codec.
//!
//! A [`SchemaType`] is immutable, produced once by the external interface
//! description, and consumed read-only by the codec. Its mathematical model
//! is [`TypeModel`], where every container becomes a `Seq`.

use vstd::prelude::*;

verus! {

/// Ownership mode of a resource handle.
#[derive(Clone, Copy, Debug, PartialEq, Eq, Structural)]
pub enum HandleMode {
    Owned,
    Borrowed,
}

/// A named, typed field of a record.
pub struct FieldDecl {
    pub name: String,
    pub ty: SchemaType,
}

/// A named case of a variant, with an optional payload type.
pub struct CaseDecl {
    pub name: String,
    pub payload: Option<SchemaType>,
}

/// A schema type, as declared by the external interface description.
pub enum SchemaType {
    U8,
    U16,
    U32,
    U64,
    S8,
    S16,
    S32,
    S64,
    Bool,
    Char,
    Text,
    /// An ordered set of named, typed fields.
    Record(Vec<FieldDecl>),
    /// An ordered set of named cases, each with zero or one typed payload.
    Variant(Vec<CaseDecl>),
    /// Named cases without payloads.
    Enumeration(Vec<String>),
    /// Named boolean bits.
    Flags(Vec<String>),
    /// A fixed-arity heterogeneous sequence.
    Tuple(Vec<SchemaType>),
    /// A homogeneous variable-length sequence.
    List(Box<SchemaType>),
    /// A present-or-absent typed value.
    Optional(Box<SchemaType>),
    /// A success-typed xor failure-typed value; either side may lack a
    /// payload type.
    ResultOf { ok: Option<Box<SchemaType>>, err: Option<Box<SchemaType>> },
    /// A resource reference with an ownership mode.
    Handle { mode: HandleMode },
}

/// Mathematical model of a schema type; containers become sequences.
pub enum TypeModel {
    U8,
    U16,
    U32,
    U64,
    S8,
    S16,
    S32,
    S64,
    Bool,
    Char,
    Text,
    Record(Seq<(Seq<char>, TypeModel)>),
    Variant(Seq<(Seq<char>, Option<TypeModel>)>),
    Enumeration(Seq<Seq<char>>),
    Flags(Seq<Seq<char>>),
    Tuple(Seq<TypeModel>),
    List(Box<TypeModel>),
    Optional(Box<TypeModel>),
    ResultOf { ok: Option<Box<TypeModel>>, err: Option<Box<TypeModel>> },
    Handle { mode: HandleMode },
}

/// The model of a schema type.
pub open spec fn type_model(t: SchemaType) -> TypeModel
    decreases t, 0nat,
{
    match t {
        SchemaType::U8 => TypeModel::U8,
        SchemaType::U16 => TypeModel::U16,
        SchemaType::U32 => TypeModel::U32,
        SchemaType::U64 => TypeModel::U64,
        SchemaType::S8 => TypeModel::S8,
        SchemaType::S16 => TypeModel::S16,
        SchemaType::S32 => TypeModel::S32,
        SchemaType::S64 => TypeModel::S64,
        SchemaType::Bool => TypeModel::Bool,
        SchemaType::Char => TypeModel::Char,
        SchemaType::Text => TypeModel::Text,
        SchemaType::Record(fields) => TypeModel::Record(field_models(fields@)),
        SchemaType::Variant(cases) => TypeModel::Variant(case_models(cases@)),
        SchemaType::Enumeration(names) => TypeModel::Enumeration(name_models(names@)),
        SchemaType::Flags(names) => TypeModel::Flags(name_models(names@)),
        SchemaType::Tuple(tys) => TypeModel::Tuple(type_models(tys@)),
        SchemaType::List(t) => TypeModel::List(Box::new(type_model(*t))),
        SchemaType::Optional(t) => TypeModel::Optional(Box::new(type_model(*t))),
        SchemaType::ResultOf { ok, err } => TypeModel::ResultOf {
            ok: match ok {
                Some(t) => Some(Box::new(type_model(*t))),
                None => None,
            },
            err: match err {
                Some(t) => Some(Box::new(type_model(*t))),
                None => None,
            },
        },
        SchemaType::Handle { mode } => TypeModel::Handle { mode },
    }
}

/// The models of a sequence of field declarations.
pub open spec fn field_models(s: Seq<FieldDecl>) -> Seq<(Seq<char>, TypeModel)>
    decreases s, s.len(),
{
    if s.len() == 0 {
        Seq::empty()
    } else {
        field_models(s.drop_last()).push((s.last().name@, type_model(s.last().ty)))
    }
}

/// The models of a sequence of case declarations.
pub open spec fn case_models(s: Seq<CaseDecl>) -> Seq<(Seq<char>, Option<TypeModel>)>
    decreases s, s.len(),
{
    if s.len() == 0 {
        Seq::empty()
    } else {
        case_models(s.drop_last()).push(
            (
                s.last().name@,
                match s.last().payload {
                    Some(t) => Some(type_model(t)),
                    None => None,
                },
            ),
        )
    }
}

/// The models of a sequence of schema types.
pub open spec fn type_models(s: Seq<SchemaType>) -> Seq<TypeModel>
    decreases s, s.len(),
{
    if s.len() == 0 {
        Seq::empty()
    } else {
        type_models(s.drop_last()).push(type_model(s.last()))
    }
}

/// The views of a sequence of names.
pub open spec fn name_models(s: Seq<String>) -> Seq<Seq<char>> {
    Seq::new(s.len(), |i: int| s[i]@)
}

pub broadcast proof fn lemma_field_models(s: Seq<FieldDecl>)
    ensures
        #![trigger field_models(s)]
        field_models(s).len() == s.len(),
        forall|i: int|
            0 <= i < s.len() ==> field_models(s)[i] == (s[i].name@, type_model(s[i].ty)),
    decreases s.len(),
{
    if s.len() > 0 {
        lemma_field_models(s.drop_last());
    }
}

pub broadcast proof fn lemma_case_models(s: Seq<CaseDecl>)
    ensures
        #![trigger case_models(s)]
        case_models(s).len() == s.len(),
        forall|i: int|
            0 <= i < s.len() ==> case_models(s)[i] == (
                s[i].name@,
                match s[i].payload {
                    Some(t) => Some(type_model(t)),
                    None => None,
                },
            ),
    decreases s.len(),
{
    if s.len() > 0 {
        lemma_case_models(s.drop_last());
    }
}

pub broadcast proof fn lemma_type_models(s: Seq<SchemaType>)
    ensures
        #![trigger type_models(s)]
        type_models(s).len() == s.len(),
        forall|i: int| 0 <= i < s.len() ==> type_models(s)[i] == type_model(s[i]),
    decreases s.len(),
{
    if s.len() > 0 {
        lemma_type_models(s.drop_last());
    }
}

impl View for FieldDecl {
    type V = (Seq<char>, TypeModel);

    open spec fn view(&self) -> (Seq<char>, TypeModel) {
        (self.name@, type_model(self.ty))
    }
}

impl View for CaseDecl {
    type V = (Seq<char>, Option<TypeModel>);

    open spec fn view(&self) -> (Seq<char>, Option<TypeModel>) {
        (
            self.name@,
            match self.payload {
                Some(t) => Some(type_model(t)),
                None => None,
            },
        )
    }
}

impl View for SchemaType {
    type V = TypeModel;

    open spec fn view(&self) -> TypeModel {
        type_model(*self)
    }
}

/// No two of the names are equal.
pub open spec fn distinct_names(names: Seq<Seq<char>>) -> bool {
    forall|i: int, j: int| 0 <= i < j < names.len() ==> names[i] != names[j]
}

/// The declared names of a record's fields.
pub open spec fn field_names(fields: Seq<(Seq<char>, TypeModel)>) -> Seq<Seq<char>> {
    Seq::new(fields.len(), |i: int| fields[i].0)
}

/// The declared names of a variant's cases.
pub open spec fn case_names(cases: Seq<(Seq<char>, Option<TypeModel>)>) -> Seq<Seq<char>> {
    Seq::new(cases.len(), |i: int| cases[i].0)
}

/// A well-formed schema type: every record, variant, enumeration and flags
/// type declares pairwise distinct names, recursively.
pub open spec fn wf_type(t: TypeModel) -> bool
    decreases t, 0nat,
{
    match t {
        TypeModel::Record(fields) => distinct_names(field_names(fields)) && wf_fields(fields),
        TypeModel::Variant(cases) => distinct_names(case_names(cases)) && wf_cases(cases),
        TypeModel::Enumeration(names) => distinct_names(names),
        TypeModel::Flags(names) => distinct_names(names),
        TypeModel::Tuple(tys) => wf_types(tys),
        TypeModel::List(t) => wf_type(*t),
        TypeModel::Optional(t) => wf_type(*t),
        TypeModel::ResultOf { ok, err } => {
            &&& match ok {
                Some(t) => wf_type(*t),
                None => true,
            }
            &&& match err {
                Some(t) => wf_type(*t),
                None => true,
            }
        },
        _ => true,
    }
}

/// Every field type of the sequence is well formed.
pub open spec fn wf_fields(fields: Seq<(Seq<char>, TypeModel)>) -> bool
    decreases fields, fields.len(),
{
    if fields.len() == 0 {
        true
    } else {
        wf_fields(fields.drop_last()) && wf_type(fields.last().1)
    }
}

/// Every case payload type of the sequence is well formed.
pub open spec fn wf_cases(cases: Seq<(Seq<char>, Option<TypeModel>)>) -> bool
    decreases cases, cases.len(),
{
    if cases.len() == 0 {
        true
    } else {
        wf_cases(cases.drop_last()) && match cases.last().1 {
            Some(t) => wf_type(t),
            None => true,
        }
    }
}

/// Every type of the sequence is well formed.
pub open spec fn wf_types(tys: Seq<TypeModel>) -> bool
    decreases tys, tys.len(),
{
    if tys.len() == 0 {
        true
    } else {
        wf_types(tys.drop_last()) && wf_type(tys.last())
    }
}

pub broadcast proof fn lemma_wf_cases(cases: Seq<(Seq<char>, Option<TypeModel>)>)
    ensures
        #![trigger wf_cases(cases)]
        wf_cases(cases) <==> (forall|i: int|
            0 <= i < cases.len() ==> match #[trigger] cases[i].1 {
                Some(t) => wf_type(t),
                None => true,
            }),
    decreases cases.len(),
{
    if cases.len() > 0 {
        lemma_wf_cases(cases.drop_last());
        assert(forall|i: int|
            0 <= i < cases.len() - 1 ==> cases.drop_last()[i] == #[trigger] cases[i]);
    }
}

} // verus!
