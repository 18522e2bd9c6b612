//! The error taxonomy of the bridge.
//!
//! Decode and resource errors signal programming or integration mistakes and
//! surface to the caller as unrecoverable invocation failures; only failures
//! declared in the schema itself are returned as ordinary results.

use vstd::prelude::*;

verus! {

/// The kind of schema type a decoder expected, named in a mismatch report.
#[derive(Clone, Copy, Debug, PartialEq, Eq, Structural)]
pub enum TypeKind {
    U8Type,
    U16Type,
    U32Type,
    U64Type,
    S8Type,
    S16Type,
    S32Type,
    S64Type,
    BoolType,
    CharType,
    TextType,
    RecordType,
    VariantType,
    EnumType,
    FlagsType,
    TupleType,
    ListType,
    OptionType,
    ResultType,
    HandleType,
}

/// The kind of encoded value a decoder actually found, named in a mismatch
/// report.
#[derive(Clone, Copy, Debug, PartialEq, Eq, Structural)]
pub enum ValueKind {
    UndefinedValue,
    NullValue,
    BoolValue,
    NumberValue,
    FloatValue,
    BigIntValue,
    HugeIntValue,
    TextValue,
    ArrayValue,
    ObjectValue,
    ResourceValue,
}

/// A failure while decoding an encoded value against a schema type.
#[derive(Clone, Debug, PartialEq, Eq)]
pub enum DecodeError {
    /// The encoded value has the wrong native kind for the schema type, or
    /// breaks the kind's own conventions (a number out of range, a text that
    /// is not one code point, a flag set twice, a sequence of the wrong
    /// arity).
    TypeMismatch { expected: TypeKind, actual: ValueKind },
    /// A record field declared by the schema is absent from the encoded
    /// object; carries the field's declared name.
    MissingField(String),
    /// A tagged value carries a tag outside the type's declared case set;
    /// carries the unrecognised tag.
    UnknownCase(String),
}

/// Mathematical model of a decode failure; names become character
/// sequences.
pub enum ErrorModel {
    TypeMismatch { expected: TypeKind, actual: ValueKind },
    MissingField(Seq<char>),
    UnknownCase(Seq<char>),
}

impl View for DecodeError {
    type V = ErrorModel;

    open spec fn view(&self) -> ErrorModel {
        match self {
            DecodeError::TypeMismatch { expected, actual } => ErrorModel::TypeMismatch {
                expected: *expected,
                actual: *actual,
            },
            DecodeError::MissingField(name) => ErrorModel::MissingField(name@),
            DecodeError::UnknownCase(tag) => ErrorModel::UnknownCase(tag@),
        }
    }
}

/// A failure of the resource table.
#[derive(Clone, Copy, Debug, PartialEq, Eq, Structural)]
pub enum ResourceError {
    /// The handle identifier is unknown: a use after release, or a handle
    /// from a different table instance.
    NotFound(u64),
}

/// A failure of the call bridge itself.
#[derive(Clone, Copy, Debug, PartialEq, Eq, Structural)]
pub enum BridgeError {
    /// The scripting engine's scheduler reports no further progress while
    /// the driven computation is still unsettled.
    Stalled,
}

} // verus!
