//! Simple types: kinds that refer to no other type, each with an optional default value.
use vstd::prelude::*;
use crate::attributes::FloatTypeAttributes;
use crate::enum_attributes::EnumTypeAttributes;
use crate::number_type::NumberType;

verus! {

/// A simple type with its optional default. Floating-point defaults are held as IEEE-754 bit
/// patterns of the kind's width, and a UUID default as its 128-bit value.
#[derive(Debug, Clone)]
pub enum SimpleType {
    /// A boolean.
    Boolean { default: Option<bool> },
    /// A 32-bit signed integer.
    Int32 { default: Option<i32> },
    /// A 64-bit signed integer.
    Int64 { default: Option<i64> },
    /// A 32-bit unsigned integer.
    Uint32 { default: Option<u32> },
    /// A 64-bit unsigned integer.
    Uint64 { default: Option<u64> },
    /// A 32-bit floating-point number, its default by bit pattern.
    Float32 { default: Option<u32> },
    /// A 64-bit floating-point number, its default by bit pattern.
    Float64 { default: Option<u64> },
    /// A string.
    String { default: Option<String> },
    /// One of a fixed set of names; the default is the enum's own.
    Enum(EnumTypeAttributes),
    /// A UUID.
    Uuid { default: Option<u128> },
}

/// Whether a simple type has a default value.
pub open spec fn spec_has_default(t: SimpleType) -> bool {
    match t {
        SimpleType::Boolean { default } => default is Some,
        SimpleType::Int32 { default } => default is Some,
        SimpleType::Int64 { default } => default is Some,
        SimpleType::Uint32 { default } => default is Some,
        SimpleType::Uint64 { default } => default is Some,
        SimpleType::Float32 { default } => default is Some,
        SimpleType::Float64 { default } => default is Some,
        SimpleType::String { default } => default is Some,
        SimpleType::Enum(e) => e.default_value() is Some,
        SimpleType::Uuid { default } => default is Some,
    }
}

impl SimpleType {
    /// Whether the type has a default value.
    pub fn has_default(&self) -> (r: bool)
        ensures
            r == spec_has_default(*self),
    {
        match self {
            SimpleType::Boolean { default } => default.is_some(),
            SimpleType::Int32 { default } => default.is_some(),
            SimpleType::Int64 { default } => default.is_some(),
            SimpleType::Uint32 { default } => default.is_some(),
            SimpleType::Uint64 { default } => default.is_some(),
            SimpleType::Float32 { default } => default.is_some(),
            SimpleType::Float64 { default } => default.is_some(),
            SimpleType::String { default } => default.is_some(),
            SimpleType::Enum(e) => e.default_value_name().is_some(),
            SimpleType::Uuid { default } => default.is_some(),
        }
    }
}

/// A type in declaration form, with arrays and dictionaries naming other types by identifier.
#[derive(Debug, Clone, PartialEq, Eq)]
pub enum Type {
    /// An array of values of one type.
    Array { items_type_id: u64 },
    /// A dictionary with keys of one type and values of one type.
    Dictionary { keys_type_id: u64, values_type_id: u64 },
    /// A boolean.
    Boolean {},
    /// A 32-bit signed integer.
    Int32(NumberType<i32>),
    /// A 64-bit signed integer.
    Int64(NumberType<i64>),
    /// A 32-bit unsigned integer.
    Uint32(NumberType<u32>),
    /// A 64-bit unsigned integer.
    Uint64(NumberType<u64>),
    /// A 32-bit floating-point number, its bounds by bit pattern.
    Float32(FloatTypeAttributes),
    /// A 64-bit floating-point number, its bounds by bit pattern.
    Float64(FloatTypeAttributes),
    /// A string.
    String {},
    /// One of a fixed set of names.
    Enum(EnumTypeAttributes),
    /// A UUID, with an optional default as its 128-bit value.
    Uuid { default: Option<u128> },
}

} // verus!
