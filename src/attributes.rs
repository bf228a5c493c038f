//! Declaration-form type attributes: one variant per kind, with array and dictionary kinds
//! referring to other type definitions by identifier.
use vstd::prelude::*;
use crate::enum_attributes::EnumTypeAttributes;
use crate::number::NumberTypeAttributes;

verus! {

/// Attributes for an array type: the type of its items.
#[derive(Debug, Clone, PartialEq, Eq)]
pub struct ArrayTypeAttributes<Id> {
    pub(crate) items_type_id: Id,
}

impl<Id> ArrayTypeAttributes<Id> {
    /// The type of the items.
    pub closed spec fn items(&self) -> Id {
        self.items_type_id
    }

    /// Creates array attributes.
    pub fn new(items_type_id: Id) -> (r: Self)
        ensures
            r.items() == items_type_id,
    {
        ArrayTypeAttributes { items_type_id }
    }

    /// The type of the items.
    pub fn items_type_id(&self) -> (r: &Id)
        ensures
            *r == self.items(),
    {
        &self.items_type_id
    }
}

/// Attributes for a dictionary type: the types of its keys and of its values.
#[derive(Debug, Clone, PartialEq, Eq)]
pub struct DictionaryTypeAttributes<Id> {
    pub(crate) keys_type_id: Id,
    pub(crate) values_type_id: Id,
}

impl<Id> DictionaryTypeAttributes<Id> {
    /// The type of the keys.
    pub closed spec fn keys(&self) -> Id {
        self.keys_type_id
    }

    /// The type of the values.
    pub closed spec fn values(&self) -> Id {
        self.values_type_id
    }

    /// Creates dictionary attributes.
    pub fn new(keys_type_id: Id, values_type_id: Id) -> (r: Self)
        ensures
            r.keys() == keys_type_id,
            r.values() == values_type_id,
    {
        DictionaryTypeAttributes { keys_type_id, values_type_id }
    }

    /// The type of the keys.
    pub fn keys_type_id(&self) -> (r: &Id)
        ensures
            *r == self.keys(),
    {
        &self.keys_type_id
    }

    /// The type of the values.
    pub fn values_type_id(&self) -> (r: &Id)
        ensures
            *r == self.values(),
    {
        &self.values_type_id
    }
}

/// Attributes for a boolean type.
#[derive(Debug, Clone, Copy, Default, PartialEq, Eq)]
pub struct BooleanTypeAttributes {}

/// Attributes for a string type.
#[derive(Debug, Clone, Copy, Default, PartialEq, Eq)]
pub struct StringTypeAttributes {}

/// Attributes for a UUID type.
#[derive(Debug, Clone, Copy, Default, PartialEq, Eq)]
pub struct UuidTypeAttributes {}

/// Attributes for a floating-point type: optional inclusive bounds, kept as the IEEE-754 bit
/// patterns of the kind's width. The library carries them; it does not compare them.
#[derive(Debug, Clone, Copy, Default, PartialEq, Eq)]
pub struct FloatTypeAttributes {
    /// The bit pattern of the minimum.
    pub min_bits: Option<u64>,
    /// The bit pattern of the maximum.
    pub max_bits: Option<u64>,
}

/// All the kinds of types, with their attributes, in declaration form.
#[derive(Debug, Clone, PartialEq, Eq)]
pub enum TypeAttributes {
    /// An array of values of one type.
    Array(ArrayTypeAttributes<u64>),
    /// A dictionary with keys of one type and values of one type.
    Dictionary(DictionaryTypeAttributes<u64>),
    /// A boolean.
    Boolean(BooleanTypeAttributes),
    /// A 32-bit signed integer.
    Int32(NumberTypeAttributes<i32>),
    /// A 64-bit signed integer.
    Int64(NumberTypeAttributes<i64>),
    /// A 32-bit unsigned integer.
    Uint32(NumberTypeAttributes<u32>),
    /// A 64-bit unsigned integer.
    Uint64(NumberTypeAttributes<u64>),
    /// A 32-bit floating-point number.
    Float32(FloatTypeAttributes),
    /// A 64-bit floating-point number.
    Float64(FloatTypeAttributes),
    /// A string.
    String(StringTypeAttributes),
    /// One of a fixed set of names.
    Enum(EnumTypeAttributes),
    /// A UUID.
    Uuid(UuidTypeAttributes),
}

/// The identifiers that attributes refer to: the items type of an array, the keys and values
/// types of a dictionary, none for any other kind.
pub open spec fn refs_of(a: TypeAttributes) -> Seq<u64> {
    match a {
        TypeAttributes::Array(x) => seq![x.items()],
        TypeAttributes::Dictionary(x) => seq![x.keys(), x.values()],
        _ => Seq::empty(),
    }
}

impl TypeAttributes {
    /// The identifiers of the other type definitions these attributes refer to.
    pub fn external_identifier_references(&self) -> (r: Vec<u64>)
        ensures
            r@ == refs_of(*self),
    {
        match self {
            TypeAttributes::Array(a) => vec![*a.items_type_id()],
            TypeAttributes::Dictionary(d) => vec![*d.keys_type_id(), *d.values_type_id()],
            _ => Vec::new(),
        }
    }
}

/// A declaration of a type: an identifier and a name, both unique within a registry, a
/// description, and attributes that may refer to other declarations by identifier.
#[derive(Debug, Clone, PartialEq, Eq)]
pub struct TypeDefinition {
    /// The identifier.
    pub id: u64,
    /// The name.
    pub name: String,
    /// A description.
    pub description: Option<String>,
    /// The kind and its attributes.
    pub attributes: TypeAttributes,
}

} // verus!
