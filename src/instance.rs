//! Resolved type definitions: attributes whose references are shared instances, and the
//! instantiation of declaration attributes into them.
use std::sync::Arc;
use vstd::prelude::*;
use crate::attributes::{
    refs_of, ArrayTypeAttributes, BooleanTypeAttributes, DictionaryTypeAttributes,
    FloatTypeAttributes, StringTypeAttributes, TypeAttributes, UuidTypeAttributes,
};
use crate::enum_attributes::EnumTypeAttributes;
use crate::number::{Number, NumberTypeAttributes};
use crate::text::{decimal, joined, push_decimal, push_joined};

verus! {

/// A resolved type: an identifier, a name and resolved attributes. Instances are immutable and
/// shared; they only ever refer to instances that were resolved before them.
#[derive(Debug)]
pub struct TypeDefinitionInstance {
    id: u64,
    name: String,
    attributes: TypeAttributesInstance,
}

/// All the kinds of types, with their attributes, in resolved form.
#[derive(Debug)]
pub enum TypeAttributesInstance {
    /// An array of values of one type.
    Array(ArrayTypeAttributes<Arc<TypeDefinitionInstance>>),
    /// A dictionary with keys of one type and values of one type.
    Dictionary(DictionaryTypeAttributes<Arc<TypeDefinitionInstance>>),
    /// A boolean.
    Boolean(BooleanTypeAttributes),
    /// A 32-bit signed integer.
    Int32(NumberTypeAttributes<i32>),
    /// A 64-bit signed integer.
    Int64(NumberTypeAttributes<i64>),
    /// A 32-bit unsigned integer.
    Uint32(NumberTypeAttributes<u32>),
    /// A 64-bit unsigned integer.
    Uint64(NumberTypeAttributes<u64>),
    /// A 32-bit floating-point number.
    Float32(FloatTypeAttributes),
    /// A 64-bit floating-point number.
    Float64(FloatTypeAttributes),
    /// A string.
    String(StringTypeAttributes),
    /// One of a fixed set of names.
    Enum(EnumTypeAttributes),
    /// A UUID.
    Uuid(UuidTypeAttributes),
}

/// An error that can occur when instantiating type attributes.
#[derive(Debug, Clone, PartialEq, Eq)]
pub enum InstantiationError {
    /// The keys type of a dictionary is not a kind that can serve as a key.
    InappropriateKeyType { key_type_id: u64, key_type_name: String, key_type_str: String },
}

/// Whether attributes of this kind can serve as dictionary keys: the kinds that serialise as a
/// single string token, which are strings, enums and UUIDs.
pub open spec fn is_key_kind(a: TypeAttributesInstance) -> bool {
    a is String || a is Enum || a is Uuid
}

/// Whether `i` is `a` with its references replaced, in order, by `resolved`: the same kind and
/// the same scalar attributes.
pub open spec fn instantiates(
    a: TypeAttributes,
    resolved: Seq<Arc<TypeDefinitionInstance>>,
    i: TypeAttributesInstance,
) -> bool {
    match (a, i) {
        (TypeAttributes::Array(_), TypeAttributesInstance::Array(y)) => y.items() == resolved[0],
        (TypeAttributes::Dictionary(_), TypeAttributesInstance::Dictionary(y)) => y.keys()
            == resolved[0] && y.values() == resolved[1],
        (TypeAttributes::Boolean(x), TypeAttributesInstance::Boolean(y)) => x == y,
        (TypeAttributes::Int32(x), TypeAttributesInstance::Int32(y)) => x == y,
        (TypeAttributes::Int64(x), TypeAttributesInstance::Int64(y)) => x == y,
        (TypeAttributes::Uint32(x), TypeAttributesInstance::Uint32(y)) => x == y,
        (TypeAttributes::Uint64(x), TypeAttributesInstance::Uint64(y)) => x == y,
        (TypeAttributes::Float32(x), TypeAttributesInstance::Float32(y)) => x == y,
        (TypeAttributes::Float64(x), TypeAttributesInstance::Float64(y)) => x == y,
        (TypeAttributes::String(x), TypeAttributesInstance::String(y)) => x == y,
        (TypeAttributes::Enum(x), TypeAttributesInstance::Enum(y)) => x == y,
        (TypeAttributes::Uuid(x), TypeAttributesInstance::Uuid(y)) => x == y,
        _ => false,
    }
}

/// Whether instantiating `a` with `resolved` is refused: a dictionary whose keys type is not a
/// key kind.
pub open spec fn key_type_refused(a: TypeAttributes, resolved: Seq<Arc<TypeDefinitionInstance>>) -> bool {
    a is Dictionary && !is_key_kind(resolved[0].spec_attributes())
}

impl TypeDefinitionInstance {
    /// The identifier.
    pub closed spec fn spec_id(&self) -> u64 {
        self.id
    }

    /// The name.
    pub closed spec fn spec_name(&self) -> String {
        self.name
    }

    /// The resolved attributes.
    pub closed spec fn spec_attributes(&self) -> TypeAttributesInstance {
        self.attributes
    }

    /// Creates an instance.
    pub(crate) fn new(id: u64, name: String, attributes: TypeAttributesInstance) -> (r: Self)
        ensures
            r.spec_id() == id,
            r.spec_name() == name,
            r.spec_attributes() == attributes,
    {
        TypeDefinitionInstance { id, name, attributes }
    }

    /// The identifier.
    pub fn id(&self) -> (r: u64)
        ensures
            r == self.spec_id(),
    {
        self.id
    }

    /// The name.
    pub fn name(&self) -> (r: &String)
        ensures
            *r == self.spec_name(),
    {
        &self.name
    }

    /// The resolved attributes.
    pub fn attributes(&self) -> (r: &TypeAttributesInstance)
        ensures
            *r == self.spec_attributes(),
    {
        &self.attributes
    }
}

impl TypeAttributesInstance {
    /// Whether this kind can serve as a dictionary key.
    pub fn is_key_type(&self) -> (r: bool)
        ensures
            r == is_key_kind(*self),
    {
        match self {
            TypeAttributesInstance::Array(_) => false,
            TypeAttributesInstance::Dictionary(_) => false,
            TypeAttributesInstance::Boolean(_) => false,
            TypeAttributesInstance::Int32(_) => false,
            TypeAttributesInstance::Int64(_) => false,
            TypeAttributesInstance::Uint32(_) => false,
            TypeAttributesInstance::Uint64(_) => false,
            TypeAttributesInstance::Float32(_) => false,
            TypeAttributesInstance::Float64(_) => false,
            TypeAttributesInstance::String(_) => true,
            TypeAttributesInstance::Enum(_) => true,
            TypeAttributesInstance::Uuid(_) => true,
        }
    }
}

impl DictionaryTypeAttributes<u64> {
    /// Resolves the dictionary's references, refusing a keys type that is not a key kind.
    pub fn instantiate(
        &self,
        keys: Arc<TypeDefinitionInstance>,
        values: Arc<TypeDefinitionInstance>,
    ) -> (r: Result<DictionaryTypeAttributes<Arc<TypeDefinitionInstance>>, InstantiationError>)
        ensures
            r is Ok <==> is_key_kind(keys.spec_attributes()),
            r matches Ok(d) ==> d.keys() == keys && d.values() == values,
            r matches Err(InstantiationError::InappropriateKeyType {
                key_type_id,
                key_type_name,
                key_type_str,
            }) ==> key_type_id == keys.spec_id() && key_type_name == keys.spec_name()
                && key_type_str@ == type_text(keys.spec_attributes()),
    {
        if !keys.attributes().is_key_type() {
            return Err(
                InstantiationError::InappropriateKeyType {
                    key_type_id: keys.id(),
                    key_type_name: keys.name().clone(),
                    key_type_str: keys.attributes().to_display_string(),
                },
            );
        }
        Ok(DictionaryTypeAttributes::new(keys, values))
    }
}

impl TypeAttributes {
    /// Replaces the references of these attributes by the instances they resolve to, given in
    /// reference order. On refusal the attributes are handed back with the reason.
    pub(crate) fn instantiate(self, resolved: Vec<Arc<TypeDefinitionInstance>>) -> (r: Result<
        TypeAttributesInstance,
        (TypeAttributes, InstantiationError),
    >)
        requires
            resolved@.len() == refs_of(self).len(),
            forall|k: int|
                0 <= k < resolved@.len() ==> #[trigger] resolved@[k].spec_id() == refs_of(self)[k],
        ensures
            r is Ok <==> !key_type_refused(self, resolved@),
            r matches Ok(i) ==> instantiates(self, resolved@, i),
            r matches Err((a, e)) ==> a == self && e == (InstantiationError::InappropriateKeyType {
                key_type_id: resolved@[0].spec_id(),
                key_type_name: resolved@[0].spec_name(),
                key_type_str: e->key_type_str,
            }) && e->key_type_str@ == type_text(resolved@[0].spec_attributes()),
    {
        let mut resolved = resolved;
        match self {
            TypeAttributes::Array(a) => {
                let items = resolved.remove(0);
                Ok(TypeAttributesInstance::Array(ArrayTypeAttributes::new(items)))
            },
            TypeAttributes::Dictionary(d) => {
                let keys = resolved.remove(0);
                let values = resolved.remove(0);
                match d.instantiate(keys, values) {
                    Ok(x) => Ok(TypeAttributesInstance::Dictionary(x)),
                    Err(e) => Err((TypeAttributes::Dictionary(d), e)),
                }
            },
            TypeAttributes::Boolean(x) => Ok(TypeAttributesInstance::Boolean(x)),
            TypeAttributes::Int32(x) => Ok(TypeAttributesInstance::Int32(x)),
            TypeAttributes::Int64(x) => Ok(TypeAttributesInstance::Int64(x)),
            TypeAttributes::Uint32(x) => Ok(TypeAttributesInstance::Uint32(x)),
            TypeAttributes::Uint64(x) => Ok(TypeAttributesInstance::Uint64(x)),
            TypeAttributes::Float32(x) => Ok(TypeAttributesInstance::Float32(x)),
            TypeAttributes::Float64(x) => Ok(TypeAttributesInstance::Float64(x)),
            TypeAttributes::String(x) => Ok(TypeAttributesInstance::String(x)),
            TypeAttributes::Enum(x) => Ok(TypeAttributesInstance::Enum(x)),
            TypeAttributes::Uuid(x) => Ok(TypeAttributesInstance::Uuid(x)),
        }
    }
}

/// The textual form of optional bounds: `min..max`, either side left empty when absent.
pub open spec fn bounds_text<Num: Number>(a: NumberTypeAttributes<Num>) -> Seq<char> {
    (if a.min_bound() is Some {
        decimal(a.min_bound()->Some_0.value())
    } else {
        Seq::empty()
    }) + ".."@ + (if a.max_bound() is Some {
        decimal(a.max_bound()->Some_0.value())
    } else {
        Seq::empty()
    })
}

/// The textual form of floating-point bounds. The library holds no floating-point numbers, so each
/// bound is written as the decimal value of its IEEE-754 bit pattern (1.0 as a 32-bit float reads
/// `1065353216`), not as the number it encodes.
pub open spec fn bits_text(f: FloatTypeAttributes) -> Seq<char> {
    (if f.min_bits is Some {
        decimal(f.min_bits->Some_0 as int)
    } else {
        Seq::empty()
    }) + ".."@ + (if f.max_bits is Some {
        decimal(f.max_bits->Some_0 as int)
    } else {
        Seq::empty()
    })
}

/// The textual form of resolved attributes: the kind, then its attributes in parentheses; the
/// types an array or dictionary refers to appear in full. Floating-point bounds appear as bit
/// patterns (see `bits_text`).
pub closed spec fn type_text(a: TypeAttributesInstance) -> Seq<char>
    decreases a,
{
    match a {
        TypeAttributesInstance::Array(x) => "array("@ + instance_text(*x.items_type_id) + ")"@,
        TypeAttributesInstance::Dictionary(x) => "dictionary(("@ + instance_text(*x.keys_type_id)
            + ", "@ + instance_text(*x.values_type_id) + "))"@,
        TypeAttributesInstance::Boolean(_) => "boolean"@,
        TypeAttributesInstance::Int32(n) => "int32("@ + bounds_text(n) + ")"@,
        TypeAttributesInstance::Int64(n) => "int64("@ + bounds_text(n) + ")"@,
        TypeAttributesInstance::Uint32(n) => "uint32("@ + bounds_text(n) + ")"@,
        TypeAttributesInstance::Uint64(n) => "uint64("@ + bounds_text(n) + ")"@,
        TypeAttributesInstance::Float32(f) => "float32("@ + bits_text(f) + ")"@,
        TypeAttributesInstance::Float64(f) => "float64("@ + bits_text(f) + ")"@,
        TypeAttributesInstance::String(_) => "string()"@,
        TypeAttributesInstance::Enum(e) => "enum("@ + joined(e.value_names()) + ")"@,
        TypeAttributesInstance::Uuid(_) => "uuid"@,
    }
}

/// The textual form of an instance: `name(id): ` and its attributes.
pub closed spec fn instance_text(i: TypeDefinitionInstance) -> Seq<char>
    decreases i,
{
    i.name@ + "("@ + decimal(i.id as int) + "): "@ + type_text(i.attributes)
}

fn push_bounds<Num: Number>(s: &mut String, a: &NumberTypeAttributes<Num>)
    ensures
        final(s)@ == old(s)@ + bounds_text(*a),
{
    proof {
        reveal_strlit("..");
    }
    let (lo, hi) = a.bounds();
    if let Some(x) = lo {
        push_decimal(s, x);
    }
    s.append("..");
    if let Some(x) = hi {
        push_decimal(s, x);
    }
    assert(s@ =~= old(s)@ + bounds_text(*a));
}

fn push_bits(s: &mut String, f: &FloatTypeAttributes)
    ensures
        final(s)@ == old(s)@ + bits_text(*f),
{
    proof {
        reveal_strlit("..");
    }
    if let Some(x) = f.min_bits {
        push_decimal(s, x as i128);
    }
    s.append("..");
    if let Some(x) = f.max_bits {
        push_decimal(s, x as i128);
    }
    assert(s@ =~= old(s)@ + bits_text(*f));
}

fn push_type_text(s: &mut String, a: &TypeAttributesInstance)
    ensures
        final(s)@ == old(s)@ + type_text(*a),
    decreases a,
{
    proof {
        reveal_strlit("array(");
        reveal_strlit(")");
        reveal_strlit("dictionary((");
        reveal_strlit(", ");
        reveal_strlit("))");
        reveal_strlit("boolean");
        reveal_strlit("int32(");
        reveal_strlit("int64(");
        reveal_strlit("uint32(");
        reveal_strlit("uint64(");
        reveal_strlit("float32(");
        reveal_strlit("float64(");
        reveal_strlit("string()");
        reveal_strlit("enum(");
        reveal_strlit("uuid");
    }
    match a {
        TypeAttributesInstance::Array(x) => {
            s.append("array(");
            push_instance_text(s, &*x.items_type_id);
            s.append(")");
        },
        TypeAttributesInstance::Dictionary(x) => {
            s.append("dictionary((");
            push_instance_text(s, &*x.keys_type_id);
            s.append(", ");
            push_instance_text(s, &*x.values_type_id);
            s.append("))");
        },
        TypeAttributesInstance::Boolean(_) => s.append("boolean"),
        TypeAttributesInstance::Int32(n) => {
            s.append("int32(");
            push_bounds(s, n);
            s.append(")");
        },
        TypeAttributesInstance::Int64(n) => {
            s.append("int64(");
            push_bounds(s, n);
            s.append(")");
        },
        TypeAttributesInstance::Uint32(n) => {
            s.append("uint32(");
            push_bounds(s, n);
            s.append(")");
        },
        TypeAttributesInstance::Uint64(n) => {
            s.append("uint64(");
            push_bounds(s, n);
            s.append(")");
        },
        TypeAttributesInstance::Float32(f) => {
            s.append("float32(");
            push_bits(s, f);
            s.append(")");
        },
        TypeAttributesInstance::Float64(f) => {
            s.append("float64(");
            push_bits(s, f);
            s.append(")");
        },
        TypeAttributesInstance::String(_) => s.append("string()"),
        TypeAttributesInstance::Enum(e) => {
            s.append("enum(");
            push_joined(s, &e.value_name_list());
            s.append(")");
        },
        TypeAttributesInstance::Uuid(_) => s.append("uuid"),
    }
    assert(s@ =~= old(s)@ + type_text(*a));
}

fn push_instance_text(s: &mut String, i: &TypeDefinitionInstance)
    ensures
        final(s)@ == old(s)@ + instance_text(*i),
    decreases i,
{
    proof {
        reveal_strlit("(");
        reveal_strlit("): ");
    }
    s.append(i.name.as_str());
    s.append("(");
    push_decimal(s, i.id as i128);
    s.append("): ");
    push_type_text(s, &i.attributes);
    assert(s@ =~= old(s)@ + instance_text(*i));
}

impl TypeAttributesInstance {
    /// The textual form: the kind, then its attributes in parentheses.
    pub fn to_display_string(&self) -> (r: String)
        ensures
            r@ == type_text(*self),
    {
        let mut s = String::new();
        push_type_text(&mut s, self);
        s
    }
}

impl TypeDefinitionInstance {
    /// The textual form: `name(id): ` and the attributes.
    pub fn to_display_string(&self) -> (r: String)
        ensures
            r@ == instance_text(*self),
    {
        let mut s = String::new();
        push_instance_text(&mut s, self);
        s
    }
}

} // verus!
