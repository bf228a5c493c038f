//! Typed values: parsing an untyped tree against a resolved type, with a path-annotated error.
use std::sync::Arc;
use vstd::prelude::*;
use crate::enum_attributes::resolve_enum_name;
use crate::instance::{TypeAttributesInstance, TypeDefinitionInstance};
use crate::number::{Number, NumberTypeAttributes, ValidateNumberTypeError};
use crate::text::{decimal, push_decimal};

verus! {

broadcast use vstd::std_specs::vec::group_vec_axioms;

/// An untyped number: an integer, or a number with a fractional part or an exponent, kept as the
/// IEEE-754 bit pattern of a 64-bit float.
#[derive(Debug, Clone, Copy, PartialEq, Eq)]
pub enum UntypedNumber {
    /// An integer.
    Integer(i128),
    /// A floating-point number, by its bit pattern.
    Float(u64),
}

/// An untyped tree value, as read from a structured format such as JSON.
#[derive(Debug, PartialEq, Eq)]
pub enum UntypedValue {
    /// The null value.
    Null,
    /// A boolean.
    Bool(bool),
    /// A number.
    Number(UntypedNumber),
    /// A string.
    String(String),
    /// An array.
    Array(Vec<UntypedValue>),
    /// An object: string keys and values, in order.
    Object(Vec<(String, UntypedValue)>),
}

/// A parsed value, of the shape of the type it was parsed for.
#[derive(Debug, PartialEq, Eq)]
pub enum ValueData {
    /// An array.
    Array(Vec<ValueData>),
    /// A dictionary, as ordered key-value pairs.
    Dictionary(Vec<(ValueData, ValueData)>),
    /// A boolean.
    Boolean(bool),
    /// A 32-bit signed integer.
    Int32(i32),
    /// A 64-bit signed integer.
    Int64(i64),
    /// A 32-bit unsigned integer.
    Uint32(u32),
    /// A 64-bit unsigned integer.
    Uint64(u64),
    /// A string.
    String(String),
    /// The name of an enum value.
    Enum(String),
}

/// A step of the path to the part of the input that a parse error is about.
#[derive(Debug, Clone, PartialEq, Eq)]
pub enum ParseErrorPathSegment {
    /// An index into an array.
    ArrayIndex(usize),
    /// A key of a dictionary.
    DictionaryKey(String),
}

/// The path to the part of the input that a parse error is about.
#[derive(Debug)]
pub struct ParseErrorPath {
    segments: Vec<ParseErrorPathSegment>,
}

/// Why a part of the input does not parse.
#[derive(Debug, PartialEq, Eq)]
pub enum ParseImplError {
    /// A dictionary key does not parse as the keys type.
    InvalidDictionaryKey(Box<ParseImplError>),
    /// A dictionary value does not parse as the values type.
    InvalidDictionaryValue(Box<ParseImplError>),
    /// A number is not a valid 32-bit signed integer of the type.
    InvalidInt32(ValidateNumberTypeError<i32>),
    /// A number is not a valid 64-bit signed integer of the type.
    InvalidInt64(ValidateNumberTypeError<i64>),
    /// A number is not a valid 32-bit unsigned integer of the type.
    InvalidUint32(ValidateNumberTypeError<u32>),
    /// A number is not a valid 64-bit unsigned integer of the type.
    InvalidUint64(ValidateNumberTypeError<u64>),
    /// The input is not of the shape of the type.
    TypeMismatch,
    /// A string is neither a value nor an alias of the enum.
    UnknownEnumValue(String),
    /// Values of floating-point and UUID types are not parsed by this library.
    UnsupportedKind,
}

/// A value together with the type it was parsed for.
#[derive(Debug)]
pub struct Value {
    instance: Arc<TypeDefinitionInstance>,
    value: ValueData,
}

/// A failure to parse a value: the type, the path to the offending part, and the cause.
#[derive(Debug)]
pub struct ParseError {
    instance: Arc<TypeDefinitionInstance>,
    path: ParseErrorPath,
    err: ParseImplError,
}

/// `x` checked against the bounds: the minimum first, then the maximum.
pub open spec fn checked<Num: Number>(a: NumberTypeAttributes<Num>, x: Num) -> Result<Num, ValidateNumberTypeError<Num>> {
    if a.min_bound() is Some && x.value() < a.min_bound()->Some_0.value() {
        Err(ValidateNumberTypeError::LessThanMin(x, a.min_bound()->Some_0))
    } else if a.max_bound() is Some && a.max_bound()->Some_0.value() < x.value() {
        Err(ValidateNumberTypeError::GreaterThanMax(x, a.max_bound()->Some_0))
    } else {
        Ok(x)
    }
}

/// An untyped number as a 32-bit signed integer of the type.
pub open spec fn int32_outcome(a: NumberTypeAttributes<i32>, n: UntypedNumber) -> Result<i32, ValidateNumberTypeError<i32>> {
    match n {
        UntypedNumber::Integer(x) => if i32::MIN <= x <= i32::MAX {
            checked(a, x as i32)
        } else {
            Err(ValidateNumberTypeError::InvalidValue)
        },
        UntypedNumber::Float(_) => Err(ValidateNumberTypeError::InvalidValue),
    }
}

/// An untyped number as a 64-bit signed integer of the type.
pub open spec fn int64_outcome(a: NumberTypeAttributes<i64>, n: UntypedNumber) -> Result<i64, ValidateNumberTypeError<i64>> {
    match n {
        UntypedNumber::Integer(x) => if i64::MIN <= x <= i64::MAX {
            checked(a, x as i64)
        } else {
            Err(ValidateNumberTypeError::InvalidValue)
        },
        UntypedNumber::Float(_) => Err(ValidateNumberTypeError::InvalidValue),
    }
}

/// An untyped number as a 32-bit unsigned integer of the type.
pub open spec fn uint32_outcome(a: NumberTypeAttributes<u32>, n: UntypedNumber) -> Result<u32, ValidateNumberTypeError<u32>> {
    match n {
        UntypedNumber::Integer(x) => if 0 <= x <= u32::MAX {
            checked(a, x as u32)
        } else {
            Err(ValidateNumberTypeError::InvalidValue)
        },
        UntypedNumber::Float(_) => Err(ValidateNumberTypeError::InvalidValue),
    }
}

/// An untyped number as a 64-bit unsigned integer of the type.
pub open spec fn uint64_outcome(a: NumberTypeAttributes<u64>, n: UntypedNumber) -> Result<u64, ValidateNumberTypeError<u64>> {
    match n {
        UntypedNumber::Integer(x) => if 0 <= x <= u64::MAX {
            checked(a, x as u64)
        } else {
            Err(ValidateNumberTypeError::InvalidValue)
        },
        UntypedNumber::Float(_) => Err(ValidateNumberTypeError::InvalidValue),
    }
}

/// Whether a value that holds no other values parses as the attributes.
pub open spec fn scalar_accepts(a: TypeAttributesInstance, v: UntypedValue) -> bool {
    match (a, v) {
        (TypeAttributesInstance::Boolean(_), UntypedValue::Bool(_)) => true,
        (TypeAttributesInstance::Int32(x), UntypedValue::Number(n)) => int32_outcome(x, n) is Ok,
        (TypeAttributesInstance::Int64(x), UntypedValue::Number(n)) => int64_outcome(x, n) is Ok,
        (TypeAttributesInstance::Uint32(x), UntypedValue::Number(n)) => uint32_outcome(x, n) is Ok,
        (TypeAttributesInstance::Uint64(x), UntypedValue::Number(n)) => uint64_outcome(x, n) is Ok,
        (TypeAttributesInstance::String(_), UntypedValue::String(_)) => true,
        (TypeAttributesInstance::Enum(e), UntypedValue::String(s)) => resolve_enum_name(e, s@) is Some,
        _ => false,
    }
}

/// Whether `out` is what a value that holds no other values parses to.
pub open spec fn scalar_parses_to(a: TypeAttributesInstance, v: UntypedValue, out: ValueData) -> bool {
    match (a, v) {
        (TypeAttributesInstance::Boolean(_), UntypedValue::Bool(b)) => out == ValueData::Boolean(b),
        (TypeAttributesInstance::Int32(x), UntypedValue::Number(n)) => int32_outcome(x, n) is Ok
            && out == ValueData::Int32(int32_outcome(x, n)->Ok_0),
        (TypeAttributesInstance::Int64(x), UntypedValue::Number(n)) => int64_outcome(x, n) is Ok
            && out == ValueData::Int64(int64_outcome(x, n)->Ok_0),
        (TypeAttributesInstance::Uint32(x), UntypedValue::Number(n)) => uint32_outcome(x, n) is Ok
            && out == ValueData::Uint32(uint32_outcome(x, n)->Ok_0),
        (TypeAttributesInstance::Uint64(x), UntypedValue::Number(n)) => uint64_outcome(x, n) is Ok
            && out == ValueData::Uint64(uint64_outcome(x, n)->Ok_0),
        (TypeAttributesInstance::String(_), UntypedValue::String(s)) => out matches ValueData::String(
            o,
        ) && o@ == s@,
        (TypeAttributesInstance::Enum(e), UntypedValue::String(s)) => out matches ValueData::Enum(o)
            && resolve_enum_name(e, s@) == Some(o@) && e.value_names().contains(o@),
        _ => false,
    }
}

/// Why a value that holds no other values does not parse as the attributes.
pub open spec fn scalar_error(a: TypeAttributesInstance, v: UntypedValue) -> ParseImplError {
    match (a, v) {
        (TypeAttributesInstance::Int32(x), UntypedValue::Number(n)) => ParseImplError::InvalidInt32(
            int32_outcome(x, n)->Err_0,
        ),
        (TypeAttributesInstance::Int64(x), UntypedValue::Number(n)) => ParseImplError::InvalidInt64(
            int64_outcome(x, n)->Err_0,
        ),
        (TypeAttributesInstance::Uint32(x), UntypedValue::Number(n)) => ParseImplError::InvalidUint32(
            uint32_outcome(x, n)->Err_0,
        ),
        (TypeAttributesInstance::Uint64(x), UntypedValue::Number(n)) => ParseImplError::InvalidUint64(
            uint64_outcome(x, n)->Err_0,
        ),
        (TypeAttributesInstance::Enum(_), UntypedValue::String(s)) => ParseImplError::UnknownEnumValue(s),
        (TypeAttributesInstance::Float32(_), _) => ParseImplError::UnsupportedKind,
        (TypeAttributesInstance::Float64(_), _) => ParseImplError::UnsupportedKind,
        (TypeAttributesInstance::Uuid(_), _) => ParseImplError::UnsupportedKind,
        _ => ParseImplError::TypeMismatch,
    }
}

/// Whether a dictionary key parses as the keys type.
pub open spec fn key_accepts(keys: TypeDefinitionInstance, k: String) -> bool {
    scalar_accepts(keys.spec_attributes(), UntypedValue::String(k))
}

/// Whether a value parses as the type.
pub open spec fn accepts(inst: TypeDefinitionInstance, v: UntypedValue) -> bool
    decreases v,
{
    match (inst.spec_attributes(), v) {
        (TypeAttributesInstance::Array(a), UntypedValue::Array(items)) => forall|i: int|
            0 <= i < items@.len() ==> accepts(*a.items(), #[trigger] items@[i]),
        (TypeAttributesInstance::Dictionary(d), UntypedValue::Object(entries)) => forall|i: int|
            0 <= i < entries@.len() ==> key_accepts(*d.keys(), (#[trigger] entries@[i]).0) && accepts(
                *d.values(),
                entries@[i].1,
            ),
        (a, v) => scalar_accepts(a, v),
    }
}

/// Whether `out` is what a value parses to as the type: arrays and dictionaries element by
/// element in order, scalars as `scalar_parses_to` says.
pub open spec fn parses_to(inst: TypeDefinitionInstance, v: UntypedValue, out: ValueData) -> bool
    decreases v,
{
    match (inst.spec_attributes(), v) {
        (TypeAttributesInstance::Array(a), UntypedValue::Array(items)) => out matches ValueData::Array(
            outs,
        ) && outs@.len() == items@.len() && forall|i: int|
            0 <= i < items@.len() ==> parses_to(*a.items(), #[trigger] items@[i], outs@[i]),
        (TypeAttributesInstance::Dictionary(d), UntypedValue::Object(entries)) => out matches ValueData::Dictionary(
            outs,
        ) && outs@.len() == entries@.len() && forall|i: int|
            0 <= i < entries@.len() ==> scalar_parses_to(
                d.keys().spec_attributes(),
                UntypedValue::String((#[trigger] entries@[i]).0),
                outs@[i].0,
            ) && parses_to(*d.values(), entries@[i].1, outs@[i].1),
        (a, v) => scalar_parses_to(a, v, out),
    }
}

/// Whether parsing a value as the type fails at `path` with `err`: at the first element that
/// does not parse, with the array index or dictionary key of that element first in the path.
pub open spec fn fails_with(
    inst: TypeDefinitionInstance,
    v: UntypedValue,
    path: Seq<ParseErrorPathSegment>,
    err: ParseImplError,
) -> bool
    decreases v,
{
    match (inst.spec_attributes(), v) {
        (TypeAttributesInstance::Array(a), UntypedValue::Array(items)) => exists|i: int|
            0 <= i < items@.len() && (forall|j: int|
                0 <= j < i ==> accepts(*a.items(), #[trigger] items@[j])) && path.len() >= 1
                && path[0] == ParseErrorPathSegment::ArrayIndex(i as usize) && fails_with(
                *a.items(),
                #[trigger] items@[i],
                path.drop_first(),
                err,
            ),
        (TypeAttributesInstance::Dictionary(d), UntypedValue::Object(entries)) => exists|i: int|
            0 <= i < entries@.len() && (forall|j: int|
                0 <= j < i ==> key_accepts(*d.keys(), (#[trigger] entries@[j]).0) && accepts(
                    *d.values(),
                    entries@[j].1,
                )) && path.len() >= 1 && path[0] == ParseErrorPathSegment::DictionaryKey(
                (#[trigger] entries@[i]).0,
            ) && if key_accepts(*d.keys(), entries@[i].0) {
                (err matches ParseImplError::InvalidDictionaryValue(b) && fails_with(
                    *d.values(),
                    entries@[i].1,
                    path.drop_first(),
                    *b,
                ))
            } else {
                path.len() == 1 && (err matches ParseImplError::InvalidDictionaryKey(b) && *b
                    == scalar_error(d.keys().spec_attributes(), UntypedValue::String(entries@[i].0)))
            },
        (a, v) => !scalar_accepts(a, v) && path.len() == 0 && err == scalar_error(a, v),
    }
}

proof fn lemma_items_decrease(v: UntypedValue)
    requires
        v is Array,
    ensures
        forall|k: int|
            0 <= k < v->Array_0@.len() ==> decreases_to!(v => #[trigger] v->Array_0@[k]),
{
    assert forall|k: int| 0 <= k < v->Array_0@.len() implies decreases_to!(v => #[trigger] v->Array_0@[k]) by {
        assert(decreases_to!(v => v->Array_0));
        assert(decreases_to!(v->Array_0 => v->Array_0@));
        assert(decreases_to!(v->Array_0@ => v->Array_0@[k]));
    }
}

proof fn lemma_entries_decrease(v: UntypedValue)
    requires
        v is Object,
    ensures
        forall|k: int|
            0 <= k < v->Object_0@.len() ==> decreases_to!(v => (#[trigger] v->Object_0@[k]).1),
{
    assert forall|k: int| 0 <= k < v->Object_0@.len() implies decreases_to!(v => (#[trigger] v->Object_0@[k]).1) by {
        assert(decreases_to!(v => v->Object_0));
        assert(decreases_to!(v->Object_0 => v->Object_0@));
        assert(decreases_to!(v->Object_0@ => v->Object_0@[k]));
        assert(decreases_to!(v->Object_0@[k] => v->Object_0@[k].1));
    }
}

impl ParseErrorPath {
    /// The segments, outermost first.
    pub closed spec fn segments(&self) -> Seq<ParseErrorPathSegment> {
        self.segments@
    }

    /// An empty path.
    pub fn new() -> (r: Self)
        ensures
            r.segments().len() == 0,
    {
        ParseErrorPath { segments: Vec::new() }
    }

    /// Appends a segment.
    pub fn push(&mut self, segment: ParseErrorPathSegment)
        ensures
            final(self).segments() == old(self).segments().push(segment),
    {
        self.segments.push(segment);
    }

    /// Removes the last segment.
    pub fn pop(&mut self)
        requires
            old(self).segments().len() > 0,
        ensures
            final(self).segments() == old(self).segments().drop_last(),
    {
        self.segments.pop();
    }

    /// The segments, outermost first.
    pub fn as_slice(&self) -> (r: &[ParseErrorPathSegment])
        ensures
            r@ == self.segments(),
    {
        self.segments.as_slice()
    }
}

/// The textual form of a path: each segment in brackets, an array index in decimal.
pub open spec fn path_text(segments: Seq<ParseErrorPathSegment>) -> Seq<char>
    decreases segments.len(),
{
    if segments.len() == 0 {
        Seq::empty()
    } else {
        path_text(segments.drop_last()) + "["@ + match segments.last() {
            ParseErrorPathSegment::ArrayIndex(i) => decimal(i as int),
            ParseErrorPathSegment::DictionaryKey(k) => k@,
        } + "]"@
    }
}

impl ParseErrorPath {
    /// The textual form: each segment in brackets, as `[0][key]`.
    pub fn to_display_string(&self) -> (r: String)
        ensures
            r@ == path_text(self.segments()),
    {
        proof {
            reveal_strlit("[");
            reveal_strlit("]");
        }
        let mut s = String::new();
        let mut k: usize = 0;
        while k < self.segments.len()
            invariant
                0 <= k <= self.segments@.len(),
                s@ == path_text(self.segments@.take(k as int)),
            decreases self.segments@.len() - k,
        {
            s.append("[");
            match &self.segments[k] {
                ParseErrorPathSegment::ArrayIndex(i) => push_decimal(&mut s, *i as i128),
                ParseErrorPathSegment::DictionaryKey(key) => s.append(key.as_str()),
            }
            s.append("]");
            proof {
                let t = self.segments@.take(k + 1);
                assert(t.drop_last() =~= self.segments@.take(k as int));
                assert(t.last() == self.segments@[k as int]);
                assert(s@ =~= path_text(t));
            }
            k += 1;
        }
        assert(self.segments@.take(k as int) =~= self.segments@);
        s
    }
}

impl Default for ParseErrorPath {
    fn default() -> (r: Self)
        ensures
            r.segments().len() == 0,
    {
        ParseErrorPath::new()
    }
}

fn number_i32(a: &NumberTypeAttributes<i32>, n: UntypedNumber) -> (r: Result<i32, ValidateNumberTypeError<i32>>)
    ensures
        r == int32_outcome(*a, n),
{
    match n {
        UntypedNumber::Integer(x) => {
            if i32::MIN as i128 <= x && x <= i32::MAX as i128 {
                let y = x as i32;
                match a.validate(y) {
                    Ok(()) => Ok(y),
                    Err(e) => Err(e),
                }
            } else {
                Err(ValidateNumberTypeError::InvalidValue)
            }
        },
        UntypedNumber::Float(_) => Err(ValidateNumberTypeError::InvalidValue),
    }
}

fn number_i64(a: &NumberTypeAttributes<i64>, n: UntypedNumber) -> (r: Result<i64, ValidateNumberTypeError<i64>>)
    ensures
        r == int64_outcome(*a, n),
{
    match n {
        UntypedNumber::Integer(x) => {
            if i64::MIN as i128 <= x && x <= i64::MAX as i128 {
                let y = x as i64;
                match a.validate(y) {
                    Ok(()) => Ok(y),
                    Err(e) => Err(e),
                }
            } else {
                Err(ValidateNumberTypeError::InvalidValue)
            }
        },
        UntypedNumber::Float(_) => Err(ValidateNumberTypeError::InvalidValue),
    }
}

fn number_u32(a: &NumberTypeAttributes<u32>, n: UntypedNumber) -> (r: Result<u32, ValidateNumberTypeError<u32>>)
    ensures
        r == uint32_outcome(*a, n),
{
    match n {
        UntypedNumber::Integer(x) => {
            if 0 <= x && x <= u32::MAX as i128 {
                let y = x as u32;
                match a.validate(y) {
                    Ok(()) => Ok(y),
                    Err(e) => Err(e),
                }
            } else {
                Err(ValidateNumberTypeError::InvalidValue)
            }
        },
        UntypedNumber::Float(_) => Err(ValidateNumberTypeError::InvalidValue),
    }
}

fn number_u64(a: &NumberTypeAttributes<u64>, n: UntypedNumber) -> (r: Result<u64, ValidateNumberTypeError<u64>>)
    ensures
        r == uint64_outcome(*a, n),
{
    match n {
        UntypedNumber::Integer(x) => {
            if 0 <= x && x <= u64::MAX as i128 {
                let y = x as u64;
                match a.validate(y) {
                    Ok(()) => Ok(y),
                    Err(e) => Err(e),
                }
            } else {
                Err(ValidateNumberTypeError::InvalidValue)
            }
        },
        UntypedNumber::Float(_) => Err(ValidateNumberTypeError::InvalidValue),
    }
}

/// Parses a value that holds no other values.
fn parse_scalar(attrs: &TypeAttributesInstance, value: UntypedValue) -> (r: Result<ValueData, ParseImplError>)
    ensures
        (r is Ok) == scalar_accepts(*attrs, value),
        r matches Ok(o) ==> scalar_parses_to(*attrs, value, o),
        r matches Err(e) ==> e == scalar_error(*attrs, value),
{
    match (attrs, value) {
        (TypeAttributesInstance::Boolean(_), UntypedValue::Bool(b)) => Ok(ValueData::Boolean(b)),
        (TypeAttributesInstance::Int32(a), UntypedValue::Number(n)) => match number_i32(a, n) {
            Ok(x) => Ok(ValueData::Int32(x)),
            Err(e) => Err(ParseImplError::InvalidInt32(e)),
        },
        (TypeAttributesInstance::Int64(a), UntypedValue::Number(n)) => match number_i64(a, n) {
            Ok(x) => Ok(ValueData::Int64(x)),
            Err(e) => Err(ParseImplError::InvalidInt64(e)),
        },
        (TypeAttributesInstance::Uint32(a), UntypedValue::Number(n)) => match number_u32(a, n) {
            Ok(x) => Ok(ValueData::Uint32(x)),
            Err(e) => Err(ParseImplError::InvalidUint32(e)),
        },
        (TypeAttributesInstance::Uint64(a), UntypedValue::Number(n)) => match number_u64(a, n) {
            Ok(x) => Ok(ValueData::Uint64(x)),
            Err(e) => Err(ParseImplError::InvalidUint64(e)),
        },
        (TypeAttributesInstance::String(_), UntypedValue::String(s)) => Ok(ValueData::String(s)),
        (TypeAttributesInstance::Enum(e), UntypedValue::String(s)) => match e.resolve(&s) {
            Some(name) => Ok(ValueData::Enum(name)),
            None => Err(ParseImplError::UnknownEnumValue(s)),
        },
        (TypeAttributesInstance::Float32(_), _) => Err(ParseImplError::UnsupportedKind),
        (TypeAttributesInstance::Float64(_), _) => Err(ParseImplError::UnsupportedKind),
        (TypeAttributesInstance::Uuid(_), _) => Err(ParseImplError::UnsupportedKind),
        _ => Err(ParseImplError::TypeMismatch),
    }
}

/// Parses a value as a type; on failure the path holds, after what it held before, the way to
/// the offending part.
#[verifier::loop_isolation(false)]
fn parse_value(path: &mut ParseErrorPath, inst: &TypeDefinitionInstance, value: UntypedValue) -> (r: Result<ValueData, ParseImplError>)
    ensures
        (r is Ok) == accepts(*inst, value),
        r matches Ok(o) ==> parses_to(*inst, value, o) && final(path).segments() == old(path).segments(),
        r matches Err(e) ==> final(path).segments().len() >= old(path).segments().len()
            && final(path).segments().subrange(0, old(path).segments().len() as int) == old(path).segments()
            && fails_with(*inst, value, final(path).segments().skip(old(path).segments().len() as int), e),
    decreases value,
{
    let ghost v0 = value;
    let ghost outer_path = path.segments();
    match (inst.attributes(), value) {
        (TypeAttributesInstance::Array(a), UntypedValue::Array(items)) => {
            let item_inst: &TypeDefinitionInstance = &**a.items_type_id();
            let ghost orig = items@;
            proof {
                lemma_items_decrease(v0);
            }
            let n = items.len();
            let mut items = items;
            let mut out: Vec<ValueData> = Vec::new();
            let mut i: usize = 0;
            while items.len() > 0
                invariant
                    v0 is Array,
                    v0->Array_0@ == orig,
                    orig.len() == n,
                    inst.spec_attributes() == TypeAttributesInstance::Array(*a),
                    *item_inst == *a.items(),
                    i <= orig.len(),
                    items@ == orig.subrange(i as int, orig.len() as int),
                    out@.len() == i,
                    forall|j: int| 0 <= j < i ==> accepts(*item_inst, #[trigger] orig[j]) && parses_to(*item_inst, orig[j], out@[j]),
                    path.segments() == outer_path,
                    forall|k: int| 0 <= k < orig.len() ==> decreases_to!(v0 => #[trigger] orig[k]),
                decreases items.len(),
            {
                let ghost before = items@;
                let child = items.remove(0);
                assert(child == orig[i as int]);
                path.push(ParseErrorPathSegment::ArrayIndex(i));
                let ghost inner_path = path.segments();
                match parse_value(path, item_inst, child) {
                    Ok(x) => {
                        path.pop();
                        out.push(x);
                        proof {
                            assert(path.segments() =~= outer_path);
                            assert forall|j: int| 0 <= j < i + 1 implies accepts(*item_inst, #[trigger] orig[j]) && parses_to(*item_inst, orig[j], out@[j]) by {
                                if j < i {
                                    assert(out@[j] == out@.drop_last()[j]);
                                }
                            }
                        }
                    },
                    Err(e) => {
                        proof {
                            let tail = path.segments().skip(outer_path.len() as int);
                            assert(path.segments().subrange(0, inner_path.len() as int)[outer_path.len() as int] == inner_path[outer_path.len() as int]);
                            assert(tail[0] == ParseErrorPathSegment::ArrayIndex(i));
                            assert(tail.drop_first() =~= path.segments().skip(inner_path.len() as int));
                            assert(path.segments().subrange(0, outer_path.len() as int) =~= inner_path.subrange(0, outer_path.len() as int));
                            assert(fails_with(*inst, v0, tail, e));
                        }
                        return Err(e);
                    },
                }
                i += 1;
                assert(items@ =~= orig.subrange(i as int, orig.len() as int));
            }
            proof {
                assert(accepts(*inst, v0));
                assert(parses_to(*inst, v0, ValueData::Array(out)));
            }
            Ok(ValueData::Array(out))
        },
        (TypeAttributesInstance::Dictionary(d), UntypedValue::Object(entries)) => {
            let keys_attrs = d.keys_type_id().attributes();
            let values_inst: &TypeDefinitionInstance = &**d.values_type_id();
            let ghost orig = entries@;
            proof {
                lemma_entries_decrease(v0);
            }
            let n = entries.len();
            let mut entries = entries;
            let mut out: Vec<(ValueData, ValueData)> = Vec::new();
            let mut i: usize = 0;
            while entries.len() > 0
                invariant
                    v0 is Object,
                    v0->Object_0@ == orig,
                    orig.len() == n,
                    inst.spec_attributes() == TypeAttributesInstance::Dictionary(*d),
                    *values_inst == *d.values(),
                    *keys_attrs == d.keys().spec_attributes(),
                    i <= orig.len(),
                    entries@ == orig.subrange(i as int, orig.len() as int),
                    out@.len() == i,
                    forall|j: int| 0 <= j < i ==> key_accepts(*d.keys(), (#[trigger] orig[j]).0) && accepts(*values_inst, orig[j].1)
                        && scalar_parses_to(*keys_attrs, UntypedValue::String(orig[j].0), out@[j].0)
                        && parses_to(*values_inst, orig[j].1, out@[j].1),
                    path.segments() == outer_path,
                    forall|k: int| 0 <= k < orig.len() ==> decreases_to!(v0 => (#[trigger] orig[k]).1),
                decreases entries.len(),
            {
                let (k, child) = entries.remove(0);
                assert(orig[i as int] == (k, child));
                path.push(ParseErrorPathSegment::DictionaryKey(k.clone()));
                let ghost inner_path = path.segments();
                let key = match parse_scalar(keys_attrs, UntypedValue::String(k)) {
                    Ok(x) => x,
                    Err(e) => {
                        proof {
                            let tail = path.segments().skip(outer_path.len() as int);
                            assert(tail[0] == ParseErrorPathSegment::DictionaryKey(orig[i as int].0));
                            assert(tail.len() == 1);
                            assert(path.segments().subrange(0, outer_path.len() as int) =~= outer_path);
                            assert(fails_with(*inst, v0, tail, ParseImplError::InvalidDictionaryKey(Box::new(e))));
                        }
                        return Err(ParseImplError::InvalidDictionaryKey(Box::new(e)));
                    },
                };
                match parse_value(path, values_inst, child) {
                    Ok(x) => {
                        path.pop();
                        out.push((key, x));
                        proof {
                            assert(path.segments() =~= outer_path);
                            assert forall|j: int| 0 <= j < i + 1 implies key_accepts(*d.keys(), (#[trigger] orig[j]).0) && accepts(*values_inst, orig[j].1)
                                && scalar_parses_to(*keys_attrs, UntypedValue::String(orig[j].0), out@[j].0)
                                && parses_to(*values_inst, orig[j].1, out@[j].1) by {
                                if j < i {
                                    assert(out@[j] == out@.drop_last()[j]);
                                }
                            }
                        }
                    },
                    Err(e) => {
                        proof {
                            let tail = path.segments().skip(outer_path.len() as int);
                            assert(path.segments().subrange(0, inner_path.len() as int)[outer_path.len() as int] == inner_path[outer_path.len() as int]);
                            assert(tail[0] == ParseErrorPathSegment::DictionaryKey(orig[i as int].0));
                            assert(tail.drop_first() =~= path.segments().skip(inner_path.len() as int));
                            assert(path.segments().subrange(0, outer_path.len() as int) =~= inner_path.subrange(0, outer_path.len() as int));
                            assert(fails_with(*inst, v0, tail, ParseImplError::InvalidDictionaryValue(Box::new(e))));
                        }
                        return Err(ParseImplError::InvalidDictionaryValue(Box::new(e)));
                    },
                }
                i += 1;
                assert(entries@ =~= orig.subrange(i as int, orig.len() as int));
            }
            proof {
                assert(accepts(*inst, v0));
                assert(parses_to(*inst, v0, ValueData::Dictionary(out)));
            }
            Ok(ValueData::Dictionary(out))
        },
        (attrs, other) => {
            let r = parse_scalar(attrs, other);
            proof {
                assert(path.segments().skip(outer_path.len() as int) =~= Seq::<ParseErrorPathSegment>::empty());
                assert(path.segments().subrange(0, outer_path.len() as int) =~= outer_path);
            }
            r
        },
    }
}

impl Value {
    /// A value always has the shape of its type.
    #[verifier::type_invariant]
    spec fn shape_matches(&self) -> bool {
        conforms(*self.instance, self.value)
    }

    /// The textual form of the value.
    pub fn to_display_string(&self) -> (r: String)
        ensures
            r@ == value_text(*self.spec_instance(), self.spec_value()),
    {
        proof {
            use_type_invariant(self);
        }
        let mut s = String::new();
        push_value_text(&mut s, &*self.instance, &self.value);
        s
    }

    /// The type the value was parsed for.
    pub closed spec fn spec_instance(&self) -> Arc<TypeDefinitionInstance> {
        self.instance
    }

    /// The parsed value.
    pub closed spec fn spec_value(&self) -> ValueData {
        self.value
    }

    /// Parses an untyped value for a type.
    pub fn parse_for(instance: Arc<TypeDefinitionInstance>, value: UntypedValue) -> (r: Result<Value, ParseError>)
        ensures
            (r is Ok) == accepts(*instance, value),
            r matches Ok(v) ==> v.spec_instance() == instance && parses_to(*instance, value, v.spec_value()),
            r matches Err(e) ==> e.spec_instance() == instance && fails_with(*instance, value, e.spec_path(), e.spec_err()),
    {
        let mut path = ParseErrorPath::new();
        let ghost value0 = value;
        match parse_value(&mut path, &*instance, value) {
            Ok(v) => {
                proof {
                    lemma_parsed_conforms_shared(instance, value0, v);
                }
                Ok(Value { instance, value: v })
            },
            Err(err) => {
                assert(path.segments().skip(0) =~= path.segments());
                Err(ParseError { instance, path, err })
            },
        }
    }

    /// The type the value was parsed for.
    pub fn instance(&self) -> (r: &Arc<TypeDefinitionInstance>)
        ensures
            *r == self.spec_instance(),
    {
        &self.instance
    }

    /// The parsed value.
    pub fn value(&self) -> (r: &ValueData)
        ensures
            *r == self.spec_value(),
    {
        &self.value
    }
}

impl ParseError {
    /// The type that was parsed for.
    pub closed spec fn spec_instance(&self) -> Arc<TypeDefinitionInstance> {
        self.instance
    }

    /// The path to the offending part of the input.
    pub closed spec fn spec_path(&self) -> Seq<ParseErrorPathSegment> {
        self.path.segments()
    }

    /// The cause.
    pub closed spec fn spec_err(&self) -> ParseImplError {
        self.err
    }

    /// The type that was parsed for.
    pub fn instance(&self) -> (r: &Arc<TypeDefinitionInstance>)
        ensures
            *r == self.spec_instance(),
    {
        &self.instance
    }

    /// The path to the offending part of the input.
    pub fn path(&self) -> (r: &ParseErrorPath)
        ensures
            r.segments() == self.spec_path(),
    {
        &self.path
    }

    /// The cause.
    pub fn err(&self) -> (r: &ParseImplError)
        ensures
            *r == self.spec_err(),
    {
        &self.err
    }
}

/// Whether a parsed value has the shape of the type: arrays and dictionaries element by element,
/// scalars of the matching kind.
pub open spec fn conforms(inst: TypeDefinitionInstance, v: ValueData) -> bool
    decreases v,
{
    match (inst.spec_attributes(), v) {
        (TypeAttributesInstance::Array(a), ValueData::Array(items)) => forall|i: int|
            0 <= i < items@.len() ==> conforms(*a.items(), #[trigger] items@[i]),
        (TypeAttributesInstance::Dictionary(d), ValueData::Dictionary(pairs)) => forall|i: int|
            0 <= i < pairs@.len() ==> conforms(*d.keys(), (#[trigger] pairs@[i]).0) && conforms(
                *d.values(),
                pairs@[i].1,
            ),
        (TypeAttributesInstance::Boolean(_), ValueData::Boolean(_)) => true,
        (TypeAttributesInstance::Int32(_), ValueData::Int32(_)) => true,
        (TypeAttributesInstance::Int64(_), ValueData::Int64(_)) => true,
        (TypeAttributesInstance::Uint32(_), ValueData::Uint32(_)) => true,
        (TypeAttributesInstance::Uint64(_), ValueData::Uint64(_)) => true,
        (TypeAttributesInstance::String(_), ValueData::String(_)) => true,
        (TypeAttributesInstance::Enum(_), ValueData::Enum(_)) => true,
        _ => false,
    }
}

proof fn lemma_value_items_decrease(v: ValueData)
    requires
        v is Array,
    ensures
        forall|k: int|
            0 <= k < v->Array_0@.len() ==> decreases_to!(v => #[trigger] v->Array_0@[k]),
{
    assert forall|k: int| 0 <= k < v->Array_0@.len() implies decreases_to!(v => #[trigger] v->Array_0@[k]) by {
        assert(decreases_to!(v => v->Array_0));
        assert(decreases_to!(v->Array_0 => v->Array_0@));
        assert(decreases_to!(v->Array_0@ => v->Array_0@[k]));
    }
}

proof fn lemma_value_pairs_decrease(v: ValueData)
    requires
        v is Dictionary,
    ensures
        forall|k: int|
            0 <= k < v->Dictionary_0@.len() ==> decreases_to!(v => (#[trigger] v->Dictionary_0@[k]).0)
                && decreases_to!(v => v->Dictionary_0@[k].1),
{
    assert forall|k: int| 0 <= k < v->Dictionary_0@.len() implies decreases_to!(v => (#[trigger] v->Dictionary_0@[k]).0)
        && decreases_to!(v => v->Dictionary_0@[k].1) by {
        assert(decreases_to!(v => v->Dictionary_0));
        assert(decreases_to!(v->Dictionary_0 => v->Dictionary_0@));
        assert(decreases_to!(v->Dictionary_0@ => v->Dictionary_0@[k]));
        assert(decreases_to!(v->Dictionary_0@[k] => v->Dictionary_0@[k].0));
        assert(decreases_to!(v->Dictionary_0@[k] => v->Dictionary_0@[k].1));
    }
}

/// What a value parses to conforms to the type.
proof fn lemma_parsed_conforms(inst: TypeDefinitionInstance, v: UntypedValue, out: ValueData)
    requires
        parses_to(inst, v, out),
    ensures
        conforms(inst, out),
    decreases v,
{
    match (inst.spec_attributes(), v) {
        (TypeAttributesInstance::Array(a), UntypedValue::Array(items)) => {
            lemma_items_decrease(v);
            let outs = out->Array_0;
            lemma_value_items_decrease(out);
            assert forall|i: int| 0 <= i < outs@.len() implies conforms(*a.items(), #[trigger] outs@[i]) by {
                assert(parses_to(*a.items(), items@[i], outs@[i]));
                lemma_parsed_conforms(*a.items(), items@[i], outs@[i]);
            }
        },
        (TypeAttributesInstance::Dictionary(d), UntypedValue::Object(entries)) => {
            lemma_entries_decrease(v);
            let outs = out->Dictionary_0;
            lemma_value_pairs_decrease(out);
            assert forall|i: int| 0 <= i < outs@.len() implies conforms(*d.keys(), (#[trigger] outs@[i]).0)
                && conforms(*d.values(), outs@[i].1) by {
                assert(scalar_parses_to(d.keys().spec_attributes(), UntypedValue::String(entries@[i].0), outs@[i].0));
                assert(parses_to(*d.values(), entries@[i].1, outs@[i].1));
                lemma_parsed_conforms(*d.values(), entries@[i].1, outs@[i].1);
            }
        },
        _ => {},
    }
}

proof fn lemma_parsed_conforms_shared(inst: Arc<TypeDefinitionInstance>, v: UntypedValue, out: ValueData)
    requires
        parses_to(*inst, v, out),
    ensures
        conforms(*inst, out),
{
    lemma_parsed_conforms(pointee(inst), v, out);
}

/// The instance a shared pointer points to.
spec fn pointee(a: Arc<TypeDefinitionInstance>) -> TypeDefinitionInstance {
    *a
}

/// The textual form of a value of a type: arrays in brackets, dictionaries in braces with
/// `key: value` pairs, strings quoted, enum values prefixed by the enum's name and `::`.
pub open spec fn value_text(inst: TypeDefinitionInstance, v: ValueData) -> Seq<char>
    decreases v,
{
    match (inst.spec_attributes(), v) {
        (TypeAttributesInstance::Array(a), ValueData::Array(items)) => "["@ + items_text(
            *a.items(),
            items@,
        ) + "]"@,
        (TypeAttributesInstance::Dictionary(d), ValueData::Dictionary(pairs)) => "{"@ + pairs_text(
            *d.keys(),
            *d.values(),
            pairs@,
        ) + "}"@,
        (_, ValueData::Boolean(b)) => if b {
            "true"@
        } else {
            "false"@
        },
        (_, ValueData::Int32(n)) => decimal(n as int),
        (_, ValueData::Int64(n)) => decimal(n as int),
        (_, ValueData::Uint32(n)) => decimal(n as int),
        (_, ValueData::Uint64(n)) => decimal(n as int),
        (_, ValueData::String(s)) => "\""@ + s@ + "\""@,
        (_, ValueData::Enum(s)) => inst.spec_name()@ + "::"@ + s@,
        _ => Seq::empty(),
    }
}

/// The textual forms of values, separated by a comma and a space.
pub open spec fn items_text(inst: TypeDefinitionInstance, items: Seq<ValueData>) -> Seq<char>
    decreases items,
{
    if items.len() == 0 {
        Seq::empty()
    } else if items.len() == 1 {
        value_text(inst, items[0])
    } else {
        items_text(inst, items.subrange(0, items.len() - 1)) + ", "@ + value_text(inst, items[items.len() - 1])
    }
}

/// The textual forms of key-value pairs, as `key: value`, separated by a comma and a space.
pub open spec fn pairs_text(keys: TypeDefinitionInstance, values: TypeDefinitionInstance, pairs: Seq<(ValueData, ValueData)>) -> Seq<char>
    decreases pairs,
{
    if pairs.len() == 0 {
        Seq::empty()
    } else {
        let last = pairs[pairs.len() - 1];
        let entry = value_text(keys, last.0) + ": "@ + value_text(values, last.1);
        if pairs.len() == 1 {
            entry
        } else {
            pairs_text(keys, values, pairs.subrange(0, pairs.len() - 1)) + ", "@ + entry
        }
    }
}

fn push_value_text(s: &mut String, inst: &TypeDefinitionInstance, v: &ValueData)
    requires
        conforms(*inst, *v),
    ensures
        final(s)@ == old(s)@ + value_text(*inst, *v),
    decreases v,
{
    proof {
        reveal_strlit("[");
        reveal_strlit("]");
        reveal_strlit("{");
        reveal_strlit("}");
        reveal_strlit(", ");
        reveal_strlit(": ");
        reveal_strlit("true");
        reveal_strlit("false");
        reveal_strlit("\"");
        reveal_strlit("::");
    }
    match (inst.attributes(), v) {
        (TypeAttributesInstance::Array(a), ValueData::Array(items)) => {
            let item_inst: &TypeDefinitionInstance = &**a.items_type_id();
            proof {
                lemma_value_items_decrease(*v);
            }
            s.append("[");
            let ghost start = s@;
            let mut k: usize = 0;
            while k < items.len()
                invariant
                    *v == ValueData::Array(*items),
                    *item_inst == *a.items(),
                    forall|i: int| 0 <= i < items@.len() ==> conforms(*item_inst, #[trigger] items@[i]),
                    forall|i: int| 0 <= i < items@.len() ==> decreases_to!(*v => #[trigger] items@[i]),
                    0 <= k <= items@.len(),
                    s@ == start + items_text(*item_inst, items@.subrange(0, k as int)),
                decreases items@.len() - k,
            {
                let ghost before = s@;
                if k > 0 {
                    s.append(", ");
                }
                push_value_text(s, item_inst, &items[k]);
                proof {
                    let t = items@.subrange(0, k + 1);
                    assert(t.subrange(0, k as int) =~= items@.subrange(0, k as int));
                    assert(t[k as int] == items@[k as int]);
                    if k == 0 {
                        assert(items_text(*item_inst, items@.subrange(0, 0)) =~= Seq::<char>::empty());
                    }
                    assert(s@ =~= start + items_text(*item_inst, t));
                }
                k += 1;
            }
            s.append("]");
            assert(items@.subrange(0, k as int) =~= items@);
        },
        (TypeAttributesInstance::Dictionary(d), ValueData::Dictionary(pairs)) => {
            let keys_inst: &TypeDefinitionInstance = &**d.keys_type_id();
            let values_inst: &TypeDefinitionInstance = &**d.values_type_id();
            proof {
                lemma_value_pairs_decrease(*v);
            }
            s.append("{");
            let ghost start = s@;
            let mut k: usize = 0;
            while k < pairs.len()
                invariant
                    *v == ValueData::Dictionary(*pairs),
                    *keys_inst == *d.keys(),
                    *values_inst == *d.values(),
                    forall|i: int| 0 <= i < pairs@.len() ==> conforms(*keys_inst, (#[trigger] pairs@[i]).0)
                        && conforms(*values_inst, pairs@[i].1),
                    forall|i: int| 0 <= i < pairs@.len() ==> decreases_to!(*v => (#[trigger] pairs@[i]).0)
                        && decreases_to!(*v => pairs@[i].1),
                    0 <= k <= pairs@.len(),
                    s@ == start + pairs_text(*keys_inst, *values_inst, pairs@.subrange(0, k as int)),
                decreases pairs@.len() - k,
            {
                if k > 0 {
                    s.append(", ");
                }
                push_value_text(s, keys_inst, &pairs[k].0);
                s.append(": ");
                push_value_text(s, values_inst, &pairs[k].1);
                proof {
                    let t = pairs@.subrange(0, k + 1);
                    assert(t.subrange(0, k as int) =~= pairs@.subrange(0, k as int));
                    assert(t[k as int] == pairs@[k as int]);
                    if k == 0 {
                        assert(pairs_text(*keys_inst, *values_inst, pairs@.subrange(0, 0)) =~= Seq::<char>::empty());
                    }
                    assert(s@ =~= start + pairs_text(*keys_inst, *values_inst, t));
                }
                k += 1;
            }
            s.append("}");
            assert(pairs@.subrange(0, k as int) =~= pairs@);
        },
        (_, ValueData::Boolean(b)) => {
            if *b {
                s.append("true");
            } else {
                s.append("false");
            }
        },
        (_, ValueData::Int32(n)) => push_decimal(s, *n as i128),
        (_, ValueData::Int64(n)) => push_decimal(s, *n as i128),
        (_, ValueData::Uint32(n)) => push_decimal(s, *n as i128),
        (_, ValueData::Uint64(n)) => push_decimal(s, *n as i128),
        (_, ValueData::String(x)) => {
            s.append("\"");
            s.append(x.as_str());
            s.append("\"");
        },
        (_, ValueData::Enum(x)) => {
            s.append(inst.name().as_str());
            s.append("::");
            s.append(x.as_str());
        },
        (_, _) => {
            assert(false);
        },
    }
    assert(s@ =~= old(s)@ + value_text(*inst, *v));
}

/// For any integer type bounded by 0 and 10, the number 5 parses to 5, the number 11 fails as
/// greater than the maximum naming 11 and 10, and any non-integral number fails as an invalid
/// value.
pub proof fn lemma_bounded_integer_round_trip(inst: TypeDefinitionInstance, bits: u64)
    requires
        match inst.spec_attributes() {
            TypeAttributesInstance::Int32(a) => a.min_bound() == Some(0i32) && a.max_bound() == Some(10i32),
            TypeAttributesInstance::Int64(a) => a.min_bound() == Some(0i64) && a.max_bound() == Some(10i64),
            TypeAttributesInstance::Uint32(a) => a.min_bound() == Some(0u32) && a.max_bound() == Some(10u32),
            TypeAttributesInstance::Uint64(a) => a.min_bound() == Some(0u64) && a.max_bound() == Some(10u64),
            _ => false,
        },
    ensures
        match inst.spec_attributes() {
            TypeAttributesInstance::Int32(_) => {
                &&& parses_to(inst, UntypedValue::Number(UntypedNumber::Integer(5)), ValueData::Int32(5))
                &&& fails_with(inst, UntypedValue::Number(UntypedNumber::Integer(11)), Seq::empty(),
                    ParseImplError::InvalidInt32(ValidateNumberTypeError::GreaterThanMax(11, 10)))
                &&& fails_with(inst, UntypedValue::Number(UntypedNumber::Float(bits)), Seq::empty(),
                    ParseImplError::InvalidInt32(ValidateNumberTypeError::InvalidValue))
            },
            TypeAttributesInstance::Int64(_) => {
                &&& parses_to(inst, UntypedValue::Number(UntypedNumber::Integer(5)), ValueData::Int64(5))
                &&& fails_with(inst, UntypedValue::Number(UntypedNumber::Integer(11)), Seq::empty(),
                    ParseImplError::InvalidInt64(ValidateNumberTypeError::GreaterThanMax(11, 10)))
                &&& fails_with(inst, UntypedValue::Number(UntypedNumber::Float(bits)), Seq::empty(),
                    ParseImplError::InvalidInt64(ValidateNumberTypeError::InvalidValue))
            },
            TypeAttributesInstance::Uint32(_) => {
                &&& parses_to(inst, UntypedValue::Number(UntypedNumber::Integer(5)), ValueData::Uint32(5))
                &&& fails_with(inst, UntypedValue::Number(UntypedNumber::Integer(11)), Seq::empty(),
                    ParseImplError::InvalidUint32(ValidateNumberTypeError::GreaterThanMax(11, 10)))
                &&& fails_with(inst, UntypedValue::Number(UntypedNumber::Float(bits)), Seq::empty(),
                    ParseImplError::InvalidUint32(ValidateNumberTypeError::InvalidValue))
            },
            _ => {
                &&& parses_to(inst, UntypedValue::Number(UntypedNumber::Integer(5)), ValueData::Uint64(5))
                &&& fails_with(inst, UntypedValue::Number(UntypedNumber::Integer(11)), Seq::empty(),
                    ParseImplError::InvalidUint64(ValidateNumberTypeError::GreaterThanMax(11, 10)))
                &&& fails_with(inst, UntypedValue::Number(UntypedNumber::Float(bits)), Seq::empty(),
                    ParseImplError::InvalidUint64(ValidateNumberTypeError::InvalidValue))
            },
        },
{
}

} // verus!
