//! Ranged integer attributes: optional inclusive bounds and the check of a value against them.
use vstd::prelude::*;

verus! {

/// An integer representation that a numeric kind is stored in.
pub trait Number: Copy + Sized {
    /// The mathematical value of the number.
    spec fn value(&self) -> int;

    /// Strict comparison of two numbers.
    fn less_than(&self, other: &Self) -> (r: bool)
        ensures
            r == (self.value() < other.value()),
    ;

    /// The number as a 128-bit integer.
    fn to_i128(&self) -> (r: i128)
        ensures
            r as int == self.value(),
    ;
}

impl Number for i32 {
    open spec fn value(&self) -> int {
        *self as int
    }

    fn less_than(&self, other: &Self) -> (r: bool) {
        *self < *other
    }

    fn to_i128(&self) -> (r: i128) {
        *self as i128
    }
}

impl Number for i64 {
    open spec fn value(&self) -> int {
        *self as int
    }

    fn less_than(&self, other: &Self) -> (r: bool) {
        *self < *other
    }

    fn to_i128(&self) -> (r: i128) {
        *self as i128
    }
}

impl Number for u32 {
    open spec fn value(&self) -> int {
        *self as int
    }

    fn less_than(&self, other: &Self) -> (r: bool) {
        *self < *other
    }

    fn to_i128(&self) -> (r: i128) {
        *self as i128
    }
}

impl Number for u64 {
    open spec fn value(&self) -> int {
        *self as int
    }

    fn less_than(&self, other: &Self) -> (r: bool) {
        *self < *other
    }

    fn to_i128(&self) -> (r: i128) {
        *self as i128
    }
}

/// Whether a pair of optional bounds describes a non-empty range.
pub open spec fn valid_range<Num: Number>(min: Option<Num>, max: Option<Num>) -> bool {
    match (min, max) {
        (Some(lo), Some(hi)) => lo.value() <= hi.value(),
        _ => true,
    }
}

/// Whether `v` lies within the optional inclusive bounds.
pub open spec fn within<Num: Number>(min: Option<Num>, max: Option<Num>, v: Num) -> bool {
    &&& (min matches Some(lo) ==> lo.value() <= v.value())
    &&& (max matches Some(hi) ==> v.value() <= hi.value())
}

/// Attributes for a number type: an optional inclusive minimum and maximum.
#[derive(Debug, Clone, PartialEq, Eq)]
pub struct NumberTypeAttributes<Num> {
    min: Option<Num>,
    max: Option<Num>,
}

/// An error that can occur when building number type attributes.
#[derive(Debug, Clone, PartialEq, Eq)]
pub enum NewNumberTypeAttributesError<Num> {
    /// The minimum is greater than the maximum.
    InvalidRange(Num, Num),
}

/// An error that can occur when validating a number against its type.
#[derive(Debug, Clone, PartialEq, Eq)]
pub enum ValidateNumberTypeError<Num> {
    /// The input cannot be represented in the number's domain.
    InvalidValue,
    /// The value is less than the minimum (value, minimum).
    LessThanMin(Num, Num),
    /// The value is greater than the maximum (value, maximum).
    GreaterThanMax(Num, Num),
}

impl<Num> NumberTypeAttributes<Num> {
    /// The inclusive lower bound.
    pub closed spec fn min_bound(&self) -> Option<Num> {
        self.min
    }

    /// The inclusive upper bound.
    pub closed spec fn max_bound(&self) -> Option<Num> {
        self.max
    }
}

impl<Num> Default for NumberTypeAttributes<Num> {
    fn default() -> (r: Self)
        ensures
            r.min_bound() is None,
            r.max_bound() is None,
    {
        NumberTypeAttributes { min: None, max: None }
    }
}

impl<Num: Number> NumberTypeAttributes<Num> {
    /// The inclusive lower bound.
    pub fn min_value(&self) -> (r: Option<Num>)
        ensures
            r == self.min_bound(),
    {
        self.min
    }

    /// The inclusive upper bound.
    pub fn max_value(&self) -> (r: Option<Num>)
        ensures
            r == self.max_bound(),
    {
        self.max
    }

    /// The bounds as 128-bit integers.
    pub fn bounds(&self) -> (r: (Option<i128>, Option<i128>))
        ensures
            r.0 is Some == self.min_bound() is Some,
            r.0 matches Some(lo) ==> lo as int == self.min_bound()->Some_0.value(),
            r.1 is Some == self.max_bound() is Some,
            r.1 matches Some(hi) ==> hi as int == self.max_bound()->Some_0.value(),
    {
        let lo = match &self.min {
            Some(x) => Some(x.to_i128()),
            None => None,
        };
        let hi = match &self.max {
            Some(x) => Some(x.to_i128()),
            None => None,
        };
        (lo, hi)
    }

    /// Whether the bounds describe a non-empty range.
    pub open spec fn wf(&self) -> bool {
        valid_range(self.min_bound(), self.max_bound())
    }

    /// Creates a builder with no bounds.
    pub fn builder() -> (r: NumberTypeAttributesBuilder<Num>)
        ensures
            r.min_bound() is None,
            r.max_bound() is None,
    {
        NumberTypeAttributesBuilder { min: None, max: None }
    }

    /// Creates number type attributes, refusing a minimum above the maximum.
    pub fn new(min: Option<Num>, max: Option<Num>) -> (r: Result<Self, NewNumberTypeAttributesError<Num>>)
        ensures
            match r {
                Ok(a) => valid_range(min, max) && a.min_bound() == min && a.max_bound() == max,
                Err(NewNumberTypeAttributesError::InvalidRange(lo, hi)) => !valid_range(min, max)
                    && min == Some(lo) && max == Some(hi),
            },
    {
        if let (Some(lo), Some(hi)) = (min, max) {
            if hi.less_than(&lo) {
                return Err(NewNumberTypeAttributesError::InvalidRange(lo, hi));
            }
        }
        Ok(NumberTypeAttributes { min, max })
    }

    /// Checks a value against the bounds; the minimum is checked first.
    pub fn validate(&self, value: Num) -> (r: Result<(), ValidateNumberTypeError<Num>>)
        ensures
            r is Ok <==> within(self.min_bound(), self.max_bound(), value),
            r matches Err(ValidateNumberTypeError::LessThanMin(v, lo)) ==> v == value
                && self.min_bound() == Some(lo) && value.value() < lo.value(),
            r matches Err(ValidateNumberTypeError::GreaterThanMax(v, hi)) ==> v == value
                && self.max_bound() == Some(hi) && hi.value() < value.value()
                && (self.min_bound() matches Some(lo) ==> lo.value() <= value.value()),
            !(r matches Err(ValidateNumberTypeError::InvalidValue)),
    {
        if let Some(lo) = self.min {
            if value.less_than(&lo) {
                return Err(ValidateNumberTypeError::LessThanMin(value, lo));
            }
        }
        if let Some(hi) = self.max {
            if hi.less_than(&value) {
                return Err(ValidateNumberTypeError::GreaterThanMax(value, hi));
            }
        }
        Ok(())
    }
}

/// A builder for number type attributes.
#[derive(Debug)]
pub struct NumberTypeAttributesBuilder<Num> {
    min: Option<Num>,
    max: Option<Num>,
}

impl<Num> NumberTypeAttributesBuilder<Num> {
    /// The minimum set so far.
    pub closed spec fn min_bound(&self) -> Option<Num> {
        self.min
    }

    /// The maximum set so far.
    pub closed spec fn max_bound(&self) -> Option<Num> {
        self.max
    }
}

impl<Num: Number> NumberTypeAttributesBuilder<Num> {
    /// Sets the minimum.
    pub fn min(self, min: Num) -> (r: Self)
        ensures
            r.min_bound() == Some(min),
            r.max_bound() == self.max_bound(),
    {
        NumberTypeAttributesBuilder { min: Some(min), max: self.max }
    }

    /// Sets the maximum.
    pub fn max(self, max: Num) -> (r: Self)
        ensures
            r.min_bound() == self.min_bound(),
            r.max_bound() == Some(max),
    {
        NumberTypeAttributesBuilder { min: self.min, max: Some(max) }
    }

    /// Builds the attributes, refusing a minimum above the maximum.
    pub fn build(self) -> (r: Result<NumberTypeAttributes<Num>, NewNumberTypeAttributesError<Num>>)
        ensures
            match r {
                Ok(a) => valid_range(self.min_bound(), self.max_bound()) && a.min_bound()
                    == self.min_bound() && a.max_bound() == self.max_bound(),
                Err(NewNumberTypeAttributesError::InvalidRange(lo, hi)) => !valid_range(
                    self.min_bound(),
                    self.max_bound(),
                ) && self.min_bound() == Some(lo) && self.max_bound() == Some(hi),
            },
    {
        NumberTypeAttributes::new(self.min, self.max)
    }
}

} // verus!
