//! A number type with public optional inclusive bounds.
use vstd::prelude::*;
use crate::number::{valid_range, Number};

verus! {

/// A number type: an optional inclusive minimum and maximum.
#[derive(Debug, Clone, PartialEq, Eq)]
pub struct NumberType<Int> {
    /// The minimum value.
    pub min: Option<Int>,
    /// The maximum value.
    pub max: Option<Int>,
}

/// An error that can occur when building a number type.
#[derive(Debug, Clone, PartialEq, Eq)]
pub enum NewIntTypeError<Int> {
    /// The minimum is greater than the maximum.
    InvalidRange(Int, Int),
}

impl<Int> Default for NumberType<Int> {
    fn default() -> (r: Self)
        ensures
            r.min is None,
            r.max is None,
    {
        NumberType { min: None, max: None }
    }
}

impl<Int: Number> NumberType<Int> {
    /// Creates a builder with no bounds.
    pub fn builder() -> (r: NumberTypeBuilder<Int>)
        ensures
            r.min_bound() is None,
            r.max_bound() is None,
    {
        NumberTypeBuilder { min: None, max: None }
    }

    /// Creates a number type, refusing a minimum above the maximum.
    pub fn new(min: Option<Int>, max: Option<Int>) -> (r: Result<Self, NewIntTypeError<Int>>)
        ensures
            match r {
                Ok(t) => valid_range(min, max) && t.min == min && t.max == max,
                Err(NewIntTypeError::InvalidRange(lo, hi)) => !valid_range(min, max) && min == Some(
                    lo,
                ) && max == Some(hi),
            },
    {
        if let (Some(lo), Some(hi)) = (min, max) {
            if hi.less_than(&lo) {
                return Err(NewIntTypeError::InvalidRange(lo, hi));
            }
        }
        Ok(NumberType { min, max })
    }
}

/// A builder for a number type.
#[derive(Debug)]
pub struct NumberTypeBuilder<Int> {
    min: Option<Int>,
    max: Option<Int>,
}

impl<Int> NumberTypeBuilder<Int> {
    /// The minimum set so far.
    pub closed spec fn min_bound(&self) -> Option<Int> {
        self.min
    }

    /// The maximum set so far.
    pub closed spec fn max_bound(&self) -> Option<Int> {
        self.max
    }
}

impl<Int: Number> NumberTypeBuilder<Int> {
    /// Sets the minimum.
    pub fn min(self, min: Int) -> (r: Self)
        ensures
            r.min_bound() == Some(min),
            r.max_bound() == self.max_bound(),
    {
        NumberTypeBuilder { min: Some(min), max: self.max }
    }

    /// Sets the maximum.
    pub fn max(self, max: Int) -> (r: Self)
        ensures
            r.min_bound() == self.min_bound(),
            r.max_bound() == Some(max),
    {
        NumberTypeBuilder { min: self.min, max: Some(max) }
    }

    /// Builds the number type, refusing a minimum above the maximum.
    pub fn build(self) -> (r: Result<NumberType<Int>, NewIntTypeError<Int>>)
        ensures
            match r {
                Ok(t) => valid_range(self.min_bound(), self.max_bound()) && t.min == self.min_bound()
                    && t.max == self.max_bound(),
                Err(NewIntTypeError::InvalidRange(lo, hi)) => !valid_range(
                    self.min_bound(),
                    self.max_bound(),
                ) && self.min_bound() == Some(lo) && self.max_bound() == Some(hi),
            },
    {
        NumberType::new(self.min, self.max)
    }
}

} // verus!
