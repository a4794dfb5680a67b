//! Numbers with infinity, the values of numeric systems. Numbers come before infinity; for the
//! fixed points of numeric systems infinity is the bottom value and zero the greatest one.
use vstd::prelude::*;

use crate::{Bottom, Maximal, Value};

pub mod system;

pub use system::{NumericSystem, NumericSystemImpl, NumericTerm};

verus! {

/// A number or infinity; numbers come before infinity.
#[derive(Clone, Copy, Debug, PartialEq, Eq, Hash, PartialOrd, Ord, Structural)]
pub enum Number {
    Val(u32),
    Inf,
}

/// `a` comes strictly before `b`.
pub open spec fn number_lt(a: Number, b: Number) -> bool {
    match (a, b) {
        (Number::Val(x), Number::Val(y)) => x < y,
        (Number::Val(_), Number::Inf) => true,
        _ => false,
    }
}

/// The order of numbers is a strict total order.
pub proof fn lemma_number_order(a: Number, b: Number, c: Number)
    ensures
        !number_lt(a, a),
        number_lt(a, b) || number_lt(b, a) || a == b,
        number_lt(a, b) ==> !number_lt(b, a),
        number_lt(a, b) && number_lt(b, c) ==> number_lt(a, c),
{
}

impl Number {
    /// The sum; anything plus infinity is infinity.
    pub fn add(self, rhs: Self) -> (r: Self)
        requires
            (self, rhs) matches (Number::Val(l), Number::Val(r)) ==> l + r <= u32::MAX,
        ensures
            r == match (self, rhs) {
                (Number::Val(l), Number::Val(r)) => Number::Val((l + r) as u32),
                _ => Number::Inf,
            },
    {
        match (self, rhs) {
            (Self::Val(l), Self::Val(r)) => Self::Val(l + r),
            _ => Self::Inf,
        }
    }

    /// The product; anything times infinity is infinity.
    pub fn mul(self, rhs: Self) -> (r: Self)
        requires
            (self, rhs) matches (Number::Val(l), Number::Val(r)) ==> l * r <= u32::MAX,
        ensures
            r == match (self, rhs) {
                (Number::Val(l), Number::Val(r)) => Number::Val((l * r) as u32),
                _ => Number::Inf,
            },
    {
        match (self, rhs) {
            (Self::Val(l), Self::Val(r)) => Self::Val(l * r),
            _ => Self::Inf,
        }
    }

    /// The quotient, rounded down; anything with infinity is infinity.
    pub fn div(self, rhs: Self) -> (r: Self)
        requires
            rhs != Number::Val(0),
        ensures
            r == match (self, rhs) {
                (Number::Val(l), Number::Val(r)) => Number::Val((l / r) as u32),
                _ => Number::Inf,
            },
    {
        match (self, rhs) {
            (Self::Val(l), Self::Val(r)) => Self::Val(l / r),
            _ => Self::Inf,
        }
    }

    /// The difference; anything with infinity is infinity.
    pub fn sub(self, rhs: Self) -> (r: Self)
        requires
            (self, rhs) matches (Number::Val(l), Number::Val(r)) ==> r <= l,
        ensures
            r == match (self, rhs) {
                (Number::Val(l), Number::Val(r)) => Number::Val((l - r) as u32),
                _ => Number::Inf,
            },
    {
        match (self, rhs) {
            (Self::Val(l), Self::Val(r)) => Self::Val(l - r),
            _ => Self::Inf,
        }
    }
}

impl Maximal for Number {
    /// Zero is the greatest value.
    open spec fn maximal(&self) -> bool {
        *self == Number::Val(0)
    }

    fn is_maximal(&self) -> (r: bool) {
        match self {
            Number::Val(x) => *x == 0,
            Number::Inf => false,
        }
    }
}

impl Bottom for Number {
    /// Infinity is the least value.
    open spec fn bottom_value() -> Number {
        Number::Inf
    }

    fn bottom() -> (r: Self) {
        Number::Inf
    }
}

impl Value for Number {
    open spec fn below(&self, other: &Self) -> bool {
        number_lt(*self, *other)
    }

    fn is_below(&self, other: &Self) -> (r: bool) {
        match (self, other) {
            (Number::Val(x), Number::Val(y)) => *x < *y,
            (Number::Val(_), Number::Inf) => true,
            _ => false,
        }
    }

    fn same_value(&self, other: &Self) -> (r: bool) {
        *self == *other
    }
}

} // verus!
