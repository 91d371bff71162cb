//! Temperatures and their sums as the machine holds them.

use vstd::prelude::*;
use crate::decimal::MAX_UNITS;
use crate::model::{Value, lesser, greater, plus, divide, nearest, readable};

verus! {

/// A temperature, or a sum of temperatures: a whole number of thousandths of
/// a degree, an infinity, or the outcome that is no number.
#[derive(Clone, Copy, Debug, PartialEq, Eq)]
pub enum Number {
    Finite(i128),
    PlusInfinity,
    MinusInfinity,
    NotANumber,
}

impl View for Number {
    type V = Value;

    open spec fn view(&self) -> Value {
        match *self {
            Number::Finite(x) => Value::Finite(x as int),
            Number::PlusInfinity => Value::PlusInfinity,
            Number::MinusInfinity => Value::MinusInfinity,
            Number::NotANumber => Value::NotANumber,
        }
    }
}

impl Number {
    /// The number is one that a reading can have.
    pub open spec fn is_reading(&self) -> bool {
        readable(self@)
    }

    /// The lesser of two numbers. Where one is no number, the other.
    pub fn lesser(self, other: Number) -> (r: Number)
        ensures
            r@ == lesser(self@, other@),
    {
        match (self, other) {
            (Number::NotANumber, _) => other,
            (_, Number::NotANumber) => self,
            (Number::MinusInfinity, _) => self,
            (_, Number::MinusInfinity) => other,
            (Number::PlusInfinity, _) => other,
            (_, Number::PlusInfinity) => self,
            (Number::Finite(x), Number::Finite(y)) => if x <= y { self } else { other },
        }
    }

    /// The greater of two numbers. Where one is no number, the other.
    pub fn greater(self, other: Number) -> (r: Number)
        ensures
            r@ == greater(self@, other@),
    {
        match (self, other) {
            (Number::NotANumber, _) => other,
            (_, Number::NotANumber) => self,
            (Number::PlusInfinity, _) => self,
            (_, Number::PlusInfinity) => other,
            (Number::MinusInfinity, _) => other,
            (_, Number::MinusInfinity) => self,
            (Number::Finite(x), Number::Finite(y)) => if x >= y { self } else { other },
        }
    }

    /// The sum of two numbers.
    pub fn plus(self, other: Number) -> (r: Number)
        requires
            self matches Number::Finite(x) ==> (other matches Number::Finite(y) ==> i128::MIN <= x + y
                <= i128::MAX),
        ensures
            r@ == plus(self@, other@),
    {
        match (self, other) {
            (Number::Finite(x), Number::Finite(y)) => Number::Finite(x + y),
            (Number::NotANumber, _) => Number::NotANumber,
            (_, Number::NotANumber) => Number::NotANumber,
            (Number::PlusInfinity, Number::MinusInfinity) => Number::NotANumber,
            (Number::MinusInfinity, Number::PlusInfinity) => Number::NotANumber,
            (Number::PlusInfinity, _) => Number::PlusInfinity,
            (_, Number::PlusInfinity) => Number::PlusInfinity,
            _ => Number::MinusInfinity,
        }
    }

    /// The number divided by a count: a finite one to the nearest
    /// thousandth, halves away from zero.
    pub fn divide(self, count: u64) -> (r: Number)
        requires
            count >= 1,
            self matches Number::Finite(x) ==> -(i128::MAX - 1) <= x <= i128::MAX - 1,
        ensures
            r@ == divide(self@, count as int),
    {
        match self {
            Number::Finite(x) => {
                let c: u128 = count as u128;
                let n: u128 = if x < 0 { (-x) as u128 } else { x as u128 };
                let q: u128 = n / c;
                let r: u128 = n % c;
                proof {
                    assert(q <= n) by (nonlinear_arith)
                        requires
                            c >= 1,
                            q == n / c,
                    ;
                }
                let m: u128 = if r >= c - r { q + 1 } else { q };
                let v: i128 = m as i128;
                if x < 0 {
                    Number::Finite(-v)
                } else {
                    Number::Finite(v)
                }
            },
            other => other,
        }
    }
}

} // verus!
