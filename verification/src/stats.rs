//! The running statistic of one station.

use vstd::prelude::*;
use crate::decimal::MAX_UNITS;
use crate::model::{Summary, Value, single, observe, combine, mean, plausible, within, plus};
use crate::number::Number;

verus! {

/// Minimum, sum, maximum and count of the readings of one station.
#[derive(Clone, Copy, Debug, PartialEq, Eq)]
pub struct StationStats {
    pub min: Number,
    pub sum: Number,
    pub max: Number,
    pub count: u64,
}

impl View for StationStats {
    type V = Summary;

    open spec fn view(&self) -> Summary {
        Summary { min: self.min@, max: self.max@, sum: self.sum@, count: self.count as nat }
    }
}

/// A sum within the bound of a count that the machine can hold fits in 128
/// bits, with room to spare.
pub proof fn lemma_sum_fits(sum: Value, count: int)
    requires
        0 <= count <= u64::MAX,
        within(sum, count * MAX_UNITS),
    ensures
        within(sum, i128::MAX - 1),
{
    assert(count * MAX_UNITS <= 0xffff_ffff_ffff_ffff * 0x7fff_ffff_ffff_ffff) by (nonlinear_arith)
        requires
            0 <= count <= 0xffff_ffff_ffff_ffff,
            MAX_UNITS == 0x7fff_ffff_ffff_ffff,
    ;
}

/// The sum of two sums within the bounds of their counts is within the
/// bound of the two counts together.
pub proof fn lemma_plus_within(a: Value, ca: int, b: Value, cb: int)
    requires
        0 <= ca,
        0 <= cb,
        within(a, ca * MAX_UNITS),
        within(b, cb * MAX_UNITS),
    ensures
        within(plus(a, b), (ca + cb) * MAX_UNITS),
{
    assert((ca + cb) * MAX_UNITS == ca * MAX_UNITS + cb * MAX_UNITS) by (nonlinear_arith);
}

impl StationStats {
    /// The statistic is one that some non-empty collection of readings has,
    /// as far as its size goes.
    pub open spec fn is_valid(&self) -> bool {
        plausible(self@)
    }

    /// The statistic of a single reading.
    pub fn single(value: Number) -> (r: StationStats)
        requires
            value.is_reading(),
        ensures
            r@ == single(value@),
            r.is_valid(),
    {
        StationStats { min: value, sum: value, max: value, count: 1 }
    }

    /// The statistic of the readings of `self` and of `other` taken together.
    pub fn combine(&self, other: &StationStats) -> (r: StationStats)
        requires
            self.is_valid(),
            other.is_valid(),
            self.count + other.count <= u64::MAX,
        ensures
            r@ == combine(self@, other@),
            r.is_valid(),
    {
        proof {
            lemma_plus_within(self.sum@, self.count as int, other.sum@, other.count as int);
            lemma_sum_fits(plus(self.sum@, other.sum@), self.count + other.count);
        }
        StationStats {
            min: self.min.lesser(other.min),
            sum: self.sum.plus(other.sum),
            max: self.max.greater(other.max),
            count: self.count + other.count,
        }
    }

    /// The statistic after one more reading.
    pub fn observe(&self, value: Number) -> (r: StationStats)
        requires
            self.is_valid(),
            value.is_reading(),
            self.count < u64::MAX,
        ensures
            r@ == observe(self@, value@),
            r.is_valid(),
    {
        let one = StationStats::single(value);
        self.combine(&one)
    }

    /// The mean reading: the sum divided by the count.
    pub fn mean(&self) -> (m: Number)
        requires
            self.is_valid(),
        ensures
            m@ == mean(self@),
    {
        proof {
            lemma_sum_fits(self.sum@, self.count as int);
        }
        self.sum.divide(self.count)
    }
}

} // verus!
