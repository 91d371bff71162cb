//! The mathematical model of the aggregation: summaries, the map from station
//! name to summary, and the operations on them.

use vstd::prelude::*;
use crate::decimal::MAX_UNITS;

verus! {

/// A temperature, or a sum of temperatures: a whole number of thousandths of
/// a degree, an infinity, or the outcome that is no number.
pub ghost enum Value {
    Finite(int),
    PlusInfinity,
    MinusInfinity,
    NotANumber,
}

/// What is known of one station: the extremes, the sum and the number of its
/// readings.
pub ghost struct Summary {
    pub min: Value,
    pub max: Value,
    pub sum: Value,
    pub count: nat,
}

/// The model of an aggregation state.
pub type Table = Map<Seq<u8>, Summary>;

/// One parsed record: the station name and the reading.
pub type Reading = (Seq<u8>, Value);

/// The order of the values that are numbers: minus infinity first, plus
/// infinity last.
pub open spec fn at_most(a: Value, b: Value) -> bool {
    match (a, b) {
        (Value::MinusInfinity, _) => true,
        (_, Value::PlusInfinity) => true,
        (Value::Finite(x), Value::Finite(y)) => x <= y,
        _ => false,
    }
}

/// The lesser of two values. Where one is no number, the other.
pub open spec fn lesser(a: Value, b: Value) -> Value {
    if a is NotANumber {
        b
    } else if b is NotANumber {
        a
    } else if at_most(a, b) {
        a
    } else {
        b
    }
}

/// The greater of two values. Where one is no number, the other.
pub open spec fn greater(a: Value, b: Value) -> Value {
    if a is NotANumber {
        b
    } else if b is NotANumber {
        a
    } else if at_most(b, a) {
        a
    } else {
        b
    }
}

/// The sum of two values. It is no number where one of them is none, or
/// where they are the two infinities.
pub open spec fn plus(a: Value, b: Value) -> Value {
    match (a, b) {
        (Value::Finite(x), Value::Finite(y)) => Value::Finite(x + y),
        (Value::NotANumber, _) => Value::NotANumber,
        (_, Value::NotANumber) => Value::NotANumber,
        (Value::PlusInfinity, Value::MinusInfinity) => Value::NotANumber,
        (Value::MinusInfinity, Value::PlusInfinity) => Value::NotANumber,
        (Value::PlusInfinity, _) => Value::PlusInfinity,
        (_, Value::PlusInfinity) => Value::PlusInfinity,
        _ => Value::MinusInfinity,
    }
}

/// The whole number nearest to `x / c`; of two that are equally near, the
/// one further from zero.
pub open spec fn nearest(x: int, c: int) -> int
    recommends
        c > 0,
{
    let n = if x < 0 { -x } else { x };
    let q = n / c;
    let m = if 2 * (n % c) >= c { q + 1 } else { q };
    if x < 0 { -m } else { m }
}

/// A value divided by a count: a finite one to the nearest thousandth.
pub open spec fn divide(v: Value, c: int) -> Value
    recommends
        c > 0,
{
    match v {
        Value::Finite(x) => Value::Finite(nearest(x, c)),
        other => other,
    }
}

/// The summary of a single reading.
pub open spec fn single(value: Value) -> Summary {
    Summary { min: value, max: value, sum: value, count: 1 }
}

/// The summary after one more reading.
pub open spec fn observe(s: Summary, value: Value) -> Summary {
    Summary {
        min: lesser(s.min, value),
        max: greater(s.max, value),
        sum: plus(s.sum, value),
        count: s.count + 1,
    }
}

/// The summary of the readings of two summaries taken together.
pub open spec fn combine(a: Summary, b: Summary) -> Summary {
    Summary {
        min: lesser(a.min, b.min),
        max: greater(a.max, b.max),
        sum: plus(a.sum, b.sum),
        count: a.count + b.count,
    }
}

/// The mean of a summary: its sum divided by its count.
pub open spec fn mean(s: Summary) -> Value
    recommends
        s.count > 0,
{
    divide(s.sum, s.count as int)
}

/// A finite value lies within a bound; the others lie within any.
pub open spec fn within(v: Value, bound: int) -> bool {
    match v {
        Value::Finite(x) => -bound <= x <= bound,
        _ => true,
    }
}

/// A value that a reading can have: a finite one is at most `MAX_UNITS` in
/// magnitude.
pub open spec fn readable(v: Value) -> bool {
    within(v, MAX_UNITS as int)
}

/// A summary that some non-empty collection of readings can have, as far as
/// its size goes.
pub open spec fn plausible(s: Summary) -> bool {
    &&& s.count >= 1
    &&& readable(s.min)
    &&& readable(s.max)
    &&& within(s.sum, s.count * MAX_UNITS)
}

/// The table after a summary has been added under a key.
pub open spec fn absorb(table: Table, key: Seq<u8>, s: Summary) -> Table {
    if table.dom().contains(key) {
        table.insert(key, combine(table[key], s))
    } else {
        table.insert(key, s)
    }
}

/// The table after one reading has been folded in.
pub open spec fn fold(table: Table, key: Seq<u8>, value: Value) -> Table {
    if table.dom().contains(key) {
        table.insert(key, observe(table[key], value))
    } else {
        table.insert(key, single(value))
    }
}

/// The table after a sequence of readings has been folded in, in order.
pub open spec fn fold_all(table: Table, readings: Seq<Reading>) -> Table
    decreases readings.len(),
{
    if readings.len() == 0 {
        table
    } else {
        let last = readings.last();
        fold(fold_all(table, readings.drop_last()), last.0, last.1)
    }
}

/// The table of a whole input, from the empty table.
pub open spec fn aggregate(readings: Seq<Reading>) -> Table {
    fold_all(Map::empty(), readings)
}

/// Two tables combined key by key.
pub open spec fn merge(a: Table, b: Table) -> Table {
    Map::new(
        |k: Seq<u8>| a.dom().contains(k) || b.dom().contains(k),
        |k: Seq<u8>|
            if a.dom().contains(k) && b.dom().contains(k) {
                combine(a[k], b[k])
            } else if a.dom().contains(k) {
                a[k]
            } else {
                b[k]
            },
    )
}

/// No station of the table has more than `n` readings.
pub open spec fn counts_at_most(table: Table, n: int) -> bool {
    forall|k: Seq<u8>| table.dom().contains(k) ==> (#[trigger] table[k]).count <= n
}

} // verus!
