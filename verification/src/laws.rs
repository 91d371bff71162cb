//! What holds of the aggregation whatever the input.

use vstd::prelude::*;
use crate::model::{Table, Reading, Summary, Value, readable, single, observe, combine, mean, nearest, plus, at_most, fold, aggregate, merge};
use crate::decimal::{first_index, spells_value};
use crate::record::{SEPARATOR, record_of, name_part, value_part};
use crate::report::{lists, sorted_keys, report, lemma_keys_sorted};
use crate::order::lemma_ascending_insert;
use crate::state::AggregationState;

verus! {

/// Combining summaries does not depend on their order or their grouping.
pub proof fn law_combine(a: Summary, b: Summary, c: Summary)
    ensures
        combine(a, b) == combine(b, a),
        combine(combine(a, b), c) == combine(a, combine(b, c)),
{
}

/// Observing a reading is combining with the summary of that reading alone.
pub proof fn law_observe(s: Summary, value: Value)
    ensures
        observe(s, value) == combine(s, single(value)),
{
}

/// Merging two tables gives the same table in either order.
pub proof fn law_merge_commutative(a: Table, b: Table)
    ensures
        merge(a, b) == merge(b, a),
{
    assert(merge(a, b) =~= merge(b, a));
}

/// Merging three tables gives the same table however they are grouped.
pub proof fn law_merge_associative(a: Table, b: Table, c: Table)
    ensures
        merge(merge(a, b), c) == merge(a, merge(b, c)),
{
    assert(merge(merge(a, b), c) =~= merge(a, merge(b, c)));
}

/// Merging with the empty table changes nothing.
pub proof fn law_merge_empty(a: Table)
    ensures
        merge(a, Map::empty()) == a,
        merge(Map::empty(), a) == a,
{
    assert(merge(a, Map::empty()) =~= a);
    assert(merge(Map::empty(), a) =~= a);
}

/// Folding a reading into the second of two merged tables is folding it into
/// the merged table.
pub proof fn law_fold_merge(a: Table, b: Table, key: Seq<u8>, value: Value)
    ensures
        fold(merge(a, b), key, value) == merge(a, fold(b, key, value)),
{
    assert(fold(merge(a, b), key, value) =~= merge(a, fold(b, key, value)));
}

/// Aggregating two chunks apart and merging the tables gives the table of
/// the chunks aggregated as one input: minimum, maximum, sum, count, and so
/// the mean, of every station.
pub proof fn law_two_chunks(first: Seq<Reading>, second: Seq<Reading>)
    ensures
        merge(aggregate(first), aggregate(second)) == aggregate(first + second),
    decreases second.len(),
{
    if second.len() == 0 {
        assert(first + second =~= first);
        law_merge_empty(aggregate(first));
    } else {
        let rest = second.drop_last();
        let last = second.last();
        law_two_chunks(first, rest);
        assert((first + second).drop_last() =~= first + rest);
        assert((first + second).last() == last);
        law_fold_merge(aggregate(first), aggregate(rest), last.0, last.1);
    }
}

/// The chunks of a partition, put end to end.
pub open spec fn joined(chunks: Seq<Seq<Reading>>) -> Seq<Reading>
    decreases chunks.len(),
{
    if chunks.len() == 0 {
        Seq::empty()
    } else {
        joined(chunks.drop_last()) + chunks.last()
    }
}

/// The tables of the chunks, each aggregated apart, merged one after another.
pub open spec fn merged(chunks: Seq<Seq<Reading>>) -> Table
    decreases chunks.len(),
{
    if chunks.len() == 0 {
        Map::empty()
    } else {
        merge(merged(chunks.drop_last()), aggregate(chunks.last()))
    }
}

/// However an input is cut into chunks, aggregating each chunk apart and
/// merging the tables gives the table of the whole input.
pub proof fn law_partition(chunks: Seq<Seq<Reading>>)
    ensures
        merged(chunks) == aggregate(joined(chunks)),
    decreases chunks.len(),
{
    if chunks.len() > 0 {
        law_partition(chunks.drop_last());
        law_two_chunks(joined(chunks.drop_last()), chunks.last());
    }
}

/// Two chunks taken in either order give the same table, and so the same
/// report.
pub proof fn law_chunk_order(first: Seq<Reading>, second: Seq<Reading>)
    ensures
        aggregate(first + second) == aggregate(second + first),
        report(aggregate(first + second)) == report(aggregate(second + first)),
{
    law_two_chunks(first, second);
    law_two_chunks(second, first);
    law_merge_commutative(aggregate(first), aggregate(second));
}

/// A line is a record exactly where it holds a separator and what follows
/// the first one spells a value; the name is what stands before it.
pub proof fn law_record_accepted(line: Seq<u8>)
    ensures
        record_of(line) is Ok <==> first_index(line, SEPARATOR) < line.len() && spells_value(value_part(line)),
        record_of(line) is Ok ==> (record_of(line)->Ok_0).0 == name_part(line),
        record_of(line) is Ok ==> readable((record_of(line)->Ok_0).1),
{
}

/// How many of the readings belong to a station.
pub open spec fn count_of(readings: Seq<Reading>, key: Seq<u8>) -> nat
    decreases readings.len(),
{
    if readings.len() == 0 {
        0
    } else if readings.last().0 == key {
        count_of(readings.drop_last(), key) + 1
    } else {
        count_of(readings.drop_last(), key)
    }
}

/// The sum of the readings that belong to a station, added in their order.
pub open spec fn sum_of(readings: Seq<Reading>, key: Seq<u8>) -> Value
    decreases readings.len(),
{
    if readings.len() == 0 {
        Value::Finite(0)
    } else if readings.last().0 == key {
        plus(sum_of(readings.drop_last(), key), readings.last().1)
    } else {
        sum_of(readings.drop_last(), key)
    }
}

/// A station is in the table of an input where the input has a reading of
/// it; its count is the number of its readings and its sum is their sum.
pub proof fn law_count_and_sum(readings: Seq<Reading>, key: Seq<u8>)
    ensures
        aggregate(readings).dom().contains(key) <==> count_of(readings, key) > 0,
        aggregate(readings).dom().contains(key) ==> {
            &&& aggregate(readings)[key].count == count_of(readings, key)
            &&& aggregate(readings)[key].sum == sum_of(readings, key)
        },
        count_of(readings, key) == 0 ==> sum_of(readings, key) == Value::Finite(0),
    decreases readings.len(),
{
    if readings.len() > 0 {
        law_count_and_sum(readings.drop_last(), key);
    }
}

/// A reading that is a number lies between the extremes of a summary, which
/// are numbers too.
pub open spec fn between(s: Summary, value: Value) -> bool {
    !(value is NotANumber) ==> {
        &&& !(s.min is NotANumber)
        &&& !(s.max is NotANumber)
        &&& at_most(s.min, value)
        &&& at_most(value, s.max)
    }
}

/// The minimum of a station is the least of its readings and the maximum
/// the greatest: each is one of the readings, and every reading of the
/// station that is a number lies between them.
pub proof fn law_extremes(readings: Seq<Reading>, key: Seq<u8>)
    requires
        aggregate(readings).dom().contains(key),
    ensures
        forall|i: int|
            0 <= i < readings.len() && (#[trigger] readings[i]).0 == key ==> between(
                aggregate(readings)[key],
                readings[i].1,
            ),
        exists|i: int| 0 <= i < readings.len() && #[trigger] readings[i] == (key, aggregate(readings)[key].min),
        exists|i: int| 0 <= i < readings.len() && #[trigger] readings[i] == (key, aggregate(readings)[key].max),
    decreases readings.len(),
{
    let rest = readings.drop_last();
    let last = readings.last();
    let at = readings.len() - 1;
    let now = aggregate(readings)[key];
    let known = aggregate(rest).dom().contains(key);
    assert(readings[at] == last);
    if known {
        law_extremes(rest, key);
        let was = aggregate(rest)[key];
        let lo = choose|i: int| 0 <= i < rest.len() && #[trigger] rest[i] == (key, was.min);
        let hi = choose|i: int| 0 <= i < rest.len() && #[trigger] rest[i] == (key, was.max);
        assert(readings[lo] == rest[lo]);
        assert(readings[hi] == rest[hi]);
        if last.0 == key {
            assert(readings[if now.min == was.min { lo } else { at }] == (key, now.min));
            assert(readings[if now.max == was.max { hi } else { at }] == (key, now.max));
        } else {
            assert(readings[lo] == (key, now.min));
            assert(readings[hi] == (key, now.max));
        }
    } else {
        assert(last.0 == key);
        assert(readings[at] == (key, now.min));
        assert(readings[at] == (key, now.max));
    }
    assert forall|i: int| 0 <= i < readings.len() && (#[trigger] readings[i]).0 == key implies between(
        now,
        readings[i].1,
    ) by {
        if i < at {
            assert(rest[i] == readings[i]);
            if !known {
                law_count_and_sum(rest, key);
                lemma_count_positive(rest, key, i);
            }
        }
    }
}

/// A station with a reading among the readings has a positive count.
pub proof fn lemma_count_positive(readings: Seq<Reading>, key: Seq<u8>, i: int)
    requires
        0 <= i < readings.len(),
        readings[i].0 == key,
    ensures
        count_of(readings, key) > 0,
    decreases readings.len(),
{
    if i < readings.len() - 1 {
        lemma_count_positive(readings.drop_last(), key, i);
    }
}

/// The same reading `n` times.
pub open spec fn repeated(key: Seq<u8>, value: Value, n: nat) -> Seq<Reading> {
    Seq::new(n, |i: int| (key, value))
}

/// A value taken `n` times: of a finite one the product; of the others,
/// for `n` of at least one, the value itself.
pub open spec fn times(value: Value, n: nat) -> Value {
    match value {
        Value::Finite(x) => Value::Finite(n * x),
        other => other,
    }
}

/// The product of a count and a number, divided by the count, is the number.
pub proof fn lemma_nearest_of_product(x: int, n: int)
    requires
        n >= 1,
    ensures
        nearest(n * x, n) == x,
{
    let a = if x < 0 { -x } else { x };
    let p = if n * x < 0 { -(n * x) } else { n * x };
    assert(p == n * a && (n * x < 0 <==> x < 0)) by (nonlinear_arith)
        requires
            n >= 1,
            a == if x < 0 { -x } else { x },
            p == if n * x < 0 { -(n * x) } else { n * x },
    ;
    assert((n * a) / n == a && (n * a) % n == 0) by (nonlinear_arith)
        requires
            n >= 1,
            a >= 0,
    ;
}

/// A reading folded `n` times into the empty table leaves one station, with
/// the reading as minimum and maximum, `n` times the reading as sum, and
/// the count `n`; its mean is the reading.
pub proof fn law_repeated_fold(key: Seq<u8>, value: Value, n: nat)
    requires
        n >= 1,
    ensures
        aggregate(repeated(key, value, n)) == Map::<Seq<u8>, Summary>::empty().insert(
            key,
            Summary { min: value, max: value, sum: times(value, n), count: n },
        ),
        mean(aggregate(repeated(key, value, n))[key]) == value,
    decreases n,
{
    let all = repeated(key, value, n);
    let rest = repeated(key, value, (n - 1) as nat);
    assert(all.drop_last() =~= rest);
    assert(all.last() == (key, value));
    let m = n as int;
    assert(aggregate(all) == fold(aggregate(rest), key, value));
    if n == 1 {
        assert(aggregate(rest) =~= Map::<Seq<u8>, Summary>::empty());
    } else {
        law_repeated_fold(key, value, (n - 1) as nat);
        let prev = Summary { min: value, max: value, sum: times(value, (n - 1) as nat), count: (n - 1) as nat };
        assert(aggregate(rest)[key] == prev);
    }
    if let Value::Finite(x) = value {
        assert(m * x == (m - 1) * x + x) by (nonlinear_arith);
        assert(1 * x == x);
        lemma_nearest_of_product(x, m);
    }
    assert(aggregate(all) =~= Map::<Seq<u8>, Summary>::empty().insert(
        key,
        Summary { min: value, max: value, sum: times(value, n), count: n },
    ));
}

/// The same readings in any order give the same table, and so the same
/// report.
pub proof fn law_any_order(first: Seq<Reading>, second: Seq<Reading>)
    requires
        first.to_multiset() == second.to_multiset(),
    ensures
        aggregate(first) == aggregate(second),
        report(aggregate(first)) == report(aggregate(second)),
    decreases first.len(),
{
    first.to_multiset_ensures();
    second.to_multiset_ensures();
    if first.len() == 0 {
        assert(second.len() == 0);
        assert(first =~= second);
    } else {
        let r = first.last();
        let rest = first.drop_last();
        rest.to_multiset_ensures();
        assert(first =~= rest.push(r));
        assert(first.to_multiset().count(r) > 0);
        assert(second.contains(r));
        let j = choose|j: int| 0 <= j < second.len() && second[j] == r;
        let before = second.take(j);
        let after = second.skip(j + 1);
        let others = second.remove(j);
        assert(others.to_multiset() =~= rest.to_multiset());
        law_any_order(rest, others);
        assert(others =~= before + after);
        assert(second =~= before + (seq![r] + after));
        law_two_chunks(before, seq![r] + after);
        law_two_chunks(seq![r], after);
        law_two_chunks(after, seq![r]);
        law_merge_commutative(aggregate(seq![r]), aggregate(after));
        law_two_chunks(before, after + seq![r]);
        assert(before + (after + seq![r]) =~= others.push(r));
        assert(others.push(r).drop_last() =~= others);
        assert(aggregate(others.push(r)) == fold(aggregate(others), r.0, r.1));
        assert(aggregate(first) == fold(aggregate(rest), r.0, r.1));
    }
}

/// The table of any input has its stations listed in strictly ascending byte
/// order, each once: the order in which a report names them.
pub proof fn law_sorted_keys(readings: Seq<Reading>)
    ensures
        lists(sorted_keys(aggregate(readings)), aggregate(readings)),
    decreases readings.len(),
{
    let table = aggregate(readings);
    if readings.len() == 0 {
        let none = Seq::<Seq<u8>>::empty();
        assert(lists(none, table));
    } else {
        let last = readings.last();
        let rest = aggregate(readings.drop_last());
        law_sorted_keys(readings.drop_last());
        let keys = sorted_keys(rest);
        if rest.dom().contains(last.0) {
            assert(lists(keys, table));
        } else {
            let more = lemma_ascending_insert(keys, last.0);
            assert(lists(more, table));
        }
    }
}

/// The stations of a report stand in strictly ascending byte order, each
/// station of the state once, and the report depends on the table alone:
/// two states that hold the same table list the same keys.
pub proof fn law_report_order(state: &AggregationState, other: &AggregationState)
    requires
        state.wf(),
        other.wf(),
        state@ == other@,
    ensures
        lists(sorted_keys(state@), state@),
        state.keys() == sorted_keys(state@),
        state.keys() == other.keys(),
{
    lemma_keys_sorted(state);
    lemma_keys_sorted(other);
}

} // verus!
