//! From lines to the report: one line at a time, or a whole input at once.

use vstd::prelude::*;
use crate::model::{Table, Reading, Value, fold, aggregate, counts_at_most, merge};
use crate::record::{MalformedRecord, record_of, parse_temperature_line};
use crate::order::{lex_lt, lemma_lex_irreflexive};
use crate::report::{report, lists};
use crate::state::AggregationState;

verus! {

/// The first line of an input that is no record, and why.
#[derive(Clone, Copy, Debug, PartialEq, Eq, Structural)]
pub struct Failure {
    /// The index of the line, from 0.
    pub line: usize,
    pub cause: MalformedRecord,
}

/// The lines of an input as byte sequences.
pub open spec fn texts(lines: &Vec<Vec<u8>>) -> Seq<Seq<u8>> {
    Seq::new(lines.len() as nat, |i: int| lines[i]@)
}

/// Every line is a record.
pub open spec fn all_records(lines: Seq<Seq<u8>>) -> bool {
    forall|i: int| 0 <= i < lines.len() ==> (#[trigger] record_of(lines[i])) is Ok
}

/// The readings of lines that are all records.
pub open spec fn readings(lines: Seq<Seq<u8>>) -> Seq<Reading> {
    Seq::new(lines.len(), |i: int| record_of(lines[i])->Ok_0)
}

/// Line `at` is the first that is no record.
pub open spec fn first_malformed(lines: Seq<Seq<u8>>, at: int) -> bool {
    &&& 0 <= at < lines.len()
    &&& record_of(lines[at]) is Err
    &&& all_records(lines.take(at))
}

/// One more reading raises no count by more than one.
pub proof fn lemma_fold_counts(table: Table, key: Seq<u8>, value: Value, n: int)
    requires
        counts_at_most(table, n),
        n >= 0,
    ensures
        counts_at_most(fold(table, key, value), n + 1),
{
    assert forall|k: Seq<u8>| fold(table, key, value).dom().contains(k) implies (#[trigger] fold(table, key, value)[k]).count <= n + 1 by {
        if k != key {
            assert(table[k].count <= n);
        } else if table.dom().contains(key) {
            assert(table[key].count <= n);
        }
    }
}

/// Reads one line and folds its reading into the state. A line that is no
/// record leaves the state as it was.
pub fn ingest(state: &mut AggregationState, line: &[u8]) -> (r: Result<(), MalformedRecord>)
    requires
        old(state).wf(),
        counts_at_most(old(state)@, u64::MAX - 1),
    ensures
        final(state).wf(),
        match r {
            Ok(_) => record_of(line@) is Ok && final(state)@ == fold(
                old(state)@,
                (record_of(line@)->Ok_0).0,
                (record_of(line@)->Ok_0).1,
            ),
            Err(e) => record_of(line@) == Err::<Reading, MalformedRecord>(e) && final(state)@ == old(state)@,
        },
{
    match parse_temperature_line(line) {
        Ok(rec) => {
            proof {
                if state@.dom().contains(rec.0@) {
                    assert(state@[rec.0@].count <= u64::MAX - 1);
                }
            }
            state.fold(rec.0, rec.1);
            Ok(())
        },
        Err(e) => Err(e),
    }
}

/// Aggregates a whole input. The first line that is no record ends the run.
pub fn aggregate_lines(lines: &Vec<Vec<u8>>) -> (r: Result<AggregationState, Failure>)
    ensures
        match r {
            Ok(state) => {
                &&& all_records(texts(lines))
                &&& state.wf()
                &&& state@ == aggregate(readings(texts(lines)))
            },
            Err(f) => {
                &&& first_malformed(texts(lines), f.line as int)
                &&& record_of(lines[f.line as int]@) == Err::<Reading, MalformedRecord>(f.cause)
            },
        },
{
    let mut state = AggregationState::new();
    let mut i: usize = 0;
    proof {
        assert(readings(texts(lines).take(0)) =~= Seq::<Reading>::empty());
    }
    while i < lines.len()
        invariant
            i <= lines.len(),
            state.wf(),
            all_records(texts(lines).take(i as int)),
            state@ == aggregate(readings(texts(lines).take(i as int))),
            counts_at_most(state@, i as int),
        decreases lines.len() - i,
    {
        let ghost before = state@;
        let ghost all = texts(lines);
        proof {
            assert(all[i as int] == lines[i as int]@);
        }
        match ingest(&mut state, lines[i].as_slice()) {
            Ok(_) => {
                proof {
                    let rec = record_of(all[i as int])->Ok_0;
                    lemma_fold_counts(before, rec.0, rec.1, i as int);
                    assert forall|j: int| 0 <= j < all.take(i + 1).len() implies (#[trigger] record_of(all.take(i + 1)[j])) is Ok by {
                        if j < i {
                            assert(all.take(i as int)[j] == all[j]);
                        }
                    }
                    let next = readings(all.take(i + 1));
                    assert(next.drop_last() =~= readings(all.take(i as int)));
                    assert(next.last() == rec);
                }
            },
            Err(e) => {
                return Err(Failure { line: i, cause: e });
            },
        }
        i = i + 1;
    }
    proof {
        assert(texts(lines).take(i as int) =~= texts(lines));
    }
    Ok(state)
}

/// Aggregates a whole input and renders the report.
pub fn summarize(lines: &Vec<Vec<u8>>) -> (r: Result<Vec<u8>, Failure>)
    ensures
        match r {
            Ok(out) => all_records(texts(lines)) && out@ == report(aggregate(readings(texts(lines)))),
            Err(f) => {
                &&& first_malformed(texts(lines), f.line as int)
                &&& record_of(lines[f.line as int]@) == Err::<Reading, MalformedRecord>(f.cause)
            },
        },
{
    match aggregate_lines(lines) {
        Ok(state) => Ok(crate::report::format(&state)),
        Err(f) => Err(f),
    }
}

/// The part of a table that lies under the first `n` of the given keys.
pub open spec fn under_first(keys: Seq<Seq<u8>>, table: Table, n: int) -> Table {
    table.restrict(Set::new(|k: Seq<u8>| keys.take(n).contains(k)))
}

/// Merges another state into this one, station by station: the lesser
/// minimum, the greater maximum, the sums and the counts added.
pub fn merge_into(state: &mut AggregationState, other: &AggregationState)
    requires
        old(state).wf(),
        other.wf(),
        forall|k: Seq<u8>| old(state)@.dom().contains(k) && other@.dom().contains(k)
            ==> (#[trigger] old(state)@[k]).count + other@[k].count <= u64::MAX,
    ensures
        final(state).wf(),
        final(state)@ == merge(old(state)@, other@),
{
    let n = other.len();
    let mut i: usize = 0;
    proof {
        other.lemma_keys();
        assert(state@ =~= merge(old(state)@, under_first(other.keys(), other@, 0)));
    }
    while i < n
        invariant
            i <= n,
            n == other.keys().len(),
            state.wf(),
            other.wf(),
            lists(other.keys(), other@),
            state@ == merge(old(state)@, under_first(other.keys(), other@, i as int)),
            forall|k: Seq<u8>| old(state)@.dom().contains(k) && other@.dom().contains(k)
                ==> (#[trigger] old(state)@[k]).count + other@[k].count <= u64::MAX,
        decreases n - i,
    {
        let key = other.key_at(i);
        let stats = other.stats_at(i);
        let ghost keys = other.keys();
        let ghost before = state@;
        proof {
            lemma_lex_irreflexive(key@);
            assert(keys.contains(keys[i as int]));
            let shorter = keys.take(i as int);
            assert(!shorter.contains(key@)) by {
                if shorter.contains(key@) {
                    let j = choose|j: int| 0 <= j < shorter.len() && shorter[j] == key@;
                    assert(lex_lt(keys[j], keys[i as int]));
                }
            }
            if before.dom().contains(key@) {
                assert(old(state)@.dom().contains(key@));
                assert(old(state)@[key@].count + other@[key@].count <= u64::MAX);
            }
        }
        state.absorb(key, stats);
        proof {
            let a = old(state)@;
            let next = under_first(keys, other@, i + 1);
            let prev = under_first(keys, other@, i as int);
            let shorter = keys.take(i as int);
            let longer = keys.take(i + 1);
            assert forall|k: Seq<u8>| keys.take(i + 1).contains(k) <==> (keys.take(i as int).contains(k) || k == key@) by {
                if keys.take(i + 1).contains(k) {
                    let j = choose|j: int| 0 <= j < longer.len() && longer[j] == k;
                    if j < i {
                        assert(shorter[j] == k);
                    }
                }
                if keys.take(i as int).contains(k) {
                    let j = choose|j: int| 0 <= j < shorter.len() && shorter[j] == k;
                    assert(longer[j] == k);
                }
                if k == key@ {
                    assert(longer[i as int] == k);
                }
            }
            assert(next =~= prev.insert(key@, other@[key@]));
            assert(state@ =~= merge(a, next));
        }
        i = i + 1;
    }
    proof {
        let keys = other.keys();
        assert(keys.take(i as int) =~= keys);
        assert(under_first(keys, other@, i as int) =~= other@);
    }
}

} // verus!
