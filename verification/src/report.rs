//! The report: `{name=min/mean/max, name=min/mean/max, }`.

use vstd::prelude::*;
use crate::decimal::{number_text, push_number_text};
use crate::model::{Table, Summary, mean};
use crate::order::{strictly_ascending, lemma_ascending_unique};
use crate::state::AggregationState;

verus! {

/// The byte `{`.
pub const OPEN: u8 = 123;

/// The byte `}`.
pub const CLOSE: u8 = 125;

/// The byte `=`.
pub const EQUALS: u8 = 61;

/// The byte `/`.
pub const SLASH: u8 = 47;

/// The byte `,`.
pub const COMMA: u8 = 44;

/// The byte of a space.
pub const SPACE: u8 = 32;

/// `keys` holds the stations of the table, each once, in ascending order.
pub open spec fn lists(keys: Seq<Seq<u8>>, table: Table) -> bool {
    &&& strictly_ascending(keys)
    &&& forall|k: Seq<u8>| keys.contains(k) <==> table.dom().contains(k)
}

/// The stations of a table in ascending order.
pub open spec fn sorted_keys(table: Table) -> Seq<Seq<u8>> {
    choose|keys: Seq<Seq<u8>>| lists(keys, table)
}

/// One entry of the report, with the separator that follows it.
pub open spec fn entry_text(key: Seq<u8>, s: Summary) -> Seq<u8> {
    key + seq![EQUALS] + number_text(s.min) + seq![SLASH] + number_text(mean(s)) + seq![SLASH]
        + number_text(s.max) + seq![COMMA, SPACE]
}

/// The entries of the given stations, in the given order.
pub open spec fn entries_text(keys: Seq<Seq<u8>>, table: Table) -> Seq<u8>
    decreases keys.len(),
{
    if keys.len() == 0 {
        Seq::empty()
    } else {
        entries_text(keys.drop_last(), table) + entry_text(keys.last(), table[keys.last()])
    }
}

/// The report of a table: its entries in ascending order of the station
/// names, each followed by a comma and a space, between braces.
pub open spec fn report(table: Table) -> Seq<u8> {
    seq![OPEN] + entries_text(sorted_keys(table), table) + seq![CLOSE]
}

/// The keys of a state are the sorted keys of its table.
pub proof fn lemma_keys_sorted(state: &AggregationState)
    requires
        state.wf(),
    ensures
        state.keys() == sorted_keys(state@),
        lists(state.keys(), state@),
{
    state.lemma_keys();
    assert(lists(state.keys(), state@));
    let chosen = sorted_keys(state@);
    assert(lists(chosen, state@));
    assert forall|k: Seq<u8>| chosen.contains(k) <==> state.keys().contains(k) by {}
    lemma_ascending_unique(chosen, state.keys());
}

/// Appends bytes.
pub fn push_bytes(out: &mut Vec<u8>, s: &[u8])
    ensures
        final(out)@ == old(out)@ + s@,
{
    let mut i: usize = 0;
    while i < s.len()
        invariant
            i <= s.len(),
            out@ == old(out)@ + s@.take(i as int),
        decreases s.len() - i,
    {
        out.push(s[i]);
        proof {
            assert(out@ =~= old(out)@ + s@.take(i + 1));
        }
        i = i + 1;
    }
    proof {
        assert(s@.take(i as int) =~= s@);
    }
}

/// Renders the state: every station with its minimum, mean and maximum, in
/// ascending order of the names.
pub fn format(state: &AggregationState) -> (out: Vec<u8>)
    requires
        state.wf(),
    ensures
        out@ == report(state@),
{
    let mut out: Vec<u8> = Vec::new();
    out.push(OPEN);
    let n = state.len();
    let mut i: usize = 0;
    proof {
        assert(state.keys().take(0) =~= Seq::<Seq<u8>>::empty());
        assert(out@ =~= seq![OPEN] + entries_text(state.keys().take(0), state@));
    }
    while i < n
        invariant
            state.wf(),
            n == state.keys().len(),
            i <= n,
            out@ == seq![OPEN] + entries_text(state.keys().take(i as int), state@),
        decreases n - i,
    {
        let key = state.key_at(i);
        let stats = state.stats_at(i);
        let ghost before = out@;
        push_bytes(&mut out, key);
        out.push(EQUALS);
        push_number_text(&mut out, stats.min);
        out.push(SLASH);
        push_number_text(&mut out, stats.mean());
        out.push(SLASH);
        push_number_text(&mut out, stats.max);
        out.push(COMMA);
        out.push(SPACE);
        proof {
            let keys = state.keys();
            assert(keys.take(i + 1).drop_last() =~= keys.take(i as int));
            assert(keys.take(i + 1).last() == keys[i as int]);
            assert(out@ =~= before + entry_text(keys[i as int], state@[keys[i as int]]));
            assert(out@ =~= seq![OPEN] + entries_text(keys.take(i + 1), state@));
        }
        i = i + 1;
    }
    out.push(CLOSE);
    proof {
        lemma_keys_sorted(state);
        assert(state.keys().take(i as int) =~= state.keys());
    }
    out
}

} // verus!
