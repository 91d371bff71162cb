//! The aggregation state: one statistic per station, kept in ascending order
//! of the station names.
//!
//! A station is found by binary search. A reading of a known station changes
//! its statistic in place; the first reading of a new station enters it at
//! its place in the order, which moves the stations after it.

use vstd::prelude::*;
use vstd::slice::slice_to_vec;
use crate::model::{Table, Summary, plausible, absorb, fold, single, observe, combine};
use crate::order::{Rank, rank, lex_lt, strictly_ascending, lemma_lex_irreflexive, lemma_lex_transitive};
use crate::number::Number;
use crate::stats::StationStats;

verus! {

/// The statistics of all stations seen so far.
pub struct AggregationState {
    names: Vec<Vec<u8>>,
    stats: Vec<StationStats>,
}

impl View for AggregationState {
    type V = Table;

    closed spec fn view(&self) -> Table {
        Map::new(
            |k: Seq<u8>| self.keys().contains(k),
            |k: Seq<u8>| self.stats[self.position(k)]@,
        )
    }
}

impl AggregationState {
    /// The station names, in the order in which they are reported.
    pub closed spec fn keys(&self) -> Seq<Seq<u8>> {
        Seq::new(self.names.len() as nat, |i: int| self.names[i]@)
    }

    /// Where a name stands among the keys.
    pub closed spec fn position(&self, key: Seq<u8>) -> int {
        choose|i: int| 0 <= i < self.names.len() && self.names[i]@ == key
    }

    /// The invariant: one statistic per name, the names strictly ascending,
    /// every statistic valid.
    pub closed spec fn wf(&self) -> bool {
        &&& self.names.len() == self.stats.len()
        &&& strictly_ascending(self.keys())
        &&& forall|i: int| 0 <= i < self.stats.len() ==> (#[trigger] self.stats[i]).is_valid()
    }

    /// The keys are exactly the stations of the table, in strictly ascending
    /// order, and every statistic of the table is plausible.
    pub proof fn lemma_keys(&self)
        requires
            self.wf(),
        ensures
            strictly_ascending(self.keys()),
            forall|k: Seq<u8>| self.keys().contains(k) <==> self@.dom().contains(k),
            self@.dom().finite(),
            self@.dom().len() == self.keys().len(),
            forall|k: Seq<u8>| self@.dom().contains(k) ==> plausible(#[trigger] self@[k]),
    {
        assert forall|k: Seq<u8>| self@.dom().contains(k) implies plausible(#[trigger] self@[k]) by {
            self.lemma_in(k);
            assert(self.stats[self.position(k)].is_valid());
        }
        let keys = self.keys();
        assert(keys.no_duplicates()) by {
            assert forall|i: int, j: int| 0 <= i < keys.len() && 0 <= j < keys.len() && i != j implies keys[i] != keys[j] by {
                lemma_lex_irreflexive(keys[i]);
                if i < j {
                    assert(lex_lt(keys[i], keys[j]));
                } else {
                    assert(lex_lt(keys[j], keys[i]));
                }
            }
        }
        keys.unique_seq_to_set();
        assert(keys.to_set() =~= self@.dom());
    }

    /// The name at a place is a station of the table, with the statistic at
    /// that place.
    proof fn lemma_at(&self, i: int)
        requires
            self.wf(),
            0 <= i < self.names.len(),
        ensures
            self@.dom().contains(self.names[i]@),
            self@[self.names[i]@] == self.stats[i]@,
            self.position(self.names[i]@) == i,
    {
        let k = self.names[i]@;
        assert(self.keys()[i] == k);
        let p = self.position(k);
        lemma_lex_irreflexive(k);
        if p < i {
            assert(lex_lt(self.keys()[p], self.keys()[i]));
        } else if i < p {
            assert(lex_lt(self.keys()[i], self.keys()[p]));
        }
    }

    /// A station of the table has a place, where its name and statistic
    /// stand.
    proof fn lemma_in(&self, k: Seq<u8>)
        requires
            self.wf(),
            self@.dom().contains(k),
        ensures
            0 <= self.position(k) < self.names.len(),
            self.names[self.position(k)]@ == k,
            self@[k] == self.stats[self.position(k)]@,
    {
        let i = choose|i: int| 0 <= i < self.keys().len() && self.keys()[i] == k;
        assert(self.names[i]@ == k);
    }

    /// The empty state.
    pub fn new() -> (s: AggregationState)
        ensures
            s.wf(),
            s@ == Map::<Seq<u8>, Summary>::empty(),
            s.keys().len() == 0,
    {
        let s = AggregationState { names: Vec::new(), stats: Vec::new() };
        assert(s@ =~= Map::<Seq<u8>, Summary>::empty());
        s
    }

    /// The number of stations.
    pub fn len(&self) -> (n: usize)
        requires
            self.wf(),
        ensures
            n == self.keys().len(),
            n == self@.dom().len(),
    {
        proof {
            self.lemma_keys();
        }
        self.names.len()
    }

    /// Finds a name by binary search: whether it is there, and the place
    /// where it stands or would have to stand.
    fn locate(&self, key: &[u8]) -> (r: (bool, usize))
        requires
            self.wf(),
        ensures
            r.1 <= self.names.len(),
            r.0 ==> r.1 < self.names.len() && self.names[r.1 as int]@ == key@,
            r.0 <==> self@.dom().contains(key@),
            !r.0 ==> forall|j: int| 0 <= j < r.1 ==> lex_lt(#[trigger] self.names[j]@, key@),
            !r.0 ==> forall|j: int| r.1 <= j < self.names.len() ==> lex_lt(key@, #[trigger] self.names[j]@),
    {
        let mut lo: usize = 0;
        let mut hi: usize = self.names.len();
        while lo < hi
            invariant
                self.wf(),
                lo <= hi <= self.names.len(),
                forall|j: int| 0 <= j < lo ==> lex_lt(#[trigger] self.names[j]@, key@),
                forall|j: int| hi <= j < self.names.len() ==> lex_lt(key@, #[trigger] self.names[j]@),
            decreases hi - lo,
        {
            let mid: usize = lo + (hi - lo) / 2;
            match rank(self.names[mid].as_slice(), key) {
                Rank::Same => {
                    proof {
                        self.lemma_at(mid as int);
                    }
                    return (true, mid);
                },
                Rank::Before => {
                    proof {
                        assert forall|j: int| 0 <= j < mid + 1 implies lex_lt(#[trigger] self.names[j]@, key@) by {
                            if j < mid {
                                assert(lex_lt(self.keys()[j], self.keys()[mid as int]));
                                lemma_lex_transitive(self.names[j]@, self.names[mid as int]@, key@);
                            }
                        }
                    }
                    lo = mid + 1;
                },
                Rank::After => {
                    proof {
                        assert forall|j: int| mid <= j < self.names.len() implies lex_lt(key@, #[trigger] self.names[j]@) by {
                            if mid < j {
                                assert(lex_lt(self.keys()[mid as int], self.keys()[j]));
                                lemma_lex_transitive(key@, self.names[mid as int]@, self.names[j]@);
                            }
                        }
                    }
                    hi = mid;
                },
            }
        }
        proof {
            lemma_lex_irreflexive(key@);
            if self@.dom().contains(key@) {
                self.lemma_in(key@);
            }
        }
        (false, lo)
    }

    /// The statistic of a station, if it has been seen.
    pub fn get(&self, key: &[u8]) -> (r: Option<StationStats>)
        requires
            self.wf(),
        ensures
            r.is_some() <==> self@.dom().contains(key@),
            r.is_some() ==> r.unwrap()@ == self@[key@] && r.unwrap().is_valid(),
    {
        let (found, at) = self.locate(key);
        if found {
            proof {
                self.lemma_at(at as int);
            }
            Some(self.stats[at])
        } else {
            None
        }
    }

    /// The name of the station at a place in the order of the keys.
    pub fn key_at(&self, i: usize) -> (key: &[u8])
        requires
            self.wf(),
            i < self.keys().len(),
        ensures
            key@ == self.keys()[i as int],
    {
        self.names[i].as_slice()
    }

    /// The statistic of the station at a place in the order of the keys.
    pub fn stats_at(&self, i: usize) -> (stats: StationStats)
        requires
            self.wf(),
            i < self.keys().len(),
        ensures
            stats@ == self@[self.keys()[i as int]],
            stats.is_valid(),
    {
        proof {
            self.lemma_at(i as int);
        }
        self.stats[i]
    }

    /// Adds a statistic under a name: combined with the one that the name
    /// has, or entered as it is where the name is new.
    pub fn absorb(&mut self, key: &[u8], stats: StationStats)
        requires
            old(self).wf(),
            stats.is_valid(),
            old(self)@.dom().contains(key@) ==> old(self)@[key@].count + stats.count <= u64::MAX,
        ensures
            final(self).wf(),
            final(self)@ == absorb(old(self)@, key@, stats@),
    {
        let (found, at) = self.locate(key);
        if found {
            proof {
                self.lemma_at(at as int);
            }
            let merged = self.stats[at].combine(&stats);
            self.stats.set(at, merged);
            proof {
                assert(self.keys() =~= old(self).keys());
                assert(self.wf());
                assert forall|k: Seq<u8>| self@.dom().contains(k) implies #[trigger] self@[k] == absorb(old(self)@, key@, stats@)[k] by {
                    self.lemma_in(k);
                    old(self).lemma_in(k);
                    let i = self.position(k);
                    old(self).lemma_at(i);
                    self.lemma_at(i);
                }
                assert(self@ =~= absorb(old(self)@, key@, stats@));
            }
        } else {
            let name = slice_to_vec(key);
            self.names.insert(at, name);
            self.stats.insert(at, stats);
            proof {
                let before = old(self).keys();
                let after = self.keys();
                assert(after =~= before.insert(at as int, key@));
                assert forall|i: int, j: int| 0 <= i < j < after.len() implies lex_lt(#[trigger] after[i], #[trigger] after[j]) by {
                    if i == at {
                        assert(after[j] == old(self).names[j - 1]@);
                    } else if j == at {
                        assert(after[i] == old(self).names[i]@);
                    } else {
                        let a = if i < at { i } else { i - 1 };
                        let b = if j < at { j } else { j - 1 };
                        assert(lex_lt(before[a], before[b]));
                    }
                }
                assert(self.wf());
                assert(after[at as int] == key@);
                assert forall|k: Seq<u8>| self@.dom().contains(k) <==> absorb(old(self)@, key@, stats@).dom().contains(k) by {
                    if before.contains(k) {
                        let i = choose|i: int| 0 <= i < before.len() && before[i] == k;
                        let i2 = if i < at { i } else { i + 1 };
                        assert(after[i2] == k);
                    }
                    if after.contains(k) {
                        let i = choose|i: int| 0 <= i < after.len() && after[i] == k;
                        if i != at {
                            let i0 = if i < at { i } else { i - 1 };
                            assert(before[i0] == k);
                        }
                    }
                }
                assert forall|k: Seq<u8>| self@.dom().contains(k) implies #[trigger] self@[k] == absorb(old(self)@, key@, stats@)[k] by {
                    self.lemma_in(k);
                    let i = self.position(k);
                    self.lemma_at(i);
                    if i != at {
                        let i0 = if i < at { i } else { i - 1 };
                        old(self).lemma_at(i0);
                    }
                }
                assert(self@ =~= absorb(old(self)@, key@, stats@));
            }
        }
    }

    /// Folds one reading into the state: a new station starts with the reading
    /// as its minimum, maximum and sum; a known one has its minimum, maximum,
    /// sum and count brought up to date.
    pub fn fold(&mut self, key: &[u8], value: Number)
        requires
            old(self).wf(),
            value.is_reading(),
            old(self)@.dom().contains(key@) ==> old(self)@[key@].count < u64::MAX,
        ensures
            final(self).wf(),
            final(self)@ == fold(old(self)@, key@, value@),
    {
        let one = StationStats::single(value);
        self.absorb(key, one);
        proof {
            if old(self)@.dom().contains(key@) {
                assert(observe(old(self)@[key@], value@) == combine(old(self)@[key@], single(value@)));
            }
        }
    }
}

} // verus!
