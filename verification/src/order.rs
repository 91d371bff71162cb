//! Lexicographic order on byte strings.

use vstd::prelude::*;

verus! {

/// `a` comes strictly before `b` in byte-wise lexicographic order.
pub open spec fn lex_lt(a: Seq<u8>, b: Seq<u8>) -> bool
    decreases a.len(),
{
    if b.len() == 0 {
        false
    } else if a.len() == 0 {
        true
    } else if a[0] != b[0] {
        a[0] < b[0]
    } else {
        lex_lt(a.drop_first(), b.drop_first())
    }
}

/// Every key of `keys` comes strictly before each key that follows it.
pub open spec fn strictly_ascending(keys: Seq<Seq<u8>>) -> bool {
    forall|i: int, j: int| 0 <= i < j < keys.len() ==> lex_lt(#[trigger] keys[i], #[trigger] keys[j])
}

/// How one key stands to another.
#[derive(Clone, Copy, Debug, PartialEq, Eq, Structural)]
pub enum Rank {
    Before,
    Same,
    After,
}

/// No key comes before itself.
pub proof fn lemma_lex_irreflexive(a: Seq<u8>)
    ensures
        !lex_lt(a, a),
    decreases a.len(),
{
    if a.len() > 0 {
        lemma_lex_irreflexive(a.drop_first());
    }
}

/// The order is transitive.
pub proof fn lemma_lex_transitive(a: Seq<u8>, b: Seq<u8>, c: Seq<u8>)
    requires
        lex_lt(a, b),
        lex_lt(b, c),
    ensures
        lex_lt(a, c),
    decreases a.len(),
{
    if a.len() > 0 && a[0] == b[0] && b[0] == c[0] {
        lemma_lex_transitive(a.drop_first(), b.drop_first(), c.drop_first());
    }
}

/// Of two different keys one comes before the other.
pub proof fn lemma_lex_total(a: Seq<u8>, b: Seq<u8>)
    ensures
        lex_lt(a, b) || lex_lt(b, a) || a == b,
        !(lex_lt(a, b) && lex_lt(b, a)),
    decreases a.len(),
{
    if a.len() > 0 && b.len() > 0 && a[0] == b[0] {
        lemma_lex_total(a.drop_first(), b.drop_first());
        if a.drop_first() == b.drop_first() {
            assert(a =~= seq![a[0]] + a.drop_first());
            assert(b =~= seq![b[0]] + b.drop_first());
        }
    } else if a.len() == 0 && b.len() == 0 {
        assert(a =~= b);
    }
}

/// Two strictly ascending sequences that hold the same keys are equal.
pub proof fn lemma_ascending_unique(s: Seq<Seq<u8>>, t: Seq<Seq<u8>>)
    requires
        strictly_ascending(s),
        strictly_ascending(t),
        forall|k: Seq<u8>| s.contains(k) <==> t.contains(k),
    ensures
        s == t,
    decreases s.len(),
{
    if s.len() == 0 {
        if t.len() > 0 {
            assert(t.contains(t[0]));
            assert(s.contains(t[0]));
        }
        assert(s =~= t);
    } else if t.len() == 0 {
        assert(s.contains(s[0]));
        assert(t.contains(s[0]));
    } else {
        let a = s.last();
        let b = t.last();
        assert(s.contains(a));
        assert(t.contains(b));
        assert(t.contains(a));
        assert(s.contains(b));
        let i = choose|i: int| 0 <= i < t.len() && t[i] == a;
        let j = choose|j: int| 0 <= j < s.len() && s[j] == b;
        lemma_lex_total(a, b);
        lemma_lex_irreflexive(a);
        if i < t.len() - 1 {
            assert(lex_lt(t[i], t[t.len() - 1]));
        }
        if j < s.len() - 1 {
            assert(lex_lt(s[j], s[s.len() - 1]));
        }
        assert(a == b);
        let s0 = s.drop_last();
        let t0 = t.drop_last();
        assert forall|k: Seq<u8>| s0.contains(k) <==> t0.contains(k) by {
            if s0.contains(k) {
                let p = choose|p: int| 0 <= p < s0.len() && s0[p] == k;
                assert(s[p] == k);
                assert(lex_lt(s[p], s[s.len() - 1]));
                assert(s.contains(k));
                let q = choose|q: int| 0 <= q < t.len() && t[q] == k;
                lemma_lex_irreflexive(k);
                assert(q < t.len() - 1);
                assert(t0[q] == k);
            }
            if t0.contains(k) {
                let p = choose|p: int| 0 <= p < t0.len() && t0[p] == k;
                assert(t[p] == k);
                assert(lex_lt(t[p], t[t.len() - 1]));
                assert(t.contains(k));
                let q = choose|q: int| 0 <= q < s.len() && s[q] == k;
                lemma_lex_irreflexive(k);
                assert(q < s.len() - 1);
                assert(s0[q] == k);
            }
        }
        assert forall|x: int, y: int| 0 <= x < y < s0.len() implies lex_lt(#[trigger] s0[x], #[trigger] s0[y]) by {
            assert(lex_lt(s[x], s[y]));
        }
        assert forall|x: int, y: int| 0 <= x < y < t0.len() implies lex_lt(#[trigger] t0[x], #[trigger] t0[y]) by {
            assert(lex_lt(t[x], t[y]));
        }
        lemma_ascending_unique(s0, t0);
        assert(s =~= s0.push(a));
        assert(t =~= t0.push(b));
    }
}

/// A key that a strictly ascending sequence lacks has a place in it: the
/// result holds the key and those of the sequence, strictly ascending again.
pub proof fn lemma_ascending_insert(keys: Seq<Seq<u8>>, key: Seq<u8>) -> (r: Seq<Seq<u8>>)
    requires
        strictly_ascending(keys),
        !keys.contains(key),
    ensures
        strictly_ascending(r),
        forall|k: Seq<u8>| r.contains(k) <==> (keys.contains(k) || k == key),
    decreases keys.len(),
{
    if keys.len() == 0 {
        let r = seq![key];
        assert(r[0] == key);
        r
    } else {
        let last = keys.last();
        let front = keys.drop_last();
        assert(keys.contains(last));
        lemma_lex_total(last, key);
        assert forall|k: Seq<u8>| front.contains(k) implies keys.contains(k) && lex_lt(k, last) by {
            let i = choose|i: int| 0 <= i < front.len() && front[i] == k;
            assert(keys[i] == k);
            assert(lex_lt(keys[i], keys[keys.len() - 1]));
        }
        assert forall|k: Seq<u8>| keys.contains(k) implies front.contains(k) || k == last by {
            let i = choose|i: int| 0 <= i < keys.len() && keys[i] == k;
            if i < keys.len() - 1 {
                assert(front[i] == k);
            }
        }
        assert forall|x: int, y: int| 0 <= x < y < front.len() implies lex_lt(#[trigger] front[x], #[trigger] front[y]) by {
            assert(lex_lt(keys[x], keys[y]));
        }
        if lex_lt(last, key) {
            let r = keys.push(key);
            assert forall|x: int, y: int| 0 <= x < y < r.len() implies lex_lt(#[trigger] r[x], #[trigger] r[y]) by {
                if y == keys.len() {
                    if x < keys.len() - 1 {
                        assert(lex_lt(keys[x], keys[keys.len() - 1]));
                        lemma_lex_transitive(keys[x], last, key);
                    }
                } else {
                    assert(lex_lt(keys[x], keys[y]));
                }
            }
            assert forall|k: Seq<u8>| r.contains(k) <==> (keys.contains(k) || k == key) by {
                if r.contains(k) {
                    let i = choose|i: int| 0 <= i < r.len() && r[i] == k;
                    if i < keys.len() {
                        assert(keys[i] == k);
                    }
                }
                if keys.contains(k) {
                    let i = choose|i: int| 0 <= i < keys.len() && keys[i] == k;
                    assert(r[i] == k);
                }
                if k == key {
                    assert(r[keys.len() as int] == k);
                }
            }
            r
        } else {
            let inner = lemma_ascending_insert(front, key);
            let r = inner.push(last);
            assert forall|x: int, y: int| 0 <= x < y < r.len() implies lex_lt(#[trigger] r[x], #[trigger] r[y]) by {
                if y == inner.len() {
                    assert(inner.contains(inner[x]));
                } else {
                    assert(lex_lt(inner[x], inner[y]));
                }
            }
            assert forall|k: Seq<u8>| r.contains(k) <==> (keys.contains(k) || k == key) by {
                if r.contains(k) {
                    let i = choose|i: int| 0 <= i < r.len() && r[i] == k;
                    if i < inner.len() {
                        assert(inner[i] == k);
                        assert(inner.contains(k));
                    }
                }
                if inner.contains(k) {
                    let i = choose|i: int| 0 <= i < inner.len() && inner[i] == k;
                    assert(r[i] == k);
                }
                if k == last {
                    assert(r[inner.len() as int] == k);
                }
            }
            r
        }
    }
}

/// Compares two keys byte by byte.
pub fn rank(a: &[u8], b: &[u8]) -> (r: Rank)
    ensures
        r == Rank::Before <==> lex_lt(a@, b@),
        r == Rank::Same <==> a@ == b@,
        r == Rank::After <==> lex_lt(b@, a@),
{
    let mut i: usize = 0;
    proof {
        assert(a@.skip(0) =~= a@);
        assert(b@.skip(0) =~= b@);
    }
    while i < a.len() && i < b.len()
        invariant
            i <= a.len(),
            i <= b.len(),
            lex_lt(a@, b@) == lex_lt(a@.skip(i as int), b@.skip(i as int)),
            lex_lt(b@, a@) == lex_lt(b@.skip(i as int), a@.skip(i as int)),
            a@.take(i as int) == b@.take(i as int),
        decreases a.len() - i,
    {
        let x: u8 = a[i];
        let y: u8 = b[i];
        proof {
            assert(a@.skip(i as int).drop_first() =~= a@.skip(i + 1));
            assert(b@.skip(i as int).drop_first() =~= b@.skip(i + 1));
            assert(a@.skip(i as int)[0] == x);
            assert(b@.skip(i as int)[0] == y);
        }
        if x < y {
            proof {
                assert(a@.take(i + 1)[i as int] != b@.take(i + 1)[i as int]);
            }
            assert(a@ != b@);
            return Rank::Before;
        }
        if y < x {
            assert(a@ != b@);
            return Rank::After;
        }
        proof {
            assert(a@.take(i + 1) =~= a@.take(i as int).push(x));
            assert(b@.take(i + 1) =~= b@.take(i as int).push(y));
        }
        i = i + 1;
    }
    proof {
        assert(a@.skip(i as int).len() == a.len() - i);
        assert(b@.skip(i as int).len() == b.len() - i);
        if a.len() == b.len() {
            assert(a@ =~= a@.take(i as int));
            assert(b@ =~= b@.take(i as int));
        }
    }
    if i < b.len() {
        Rank::Before
    } else if i < a.len() {
        Rank::After
    } else {
        Rank::Same
    }
}

} // verus!
