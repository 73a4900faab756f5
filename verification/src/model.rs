//! The mathematical model of the sorted key space: entry sequences in key
//! order, the finite map they stand for, and the predicates that pin down
//! where a directional scan starts and what it yields.

use vstd::prelude::*;
use crate::order::lex_le;
use crate::order::lex_lt;
use crate::order::lemma_lex_asym;
use crate::order::lemma_lex_irrefl;

verus! {

/// Keys grow strictly along the sequence: a forward scan's view.
pub open spec fn strictly_ascending(s: Seq<(Seq<u8>, Seq<u8>)>) -> bool {
    forall|i: int, j: int| 0 <= i < j < s.len() ==> lex_lt((#[trigger] s[i]).0, (#[trigger] s[j]).0)
}

/// Keys shrink strictly along the sequence: a reverse scan's view.
pub open spec fn strictly_descending(s: Seq<(Seq<u8>, Seq<u8>)>) -> bool {
    forall|i: int, j: int| 0 <= i < j < s.len() ==> lex_lt((#[trigger] s[j]).0, (#[trigger] s[i]).0)
}

/// No key occurs twice.
pub open spec fn distinct_keys(s: Seq<(Seq<u8>, Seq<u8>)>) -> bool {
    forall|i: int, j: int| 0 <= i < j < s.len() ==> (#[trigger] s[i]).0 != (#[trigger] s[j]).0
}

/// Some entry carries this key.
pub open spec fn has_key(s: Seq<(Seq<u8>, Seq<u8>)>, k: Seq<u8>) -> bool {
    exists|i: int| 0 <= i < s.len() && (#[trigger] s[i]).0 == k
}

/// The sequence read back to front.
pub open spec fn rev_of(s: Seq<(Seq<u8>, Seq<u8>)>) -> Seq<(Seq<u8>, Seq<u8>)> {
    Seq::new(s.len(), |i: int| s[s.len() - 1 - i])
}

/// The finite map that a sequence of distinct-keyed entries stands for.
pub open spec fn entries_map(s: Seq<(Seq<u8>, Seq<u8>)>) -> Map<Seq<u8>, Seq<u8>> {
    Map::new(
        |k: Seq<u8>| has_key(s, k),
        |k: Seq<u8>| s[choose|i: int| 0 <= i < s.len() && (#[trigger] s[i]).0 == k].1,
    )
}

/// A strictly ordered sequence carries each key at most once.
pub proof fn lemma_ordered_distinct(s: Seq<(Seq<u8>, Seq<u8>)>)
    requires
        strictly_ascending(s) || strictly_descending(s),
    ensures
        distinct_keys(s),
{
    assert forall|i: int, j: int| 0 <= i < j < s.len() implies (#[trigger] s[i]).0 != (#[trigger] s[j]).0 by {
        lemma_lex_irrefl(s[i].0);
    }
}

/// With distinct keys, the entry at an index gives the map's value there.
pub proof fn lemma_entries_map_at(s: Seq<(Seq<u8>, Seq<u8>)>, i: int)
    requires
        distinct_keys(s),
        0 <= i < s.len(),
    ensures
        entries_map(s).contains_key(s[i].0),
        entries_map(s)[s[i].0] == s[i].1,
{
    assert(has_key(s, s[i].0));
    let j = choose|j: int| 0 <= j < s.len() && (#[trigger] s[j]).0 == s[i].0;
    if i < j {
        assert(s[i].0 != s[j].0);
    } else if j < i {
        assert(s[j].0 != s[i].0);
    }
}

/// Placing a fresh key at any slot extends the map by exactly that binding.
pub proof fn lemma_entries_map_insert(s: Seq<(Seq<u8>, Seq<u8>)>, j: int, e: (Seq<u8>, Seq<u8>))
    requires
        0 <= j <= s.len(),
        distinct_keys(s),
        !has_key(s, e.0),
    ensures
        distinct_keys(s.insert(j, e)),
        entries_map(s.insert(j, e)) == entries_map(s).insert(e.0, e.1),
{
    let s2 = s.insert(j, e);
    assert forall|p: int, q: int| 0 <= p < q < s2.len() implies (#[trigger] s2[p]).0 != (
    #[trigger] s2[q]).0 by {
        let p0: int = if p < j { p } else { p - 1 };
        let q0: int = if q < j { q } else { q - 1 };
        if p == j {
            assert(s2[q] == s[q0]);
        } else if q == j {
            assert(s2[p] == s[p0]);
        } else {
            assert(s2[p] == s[p0] && s2[q] == s[q0]);
        }
    }
    assert forall|x: Seq<u8>| has_key(s2, x) <==> (has_key(s, x) || x == e.0) by {
        if has_key(s2, x) {
            let i = choose|i: int| 0 <= i < s2.len() && (#[trigger] s2[i]).0 == x;
            if i != j {
                let i0: int = if i < j { i } else { i - 1 };
                assert(s2[i] == s[i0]);
                assert(has_key(s, x));
            }
        }
        if has_key(s, x) {
            let i = choose|i: int| 0 <= i < s.len() && (#[trigger] s[i]).0 == x;
            let i2: int = if i < j { i } else { i + 1 };
            assert(s2[i2] == s[i]);
            assert(has_key(s2, x));
        }
        if x == e.0 {
            assert(s2[j] == e);
            assert(has_key(s2, x));
        }
    }
    assert forall|x: Seq<u8>| #[trigger] entries_map(s2).contains_key(x) implies entries_map(s2)[x]
        == entries_map(s).insert(e.0, e.1)[x] by {
        if x == e.0 {
            assert(s2[j] == e);
            lemma_entries_map_at(s2, j);
        } else {
            let i = choose|i: int| 0 <= i < s.len() && (#[trigger] s[i]).0 == x;
            let i2: int = if i < j { i } else { i + 1 };
            assert(s2[i2] == s[i]);
            lemma_entries_map_at(s2, i2);
            lemma_entries_map_at(s, i);
        }
    }
    assert(entries_map(s.insert(j, e)) =~= entries_map(s).insert(e.0, e.1));
}

/// Rewriting the value at a slot overwrites exactly that key's binding.
pub proof fn lemma_entries_map_update(s: Seq<(Seq<u8>, Seq<u8>)>, j: int, v: Seq<u8>)
    requires
        distinct_keys(s),
        0 <= j < s.len(),
    ensures
        distinct_keys(s.update(j, (s[j].0, v))),
        entries_map(s.update(j, (s[j].0, v))) == entries_map(s).insert(s[j].0, v),
{
    let k = s[j].0;
    let s2 = s.update(j, (k, v));
    assert forall|p: int, q: int| 0 <= p < q < s2.len() implies (#[trigger] s2[p]).0 != (
    #[trigger] s2[q]).0 by {
        assert(s2[p].0 == s[p].0 && s2[q].0 == s[q].0);
    }
    assert forall|x: Seq<u8>| has_key(s2, x) <==> has_key(s, x) by {
        if has_key(s2, x) {
            let i = choose|i: int| 0 <= i < s2.len() && (#[trigger] s2[i]).0 == x;
            assert(s[i].0 == x);
        }
        if has_key(s, x) {
            let i = choose|i: int| 0 <= i < s.len() && (#[trigger] s[i]).0 == x;
            assert(s2[i].0 == x);
        }
    }
    assert forall|x: Seq<u8>| #[trigger] entries_map(s2).contains_key(x) implies entries_map(s2)[x]
        == entries_map(s).insert(k, v)[x] by {
        if x == k {
            assert(s2[j] == (k, v));
            lemma_entries_map_at(s2, j);
        } else {
            let i = choose|i: int| 0 <= i < s.len() && (#[trigger] s[i]).0 == x;
            assert(i != j);
            assert(s2[i] == s[i]);
            lemma_entries_map_at(s2, i);
            lemma_entries_map_at(s, i);
        }
    }
    assert(entries_map(s2) =~= entries_map(s).insert(k, v));
}

/// Dropping the head of a tail segment moves the segment's start by one.
pub proof fn lemma_skip_shift(s: Seq<(Seq<u8>, Seq<u8>)>, n: int)
    requires
        0 <= n < s.len(),
    ensures
        s.skip(n).len() == s.len() - n,
        s.skip(n)[0] == s[n],
        s.skip(n).skip(1) =~= s.skip(n + 1),
{
    assert forall|i: int| 0 <= i < s.len() - n - 1 implies s.skip(n).skip(1)[i] == s.skip(n + 1)[i] by {
        assert(s.skip(n).skip(1)[i] == s.skip(n)[i + 1]);
        assert(s.skip(n)[i + 1] == s[n + 1 + i]);
        assert(s.skip(n + 1)[i] == s[n + 1 + i]);
    }
}

/// Dropping the head of a reversed prefix shortens the prefix by one.
pub proof fn lemma_rev_take_shift(s: Seq<(Seq<u8>, Seq<u8>)>, pos: int)
    requires
        1 <= pos <= s.len(),
    ensures
        rev_of(s.take(pos)).len() == pos,
        rev_of(s.take(pos))[0] == s[pos - 1],
        rev_of(s.take(pos - 1)) =~= rev_of(s.take(pos)).skip(1),
{
    assert forall|i: int| 0 <= i < pos - 1 implies rev_of(s.take(pos - 1))[i] == rev_of(
        s.take(pos),
    ).skip(1)[i] by {
        assert(rev_of(s.take(pos)).skip(1)[i] == rev_of(s.take(pos))[i + 1]);
        assert(rev_of(s.take(pos))[i + 1] == s.take(pos)[pos - 2 - i]);
        assert(rev_of(s.take(pos - 1))[i] == s.take(pos - 1)[pos - 2 - i]);
        assert(s.take(pos)[pos - 2 - i] == s[pos - 2 - i]);
        assert(s.take(pos - 1)[pos - 2 - i] == s[pos - 2 - i]);
    }
}

/// What a forward scan seeded at `k` must yield: the entries of `m` with
/// key at or after `k`, each exactly once, in strictly ascending key order.
pub open spec fn is_fwd_from(s: Seq<(Seq<u8>, Seq<u8>)>, m: Map<Seq<u8>, Seq<u8>>, k: Seq<u8>) -> bool {
    &&& strictly_ascending(s)
    &&& (forall|i: int| 0 <= i < s.len() ==> lex_le(k, (#[trigger] s[i]).0))
    &&& (forall|i: int|
        0 <= i < s.len() ==> m.contains_key((#[trigger] s[i]).0) && m[s[i].0] == s[i].1)
    &&& (forall|x: Seq<u8>| #[trigger] m.contains_key(x) && lex_le(k, x) ==> has_key(s, x))
}

/// What a reverse scan seeded at `k` must yield: the entries of `m` with
/// key at or before `k`, each exactly once, in strictly descending key order.
pub open spec fn is_rev_from(s: Seq<(Seq<u8>, Seq<u8>)>, m: Map<Seq<u8>, Seq<u8>>, k: Seq<u8>) -> bool {
    &&& strictly_descending(s)
    &&& (forall|i: int| 0 <= i < s.len() ==> lex_le((#[trigger] s[i]).0, k))
    &&& (forall|i: int|
        0 <= i < s.len() ==> m.contains_key((#[trigger] s[i]).0) && m[s[i].0] == s[i].1)
    &&& (forall|x: Seq<u8>| #[trigger] m.contains_key(x) && lex_le(x, k) ==> has_key(s, x))
}

/// What a scan seeded at `k` must yield, by direction.
pub open spec fn scan_from(
    s: Seq<(Seq<u8>, Seq<u8>)>,
    m: Map<Seq<u8>, Seq<u8>>,
    k: Seq<u8>,
    reverse: bool,
) -> bool {
    if reverse {
        is_rev_from(s, m, k)
    } else {
        is_fwd_from(s, m, k)
    }
}

} // verus!
