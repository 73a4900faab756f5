//! The access layer's laws, stated over the store's map model and the scan
//! predicates that the public contracts use, and proved once and for all.

use vstd::prelude::*;
use crate::model::distinct_keys;
use crate::model::has_key;
use crate::model::scan_from;
use crate::model::strictly_ascending;
use crate::model::strictly_descending;
use crate::model::lemma_ordered_distinct;
use crate::order::lex_le;
use crate::order::lex_lt;
use crate::order::lemma_lex_irrefl;
use crate::order::lemma_lex_trans;

verus! {

/// Law: a write followed by a read of the same key finds exactly the
/// written value. `put_item` turns the contents into this insertion, and
/// `get_item` reports membership and value of the contents, so the two
/// calls in sequence return the value just written.
pub proof fn lemma_put_then_get(m: Map<Seq<u8>, Seq<u8>>, k: Seq<u8>, v: Seq<u8>)
    ensures
        m.insert(k, v).contains_key(k),
        m.insert(k, v)[k] == v,
{
}

/// Law: a key never written is reported absent, and absence is not an
/// error. A fresh store holds nothing, and a write leaves every other key
/// untouched, so `get_item` on an unwritten key answers `Ok(false)`.
pub proof fn lemma_never_written_absent(
    m: Map<Seq<u8>, Seq<u8>>,
    k: Seq<u8>,
    v: Seq<u8>,
    other: Seq<u8>,
)
    requires
        other != k,
    ensures
        !Map::<Seq<u8>, Seq<u8>>::empty().contains_key(other),
        m.insert(k, v).contains_key(other) == m.contains_key(other),
        m.contains_key(other) ==> m.insert(k, v)[other] == m[other],
{
}

/// Law: of two writes under one key, the second wins: a read after both
/// finds the later value.
pub proof fn lemma_overwrite(m: Map<Seq<u8>, Seq<u8>>, k: Seq<u8>, v1: Seq<u8>, v2: Seq<u8>)
    ensures
        m.insert(k, v1).insert(k, v2).contains_key(k),
        m.insert(k, v1).insert(k, v2)[k] == v2,
{
}

/// Two strictly ordered entry sequences that draw their pairs from one map
/// and carry the same keys are the same sequence.
proof fn lemma_ordered_unique(
    s1: Seq<(Seq<u8>, Seq<u8>)>,
    s2: Seq<(Seq<u8>, Seq<u8>)>,
    m: Map<Seq<u8>, Seq<u8>>,
    rev: bool,
)
    requires
        rev ==> strictly_descending(s1) && strictly_descending(s2),
        !rev ==> strictly_ascending(s1) && strictly_ascending(s2),
        forall|i: int|
            0 <= i < s1.len() ==> m.contains_key((#[trigger] s1[i]).0) && m[s1[i].0] == s1[i].1,
        forall|i: int|
            0 <= i < s2.len() ==> m.contains_key((#[trigger] s2[i]).0) && m[s2[i].0] == s2[i].1,
        forall|x: Seq<u8>| has_key(s1, x) <==> has_key(s2, x),
    ensures
        s1 == s2,
    decreases s1.len(),
{
    lemma_ordered_distinct(s1);
    lemma_ordered_distinct(s2);
    if s1.len() == 0 {
        if s2.len() > 0 {
            assert(has_key(s2, s2[0].0));
            assert(has_key(s1, s2[0].0));
            assert(false);
        }
        assert(s1 =~= s2);
    } else {
        assert(has_key(s1, s1[0].0));
        assert(has_key(s2, s1[0].0));
        let i2 = choose|i: int| 0 <= i < s2.len() && (#[trigger] s2[i]).0 == s1[0].0;
        assert(0 <= i2 < s2.len() && s2[i2].0 == s1[0].0);
        assert(has_key(s2, s2[0].0));
        assert(has_key(s1, s2[0].0));
        let i1 = choose|i: int| 0 <= i < s1.len() && (#[trigger] s1[i]).0 == s2[0].0;
        assert(0 <= i1 < s1.len() && s1[i1].0 == s2[0].0);
        if i1 > 0 && i2 > 0 {
            assert(lex_lt(s1[0].0, s2[0].0) && lex_lt(s2[0].0, s1[0].0));
            lemma_lex_trans(s1[0].0, s2[0].0, s1[0].0);
            lemma_lex_irrefl(s1[0].0);
            assert(false);
        }
        assert(s1[0].0 == s2[0].0);
        assert(s1[0] == s2[0]);
        let t1 = s1.skip(1);
        let t2 = s2.skip(1);
        assert forall|i: int| 0 <= i < t1.len() implies t1[i] == s1[i + 1] by {}
        assert forall|i: int| 0 <= i < t2.len() implies t2[i] == s2[i + 1] by {}
        assert forall|x: Seq<u8>| has_key(t1, x) <==> has_key(t2, x) by {
            lemma_tail_membership(s1, x);
            lemma_tail_membership(s2, x);
            assert(s1[0] == s2[0]);
        }
        lemma_ordered_unique(t1, t2, m, rev);
        assert(s1.len() == s2.len());
        assert forall|i: int| 0 <= i < s1.len() implies s1[i] == s2[i] by {
            if i > 0 {
                assert(s1[i] == t1[i - 1]);
                assert(s2[i] == t2[i - 1]);
            }
        }
        assert(s1 =~= s2);
    }
}

/// A key lives in the tail of a distinct-keyed sequence exactly when it
/// lives in the sequence and is not the head's key.
proof fn lemma_tail_membership(s: Seq<(Seq<u8>, Seq<u8>)>, x: Seq<u8>)
    requires
        s.len() > 0,
        distinct_keys(s),
    ensures
        has_key(s.skip(1), x) <==> (has_key(s, x) && x != s[0].0),
{
    let t = s.skip(1);
    if has_key(t, x) {
        let i = choose|i: int| 0 <= i < t.len() && (#[trigger] t[i]).0 == x;
        assert(t[i] == s[i + 1]);
        assert(has_key(s, x));
        assert(s[0].0 != s[i + 1].0);
    }
    if has_key(s, x) && x != s[0].0 {
        let i = choose|i: int| 0 <= i < s.len() && (#[trigger] s[i]).0 == x;
        assert(i > 0);
        assert(t[i - 1] == s[i]);
        assert(has_key(t, x));
    }
}

/// Law: what a scan yields is a function of the store contents, the seek
/// key and the direction alone. Two cursors built over the same handle
/// deliver their entries independently of one another: each one's yield is
/// already pinned down by its own seek key and direction.
pub proof fn lemma_scan_deterministic(
    s1: Seq<(Seq<u8>, Seq<u8>)>,
    s2: Seq<(Seq<u8>, Seq<u8>)>,
    m: Map<Seq<u8>, Seq<u8>>,
    k: Seq<u8>,
    reverse: bool,
)
    requires
        scan_from(s1, m, k, reverse),
        scan_from(s2, m, k, reverse),
    ensures
        s1 == s2,
{
    assert forall|x: Seq<u8>| has_key(s1, x) <==> has_key(s2, x) by {
        if has_key(s1, x) {
            let i = choose|i: int| 0 <= i < s1.len() && (#[trigger] s1[i]).0 == x;
            assert(m.contains_key(x));
            if reverse {
                assert(lex_le(x, k));
            } else {
                assert(lex_le(k, x));
            }
        }
        if has_key(s2, x) {
            let i = choose|i: int| 0 <= i < s2.len() && (#[trigger] s2[i]).0 == x;
            assert(m.contains_key(x));
            if reverse {
                assert(lex_le(x, k));
            } else {
                assert(lex_le(k, x));
            }
        }
    }
    lemma_ordered_unique(s1, s2, m, reverse);
}

} // verus!
