//! The key-value handle and the directional cursor over its sorted key
//! space. The handle keeps its entries strictly sorted in byte-lexicographic
//! key order; a cursor is seeded at a seek key, walks forward or backward,
//! and feeds a caller-supplied visitor until the visitor declines or the
//! key space is exhausted.

use vstd::prelude::*;
use crate::errs::OpenError;
use crate::errs::ReadError;
use crate::errs::WriteError;
use crate::model::entries_map;
use crate::model::has_key;
use crate::model::is_fwd_from;
use crate::model::is_rev_from;
use crate::model::lemma_entries_map_at;
use crate::model::lemma_entries_map_insert;
use crate::model::lemma_entries_map_update;
use crate::model::lemma_ordered_distinct;
use crate::model::lemma_rev_take_shift;
use crate::model::lemma_skip_shift;
use crate::model::rev_of;
use crate::model::scan_from;
use crate::model::strictly_ascending;
use crate::order::bytes_eq;
use crate::order::bytes_lt;
use crate::order::lex_le;
use crate::order::lex_lt;
use crate::order::lemma_lex_asym;
use crate::order::lemma_lex_irrefl;
use crate::order::lemma_lex_total;
use crate::order::lemma_lex_trans;

verus! {

/// A handle on one sorted key-value store: opaque byte-string keys mapped
/// to opaque byte-string values, kept in byte-lexicographic key order.
pub struct AtomDB {
    entries: Vec<(Vec<u8>, Vec<u8>)>,
}

/// No entry of a strictly ascending segment carries `k` when everything
/// before slot `i` is below `k` and slot `i`, if any, is above or unequal.
proof fn lemma_absent(s: Seq<(Seq<u8>, Seq<u8>)>, k: Seq<u8>, i: int)
    requires
        strictly_ascending(s),
        0 <= i <= s.len(),
        forall|j: int| 0 <= j < i ==> lex_lt((#[trigger] s[j]).0, k),
        i < s.len() ==> lex_le(k, s[i].0) && s[i].0 != k,
    ensures
        !has_key(s, k),
{
    assert forall|j: int| 0 <= j < s.len() implies (#[trigger] s[j]).0 != k by {
        if j < i {
            lemma_lex_irrefl(k);
        } else if j > i {
            lemma_lex_trans(k, s[i].0, s[j].0);
            lemma_lex_irrefl(k);
        }
    }
}

impl AtomDB {
    /// The stored entries as mathematical pairs, in engine key order.
    pub closed spec fn entry_seq(&self) -> Seq<(Seq<u8>, Seq<u8>)> {
        Seq::new(self.entries@.len(), |i: int| (self.entries@[i].0@, self.entries@[i].1@))
    }

    /// Well-formed: keys strictly ascending, hence each key held once.
    pub closed spec fn inv(&self) -> bool {
        strictly_ascending(self.entry_seq())
    }

    /// The store's contents as a map from keys to values.
    pub closed spec fn contents(&self) -> Map<Seq<u8>, Seq<u8>> {
        entries_map(self.entry_seq())
    }

    /// Opens a store. This engine keeps the key space in memory and binds
    /// no resource to the path, so opening always succeeds, with an empty
    /// key space.
    pub fn new(_path: &str) -> (r: Result<AtomDB, OpenError>)
        ensures
            r is Ok,
            r matches Ok(db) ==> db.inv() && db.contents() == Map::<Seq<u8>, Seq<u8>>::empty(),
    {
        let db = AtomDB { entries: Vec::new() };
        proof {
            assert(!has_key(db.entry_seq(), arbitrary()));
            assert(db.contents() =~= Map::<Seq<u8>, Seq<u8>>::empty());
        }
        Ok(db)
    }

    /// The slot of the first key at or after `key`.
    fn lower_bound(&self, key: &[u8]) -> (i: usize)
        requires
            self.inv(),
        ensures
            0 <= i <= self.entry_seq().len(),
            forall|j: int| 0 <= j < i ==> lex_lt((#[trigger] self.entry_seq()[j]).0, key@),
            i < self.entry_seq().len() ==> lex_le(key@, self.entry_seq()[i as int].0),
    {
        let n = self.entries.len();
        let mut i: usize = 0;
        while i < n
            invariant
                self.inv(),
                i <= n,
                n == self.entries.len(),
                forall|j: int| 0 <= j < i ==> lex_lt((#[trigger] self.entry_seq()[j]).0, key@),
            decreases n - i,
        {
            if !bytes_lt(self.entries[i].0.as_slice(), key) {
                proof {
                    lemma_lex_total(key@, self.entry_seq()[i as int].0);
                }
                return i;
            }
            i += 1;
        }
        i
    }

    /// The slot of the first key strictly after `key`.
    fn upper_bound(&self, key: &[u8]) -> (i: usize)
        requires
            self.inv(),
        ensures
            0 <= i <= self.entry_seq().len(),
            forall|j: int| 0 <= j < i ==> lex_le((#[trigger] self.entry_seq()[j]).0, key@),
            i < self.entry_seq().len() ==> lex_lt(key@, self.entry_seq()[i as int].0),
    {
        let n = self.entries.len();
        let mut i: usize = 0;
        while i < n
            invariant
                self.inv(),
                i <= n,
                n == self.entries.len(),
                forall|j: int| 0 <= j < i ==> lex_le((#[trigger] self.entry_seq()[j]).0, key@),
            decreases n - i,
        {
            if bytes_lt(key, self.entries[i].0.as_slice()) {
                return i;
            }
            proof {
                lemma_lex_total(self.entry_seq()[i as int].0, key@);
            }
            i += 1;
        }
        i
    }

    /// Writes `value` under `key`, overwriting any earlier value for that
    /// key. This engine applies every write, so the result is always `Ok`.
    pub fn put_item(&mut self, key: &[u8], value: &[u8]) -> (r: Result<(), WriteError>)
        requires
            old(self).inv(),
        ensures
            final(self).inv(),
            r is Ok,
            final(self).contents() == old(self).contents().insert(key@, value@),
    {
        let ghost s = self.entry_seq();
        proof {
            lemma_ordered_distinct(s);
        }
        let i = self.lower_bound(key);
        if i < self.entries.len() && bytes_eq(self.entries[i].0.as_slice(), key) {
            let slot = self.entries.remove(i);
            self.entries.insert(i, (slot.0, vstd::slice::slice_to_vec(value)));
            proof {
                assert(self.entry_seq() =~= s.update(i as int, (key@, value@)));
                assert(s[i as int].0 == key@);
                lemma_entries_map_update(s, i as int, value@);
                assert forall|p: int, q: int|
                    0 <= p < q < self.entry_seq().len() implies lex_lt(
                    (#[trigger] self.entry_seq()[p]).0,
                    (#[trigger] self.entry_seq()[q]).0,
                ) by {
                    assert(self.entry_seq()[p].0 == s[p].0);
                    assert(self.entry_seq()[q].0 == s[q].0);
                }
            }
        } else {
            let e = (vstd::slice::slice_to_vec(key), vstd::slice::slice_to_vec(value));
            self.entries.insert(i, e);
            proof {
                assert(self.entry_seq() =~= s.insert(i as int, (key@, value@)));
                lemma_absent(s, key@, i as int);
                lemma_entries_map_insert(s, i as int, (key@, value@));
                let s2 = s.insert(i as int, (key@, value@));
                assert forall|p: int, q: int|
                    0 <= p < q < s2.len() implies lex_lt(
                    (#[trigger] s2[p]).0,
                    (#[trigger] s2[q]).0,
                ) by {
                    let p0: int = if p < i { p } else { p - 1 };
                    let q0: int = if q < i { q } else { q - 1 };
                    if p == i {
                        // the fresh key sits strictly below every later key
                        assert(s2[q] == s[q0] && q0 >= i && i < s.len());
                        assert(lex_le(key@, s[i as int].0) && s[i as int].0 != key@);
                        if q0 > i {
                            lemma_lex_trans(key@, s[i as int].0, s[q0].0);
                        }
                    } else if q == i {
                        // every earlier key sits strictly below the fresh key
                        assert(s2[p] == s[p0] && p0 < i);
                    } else {
                        // two old entries keep their relative order
                        assert(s2[p] == s[p0] && s2[q] == s[q0] && p0 < q0);
                    }
                }
            }
        }
        Ok(())
    }

    /// Looks `key` up. On a hit the stored value is appended to `buf` —
    /// existing contents are kept, not cleared — and `Ok(true)` comes back;
    /// on a miss `buf` is untouched and `Ok(false)` comes back. Absence is
    /// never an error, and this engine cannot fail a read.
    pub fn get_item(&self, key: &[u8], buf: &mut Vec<u8>) -> (r: Result<bool, ReadError>)
        requires
            self.inv(),
        ensures
            r is Ok,
            r matches Ok(found) ==> found == self.contents().contains_key(key@),
            self.contents().contains_key(key@) ==> final(buf)@ == old(buf)@
                + self.contents()[key@],
            !self.contents().contains_key(key@) ==> final(buf)@ == old(buf)@,
    {
        proof {
            lemma_ordered_distinct(self.entry_seq());
        }
        let i = self.lower_bound(key);
        if i < self.entries.len() && bytes_eq(self.entries[i].0.as_slice(), key) {
            proof {
                lemma_entries_map_at(self.entry_seq(), i as int);
            }
            let v = &self.entries[i].1;
            let n = v.len();
            let mut j: usize = 0;
            while j < n
                invariant
                    j <= n,
                    n == v.len(),
                    buf@ == old(buf)@ + v@.take(j as int),
                decreases n - j,
            {
                buf.push(v[j]);
                proof {
                    assert(old(buf)@ + v@.take(j as int) + seq![v@[j as int]] =~= old(buf)@
                        + v@.take(j as int + 1));
                }
                j += 1;
            }
            proof {
                assert(v@.take(n as int) =~= v@);
                assert(v@ == self.contents()[key@]);
            }
            Ok(true)
        } else {
            proof {
                lemma_absent(self.entry_seq(), key@, i as int);
            }
            Ok(false)
        }
    }

    /// Builds a cursor over this store, seeded at `seek`, scanning in the
    /// given direction. A seek miss is not a failure: the cursor simply
    /// starts out exhausted.
    pub fn query<'a>(&'a self, seek: &'a [u8], scan_reverse: bool) -> (r: QueryIter<'a>)
        requires
            self.inv(),
        ensures
            r.wf(),
            r.dir() == scan_reverse,
            r.space() == self.contents(),
            scan_from(r.rest(), self.contents(), seek@, scan_reverse),
    {
        QueryIter::new(self, seek, scan_reverse)
    }
}

/// A forward cursor seeded at the first key at or after `k` yields exactly
/// the stored entries with key at or after `k`, in ascending order.
proof fn lemma_fwd_scan(s: Seq<(Seq<u8>, Seq<u8>)>, k: Seq<u8>, pos: int)
    requires
        strictly_ascending(s),
        0 <= pos <= s.len(),
        forall|j: int| 0 <= j < pos ==> lex_lt((#[trigger] s[j]).0, k),
        pos < s.len() ==> lex_le(k, s[pos].0),
    ensures
        is_fwd_from(s.skip(pos), entries_map(s), k),
{
    lemma_ordered_distinct(s);
    let t = s.skip(pos);
    assert forall|i: int| 0 <= i < t.len() implies lex_le(k, (#[trigger] t[i]).0) by {
        assert(t[i] == s[pos + i]);
        if i > 0 {
            if k == s[pos].0 {
            } else {
                lemma_lex_trans(k, s[pos].0, s[pos + i].0);
            }
        }
    }
    assert forall|i: int|
        0 <= i < t.len() implies entries_map(s).contains_key((#[trigger] t[i]).0) && entries_map(
        s,
    )[t[i].0] == t[i].1 by {
        assert(t[i] == s[pos + i]);
        lemma_entries_map_at(s, pos + i);
    }
    assert forall|x: Seq<u8>| #[trigger]
        entries_map(s).contains_key(x) && lex_le(k, x) implies has_key(t, x) by {
        let i = choose|i: int| 0 <= i < s.len() && (#[trigger] s[i]).0 == x;
        if i < pos {
            lemma_lex_asym(x, k);
            lemma_lex_irrefl(x);
        }
        assert(t[i - pos] == s[i]);
    }
    assert forall|p: int, q: int|
        0 <= p < q < t.len() implies lex_lt((#[trigger] t[p]).0, (#[trigger] t[q]).0) by {
        assert(t[p] == s[pos + p] && t[q] == s[pos + q]);
    }
}

/// A reverse cursor seeded at the last key at or before `k` yields exactly
/// the stored entries with key at or before `k`, in descending order.
proof fn lemma_rev_scan(s: Seq<(Seq<u8>, Seq<u8>)>, k: Seq<u8>, pos: int)
    requires
        strictly_ascending(s),
        0 <= pos <= s.len(),
        forall|j: int| 0 <= j < pos ==> lex_le((#[trigger] s[j]).0, k),
        pos < s.len() ==> lex_lt(k, s[pos].0),
    ensures
        is_rev_from(rev_of(s.take(pos)), entries_map(s), k),
{
    lemma_ordered_distinct(s);
    let t = rev_of(s.take(pos));
    assert(t.len() == pos);
    assert forall|i: int| 0 <= i < t.len() implies lex_le((#[trigger] t[i]).0, k) by {
        assert(t[i] == s[pos - 1 - i]);
    }
    assert forall|i: int|
        0 <= i < t.len() implies entries_map(s).contains_key((#[trigger] t[i]).0) && entries_map(
        s,
    )[t[i].0] == t[i].1 by {
        assert(t[i] == s[pos - 1 - i]);
        lemma_entries_map_at(s, pos - 1 - i);
    }
    assert forall|x: Seq<u8>| #[trigger]
        entries_map(s).contains_key(x) && lex_le(x, k) implies has_key(t, x) by {
        let i = choose|i: int| 0 <= i < s.len() && (#[trigger] s[i]).0 == x;
        if i >= pos {
            if i > pos {
                lemma_lex_trans(k, s[pos].0, s[i].0);
            }
            lemma_lex_asym(k, x);
            lemma_lex_irrefl(x);
        }
        assert(t[pos - 1 - i] == s[i]);
    }
    assert forall|p: int, q: int|
        0 <= p < q < t.len() implies lex_lt((#[trigger] t[q]).0, (#[trigger] t[p]).0) by {
        assert(t[p] == s[pos - 1 - p] && t[q] == s[pos - 1 - q]);
    }
}

/// The visitor, when handed borrowed views of this entry, can answer with
/// this continuation signal.
pub open spec fn delivered<F: FnMut(&[u8], &[u8]) -> bool>(
    f: F,
    e: (Seq<u8>, Seq<u8>),
    cont: bool,
) -> bool {
    exists|k: &[u8], v: &[u8]| k@ == e.0 && v@ == e.1 && #[trigger] call_ensures(f, (k, v), cont)
}

/// A traversal consumed the first `n` pending entries: the visitor accepted
/// each of them, and, if anything is left pending, the visitor declined the
/// entry now at the front.
pub open spec fn visited_prefix<F: FnMut(&[u8], &[u8]) -> bool>(
    f: F,
    before: Seq<(Seq<u8>, Seq<u8>)>,
    after: Seq<(Seq<u8>, Seq<u8>)>,
    n: int,
) -> bool {
    &&& 0 <= n <= before.len()
    &&& after == before.skip(n)
    &&& (forall|j: int| 0 <= j < n ==> delivered(f, #[trigger] before[j], true))
    &&& (after.len() > 0 ==> delivered(f, before[n], false))
}

/// A single-use directional cursor over one store's sorted key space,
/// seeded at a seek key at construction.
pub struct QueryIter<'a> {
    db: &'a AtomDB,
    pos: usize,
    reverse: bool,
}

impl<'a> QueryIter<'a> {
    /// The scan direction: `true` is descending.
    pub closed spec fn dir(&self) -> bool {
        self.reverse
    }

    /// Well-formed: the store is sorted and the position is in range.
    pub closed spec fn wf(&self) -> bool {
        &&& self.db.inv()
        &&& self.pos <= self.db.entry_seq().len()
    }

    /// The contents of the store this cursor reads.
    pub closed spec fn space(&self) -> Map<Seq<u8>, Seq<u8>> {
        self.db.contents()
    }

    /// The entries this cursor has yet to deliver, in delivery order.
    pub closed spec fn rest(&self) -> Seq<(Seq<u8>, Seq<u8>)> {
        if self.reverse {
            rev_of(self.db.entry_seq().take(self.pos as int))
        } else {
            self.db.entry_seq().skip(self.pos as int)
        }
    }

    /// Builds a cursor over `db` seeded at `seek`: forward scans start at
    /// the first key at or after `seek`, reverse scans at the last key at
    /// or before it; with no such key the cursor starts out exhausted.
    pub fn new(db: &'a AtomDB, seek: &[u8], reverse: bool) -> (r: QueryIter<'a>)
        requires
            db.inv(),
        ensures
            r.wf(),
            r.dir() == reverse,
            r.space() == db.contents(),
            scan_from(r.rest(), db.contents(), seek@, reverse),
    {
        if reverse {
            let pos = db.upper_bound(seek);
            let r = QueryIter { db, pos, reverse };
            proof {
                lemma_rev_scan(db.entry_seq(), seek@, pos as int);
            }
            r
        } else {
            let pos = db.lower_bound(seek);
            let r = QueryIter { db, pos, reverse };
            proof {
                lemma_fwd_scan(db.entry_seq(), seek@, pos as int);
            }
            r
        }
    }

    /// Drives the cursor: repeatedly hands the current key and value to the
    /// visitor — borrowed views, valid only for that invocation — and then
    /// steps in the cursor's direction, until the visitor answers `false`
    /// (that entry was still delivered) or the key space is exhausted.
    pub fn each<F: FnMut(&[u8], &[u8]) -> bool>(&mut self, f: F)
        requires
            old(self).wf(),
            forall|k: &[u8], v: &[u8]| call_requires(f, (k, v)),
        ensures
            final(self).wf(),
            final(self).dir() == old(self).dir(),
            final(self).space() == old(self).space(),
            exists|n: int| visited_prefix(f, old(self).rest(), final(self).rest(), n),
            (forall|a: &[u8], b: &[u8], c: bool| call_ensures(f, (a, b), c) ==> c)
                ==> final(self).rest().len() == 0,
    {
        let ghost t0 = self.rest();
        let mut g = f;
        let ghost mut n: int = 0;
        loop
            invariant
                self.wf(),
                self.db == old(self).db,
                self.reverse == old(self).reverse,
                g == f,
                forall|k: &[u8], v: &[u8]| call_requires(f, (k, v)),
                0 <= n <= t0.len(),
                self.rest() == t0.skip(n),
                forall|j: int| 0 <= j < n ==> delivered(f, #[trigger] t0[j], true),
                t0 == old(self).rest(),
            decreases t0.len() - n,
        {
            let db = self.db;
            if self.reverse {
                if self.pos == 0 {
                    proof {
                        assert(self.rest().len() == 0);
                        assert(visited_prefix(f, t0, self.rest(), n));
                    }
                    return;
                }
                let e = &db.entries[self.pos - 1];
                proof {
                    lemma_rev_take_shift(db.entry_seq(), self.pos as int);
                    lemma_skip_shift(t0, n);
                    assert(self.rest()[0] == db.entry_seq()[self.pos as int - 1]);
                    assert(t0[n] == (e.0@, e.1@));
                }
                let cont = g(e.0.as_slice(), e.1.as_slice());
                if !cont {
                    proof {
                        assert(delivered(f, t0[n], false));
                        assert(visited_prefix(f, t0, self.rest(), n));
                    }
                    return;
                }
                proof {
                    assert(delivered(f, t0[n], true));
                }
                self.pos = self.pos - 1;
                proof {
                    n = n + 1;
                    assert(self.rest() =~= t0.skip(n));
                }
            } else {
                if self.pos == db.entries.len() {
                    proof {
                        assert(self.rest().len() == 0);
                        assert(visited_prefix(f, t0, self.rest(), n));
                    }
                    return;
                }
                let e = &db.entries[self.pos];
                proof {
                    lemma_skip_shift(db.entry_seq(), self.pos as int);
                    lemma_skip_shift(t0, n);
                    assert(self.rest()[0] == db.entry_seq()[self.pos as int]);
                    assert(t0[n] == (e.0@, e.1@));
                }
                let cont = g(e.0.as_slice(), e.1.as_slice());
                if !cont {
                    proof {
                        assert(delivered(f, t0[n], false));
                        assert(visited_prefix(f, t0, self.rest(), n));
                    }
                    return;
                }
                proof {
                    assert(delivered(f, t0[n], true));
                }
                self.pos = self.pos + 1;
                proof {
                    n = n + 1;
                    assert(self.rest() =~= t0.skip(n));
                }
            }
        }
    }
}

} // verus!
