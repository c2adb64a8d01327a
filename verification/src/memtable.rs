use crate::keys::{key_lt, lemma_lex_irrefl, lemma_lex_trans, lemma_lex_trichotomy, lex_lt};
use crate::Value;
use vstd::prelude::*;

verus! {

// The in-memory table: an ordered mapping from key to value (tombstones
// included) with byte-accurate approximate size accounting. The entries are
// held sorted by key, strictly, so the table is a finite map and a drain
// yields the entries already in ascending key order.

/// The payload length a value contributes to the size estimate.
pub open spec fn stored_len(v: Option<Seq<u8>>) -> nat {
    match v {
        Some(b) => b.len(),
        None => 0,
    }
}

/// The size estimate of one entry: key bytes, value bytes, and a fixed
/// 40-byte allowance for per-entry bookkeeping.
pub open spec fn entry_size(key: Seq<u8>, v: Option<Seq<u8>>) -> nat {
    key.len() + stored_len(v) + 40
}

/// The size estimate of a whole entry list.
pub open spec fn entries_size(s: Seq<(Vec<u8>, Value)>) -> nat
    decreases s.len(),
{
    if s.len() == 0 {
        0
    } else {
        entries_size(s.drop_last()) + entry_size(s.last().0@, s.last().1@)
    }
}

/// The finite map an entry list denotes; a later entry for the same key
/// shadows an earlier one.
pub open spec fn entries_map(s: Seq<(Vec<u8>, Value)>) -> Map<Seq<u8>, Option<Seq<u8>>>
    decreases s.len(),
{
    if s.len() == 0 {
        Map::empty()
    } else {
        entries_map(s.drop_last()).insert(s.last().0@, s.last().1@)
    }
}

/// Keys strictly ascend.
pub open spec fn sorted_strict(s: Seq<(Vec<u8>, Value)>) -> bool {
    forall|i: int, j: int| 0 <= i < j < s.len() ==> lex_lt(s[i].0@, s[j].0@)
}

pub open spec fn keys_distinct(s: Seq<(Vec<u8>, Value)>) -> bool {
    forall|i: int, j: int| 0 <= i < j < s.len() ==> s[i].0@ != s[j].0@
}

pub proof fn lemma_sorted_distinct(s: Seq<(Vec<u8>, Value)>)
    requires
        sorted_strict(s),
    ensures
        keys_distinct(s),
{
    assert forall|i: int, j: int| 0 <= i < j < s.len() implies s[i].0@ != s[j].0@ by {
        lemma_lex_irrefl(s[i].0@);
    }
}

/// A distinct entry list and its map agree entry by entry: each listed key
/// maps to its listed value, and nothing else is in the map.
pub proof fn lemma_entries_map_char(s: Seq<(Vec<u8>, Value)>)
    requires
        keys_distinct(s),
    ensures
        forall|i: int|
            0 <= i < s.len() ==> entries_map(s).contains_key(#[trigger] s[i].0@) && entries_map(
                s,
            )[s[i].0@] == s[i].1@,
        forall|k: Seq<u8>|
            #[trigger] entries_map(s).contains_key(k) ==> exists|i: int|
                0 <= i < s.len() && s[i].0@ == k,
    decreases s.len(),
{
    if s.len() > 0 {
        let s0 = s.drop_last();
        let last = s.last();
        assert(keys_distinct(s0)) by {
            assert forall|i: int, j: int| 0 <= i < j < s0.len() implies s0[i].0@ != s0[j].0@ by {
                assert(s0[i] == s[i] && s0[j] == s[j]);
            }
        }
        lemma_entries_map_char(s0);
        let m = entries_map(s);
        let m0 = entries_map(s0);
        assert forall|i: int| 0 <= i < s.len() implies m.contains_key(#[trigger] s[i].0@)
            && m[s[i].0@] == s[i].1@ by {
            if i < s.len() - 1 {
                assert(s0[i] == s[i]);
                assert(s[i].0@ != last.0@);
                assert(m0.contains_key(s[i].0@) && m0[s[i].0@] == s[i].1@);
            }
        }
        assert forall|k: Seq<u8>| #[trigger] m.contains_key(k) implies exists|i: int|
            0 <= i < s.len() && s[i].0@ == k by {
            if k == last.0@ {
                assert(s[s.len() - 1].0@ == k);
            } else {
                assert(m0.contains_key(k));
                let i = choose|i: int| 0 <= i < s0.len() && s0[i].0@ == k;
                assert(s[i].0@ == k);
            }
        }
    }
}

/// Each entry contributes at least its fixed allowance, so the size of a
/// non-empty list is strictly positive.
pub proof fn lemma_entries_size_bounds(s: Seq<(Vec<u8>, Value)>)
    ensures
        entries_size(s) >= 40 * s.len(),
        (entries_size(s) == 0) == (s.len() == 0),
    decreases s.len(),
{
    if s.len() > 0 {
        lemma_entries_size_bounds(s.drop_last());
    }
}

/// Inserting an entry at any position adds exactly its size.
pub proof fn lemma_entries_size_insert(s: Seq<(Vec<u8>, Value)>, p: int, e: (Vec<u8>, Value))
    requires
        0 <= p <= s.len(),
    ensures
        entries_size(s.insert(p, e)) == entries_size(s) + entry_size(e.0@, e.1@),
    decreases s.len(),
{
    let s2 = s.insert(p, e);
    if p == s.len() {
        assert(s2.drop_last() =~= s);
        assert(s2.last() == e);
    } else {
        assert(s2.last() == s.last());
        assert(s2.drop_last() =~= s.drop_last().insert(p, e));
        lemma_entries_size_insert(s.drop_last(), p, e);
    }
}

/// Replacing the entry at a position swaps its size contribution.
proof fn lemma_entries_size_update(s: Seq<(Vec<u8>, Value)>, p: int, e: (Vec<u8>, Value))
    requires
        0 <= p < s.len(),
    ensures
        entries_size(s.update(p, e)) == entries_size(s) - entry_size(s[p].0@, s[p].1@)
            + entry_size(e.0@, e.1@),
    decreases s.len(),
{
    let s2 = s.update(p, e);
    if p == s.len() - 1 {
        assert(s2.drop_last() =~= s.drop_last());
        assert(s2.last() == e);
    } else {
        assert(s2.last() == s.last());
        assert(s2.drop_last() =~= s.drop_last().update(p, e));
        lemma_entries_size_update(s.drop_last(), p, e);
    }
}

/// Inserting a new key at its sorted position keeps the list sorted and
/// inserts the pair into the denoted map.
pub proof fn lemma_sorted_insert(s: Seq<(Vec<u8>, Value)>, p: int, e: (Vec<u8>, Value))
    requires
        sorted_strict(s),
        0 <= p <= s.len(),
        forall|i: int| 0 <= i < p ==> lex_lt(#[trigger] s[i].0@, e.0@),
        forall|i: int| p <= i < s.len() ==> lex_lt(e.0@, #[trigger] s[i].0@),
    ensures
        sorted_strict(s.insert(p, e)),
        entries_map(s.insert(p, e)) == entries_map(s).insert(e.0@, e.1@),
        entries_size(s.insert(p, e)) == entries_size(s) + entry_size(e.0@, e.1@),
{
    let s2 = s.insert(p, e);
    assert forall|i: int, j: int| 0 <= i < j < s2.len() implies lex_lt(s2[i].0@, s2[j].0@) by {
        if i < p && j < p {
            assert(s2[i] == s[i] && s2[j] == s[j]);
        } else if i < p && j == p {
            assert(s2[i] == s[i]);
        } else if i < p && j > p {
            assert(s2[i] == s[i] && s2[j] == s[j - 1]);
        } else if i == p {
            assert(s2[j] == s[j - 1]);
        } else {
            assert(s2[i] == s[i - 1] && s2[j] == s[j - 1]);
        }
    }
    lemma_entries_size_insert(s, p, e);
    lemma_sorted_distinct(s);
    lemma_sorted_distinct(s2);
    lemma_entries_map_char(s);
    lemma_entries_map_char(s2);
    let m2 = entries_map(s2);
    let mt = entries_map(s).insert(e.0@, e.1@);
    assert forall|k: Seq<u8>| #![auto] m2.contains_key(k) implies mt.contains_key(k) && m2[k]
        == mt[k] by {
        let i = choose|i: int| 0 <= i < s2.len() && s2[i].0@ == k;
        if i == p {
            assert(m2[k] == e.1@);
        } else {
            let iorig: int = if i < p {
                i
            } else {
                i - 1
            };
            assert(s[iorig] == s2[i]);
            assert(entries_map(s).contains_key(k) && entries_map(s)[k] == s[iorig].1@);
            assert(k != e.0@) by {
                if i < p {
                    lemma_lex_irrefl(e.0@);
                } else {
                    lemma_lex_irrefl(e.0@);
                }
            }
        }
    }
    assert forall|k: Seq<u8>| #![auto] mt.contains_key(k) implies m2.contains_key(k) by {
        if k == e.0@ {
            assert(s2[p].0@ == k);
        } else {
            assert(entries_map(s).contains_key(k));
            let i = choose|i: int| 0 <= i < s.len() && s[i].0@ == k;
            let i2: int = if i < p {
                i
            } else {
                i + 1
            };
            assert(s2[i2] == s[i]);
        }
    }
    assert(m2 =~= mt);
}

/// Overwriting the entry for an existing key keeps the list sorted and
/// updates the denoted map at that key.
pub proof fn lemma_sorted_update(s: Seq<(Vec<u8>, Value)>, p: int, e: (Vec<u8>, Value))
    requires
        sorted_strict(s),
        0 <= p < s.len(),
        s[p].0@ == e.0@,
    ensures
        sorted_strict(s.update(p, e)),
        entries_map(s.update(p, e)) == entries_map(s).insert(e.0@, e.1@),
        entries_size(s.update(p, e)) == entries_size(s) - entry_size(s[p].0@, s[p].1@)
            + entry_size(e.0@, e.1@),
{
    let s2 = s.update(p, e);
    assert forall|i: int, j: int| 0 <= i < j < s2.len() implies lex_lt(s2[i].0@, s2[j].0@) by {
        assert(s2[i].0@ == s[i].0@ && s2[j].0@ == s[j].0@);
    }
    lemma_entries_size_update(s, p, e);
    lemma_sorted_distinct(s);
    lemma_sorted_distinct(s2);
    lemma_entries_map_char(s);
    lemma_entries_map_char(s2);
    let m2 = entries_map(s2);
    let mt = entries_map(s).insert(e.0@, e.1@);
    assert forall|k: Seq<u8>| #![auto] m2.contains_key(k) implies mt.contains_key(k) && m2[k]
        == mt[k] by {
        let i = choose|i: int| 0 <= i < s2.len() && s2[i].0@ == k;
        if i == p {
            assert(m2[k] == e.1@);
        } else {
            assert(s2[i] == s[i]);
            assert(k != e.0@);
            assert(entries_map(s).contains_key(k) && entries_map(s)[k] == s[i].1@);
        }
    }
    assert forall|k: Seq<u8>| #![auto] mt.contains_key(k) implies m2.contains_key(k) by {
        if k == e.0@ {
            assert(s2[p].0@ == k);
        } else {
            assert(entries_map(s).contains_key(k));
            let i = choose|i: int| 0 <= i < s.len() && s[i].0@ == k;
            assert(i != p);
            assert(s2[i] == s[i]);
        }
    }
    assert(m2 =~= mt);
}

pub struct MemTable {
    entries: Vec<(Vec<u8>, Value)>,
    size_bytes: usize,
}

impl MemTable {
    /// The finite map the table holds; tombstones are `None` values.
    pub closed spec fn view(self) -> Map<Seq<u8>, Option<Seq<u8>>> {
        entries_map(self.entries@)
    }

    /// The number of live entries, tombstones included.
    pub closed spec fn spec_len(self) -> nat {
        self.entries@.len()
    }

    /// The reported approximate size.
    pub closed spec fn spec_size(self) -> nat {
        entries_size(self.entries@)
    }

    /// Entries sorted strictly by key, and the size counter exact.
    pub closed spec fn wf(self) -> bool {
        &&& sorted_strict(self.entries@)
        &&& self.size_bytes == entries_size(self.entries@)
    }

    /// The table is empty exactly when its map is empty and exactly when
    /// its reported size is zero.
    pub proof fn lemma_empty_iff(self)
        requires
            self.wf(),
        ensures
            (self.spec_len() == 0) == (self@ =~= Map::<Seq<u8>, Option<Seq<u8>>>::empty()),
            (self.spec_size() == 0) == (self.spec_len() == 0),
    {
        lemma_entries_size_bounds(self.entries@);
        if self.entries@.len() == 0 {
            assert(self@ =~= Map::<Seq<u8>, Option<Seq<u8>>>::empty());
        } else {
            lemma_sorted_distinct(self.entries@);
            lemma_entries_map_char(self.entries@);
            assert(self@.contains_key(self.entries@[0].0@));
        }
    }

    pub fn new() -> (r: MemTable)
        ensures
            r.wf(),
            r@ == Map::<Seq<u8>, Option<Seq<u8>>>::empty(),
            r.spec_len() == 0,
            r.spec_size() == 0,
    {
        MemTable { entries: Vec::new(), size_bytes: 0 }
    }

    pub fn len(&self) -> (r: usize)
        ensures
            r == self.spec_len(),
    {
        self.entries.len()
    }

    pub fn is_empty(&self) -> (r: bool)
        ensures
            r == (self.spec_len() == 0),
    {
        self.entries.is_empty()
    }

    /// The approximate byte size: key bytes plus value bytes plus a fixed
    /// 40-byte allowance for each entry.
    pub fn size_bytes(&self) -> (r: usize)
        requires
            self.wf(),
        ensures
            r == self.spec_size(),
    {
        self.size_bytes
    }

    /// Binary search: the entry holding `key`, or the position where it
    /// would be inserted.
    #[verifier::loop_isolation(false)]
    fn locate(&self, key: &Vec<u8>) -> (r: (usize, bool))
        requires
            self.wf(),
        ensures
            r.1 ==> r.0 < self.entries@.len() && self.entries@[r.0 as int].0@ == key@,
            !r.1 ==> {
                &&& r.0 <= self.entries@.len()
                &&& forall|i: int|
                    0 <= i < r.0 ==> lex_lt(#[trigger] self.entries@[i].0@, key@)
                &&& forall|i: int|
                    r.0 <= i < self.entries@.len() ==> lex_lt(key@, #[trigger] self.entries@[i].0@)
            },
    {
        let ghost s = self.entries@;
        let mut lo: usize = 0;
        let mut hi: usize = self.entries.len();
        while lo < hi
            invariant
                0 <= lo <= hi <= s.len(),
                forall|i: int| 0 <= i < lo ==> lex_lt(#[trigger] s[i].0@, key@),
                forall|i: int| hi <= i < s.len() ==> lex_lt(key@, #[trigger] s[i].0@),
            decreases hi - lo,
        {
            let mid = lo + (hi - lo) / 2;
            let ek = &self.entries[mid].0;
            if key_lt(ek, key) {
                proof {
                    assert forall|i: int| 0 <= i < mid + 1 implies lex_lt(
                        #[trigger] s[i].0@,
                        key@,
                    ) by {
                        if i < mid {
                            lemma_lex_trans(s[i].0@, s[mid as int].0@, key@);
                        }
                    }
                }
                lo = mid + 1;
            } else if key_lt(key, ek) {
                proof {
                    assert forall|i: int| mid <= i < s.len() implies lex_lt(
                        key@,
                        #[trigger] s[i].0@,
                    ) by {
                        if i > mid {
                            lemma_lex_trans(key@, s[mid as int].0@, s[i].0@);
                        }
                    }
                }
                hi = mid;
            } else {
                proof {
                    lemma_lex_trichotomy(s[mid as int].0@, key@);
                }
                return (mid, true);
            }
        }
        (lo, false)
    }

    /// Overwrites any prior entry for `key` and adjusts the size estimate
    /// by the signed difference between the new entry and the old one.
    pub fn insert(&mut self, key: Vec<u8>, value: Value)
        requires
            old(self).wf(),
            old(self).spec_size() + key@.len() + stored_len(value@) + 40 <= usize::MAX,
        ensures
            final(self).wf(),
            final(self)@ == old(self)@.insert(key@, value@),
            final(self).spec_len() == old(self).spec_len() + (if old(self)@.contains_key(key@) {
                0int
            } else {
                1int
            }),
            final(self).spec_size() == old(self).spec_size() + entry_size(key@, value@) - (if old(
                self,
            )@.contains_key(key@) {
                entry_size(key@, old(self)@[key@]) as int
            } else {
                0int
            }),
    {
        let ghost s = self.entries@;
        proof {
            lemma_sorted_distinct(s);
            lemma_entries_map_char(s);
        }
        let (pos, found) = self.locate(&key);
        let new_size = key.len() + match &value {
            Value::Present(b) => b.len(),
            Value::Deleted => 0,
        } + 40;
        if found {
            proof {
                lemma_entries_size_bounds(s);
                lemma_sorted_update(s, pos as int, (key, value));
                assert(entry_size(s[pos as int].0@, s[pos as int].1@) <= entries_size(s)) by {
                    lemma_entries_size_remove_bound(s, pos as int);
                }
            }
            let old_size = self.entries[pos].0.len() + match &self.entries[pos].1 {
                Value::Present(b) => b.len(),
                Value::Deleted => 0,
            } + 40;
            let e = (key, value);
            self.entries.set(pos, e);
            self.size_bytes = self.size_bytes - old_size + new_size;
        } else {
            proof {
                lemma_sorted_insert(s, pos as int, (key, value));
                if old(self)@.contains_key(key@) {
                    let i = choose|i: int| 0 <= i < s.len() && s[i].0@ == key@;
                    lemma_lex_irrefl(key@);
                    assert(false);
                }
            }
            self.entries.insert(pos, (key, value));
            self.size_bytes = self.size_bytes + new_size;
        }
    }

    /// The current value for `key`, tombstone included, or `None` when the
    /// table has no entry for it.
    pub fn get(&self, key: &Vec<u8>) -> (r: Option<Value>)
        requires
            self.wf(),
        ensures
            match r {
                Some(v) => self@.contains_key(key@) && v@ == self@[key@],
                None => !self@.contains_key(key@),
            },
    {
        proof {
            lemma_sorted_distinct(self.entries@);
            lemma_entries_map_char(self.entries@);
        }
        let (pos, found) = self.locate(key);
        if found {
            let v = self.entries[pos].1.clone();
            Some(v)
        } else {
            proof {
                if self@.contains_key(key@) {
                    let s = self.entries@;
                    let i = choose|i: int| 0 <= i < s.len() && s[i].0@ == key@;
                    lemma_lex_irrefl(key@);
                    assert(false);
                }
            }
            None
        }
    }

    /// Hands out every entry in ascending key order and leaves the table
    /// empty with its size reset to zero.
    pub fn drain_sorted(&mut self) -> (r: Vec<(Vec<u8>, Value)>)
        requires
            old(self).wf(),
        ensures
            final(self).wf(),
            final(self)@ == Map::<Seq<u8>, Option<Seq<u8>>>::empty(),
            final(self).spec_len() == 0,
            final(self).spec_size() == 0,
            sorted_strict(r@),
            entries_map(r@) == old(self)@,
            r@.len() == old(self).spec_len(),
            entries_size(r@) == old(self).spec_size(),
    {
        let mut out: Vec<(Vec<u8>, Value)> = Vec::new();
        core::mem::swap(&mut out, &mut self.entries);
        self.size_bytes = 0;
        out
    }
}

/// One entry's size never exceeds the whole list's size.
proof fn lemma_entries_size_remove_bound(s: Seq<(Vec<u8>, Value)>, p: int)
    requires
        0 <= p < s.len(),
    ensures
        entry_size(s[p].0@, s[p].1@) <= entries_size(s),
    decreases s.len(),
{
    if p == s.len() - 1 {
    } else {
        lemma_entries_size_remove_bound(s.drop_last(), p);
        assert(s.drop_last()[p] == s[p]);
    }
}

} // verus!
