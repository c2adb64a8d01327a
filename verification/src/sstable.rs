use crate::bloom::{bloom_covers, BloomFilter};
use crate::keys::{key_le, key_lt, lemma_lex_irrefl, lemma_lex_trans, lemma_lex_trichotomy,
    lex_le, lex_lt};
use crate::memtable::{entries_map, sorted_strict};
use crate::record::{parse_record, record_bytes, record_fits, write_record, RecParse,
    RecordKind};
use crate::wire::{le_bytes, le_val, lemma_le_bytes_len, lemma_le_roundtrip, lemma_p256_vals,
    put_u32_le, put_u64_le};
use crate::{SnailError, Value};
use vstd::prelude::*;

verus! {

// The immutable on-disk sorted table. A table file is:
//
//   [entry_count: u32 LE]
//   [bloom_size: u32 LE] [bloom_bits]
//   [record_0] ... [record_{entry_count-1}]      records in ascending key order
//   [min_key_len: u32 LE] [min_key]
//   [max_key_len: u32 LE] [max_key]
//   [footer_offset: u64 LE]                      offset of min_key_len
//
// The in-memory handle keeps the path, the key range and the Bloom filter;
// the decoded entries may be absent when only the metadata was read.

pub struct Entry {
    pub key: Vec<u8>,
    pub value: Value,
}

pub struct SsTableMetadata {
    pub path: Vec<u8>,
    pub min_key: Vec<u8>,
    pub max_key: Vec<u8>,
    pub bloom_filter: BloomFilter,
}

pub struct SsTable {
    pub metadata: SsTableMetadata,
    pub entries: Option<Vec<Entry>>,
}

/// The record written for one entry: a live value becomes a SET record, a
/// tombstone a DELETE record with an empty value.
pub open spec fn rec_kind(e: (Vec<u8>, Value)) -> RecordKind {
    match e.1@ {
        Some(_) => RecordKind::Put,
        None => RecordKind::Delete,
    }
}

pub open spec fn rec_value(e: (Vec<u8>, Value)) -> Seq<u8> {
    match e.1@ {
        Some(b) => b,
        None => Seq::empty(),
    }
}

/// The concatenated records of an entry list, in order.
pub open spec fn records_image(s: Seq<(Vec<u8>, Value)>) -> Seq<u8>
    decreases s.len(),
{
    if s.len() == 0 {
        Seq::empty()
    } else {
        record_bytes(rec_kind(s[0]), s[0].0@, rec_value(s[0])) + records_image(s.skip(1))
    }
}

/// The views an entry list stores: key bytes and optional value bytes.
pub open spec fn pairs_view(s: Seq<(Vec<u8>, Value)>) -> Seq<(Seq<u8>, Option<Seq<u8>>)> {
    s.map_values(|e: (Vec<u8>, Value)| (e.0@, e.1@))
}

/// Whether every field of the table file for `s` fits its width.
pub open spec fn table_encodable(s: Seq<(Vec<u8>, Value)>) -> bool {
    &&& s.len() <= u32::MAX
    &&& s.len() * 10 + 7 <= usize::MAX
    &&& (s.len() * 10 + 7) / 8 <= u32::MAX
    &&& forall|i: int|
        0 <= i < s.len() ==> record_fits(rec_kind(#[trigger] s[i]), s[i].0@, rec_value(s[i]))
}

/// The full table file for entries `s` and Bloom bit array `bits`.
pub open spec fn sstable_image(s: Seq<(Vec<u8>, Value)>, bits: Seq<u8>) -> Seq<u8>
    recommends
        s.len() > 0,
{
    let header = le_bytes(s.len(), 4) + le_bytes(bits.len(), 4) + bits;
    let recs = records_image(s);
    let min = s[0].0@;
    let max = s.last().0@;
    header + recs + le_bytes(min.len(), 4) + min + le_bytes(max.len(), 4) + max + le_bytes(
        (header.len() + recs.len()) as nat,
        8,
    )
}

/// The map a loaded entry list denotes; a later entry shadows an earlier
/// one, as in the memtable.
pub open spec fn table_map(s: Seq<Entry>) -> Map<Seq<u8>, Option<Seq<u8>>>
    decreases s.len(),
{
    if s.len() == 0 {
        Map::empty()
    } else {
        table_map(s.drop_last()).insert(s.last().key@, s.last().value@)
    }
}

/// Keys strictly ascend.
pub open spec fn table_sorted(s: Seq<Entry>) -> bool {
    forall|i: int, j: int| 0 <= i < j < s.len() ==> lex_lt(s[i].key@, s[j].key@)
}

/// As for the memtable: a strictly sorted entry list and its map agree
/// entry by entry.
pub proof fn lemma_table_map_char(s: Seq<Entry>)
    requires
        table_sorted(s),
    ensures
        forall|i: int|
            0 <= i < s.len() ==> table_map(s).contains_key(#[trigger] s[i].key@) && table_map(
                s,
            )[s[i].key@] == s[i].value@,
        forall|k: Seq<u8>|
            #[trigger] table_map(s).contains_key(k) ==> exists|i: int|
                0 <= i < s.len() && s[i].key@ == k,
    decreases s.len(),
{
    if s.len() > 0 {
        let s0 = s.drop_last();
        let last = s.last();
        assert(table_sorted(s0)) by {
            assert forall|i: int, j: int| 0 <= i < j < s0.len() implies lex_lt(
                s0[i].key@,
                s0[j].key@,
            ) by {
                assert(s0[i] == s[i] && s0[j] == s[j]);
            }
        }
        lemma_table_map_char(s0);
        let m = table_map(s);
        let m0 = table_map(s0);
        assert forall|i: int| 0 <= i < s.len() implies m.contains_key(#[trigger] s[i].key@)
            && m[s[i].key@] == s[i].value@ by {
            if i < s.len() - 1 {
                assert(s0[i] == s[i]);
                assert(lex_lt(s[i].key@, last.key@));
                assert(s[i].key@ != last.key@) by {
                    lemma_lex_irrefl(last.key@);
                }
                assert(m0.contains_key(s[i].key@) && m0[s[i].key@] == s[i].value@);
            }
        }
        assert forall|k: Seq<u8>| #[trigger] m.contains_key(k) implies exists|i: int|
            0 <= i < s.len() && s[i].key@ == k by {
            if k == last.key@ {
                assert(s[s.len() - 1].key@ == k);
            } else {
                assert(m0.contains_key(k));
                let i = choose|i: int| 0 <= i < s0.len() && s0[i].key@ == k;
                assert(s[i].key@ == k);
            }
        }
    }
}

/// Two entry lists with the same key and value views denote the same map.
pub proof fn lemma_table_map_matches(s: Seq<Entry>, t: Seq<(Vec<u8>, Value)>)
    requires
        s.len() == t.len(),
        forall|i: int|
            0 <= i < s.len() ==> (#[trigger] s[i]).key@ == t[i].0@ && s[i].value@ == t[i].1@,
    ensures
        table_map(s) == entries_map(t),
    decreases s.len(),
{
    if s.len() > 0 {
        assert(forall|i: int|
            0 <= i < s.len() - 1 ==> (#[trigger] s.drop_last()[i]) == s[i] && t.drop_last()[i]
                == t[i]);
        lemma_table_map_matches(s.drop_last(), t.drop_last());
        assert(s.last() == s[s.len() - 1] && t.last() == t[t.len() - 1]);
    }
}

impl SsTable {
    /// Whether the decoded entries are in memory.
    pub open spec fn loaded(self) -> bool {
        self.entries is Some
    }

    pub open spec fn entries_view(self) -> Seq<Entry>
        recommends
            self.loaded(),
    {
        self.entries->Some_0@
    }

    /// The map a loaded table denotes.
    pub open spec fn view(self) -> Map<Seq<u8>, Option<Seq<u8>>>
        recommends
            self.loaded(),
    {
        table_map(self.entries_view())
    }

    /// A loaded table in good standing: entries strictly sorted, every key
    /// inside the advertised range, every key covered by the Bloom filter.
    pub open spec fn wf_data(self) -> bool {
        &&& self.loaded()
        &&& self.metadata.bloom_filter.wf()
        &&& table_sorted(self.entries_view())
        &&& forall|i: int|
            0 <= i < self.entries_view().len() ==> lex_le(
                self.metadata.min_key@,
                (#[trigger] self.entries_view()[i]).key@,
            ) && lex_le(self.entries_view()[i].key@, self.metadata.max_key@)
        &&& forall|i: int|
            0 <= i < self.entries_view().len() ==> bloom_covers(
                self.metadata.bloom_filter.bits@,
                (#[trigger] self.entries_view()[i]).key@,
            )
    }

    /// Every key a table holds lies in its `[min_key, max_key]` range and
    /// is reported present by its Bloom filter: no false negatives.
    pub proof fn lemma_key_range_and_bloom(self, k: Seq<u8>)
        requires
            self.wf_data(),
            self.view().contains_key(k),
        ensures
            lex_le(self.metadata.min_key@, k),
            lex_le(k, self.metadata.max_key@),
            bloom_covers(self.metadata.bloom_filter.bits@, k),
    {
        lemma_table_map_char(self.entries_view());
        let i = choose|i: int|
            0 <= i < self.entries_view().len() && self.entries_view()[i].key@ == k;
        assert(lex_le(self.metadata.min_key@, self.entries_view()[i].key@));
    }

    pub fn path(&self) -> (r: &Vec<u8>)
        ensures
            r@ == self.metadata.path@,
    {
        &self.metadata.path
    }

    /// Builds the table file for a non-empty sorted entry list: header with
    /// entry count and Bloom filter, the records in order, and the key-range
    /// footer. Returns the handle, with the entries retained, and the file
    /// image to persist. Fails with `InvalidInput` exactly when a count or
    /// length exceeds its 32-bit field.
    #[verifier::loop_isolation(false)]
    #[verifier::rlimit(60)]
    pub fn create(path: Vec<u8>, entries: Vec<(Vec<u8>, Value)>) -> (r: Result<
        (SsTable, Vec<u8>),
        SnailError,
    >)
        requires
            sorted_strict(entries@),
            entries@.len() > 0,
        ensures
            match r {
                Ok((t, image)) => {
                    &&& table_encodable(entries@)
                    &&& t.wf_data()
                    &&& t.view() == entries_map(entries@)
                    &&& t.entries_view().len() == entries@.len()
                    &&& forall|j: int|
                        0 <= j < entries@.len() ==> (#[trigger] t.entries_view()[j]).key@
                            == entries@[j].0@ && t.entries_view()[j].value@ == entries@[j].1@
                    &&& t.metadata.path@ == path@
                    &&& t.metadata.min_key@ == entries@[0].0@
                    &&& t.metadata.max_key@ == entries@.last().0@
                    &&& image@ == sstable_image(entries@, t.metadata.bloom_filter.bits@)
                    &&& t.metadata.bloom_filter.bits@.len() <= u32::MAX
                },
                Err(e) => e == SnailError::InvalidInput && !table_encodable(entries@),
            },
    {
        let n = entries.len();
        if n > (usize::MAX - 7) / 10 {
            proof {
                assert(!(entries@.len() * 10 + 7 <= usize::MAX)) by (nonlinear_arith)
                    requires
                        entries@.len() > (usize::MAX - 7) / 10,
                ;
            }
            return Err(SnailError::InvalidInput);
        }
        if n > u32::MAX as usize {
            return Err(SnailError::InvalidInput);
        }
        // Build the Bloom filter over all keys.
        let mut bloom = BloomFilter::new(n);
        proof {
            vstd::arithmetic::div_mod::lemma_div_pos_is_pos((n * 10 + 7) as int, 8);
            assert(n * 10 + 7 >= 17) by (nonlinear_arith)
                requires
                    n >= 1,
            ;
            assert((n * 10 + 7) / 8 >= 1);
        }
        let mut i: usize = 0;
        while i < n
            invariant
                0 <= i <= n,
                n == entries@.len(),
                bloom.wf(),
                bloom.bits@.len() == (n * 10 + 7) / 8,
                bloom.bits@.len() >= 1,
                forall|j: int|
                    0 <= j < i ==> bloom_covers(bloom.bits@, (#[trigger] entries@[j]).0@),
            decreases n - i,
        {
            bloom.insert(&entries[i].0);
            i = i + 1;
        }
        if bloom.bits.len() > u32::MAX as usize {
            return Err(SnailError::InvalidInput);
        }
        // Header: entry count, Bloom size, Bloom bits.
        let mut image: Vec<u8> = Vec::new();
        put_u32_le(&mut image, n as u32);
        put_u32_le(&mut image, bloom.bits.len() as u32);
        crate::record::append_bytes(&mut image, &bloom.bits);
        let ghost header = le_bytes(entries@.len(), 4) + le_bytes(bloom.bits@.len(), 4)
            + bloom.bits@;
        proof {
            assert(image@ =~= header);
        }
        // Data section: one record per entry, in order, and the retained
        // entry list.
        let mut stored: Vec<Entry> = Vec::new();
        let empty: Vec<u8> = Vec::new();
        let mut i: usize = 0;
        while i < n
            invariant
                0 <= i <= n,
                n == entries@.len(),
                image@ == header + records_image(entries@.take(i as int)),
                stored@.len() == i,
                forall|j: int|
                    0 <= j < i ==> (#[trigger] stored@[j]).key@ == entries@[j].0@
                        && stored@[j].value@ == entries@[j].1@,
                forall|j: int|
                    0 <= j < i ==> record_fits(
                        rec_kind(#[trigger] entries@[j]),
                        entries@[j].0@,
                        rec_value(entries@[j]),
                    ),
                empty@.len() == 0,
            decreases n - i,
        {
            let key_copy = entries[i].0.clone();
            let value_copy = entries[i].1.clone();
            proof {
                assert(key_copy@ =~= entries@[i as int].0@);
            }
            let wrote = match &entries[i].1 {
                Value::Present(b) => write_record(&mut image, RecordKind::Put, &entries[i].0, b),
                Value::Deleted => write_record(
                    &mut image,
                    RecordKind::Delete,
                    &entries[i].0,
                    &empty,
                ),
            };
            match wrote {
                Ok(()) => {},
                Err(_) => {
                    return Err(SnailError::InvalidInput);
                },
            }
            stored.push(Entry { key: key_copy, value: value_copy });
            proof {
                assert(rec_value(entries@[i as int]) =~= match entries@[i as int].1@ {
                    Some(b) => b,
                    None => Seq::<u8>::empty(),
                });
                lemma_records_image_snoc(entries@, i as int);
                assert(image@ =~= header + records_image(entries@.take(i as int + 1)));
            }
            i = i + 1;
        }
        proof {
            assert(entries@.take(n as int) =~= entries@);
        }
        // Footer: min key, max key, footer offset.
        let ghost recs = records_image(entries@);
        let footer_offset = image.len() as u64;
        let min_key = entries[0].0.clone();
        let max_key = entries[n - 1].0.clone();
        proof {
            assert(min_key@ =~= entries@[0].0@);
            assert(max_key@ =~= entries@.last().0@);
            assert(record_fits(rec_kind(entries@[0]), entries@[0].0@, rec_value(entries@[0])));
            assert(record_fits(
                rec_kind(entries@[n - 1]),
                entries@[n - 1].0@,
                rec_value(entries@[n - 1]),
            ));
        }
        put_u32_le(&mut image, min_key.len() as u32);
        crate::record::append_bytes(&mut image, &min_key);
        put_u32_le(&mut image, max_key.len() as u32);
        crate::record::append_bytes(&mut image, &max_key);
        put_u64_le(&mut image, footer_offset);
        let metadata = SsTableMetadata { path, min_key, max_key, bloom_filter: bloom };
        let table = SsTable { metadata, entries: Some(stored) };
        proof {
            lemma_le_bytes_len(entries@.len(), 4);
            lemma_le_bytes_len(table.metadata.bloom_filter.bits@.len(), 4);
            assert(footer_offset as nat == header.len() + recs.len());
            assert(image@ =~= sstable_image(entries@, table.metadata.bloom_filter.bits@));
            // The retained entries match the input, so the handle is in
            // good standing and denotes the same map.
            let sv = table.entries_view();
            assert(table_sorted(sv)) by {
                assert forall|i2: int, j2: int| 0 <= i2 < j2 < sv.len() implies lex_lt(
                    sv[i2].key@,
                    sv[j2].key@,
                ) by {
                    assert(sv[i2].key@ == entries@[i2].0@ && sv[j2].key@ == entries@[j2].0@);
                }
            }
            lemma_table_map_matches(sv, entries@);
            assert forall|i2: int| 0 <= i2 < sv.len() implies lex_le(
                table.metadata.min_key@,
                (#[trigger] sv[i2]).key@,
            ) && lex_le(sv[i2].key@, table.metadata.max_key@) by {
                if i2 > 0 {
                    assert(lex_lt(entries@[0].0@, entries@[i2].0@));
                }
                if i2 < sv.len() - 1 {
                    assert(lex_lt(entries@[i2].0@, entries@[n - 1].0@));
                }
            }
        }
        Ok((table, image))
    }

    /// Point lookup by binary search over the sorted entries; the entries
    /// must be loaded.
    #[verifier::loop_isolation(false)]
    pub fn get(&self, key: &Vec<u8>) -> (r: Option<Value>)
        requires
            self.wf_data(),
        ensures
            match r {
                Some(v) => self.view().contains_key(key@) && v@ == self.view()[key@],
                None => !self.view().contains_key(key@),
            },
    {
        let ghost s = self.entries_view();
        proof {
            lemma_table_map_char(s);
        }
        let entries = match &self.entries {
            Some(e) => e,
            None => {
                return None;
            },
        };
        let mut lo: usize = 0;
        let mut hi: usize = entries.len();
        while lo < hi
            invariant
                0 <= lo <= hi <= s.len(),
                forall|i: int| 0 <= i < lo ==> lex_lt((#[trigger] s[i]).key@, key@),
                forall|i: int| hi <= i < s.len() ==> lex_lt(key@, (#[trigger] s[i]).key@),
            decreases hi - lo,
        {
            let mid = lo + (hi - lo) / 2;
            let ek = &entries[mid].key;
            if key_lt(ek, key) {
                proof {
                    assert forall|i: int| 0 <= i < mid + 1 implies lex_lt(
                        (#[trigger] s[i]).key@,
                        key@,
                    ) by {
                        if i < mid {
                            lemma_lex_trans(s[i].key@, s[mid as int].key@, key@);
                        }
                    }
                }
                lo = mid + 1;
            } else if key_lt(key, ek) {
                proof {
                    assert forall|i: int| mid <= i < s.len() implies lex_lt(
                        key@,
                        (#[trigger] s[i]).key@,
                    ) by {
                        if i > mid {
                            lemma_lex_trans(key@, s[mid as int].key@, s[i].key@);
                        }
                    }
                }
                hi = mid;
            } else {
                proof {
                    lemma_lex_trichotomy(s[mid as int].key@, key@);
                }
                let v = entries[mid].value.clone();
                return Some(v);
            }
        }
        proof {
            if self.view().contains_key(key@) {
                let i = choose|i: int| 0 <= i < s.len() && s[i].key@ == key@;
                lemma_lex_irrefl(key@);
                assert(false);
            }
        }
        None
    }

    /// A cheap negative filter: false when the Bloom filter rules the key
    /// out, otherwise true exactly when the key lies in the table's range.
    /// Never false for a key the table holds.
    pub fn might_contain_key(&self, key: &Vec<u8>) -> (r: bool)
        requires
            self.metadata.bloom_filter.wf(),
        ensures
            r == (bloom_covers(self.metadata.bloom_filter.bits@, key@) && lex_le(
                self.metadata.min_key@,
                key@,
            ) && lex_le(key@, self.metadata.max_key@)),
            self.wf_data() && self.view().contains_key(key@) ==> r,
    {
        proof {
            if self.wf_data() && self.view().contains_key(key@) {
                self.lemma_key_range_and_bloom(key@);
            }
        }
        if !self.metadata.bloom_filter.may_contain(key) {
            return false;
        }
        key_le(&self.metadata.min_key, key) && key_le(key, &self.metadata.max_key)
    }
}

/// Extending the encoded prefix by one entry appends that entry's record.
pub proof fn lemma_records_image_snoc(s: Seq<(Vec<u8>, Value)>, i: int)
    requires
        0 <= i < s.len(),
    ensures
        records_image(s.take(i + 1)) == records_image(s.take(i)) + record_bytes(
            rec_kind(s[i]),
            s[i].0@,
            rec_value(s[i]),
        ),
    decreases i,
{
    if i == 0 {
        assert(s.take(1)[0] == s[0]);
        assert(s.take(1).skip(1) =~= Seq::<(Vec<u8>, Value)>::empty());
        assert(s.take(0) =~= Seq::<(Vec<u8>, Value)>::empty());
        assert(records_image(s.take(1)) =~= record_bytes(rec_kind(s[0]), s[0].0@, rec_value(s[0]))
            + Seq::<u8>::empty());
        assert(records_image(s.take(1)) =~= records_image(s.take(0)) + record_bytes(
            rec_kind(s[0]),
            s[0].0@,
            rec_value(s[0]),
        ));
    } else {
        let t = s.skip(1);
        lemma_records_image_snoc(t, i - 1);
        assert(s.take(i + 1)[0] == s[0]);
        assert(s.take(i)[0] == s[0]);
        assert(s.take(i + 1).skip(1) =~= t.take(i));
        assert(s.take(i).skip(1) =~= t.take(i - 1));
        assert(t[i - 1] == s[i]);
        assert(records_image(s.take(i + 1)) == record_bytes(
            rec_kind(s[0]),
            s[0].0@,
            rec_value(s[0]),
        ) + records_image(t.take(i)));
        assert(records_image(s.take(i)) == record_bytes(rec_kind(s[0]), s[0].0@, rec_value(s[0]))
            + records_image(t.take(i - 1)));
        assert(records_image(s.take(i + 1)) =~= records_image(s.take(i)) + record_bytes(
            rec_kind(s[i]),
            s[i].0@,
            rec_value(s[i]),
        ));
    }
}


// ---------------------------------------------------------------------------
// Reading a table file back.

/// The data a table file holds.
pub struct TableData {
    pub count: nat,
    pub bloom: Seq<u8>,
    pub entries: Seq<(Seq<u8>, Option<Seq<u8>>)>,
    pub min_key: Seq<u8>,
    pub max_key: Seq<u8>,
}

/// The key and value views of a loaded entry list.
pub open spec fn entry_views(s: Seq<Entry>) -> Seq<(Seq<u8>, Option<Seq<u8>>)> {
    s.map_values(|e: Entry| (e.key@, e.value@))
}

/// Prepends already-read entries to a partial record parse.
pub open spec fn records_extend(
    acc: Seq<(Seq<u8>, Option<Seq<u8>>)>,
    res: Option<(Seq<(Seq<u8>, Option<Seq<u8>>)>, int)>,
) -> Option<(Seq<(Seq<u8>, Option<Seq<u8>>)>, int)> {
    match res {
        None => None,
        Some((rest, end)) => Some((acc + rest, end)),
    }
}

/// Reads `count` records starting at `i`: the decoded pairs, a SET record
/// as a present value and a DELETE record as a tombstone, and the position
/// after the last record.
pub open spec fn parse_records(s: Seq<u8>, i: int, count: nat) -> Option<
    (Seq<(Seq<u8>, Option<Seq<u8>>)>, int),
>
    decreases count,
{
    if count == 0 {
        Some((Seq::empty(), i))
    } else {
        match parse_record(s, i) {
            RecParse::Rec { kind, key, value, crc, length, used } => records_extend(
                seq![
                    (
                        key,
                        if kind == RecordKind::Put {
                            Some(value)
                        } else {
                            None
                        },
                    ),
                ],
                parse_records(s, i + used, (count - 1) as nat),
            ),
            _ => None,
        }
    }
}

/// Reads the key-range footer at position `p`: min key, max key, and the
/// trailing eight-byte offset, which must point back to `p`, with nothing
/// after it.
pub open spec fn parse_footer(s: Seq<u8>, p: int) -> Option<(Seq<u8>, Seq<u8>)> {
    if !(0 <= p) || p + 4 > s.len() {
        None
    } else {
        let minlen = le_val(s.subrange(p, p + 4));
        if p + 4 + minlen + 4 > s.len() {
            None
        } else {
            let min = s.subrange(p + 4, p + 4 + minlen);
            let q = p + 4 + minlen;
            let maxlen = le_val(s.subrange(q, q + 4));
            if q + 4 + maxlen + 8 != s.len() {
                None
            } else {
                let max = s.subrange(q + 4, q + 4 + maxlen);
                let off = le_val(s.subrange(s.len() - 8, s.len() as int));
                if off != p {
                    None
                } else {
                    Some((min, max))
                }
            }
        }
    }
}

/// Reads a whole table file: header, `count` records, footer.
pub open spec fn parse_sstable(s: Seq<u8>) -> Option<TableData> {
    if s.len() < 8 {
        None
    } else {
        let count = le_val(s.subrange(0, 4));
        let bloom_len = le_val(s.subrange(4, 8));
        if 8 + bloom_len as int > s.len() {
            None
        } else {
            let bloom = s.subrange(8, 8 + bloom_len as int);
            match parse_records(s, 8 + bloom_len as int, count) {
                None => None,
                Some((ents, p)) => match parse_footer(s, p) {
                    None => None,
                    Some((min, max)) => Some(
                        TableData { count, bloom, entries: ents, min_key: min, max_key: max },
                    ),
                },
            }
        }
    }
}

/// Reads only the header and, through the trailing offset, the footer.
pub open spec fn parse_sstable_meta(s: Seq<u8>) -> Option<(nat, Seq<u8>, Seq<u8>, Seq<u8>)> {
    if s.len() < 16 {
        None
    } else {
        let count = le_val(s.subrange(0, 4));
        let bloom_len = le_val(s.subrange(4, 8));
        if 8 + bloom_len as int + 8 > s.len() {
            None
        } else {
            let bloom = s.subrange(8, 8 + bloom_len as int);
            let off = le_val(s.subrange(s.len() - 8, s.len() as int));
            match parse_footer(s, off as int) {
                None => None,
                Some((min, max)) => Some((count, bloom, min, max)),
            }
        }
    }
}

/// What a table file must satisfy beyond parsing: as many entries as the
/// header says, keys strictly ascending and all covered by the Bloom
/// filter, the key range equal to the first and last keys, and a Bloom
/// array whose bit count is representable.
pub open spec fn table_data_valid(d: TableData) -> bool {
    &&& d.count == d.entries.len()
    &&& d.bloom.len() <= usize::MAX / 8
    &&& forall|i: int, j: int|
        0 <= i < j < d.entries.len() ==> lex_lt(
            (#[trigger] d.entries[i]).0,
            (#[trigger] d.entries[j]).0,
        )
    &&& forall|i: int| 0 <= i < d.entries.len() ==> bloom_covers(d.bloom, (#[trigger] d.entries[i]).0)
    &&& d.entries.len() > 0 ==> d.min_key == d.entries[0].0 && d.max_key == d.entries.last().0
}

/// Reading a record does not depend on where it starts.
pub proof fn lemma_parse_record_shift(s: Seq<u8>, i: int)
    requires
        0 <= i <= s.len(),
    ensures
        parse_record(s, i) == parse_record(s.skip(i), 0),
{
    let t = s.skip(i);
    if i == s.len() {
        assert(t.len() == 0);
    } else if i + 8 > s.len() {
        assert(t.len() < 8 && t.len() > 0);
    } else {
        assert(t.subrange(0, 4) =~= s.subrange(i, i + 4));
        assert(t.subrange(4, 8) =~= s.subrange(i + 4, i + 8));
        let length = le_val(s.subrange(i, i + 4));
        if i + 8 + length <= s.len() {
            assert(t.subrange(8, 8 + length as int) =~= s.subrange(i + 8, i + 8 + length));
        }
    }
}

/// Reading back the records written for an entry list returns exactly its
/// pairs, whatever bytes follow them.
pub proof fn lemma_parse_records_roundtrip(
    s: Seq<(Vec<u8>, Value)>,
    x: Seq<u8>,
    i: int,
    tail: Seq<u8>,
)
    requires
        0 <= i <= x.len(),
        x.skip(i) == records_image(s) + tail,
        forall|j: int|
            0 <= j < s.len() ==> record_fits(rec_kind(#[trigger] s[j]), s[j].0@, rec_value(s[j])),
        forall|j: int| 0 <= j < s.len() ==> crate::utf8::is_valid_utf8((#[trigger] s[j]).0@),
    ensures
        parse_records(x, i, s.len()) == Some(
            (pairs_view(s), i + records_image(s).len() as int),
        ),
    decreases s.len(),
{
    if s.len() == 0 {
        assert(pairs_view(s) =~= Seq::<(Seq<u8>, Option<Seq<u8>>)>::empty());
    } else {
        let e0 = s[0];
        let rb0 = record_bytes(rec_kind(e0), e0.0@, rec_value(e0));
        let rest_img = records_image(s.skip(1));
        assert(records_image(s) == rb0 + rest_img);
        crate::record::lemma_record_roundtrip(rec_kind(e0), e0.0@, rec_value(e0), rest_img + tail);
        lemma_parse_record_shift(x, i);
        assert(x.skip(i) =~= rb0 + (rest_img + tail));
        assert(parse_record(x, i) == (RecParse::Rec {
            kind: rec_kind(e0),
            key: e0.0@,
            value: rec_value(e0),
            crc: crate::digest::crc32_of(crate::record::payload_bytes(
                rec_kind(e0),
                e0.0@,
                rec_value(e0),
            )),
            length: crate::record::payload_bytes(rec_kind(e0), e0.0@, rec_value(e0)).len(),
            used: rb0.len() as int,
        }));
        let i2 = i + rb0.len() as int;
        assert(x.skip(i2) =~= x.skip(i).skip(rb0.len() as int));
        assert(x.skip(i).skip(rb0.len() as int) =~= rest_img + tail);
        assert(forall|j: int|
            0 <= j < s.skip(1).len() ==> (#[trigger] s.skip(1)[j]) == s[j + 1]);
        lemma_parse_records_roundtrip(s.skip(1), x, i2, tail);
        let pair0 = (
            e0.0@,
            if rec_kind(e0) == RecordKind::Put {
                Some(rec_value(e0))
            } else {
                None
            },
        );
        assert(pair0.1 == e0.1@);
        assert(pairs_view(s) =~= seq![(e0.0@, e0.1@)] + pairs_view(s.skip(1)));
        assert(i2 + records_image(s.skip(1)).len() as int == i + records_image(s).len() as int);
    }
}

/// A table file written for a sorted, encodable, valid-UTF-8 entry list
/// parses back to exactly that list, with the key range equal to its first
/// and last keys.
#[verifier::rlimit(100)]
pub proof fn lemma_sstable_roundtrip(s: Seq<(Vec<u8>, Value)>, bits: Seq<u8>)
    requires
        s.len() > 0,
        table_encodable(s),
        bits.len() <= u32::MAX,
        sstable_image(s, bits).len() < 0x10000000000000000,
        forall|j: int| 0 <= j < s.len() ==> crate::utf8::is_valid_utf8((#[trigger] s[j]).0@),
    ensures
        parse_sstable(sstable_image(s, bits)) == Some(
            TableData {
                count: s.len(),
                bloom: bits,
                entries: pairs_view(s),
                min_key: s[0].0@,
                max_key: s.last().0@,
            },
        ),
{
    let x = sstable_image(s, bits);
    let header = le_bytes(s.len(), 4) + le_bytes(bits.len(), 4) + bits;
    let recs = records_image(s);
    let min = s[0].0@;
    let max = s.last().0@;
    let footer = le_bytes(min.len(), 4) + min + le_bytes(max.len(), 4) + max + le_bytes(
        (header.len() + recs.len()) as nat,
        8,
    );
    lemma_le_bytes_len(s.len(), 4);
    lemma_le_bytes_len(bits.len(), 4);
    lemma_le_bytes_len(min.len(), 4);
    lemma_le_bytes_len(max.len(), 4);
    lemma_le_bytes_len((header.len() + recs.len()) as nat, 8);
    lemma_p256_vals();
    lemma_le_roundtrip(s.len(), 4);
    lemma_le_roundtrip(bits.len(), 4);
    assert(x =~= header + recs + footer);
    assert(x.len() == header.len() + recs.len() + footer.len());
    assert(x.subrange(0, 4) =~= le_bytes(s.len(), 4));
    assert(x.subrange(4, 8) =~= le_bytes(bits.len(), 4));
    assert(le_val(x.subrange(0, 4)) == s.len());
    assert(le_val(x.subrange(4, 8)) == bits.len());
    assert(x.subrange(8, 8 + bits.len() as int) =~= bits);
    let p0 = 8 + bits.len() as int;
    assert(x.skip(p0) =~= recs + footer);
    lemma_parse_records_roundtrip(s, x, p0, footer);
    assert(parse_records(x, p0, s.len()) == Some((pairs_view(s), p0 + recs.len() as int)));
    let p = p0 + recs.len() as int;
    // footer fields
    assert(record_fits(rec_kind(s[0]), s[0].0@, rec_value(s[0])));
    assert(record_fits(
        rec_kind(s[s.len() - 1]),
        s[s.len() - 1].0@,
        rec_value(s[s.len() - 1]),
    ));
    assert(min.len() <= u32::MAX);
    assert(max.len() <= u32::MAX);
    lemma_le_roundtrip(min.len(), 4);
    lemma_le_roundtrip(max.len(), 4);
    assert(header.len() + recs.len() < 0x10000000000000000);
    lemma_le_roundtrip((header.len() + recs.len()) as nat, 8);
    assert(x.subrange(p, p + 4) =~= le_bytes(min.len(), 4));
    assert(le_val(x.subrange(p, p + 4)) == min.len());
    assert(x.subrange(p + 4, p + 4 + min.len() as int) =~= min);
    let q = p + 4 + min.len() as int;
    assert(x.subrange(q, q + 4) =~= le_bytes(max.len(), 4));
    assert(le_val(x.subrange(q, q + 4)) == max.len());
    assert(x.subrange(q + 4, q + 4 + max.len() as int) =~= max);
    assert(q + 4 + max.len() + 8 == x.len());
    assert(x.subrange(x.len() - 8, x.len() as int) =~= le_bytes(
        (header.len() + recs.len()) as nat,
        8,
    ));
    assert(le_val(x.subrange(x.len() - 8, x.len() as int)) == header.len() + recs.len());
    assert(header.len() + recs.len() == p);
    assert(parse_footer(x, p) == Some((min, max)));
}

/// Adjacent order implies full strict order.
pub proof fn lemma_adjacent_sorted_entries(s: Seq<Entry>)
    requires
        forall|i: int| 0 <= i < s.len() - 1 ==> lex_lt((#[trigger] s[i]).key@, s[i + 1].key@),
    ensures
        table_sorted(s),
{
    assert forall|i: int, j: int| 0 <= i < j < s.len() implies lex_lt(s[i].key@, s[j].key@) by {
        lemma_lex_span(s, i, j);
    }
}

proof fn lemma_lex_span(s: Seq<Entry>, i: int, j: int)
    requires
        forall|k: int| 0 <= k < s.len() - 1 ==> lex_lt((#[trigger] s[k]).key@, s[k + 1].key@),
        0 <= i < j < s.len(),
    ensures
        lex_lt(s[i].key@, s[j].key@),
    decreases j - i,
{
    if j > i + 1 {
        lemma_lex_span(s, i, j - 1);
        lemma_lex_trans(s[i].key@, s[j - 1].key@, s[j].key@);
    }
}

/// Decodes `count` records from `buf` at `*cursor` into entries: a SET
/// record becomes a live value, a DELETE record a tombstone.
#[verifier::loop_isolation(false)]
fn read_entries(buf: &Vec<u8>, cursor: &mut usize, count: u32) -> (r: Result<
    Vec<Entry>,
    SnailError,
>)
    requires
        *old(cursor) <= buf@.len(),
    ensures
        match r {
            Ok(es) => {
                &&& parse_records(buf@, *old(cursor) as int, count as nat) == Some(
                    (entry_views(es@), *final(cursor) as int),
                )
                &&& *final(cursor) <= buf@.len()
                &&& es@.len() == count
            },
            Err(e) => {
                &&& e == SnailError::Corruption
                &&& parse_records(buf@, *old(cursor) as int, count as nat) is None
            },
        },
{
    let ghost p0 = *cursor as int;
    let mut entries: Vec<Entry> = Vec::new();
    let mut k: usize = 0;
    while k < count as usize
        invariant
            0 <= k <= count,
            *cursor <= buf@.len(),
            entries@.len() == k,
            parse_records(buf@, p0, count as nat) == records_extend(
                entry_views(entries@),
                parse_records(buf@, *cursor as int, (count - k) as nat),
            ),
        decreases count - k,
    {
        let ghost before = *cursor as int;
        let rec = match crate::record::read_record(buf, cursor) {
            Ok(Some(rec)) => rec,
            Ok(None) => {
                return Err(SnailError::Corruption);
            },
            Err(_) => {
                return Err(SnailError::Corruption);
            },
        };
        let ghost prev_views = entry_views(entries@);
        let value = match rec.kind {
            RecordKind::Put => Value::Present(rec.value),
            RecordKind::Delete => Value::Deleted,
        };
        entries.push(Entry { key: rec.key, value });
        proof {
            let pair = (rec.key@, if rec.kind == RecordKind::Put {
                Some(rec.value@)
            } else {
                None
            });
            assert(entry_views(entries@) =~= prev_views + seq![pair]);
            let rest = parse_records(buf@, *cursor as int, (count - k - 1) as nat);
            assert(parse_records(buf@, before, (count - k) as nat) == records_extend(
                seq![pair],
                rest,
            ));
            if rest is Some {
                let rs = rest->Some_0.0;
                assert((prev_views + seq![pair]) + rs =~= prev_views + (seq![pair] + rs));
            }
        }
        k = k + 1;
    }
    proof {
        assert(entry_views(entries@) + Seq::<(Seq<u8>, Option<Seq<u8>>)>::empty() =~= entry_views(
            entries@,
        ));
    }
    Ok(entries)
}

/// Reads the key-range footer through the trailing eight-byte offset: the
/// min key, the max key, and the offset the footer starts at.
pub fn read_footer(buf: &Vec<u8>) -> (r: Result<(Vec<u8>, Vec<u8>, usize), SnailError>)
    ensures
        match r {
            Ok((min, max, off)) => parse_footer(buf@, off as int) == Some((min@, max@)) && buf@.len()
                >= 8 && off as nat == le_val(buf@.subrange(buf@.len() - 8, buf@.len() as int)),
            Err(e) => {
                &&& e == SnailError::Corruption
                &&& (buf@.len() < 8 || le_val(
                    buf@.subrange(buf@.len() - 8, buf@.len() as int),
                ) > usize::MAX || parse_footer(
                    buf@,
                    le_val(buf@.subrange(buf@.len() - 8, buf@.len() as int)) as int,
                ) is None)
            },
        },
{
    let n = buf.len();
    if n < 8 {
        return Err(SnailError::Corruption);
    }
    let off64 = crate::wire::get_u64_le(buf, n - 8);
    if off64 > usize::MAX as u64 {
        return Err(SnailError::Corruption);
    }
    let off = off64 as usize;
    if off > n || n - off < 4 {
        return Err(SnailError::Corruption);
    }
    let min_len = crate::wire::get_u32_le(buf, off);
    proof {
        lemma_p256_vals();
        crate::wire::lemma_le_val_bound(buf@.subrange(off as int, off as int + 4));
    }
    let rem = n - off - 4;
    if (min_len as usize) > rem || rem - (min_len as usize) < 4 {
        return Err(SnailError::Corruption);
    }
    let min_key = crate::record::copy_range(buf, off + 4, min_len as usize);
    let q = off + 4 + min_len as usize;
    let max_len = crate::wire::get_u32_le(buf, q);
    proof {
        crate::wire::lemma_le_val_bound(buf@.subrange(q as int, q as int + 4));
    }
    let rem2 = n - q - 4;
    if rem2 < 8 || (max_len as usize) != rem2 - 8 {
        return Err(SnailError::Corruption);
    }
    let max_key = crate::record::copy_range(buf, q + 4, max_len as usize);
    proof {
        assert(parse_footer(buf@, off as int) == Some((min_key@, max_key@)));
    }
    Ok((min_key, max_key, off))
}

/// Checks the promises a table file makes about its own contents: strictly
/// ascending keys, the advertised range equal to the first and last key,
/// and Bloom coverage of every key.
#[verifier::loop_isolation(false)]
fn validate_table(
    entries: &Vec<Entry>,
    min_key: &Vec<u8>,
    max_key: &Vec<u8>,
    bloom: &BloomFilter,
) -> (r: bool)
    requires
        bloom.wf(),
    ensures
        r == ({
            &&& table_sorted(entries@)
            &&& entries@.len() > 0 ==> min_key@ == entries@[0].key@ && max_key@
                == entries@.last().key@
            &&& forall|j: int|
                0 <= j < entries@.len() ==> bloom_covers(bloom.bits@, (#[trigger] entries@[j]).key@)
        }),
{
    let m = entries.len();
    let mut i: usize = 0;
    while i + 1 < m
        invariant
            0 <= i <= m,
            m == entries@.len(),
            m >= 1 ==> i <= m - 1,
            forall|j: int|
                0 <= j < i ==> lex_lt((#[trigger] entries@[j]).key@, entries@[j + 1].key@),
        decreases m - i,
    {
        if !key_lt(&entries[i].key, &entries[i + 1].key) {
            return false;
        }
        i = i + 1;
    }
    proof {
        lemma_adjacent_sorted_entries(entries@);
    }
    if m > 0 {
        if !crate::keys::key_eq(min_key, &entries[0].key) {
            return false;
        }
        if !crate::keys::key_eq(max_key, &entries[m - 1].key) {
            return false;
        }
    }
    let mut i: usize = 0;
    while i < m
        invariant
            0 <= i <= m,
            m == entries@.len(),
            bloom.wf(),
            table_sorted(entries@),
            entries@.len() > 0 ==> min_key@ == entries@[0].key@ && max_key@
                == entries@.last().key@,
            forall|j: int|
                0 <= j < i ==> bloom_covers(bloom.bits@, (#[trigger] entries@[j]).key@),
        decreases m - i,
    {
        if !bloom.may_contain(&entries[i].key) {
            return false;
        }
        i = i + 1;
    }
    true
}

impl SsTable {
    /// Reads a whole table file back from its bytes: header, records,
    /// footer, then validation of the sorted order, the key range and the
    /// Bloom coverage the format promises. Fails with `Corruption` exactly
    /// when the bytes do not parse or the parsed table breaks a promise.
    #[verifier::loop_isolation(false)]
    #[verifier::rlimit(60)]
    pub fn load(path: Vec<u8>, bytes: &Vec<u8>) -> (r: Result<SsTable, SnailError>)
        ensures
            match r {
                Ok(t) => {
                    &&& parse_sstable(bytes@) is Some
                    &&& table_data_valid(parse_sstable(bytes@)->Some_0)
                    &&& t.wf_data()
                    &&& t.metadata.path@ == path@
                    &&& entry_views(t.entries_view()) == parse_sstable(bytes@)->Some_0.entries
                    &&& t.metadata.min_key@ == parse_sstable(bytes@)->Some_0.min_key
                    &&& t.metadata.max_key@ == parse_sstable(bytes@)->Some_0.max_key
                    &&& t.metadata.bloom_filter.bits@ == parse_sstable(bytes@)->Some_0.bloom
                },
                Err(e) => {
                    &&& e == SnailError::Corruption
                    &&& (parse_sstable(bytes@) is None || !table_data_valid(
                        parse_sstable(bytes@)->Some_0,
                    ))
                },
            },
    {
        let n = bytes.len();
        if n < 8 {
            return Err(SnailError::Corruption);
        }
        let count = crate::wire::get_u32_le(bytes, 0);
        let bloom_size = crate::wire::get_u32_le(bytes, 4);
        proof {
            lemma_p256_vals();
            crate::wire::lemma_le_val_bound(bytes@.subrange(0, 4));
            crate::wire::lemma_le_val_bound(bytes@.subrange(4, 8));
        }
        if (bloom_size as usize) > n - 8 {
            return Err(SnailError::Corruption);
        }
        let bloom_bits = crate::record::copy_range(bytes, 8, bloom_size as usize);
        let mut pos: usize = 8 + bloom_size as usize;
        let entries = match read_entries(bytes, &mut pos, count) {
            Ok(es) => es,
            Err(e) => {
                return Err(e);
            },
        };
        let (min_key, max_key, off) = match read_footer(bytes) {
            Ok(f) => f,
            Err(e) => {
                proof {
                    if parse_sstable(bytes@) is Some {
                        assert(parse_footer(bytes@, pos as int) is Some);
                        assert(bytes@.len() >= 8);
                        assert(le_val(bytes@.subrange(bytes@.len() - 8, bytes@.len() as int))
                            == pos);
                    }
                }
                return Err(SnailError::Corruption);
            },
        };
        if off != pos {
            proof {
                if parse_sstable(bytes@) is Some {
                    assert(parse_footer(bytes@, pos as int) is Some);
                }
            }
            return Err(SnailError::Corruption);
        }
        if bloom_bits.len() > usize::MAX / 8 {
            return Err(SnailError::Corruption);
        }
        let bloom_filter = BloomFilter { bits: bloom_bits };
        let ghost d = parse_sstable(bytes@)->Some_0;
        proof {
            assert(parse_sstable(bytes@) == Some(
                TableData {
                    count: count as nat,
                    bloom: bloom_filter.bits@,
                    entries: entry_views(entries@),
                    min_key: min_key@,
                    max_key: max_key@,
                },
            ));
        }
        if !validate_table(&entries, &min_key, &max_key, &bloom_filter) {
            proof {
                if table_data_valid(d) {
                    assert(table_sorted(entries@)) by {
                        assert forall|i2: int, j2: int|
                            0 <= i2 < j2 < entries@.len() implies lex_lt(
                            entries@[i2].key@,
                            entries@[j2].key@,
                        ) by {
                            assert(d.entries[i2].0 == entries@[i2].key@);
                            assert(d.entries[j2].0 == entries@[j2].key@);
                        }
                    }
                    assert forall|j: int| 0 <= j < entries@.len() implies bloom_covers(
                        bloom_filter.bits@,
                        (#[trigger] entries@[j]).key@,
                    ) by {
                        assert(d.entries[j].0 == entries@[j].key@);
                        assert(bloom_covers(d.bloom, d.entries[j].0));
                    }
                    if entries@.len() > 0 {
                        assert(d.entries[0].0 == entries@[0].key@);
                        assert(d.entries[d.entries.len() - 1].0 == entries@[entries@.len()
                            - 1].key@);
                        assert(min_key@ == entries@[0].key@);
                        assert(max_key@ == entries@.last().key@);
                    }
                    assert(false);
                }
            }
            return Err(SnailError::Corruption);
        }
        let table = SsTable {
            metadata: SsTableMetadata { path, min_key, max_key, bloom_filter },
            entries: Some(entries),
        };
        proof {
            let sv = table.entries_view();
            assert(table_data_valid(d)) by {
                assert forall|i2: int, j2: int| 0 <= i2 < j2 < d.entries.len() implies lex_lt(
                    (#[trigger] d.entries[i2]).0,
                    (#[trigger] d.entries[j2]).0,
                ) by {
                    assert(d.entries[i2].0 == sv[i2].key@);
                    assert(d.entries[j2].0 == sv[j2].key@);
                }
                assert forall|j: int| 0 <= j < d.entries.len() implies bloom_covers(
                    d.bloom,
                    (#[trigger] d.entries[j]).0,
                ) by {
                    assert(d.entries[j].0 == sv[j].key@);
                }
                if d.entries.len() > 0 {
                    assert(d.entries[0].0 == sv[0].key@);
                    assert(d.entries[d.entries.len() - 1].0 == sv[sv.len() - 1].key@);
                }
            }
            assert forall|j: int| 0 <= j < sv.len() implies lex_le(
                table.metadata.min_key@,
                (#[trigger] sv[j]).key@,
            ) && lex_le(sv[j].key@, table.metadata.max_key@) by {
                if j > 0 {
                    assert(lex_lt(sv[0].key@, sv[j].key@));
                }
                if j < sv.len() - 1 {
                    assert(lex_lt(sv[j].key@, sv[sv.len() - 1].key@));
                }
            }
        }
        Ok(table)
    }

    /// Reads only the header and, through the trailing offset, the footer,
    /// leaving the entries unloaded, for a cheap open that can still answer
    /// `might_contain_key`.
    pub fn load_metadata(path: Vec<u8>, bytes: &Vec<u8>) -> (r: Result<SsTable, SnailError>)
        ensures
            match r {
                Ok(t) => {
                    &&& parse_sstable_meta(bytes@) is Some
                    &&& !t.loaded()
                    &&& t.metadata.path@ == path@
                    &&& t.metadata.bloom_filter.wf()
                    &&& (parse_sstable_meta(bytes@) matches Some((c, b, mn, mx))
                        && t.metadata.bloom_filter.bits@ == b && t.metadata.min_key@ == mn
                        && t.metadata.max_key@ == mx)
                },
                Err(e) => {
                    &&& e == SnailError::Corruption
                    &&& (parse_sstable_meta(bytes@) is None || parse_sstable_meta(
                        bytes@,
                    )->Some_0.1.len() > usize::MAX / 8)
                },
            },
    {
        let n = bytes.len();
        if n < 16 {
            return Err(SnailError::Corruption);
        }
        let _count = crate::wire::get_u32_le(bytes, 0);
        let bloom_size = crate::wire::get_u32_le(bytes, 4);
        proof {
            lemma_p256_vals();
            crate::wire::lemma_le_val_bound(bytes@.subrange(4, 8));
        }
        if (bloom_size as usize) > n - 16 {
            return Err(SnailError::Corruption);
        }
        let bloom_bits = crate::record::copy_range(bytes, 8, bloom_size as usize);
        if bloom_bits.len() > usize::MAX / 8 {
            return Err(SnailError::Corruption);
        }
        let (min_key, max_key, _off) = match read_footer(bytes) {
            Ok(f) => f,
            Err(_) => {
                return Err(SnailError::Corruption);
            },
        };
        Ok(
            SsTable {
                metadata: SsTableMetadata {
                    path,
                    min_key,
                    max_key,
                    bloom_filter: BloomFilter { bits: bloom_bits },
                },
                entries: None,
            },
        )
    }
}

} // verus!
