use crate::memtable::{entries_map, entries_size, entry_size, stored_len, MemTable};
use crate::sstable::{entry_views, parse_sstable, table_data_valid, SsTable};
use crate::utf8::is_valid_utf8;
use crate::{SnailError, Value};
use vstd::prelude::*;

verus! {

// The engine: a memtable absorbing writes, an ordered list of on-disk
// tables (newest first), and a byte-size flush policy. The write-ahead log
// and the files themselves live outside the library; a caller appends the
// record for each mutation to the log before applying it here, persists the
// file image a flush hands back, and resets the log once that image is
// durable. Reads see the memtable first, then each table in recency order,
// and the first entry found for a key — a tombstone included — decides.

/// The default flush threshold: 64 MiB of approximate memtable size.
pub const DEFAULT_FLUSH_THRESHOLD_BYTES: usize = 64 * 1024 * 1024;

/// What a flush hands back for the caller to persist: the file name chosen
/// for the new table and the bytes of its image. The caller must write and
/// sync the file, then reset the write-ahead log.
pub struct FlushData {
    pub file_name: Vec<u8>,
    pub bytes: Vec<u8>,
}

pub struct SnailDb {
    pub memtable: MemTable,
    pub sstables: Vec<SsTable>,
    pub flush_threshold_bytes: usize,
    pub last_stamp: u128,
}

/// The combined map of a table list: a younger table (closer to the front)
/// shadows an older one.
pub open spec fn tables_view(ts: Seq<SsTable>) -> Map<Seq<u8>, Option<Seq<u8>>>
    decreases ts.len(),
{
    if ts.len() == 0 {
        Map::empty()
    } else {
        tables_view(ts.skip(1)).union_prefer_right(ts[0].view())
    }
}

/// The store's answer for a key under a given combined map: the bytes when
/// a live value is found, absent both for a tombstone and for a missing
/// key.
pub open spec fn query_of(m: Map<Seq<u8>, Option<Seq<u8>>>, k: Seq<u8>) -> Option<Seq<u8>> {
    if m.contains_key(k) {
        m[k]
    } else {
        None
    }
}

/// A key the memtable may hold: valid UTF-8 and, with its value, small
/// enough for one record of the log and table format.
pub open spec fn entry_ok(k: Seq<u8>, v: Option<Seq<u8>>) -> bool {
    &&& is_valid_utf8(k)
    &&& 11 + k.len() + stored_len(v) <= u32::MAX
}

/// A flush's returned data against the table it created: the image parses
/// back to that table's entries, filter and key range, and the file name
/// carries the flush stamp.
pub open spec fn flush_data_matches(t: SsTable, f: FlushData, stamp: u128) -> bool {
    &&& f.file_name@ == sst_name(stamp as nat)
    &&& t.metadata.path@ == f.file_name@
    &&& parse_sstable(f.bytes@) is Some
    &&& table_data_valid(parse_sstable(f.bytes@)->Some_0)
    &&& parse_sstable(f.bytes@)->Some_0.entries == entry_views(t.entries_view())
    &&& parse_sstable(f.bytes@)->Some_0.bloom == t.metadata.bloom_filter.bits@
    &&& parse_sstable(f.bytes@)->Some_0.min_key == t.metadata.min_key@
    &&& parse_sstable(f.bytes@)->Some_0.max_key == t.metadata.max_key@
}

/// Whether a memtable of `n` entries fits the count fields of a table
/// file.
pub open spec fn flushable(n: nat) -> bool {
    &&& n <= u32::MAX
    &&& n * 10 + 7 <= usize::MAX
    &&& (n * 10 + 7) / 8 <= u32::MAX
}

// Laws of the read path over the combined map. Together with the `view`
// clauses of `put`, `delete`, `get` and `flush_memtable` below they state
// the round-trip behaviour of the store.

/// After a put of `(k, v)`, a get of `k` returns exactly `v`.
pub proof fn lemma_put_then_get(m: Map<Seq<u8>, Option<Seq<u8>>>, k: Seq<u8>, v: Seq<u8>)
    ensures
        query_of(m.insert(k, Some(v)), k) == Some(v),
{
}

/// Of two puts to the same key, the later one wins.
pub proof fn lemma_last_put_wins(
    m: Map<Seq<u8>, Option<Seq<u8>>>,
    k: Seq<u8>,
    v1: Seq<u8>,
    v2: Seq<u8>,
)
    ensures
        query_of(m.insert(k, Some(v1)).insert(k, Some(v2)), k) == Some(v2),
{
}

/// A delete after a put makes the key read as absent.
pub proof fn lemma_delete_shadows(m: Map<Seq<u8>, Option<Seq<u8>>>, k: Seq<u8>, v: Seq<u8>)
    ensures
        query_of(m.insert(k, Some(v)).insert(k, None), k) is None,
{
}

/// A put or delete applied to the whole store is a put or delete on its
/// combined map.
proof fn lemma_union_insert(
    a: Map<Seq<u8>, Option<Seq<u8>>>,
    b: Map<Seq<u8>, Option<Seq<u8>>>,
    k: Seq<u8>,
    v: Option<Seq<u8>>,
)
    ensures
        a.union_prefer_right(b.insert(k, v)) == a.union_prefer_right(b).insert(k, v),
{
    assert(a.union_prefer_right(b.insert(k, v)) =~= a.union_prefer_right(b).insert(k, v));
}

/// A key in no table is not in the combined map.
proof fn lemma_tables_view_absent(ts: Seq<SsTable>, k: Seq<u8>)
    requires
        forall|j: int| 0 <= j < ts.len() ==> !(#[trigger] ts[j]).view().contains_key(k),
    ensures
        !tables_view(ts).contains_key(k),
    decreases ts.len(),
{
    if ts.len() > 0 {
        assert(forall|j: int|
            0 <= j < ts.skip(1).len() ==> (#[trigger] ts.skip(1)[j]) == ts[j + 1]);
        lemma_tables_view_absent(ts.skip(1), k);
    }
}

/// The youngest table holding a key decides its value in the combined map.
proof fn lemma_tables_view_first(ts: Seq<SsTable>, k: Seq<u8>, i: int)
    requires
        0 <= i < ts.len(),
        forall|j: int| 0 <= j < i ==> !(#[trigger] ts[j]).view().contains_key(k),
        ts[i].view().contains_key(k),
    ensures
        tables_view(ts).contains_key(k),
        tables_view(ts)[k] == ts[i].view()[k],
    decreases ts.len(),
{
    if i == 0 {
    } else {
        assert(forall|j: int|
            0 <= j < ts.skip(1).len() ==> (#[trigger] ts.skip(1)[j]) == ts[j + 1]);
        lemma_tables_view_first(ts.skip(1), k, i - 1);
        assert(!ts[0].view().contains_key(k));
    }
}

/// The size of a prefix never exceeds the size of the whole list.
proof fn lemma_entries_size_prefix(s: Seq<(Vec<u8>, Value)>, j: int)
    requires
        0 <= j <= s.len(),
    ensures
        entries_size(s.take(j)) <= entries_size(s),
    decreases s.len() - j,
{
    if j == s.len() {
        assert(s.take(j) =~= s);
    } else {
        assert(s.take(j + 1) =~= s.take(j).insert(j, s[j]));
        crate::memtable::lemma_entries_size_insert(s.take(j), j, s[j]);
        lemma_entries_size_prefix(s, j + 1);
    }
}

/// Relies on std::time::SystemTime: the milliseconds since the Unix epoch,
/// or zero before it. Nothing is assumed of the value.
#[verifier::external_body]
fn unix_millis() -> u128 {
    std::time::SystemTime::now().duration_since(std::time::UNIX_EPOCH).map(
        |d| d.as_millis(),
    ).unwrap_or(0)
}

/// The decimal digits of `n`, most significant first, as ASCII bytes.
pub open spec fn dec_digits(n: nat) -> Seq<u8>
    decreases n,
{
    if n < 10 {
        seq![(n + 48) as u8]
    } else {
        dec_digits(n / 10) + seq![(n % 10 + 48) as u8]
    }
}

/// The file name of the table flushed at `stamp`: `sst-<stamp>.sst`.
pub open spec fn sst_name(stamp: nat) -> Seq<u8> {
    seq![115u8, 115u8, 116u8, 45u8]  // "sst-"
     + dec_digits(stamp) + seq![46u8, 115u8, 115u8, 116u8]  // ".sst"

}

fn push_digits(out: &mut Vec<u8>, n: u128)
    ensures
        final(out)@ == old(out)@ + dec_digits(n as nat),
    decreases n,
{
    if n < 10 {
        out.push((n as u8) + 48);
        assert(out@ =~= old(out)@ + dec_digits(n as nat));
    } else {
        push_digits(out, n / 10);
        out.push(((n % 10) as u8) + 48);
        assert(out@ =~= old(out)@ + dec_digits(n as nat));
    }
}

/// Renders `sst-<stamp>.sst`.
pub fn sst_file_name(stamp: u128) -> (r: Vec<u8>)
    ensures
        r@ == sst_name(stamp as nat),
{
    let mut out: Vec<u8> = Vec::new();
    out.push(115);
    out.push(115);
    out.push(116);
    out.push(45);
    push_digits(&mut out, stamp);
    out.push(46);
    out.push(115);
    out.push(115);
    out.push(116);
    proof {
        assert(out@ =~= sst_name(stamp as nat));
    }
    out
}

impl SnailDb {
    /// The combined map the whole store denotes: every table, oldest to
    /// youngest, then the memtable on top.
    pub open spec fn view(self) -> Map<Seq<u8>, Option<Seq<u8>>> {
        tables_view(self.sstables@).union_prefer_right(self.memtable@)
    }

    /// The store's answer for a key.
    pub open spec fn query(self, k: Seq<u8>) -> Option<Seq<u8>> {
        query_of(self.view(), k)
    }

    pub open spec fn wf(self) -> bool {
        &&& self.memtable.wf()
        &&& forall|k: Seq<u8>|
            self.memtable@.contains_key(k) ==> entry_ok(k, #[trigger] self.memtable@[k])
        &&& forall|i: int| 0 <= i < self.sstables@.len() ==> (#[trigger] self.sstables@[i]).wf_data()
        &&& self.flush_threshold_bytes >= 1
    }

    /// A store rebuilt at open: the replayed log entries fill a fresh
    /// memtable in order, duplicates resolving to the last write, on top of
    /// the given tables, youngest first.
    #[verifier::loop_isolation(false)]
    pub fn open(replayed: Vec<(Vec<u8>, Value)>, sstables: Vec<SsTable>) -> (r: SnailDb)
        requires
            forall|i: int| 0 <= i < sstables@.len() ==> (#[trigger] sstables@[i]).wf_data(),
            forall|j: int|
                0 <= j < replayed@.len() ==> entry_ok(
                    (#[trigger] replayed@[j]).0@,
                    replayed@[j].1@,
                ),
            entries_size(replayed@) <= usize::MAX,
        ensures
            r.wf(),
            r.memtable@ == entries_map(replayed@),
            r.sstables@ == sstables@,
            r.flush_threshold_bytes == DEFAULT_FLUSH_THRESHOLD_BYTES,
    {
        let mut memtable = MemTable::new();
        let n = replayed.len();
        let mut i: usize = 0;
        while i < n
            invariant
                0 <= i <= n,
                n == replayed@.len(),
                memtable.wf(),
                memtable@ == entries_map(replayed@.take(i as int)),
                memtable.spec_size() <= entries_size(replayed@.take(i as int)),
                forall|k: Seq<u8>|
                    memtable@.contains_key(k) ==> entry_ok(k, #[trigger] memtable@[k]),
            decreases n - i,
        {
            let key = replayed[i].0.clone();
            let value = replayed[i].1.clone();
            proof {
                assert(key@ =~= replayed@[i as int].0@);
                assert(replayed@.take(i as int + 1) =~= replayed@.take(i as int).insert(
                    i as int,
                    replayed@[i as int],
                ));
                crate::memtable::lemma_entries_size_insert(
                    replayed@.take(i as int),
                    i as int,
                    replayed@[i as int],
                );
                lemma_entries_size_prefix(replayed@, i as int + 1);
                assert(entries_size(replayed@.take(i as int)) + entry_size(
                    replayed@[i as int].0@,
                    replayed@[i as int].1@,
                ) <= usize::MAX);
                assert(replayed@.take(i as int + 1).drop_last() =~= replayed@.take(i as int));
            }
            let ghost pre = memtable;
            memtable.insert(key, value);
            proof {
                assert(memtable@ == entries_map(replayed@.take(i as int + 1)));
                assert(memtable.spec_size() <= pre.spec_size() + entry_size(
                    replayed@[i as int].0@,
                    replayed@[i as int].1@,
                ));
                assert forall|k: Seq<u8>| memtable@.contains_key(k) implies entry_ok(
                    k,
                    #[trigger] memtable@[k],
                ) by {
                    if k != replayed@[i as int].0@ {
                        assert(pre@.contains_key(k) && pre@[k] == memtable@[k]);
                    }
                }
            }
            i = i + 1;
        }
        proof {
            assert(replayed@.take(n as int) =~= replayed@);
        }
        SnailDb {
            memtable,
            sstables,
            flush_threshold_bytes: DEFAULT_FLUSH_THRESHOLD_BYTES,
            last_stamp: 0,
        }
    }

    /// Sets the flush threshold, clamped to at least one byte so an empty
    /// memtable can never trigger a flush.
    pub fn with_flush_threshold(self, bytes: usize) -> (r: SnailDb)
        requires
            self.wf(),
        ensures
            r.wf(),
            r.flush_threshold_bytes == (if bytes >= 1 {
                bytes
            } else {
                1
            }),
            r.memtable == self.memtable,
            r.sstables == self.sstables,
            r.view() == self.view(),
    {
        let t = if bytes >= 1 {
            bytes
        } else {
            1
        };
        SnailDb {
            memtable: self.memtable,
            sstables: self.sstables,
            flush_threshold_bytes: t,
            last_stamp: self.last_stamp,
        }
    }

    /// Inserts a key and value, tombstone included, and flushes when the
    /// memtable has reached the threshold.
    fn write_entry(&mut self, key: Vec<u8>, value: Value) -> (r: Result<
        Option<FlushData>,
        SnailError,
    >)
        requires
            old(self).wf(),
            entry_ok(key@, value@),
            old(self).memtable.spec_size() + key@.len() + stored_len(value@) + 40 <= usize::MAX,
        ensures
            final(self).wf(),
            final(self).flush_threshold_bytes == old(self).flush_threshold_bytes,
            final(self).view() == old(self).view().insert(key@, value@),
            match r {
                Ok(None) => final(self).sstables@ == old(self).sstables@ && final(self).memtable@
                    == old(self).memtable@.insert(key@, value@),
                Ok(Some(f)) => {
                    &&& final(self).memtable.spec_len() == 0
                    &&& final(self).sstables@.len() == old(self).sstables@.len() + 1
                    &&& final(self).sstables@.skip(1) == old(self).sstables@
                    &&& final(self).sstables@[0].view() == old(self).memtable@.insert(
                        key@,
                        value@,
                    )
                    &&& flush_data_matches(final(self).sstables@[0], f, final(self).last_stamp)
                },
                Err(e) => {
                    &&& e == SnailError::InvalidInput
                    &&& final(self).sstables@ == old(self).sstables@
                    &&& final(self).memtable@ == old(self).memtable@.insert(key@, value@)
                    &&& !flushable(final(self).memtable.spec_len())
                },
            },
    {
        let ghost pre_mem = self.memtable@;
        self.memtable.insert(key, value);
        proof {
            lemma_union_insert(tables_view(self.sstables@), pre_mem, key@, value@);
            assert forall|k: Seq<u8>| self.memtable@.contains_key(k) implies entry_ok(
                k,
                #[trigger] self.memtable@[k],
            ) by {
                if k != key@ {
                    assert(pre_mem.contains_key(k) && pre_mem[k] == self.memtable@[k]);
                }
            }
        }
        if self.memtable.size_bytes() >= self.flush_threshold_bytes {
            match self.flush_memtable() {
                Ok(opt) => Ok(opt),
                Err(e) => Err(e),
            }
        } else {
            Ok(None)
        }
    }

    /// Writes a key and live value into the store. The caller must first
    /// have appended the matching SET record to the write-ahead log; when a
    /// flush is returned, the caller persists it and resets the log.
    pub fn put(&mut self, key: Vec<u8>, value: Vec<u8>) -> (r: Result<
        Option<FlushData>,
        SnailError,
    >)
        requires
            old(self).wf(),
            is_valid_utf8(key@),
            11 + key@.len() + value@.len() <= u32::MAX,
            old(self).memtable.spec_size() + key@.len() + value@.len() + 40 <= usize::MAX,
        ensures
            final(self).wf(),
            final(self).flush_threshold_bytes == old(self).flush_threshold_bytes,
            final(self).view() == old(self).view().insert(key@, Some(value@)),
            final(self).query(key@) == Some(value@),
            match r {
                Ok(None) => final(self).sstables@ == old(self).sstables@ && final(self).memtable@
                    == old(self).memtable@.insert(key@, Some(value@)),
                Ok(Some(f)) => {
                    &&& final(self).memtable.spec_len() == 0
                    &&& final(self).sstables@.len() == old(self).sstables@.len() + 1
                    &&& final(self).sstables@.skip(1) == old(self).sstables@
                    &&& final(self).sstables@[0].view() == old(self).memtable@.insert(
                        key@,
                        Some(value@),
                    )
                    &&& flush_data_matches(final(self).sstables@[0], f, final(self).last_stamp)
                },
                Err(e) => {
                    &&& e == SnailError::InvalidInput
                    &&& final(self).sstables@ == old(self).sstables@
                    &&& final(self).memtable@ == old(self).memtable@.insert(key@, Some(value@))
                    &&& !flushable(final(self).memtable.spec_len())
                },
            },
    {
        let ghost k = key@;
        let ghost v = value@;
        let r = self.write_entry(key, Value::Present(value));
        proof {
            lemma_put_then_get(old(self).view(), k, v);
        }
        r
    }

    /// Writes a tombstone for a key, shadowing any older value. The same
    /// log discipline as for `put` applies, with a DELETE record.
    pub fn delete(&mut self, key: Vec<u8>) -> (r: Result<Option<FlushData>, SnailError>)
        requires
            old(self).wf(),
            is_valid_utf8(key@),
            11 + key@.len() <= u32::MAX,
            old(self).memtable.spec_size() + key@.len() + 40 <= usize::MAX,
        ensures
            final(self).wf(),
            final(self).flush_threshold_bytes == old(self).flush_threshold_bytes,
            final(self).view() == old(self).view().insert(key@, None),
            final(self).query(key@) is None,
            match r {
                Ok(None) => final(self).sstables@ == old(self).sstables@ && final(self).memtable@
                    == old(self).memtable@.insert(key@, None),
                Ok(Some(f)) => {
                    &&& final(self).memtable.spec_len() == 0
                    &&& final(self).sstables@.len() == old(self).sstables@.len() + 1
                    &&& final(self).sstables@.skip(1) == old(self).sstables@
                    &&& final(self).sstables@[0].view() == old(self).memtable@.insert(key@, None)
                    &&& flush_data_matches(final(self).sstables@[0], f, final(self).last_stamp)
                },
                Err(e) => {
                    &&& e == SnailError::InvalidInput
                    &&& final(self).sstables@ == old(self).sstables@
                    &&& final(self).memtable@ == old(self).memtable@.insert(key@, None)
                    &&& !flushable(final(self).memtable.spec_len())
                },
            },
    {
        self.write_entry(key, Value::Deleted)
    }

    /// Reads a key: the memtable first, then each table youngest first,
    /// each gated by its Bloom filter and key range; the first entry found
    /// decides, and a tombstone reads as absent.
    #[verifier::loop_isolation(false)]
    pub fn get(&self, key: &Vec<u8>) -> (r: Option<Vec<u8>>)
        requires
            self.wf(),
        ensures
            match r {
                Some(b) => self.query(key@) == Some(b@),
                None => self.query(key@) is None,
            },
    {
        match self.memtable.get(key) {
            Some(v) => {
                return match v.as_option() {
                    Some(b) => Some(b),
                    None => None,
                };
            },
            None => {},
        }
        let ghost ts = self.sstables@;
        let n = self.sstables.len();
        let mut i: usize = 0;
        while i < n
            invariant
                0 <= i <= n,
                n == ts.len(),
                !self.memtable@.contains_key(key@),
                forall|j: int| 0 <= j < i ==> !(#[trigger] ts[j]).view().contains_key(key@),
            decreases n - i,
        {
            let table = &self.sstables[i];
            if table.might_contain_key(key) {
                match table.get(key) {
                    Some(v) => {
                        proof {
                            lemma_tables_view_first(ts, key@, i as int);
                        }
                        return match v.as_option() {
                            Some(b) => Some(b),
                            None => None,
                        };
                    },
                    None => {},
                }
            }
            i = i + 1;
        }
        proof {
            lemma_tables_view_absent(ts, key@);
        }
        None
    }

    /// Drains a non-empty memtable into a new youngest table and returns
    /// its file image; a no-op on an empty memtable. The store's combined
    /// map is unchanged in every case: flushing moves data, never alters
    /// it. The caller persists the image and then resets the write-ahead
    /// log, in that order.
    #[verifier::loop_isolation(false)]
    #[verifier::rlimit(100)]
    pub fn flush_memtable(&mut self) -> (r: Result<Option<FlushData>, SnailError>)
        requires
            old(self).wf(),
        ensures
            final(self).wf(),
            final(self).flush_threshold_bytes == old(self).flush_threshold_bytes,
            final(self).view() == old(self).view(),
            match r {
                Ok(None) => old(self).memtable.spec_len() == 0 && *final(self) == *old(self),
                Ok(Some(f)) => {
                    &&& old(self).memtable.spec_len() > 0
                    &&& final(self).memtable.spec_len() == 0
                    &&& final(self).sstables@.len() == old(self).sstables@.len() + 1
                    &&& final(self).sstables@.skip(1) == old(self).sstables@
                    &&& final(self).sstables@[0].view() == old(self).memtable@
                    &&& flush_data_matches(final(self).sstables@[0], f, final(self).last_stamp)
                },
                Err(e) => {
                    &&& e == SnailError::InvalidInput
                    &&& *final(self) == *old(self)
                    &&& !flushable(old(self).memtable.spec_len())
                },
            },
    {
        if self.memtable.is_empty() {
            return Ok(None);
        }
        let len = self.memtable.len();
        if len > (usize::MAX - 7) / 10 {
            proof {
                assert(!(len * 10 + 7 <= usize::MAX)) by (nonlinear_arith)
                    requires
                        len > (usize::MAX - 7) / 10,
                ;
            }
            return Err(SnailError::InvalidInput);
        }
        if len > u32::MAX as usize || (len * 10 + 7) / 8 > u32::MAX as usize {
            return Err(SnailError::InvalidInput);
        }
        let millis = unix_millis();
        let bump = if self.last_stamp < u128::MAX {
            self.last_stamp + 1
        } else {
            self.last_stamp
        };
        let stamp = if millis > bump {
            millis
        } else {
            bump
        };
        self.last_stamp = stamp;
        let file_name = sst_file_name(stamp);
        let ghost pre_mem = self.memtable@;
        let entries = self.memtable.drain_sorted();
        let ghost ents = entries@;
        proof {
            lemma_mem_entries_encodable(pre_mem, ents);
        }
        let path_copy = file_name.clone();
        proof {
            assert(path_copy@ =~= file_name@);
        }
        match SsTable::create(path_copy, entries) {
            Ok((table, bytes)) => {
                let bytes_len = bytes.len();
                self.sstables.insert(0, table);
                proof {
                    let ts2 = self.sstables@;
                    assert(ts2.skip(1) =~= old(self).sstables@);
                    assert(bytes@.len() == bytes_len);
                    lemma_flush_post(
                        old(self).sstables@,
                        pre_mem,
                        ents,
                        ts2[0],
                        bytes@,
                        ts2,
                    );
                    assert(self.view() == old(self).view());
                }
                Ok(Some(FlushData { file_name, bytes }))
            },
            Err(e) => {
                proof {
                    assert(false);
                }
                Err(e)
            },
        }
    }
}

/// The entries a drain hands out all fit the record format, because every
/// memtable key did.
proof fn lemma_mem_entries_encodable(pre_mem: Map<Seq<u8>, Option<Seq<u8>>>, ents: Seq<(Vec<u8>, Value)>)
    requires
        crate::memtable::sorted_strict(ents),
        entries_map(ents) == pre_mem,
        forall|k: Seq<u8>| pre_mem.contains_key(k) ==> entry_ok(k, #[trigger] pre_mem[k]),
    ensures
        forall|j: int|
            0 <= j < ents.len() ==> crate::record::record_fits(
                crate::sstable::rec_kind(#[trigger] ents[j]),
                ents[j].0@,
                crate::sstable::rec_value(ents[j]),
            ) && is_valid_utf8(ents[j].0@),
{
    crate::memtable::lemma_sorted_distinct(ents);
    crate::memtable::lemma_entries_map_char(ents);
    assert forall|j: int| 0 <= j < ents.len() implies crate::record::record_fits(
        crate::sstable::rec_kind(#[trigger] ents[j]),
        ents[j].0@,
        crate::sstable::rec_value(ents[j]),
    ) && is_valid_utf8(ents[j].0@) by {
        assert(pre_mem.contains_key(ents[j].0@) && pre_mem[ents[j].0@] == ents[j].1@);
        assert(entry_ok(ents[j].0@, ents[j].1@));
        lemma_entry_ok_record_fits(ents[j]);
    }
}

/// What one flush establishes: the combined map is unchanged and the file
/// image parses back to the created table.
#[verifier::rlimit(100)]
proof fn lemma_flush_post(
    old_tables: Seq<SsTable>,
    pre_mem: Map<Seq<u8>, Option<Seq<u8>>>,
    ents: Seq<(Vec<u8>, Value)>,
    t: SsTable,
    image: Seq<u8>,
    new_tables: Seq<SsTable>,
)
    requires
        new_tables.len() == old_tables.len() + 1,
        new_tables[0] == t,
        new_tables.skip(1) == old_tables,
        t.wf_data(),
        t.view() == entries_map(ents),
        pre_mem == entries_map(ents),
        crate::memtable::sorted_strict(ents),
        ents.len() > 0,
        crate::sstable::table_encodable(ents),
        t.entries_view().len() == ents.len(),
        forall|j: int|
            0 <= j < ents.len() ==> (#[trigger] t.entries_view()[j]).key@ == ents[j].0@
                && t.entries_view()[j].value@ == ents[j].1@,
        t.metadata.min_key@ == ents[0].0@,
        t.metadata.max_key@ == ents.last().0@,
        image == crate::sstable::sstable_image(ents, t.metadata.bloom_filter.bits@),
        image.len() < 0x10000000000000000,
        t.metadata.bloom_filter.bits@.len() <= u32::MAX,
        forall|j: int| 0 <= j < ents.len() ==> is_valid_utf8((#[trigger] ents[j]).0@),
    ensures
        tables_view(new_tables).union_prefer_right(Map::<Seq<u8>, Option<Seq<u8>>>::empty())
            == tables_view(old_tables).union_prefer_right(pre_mem),
        parse_sstable(image) is Some,
        table_data_valid(parse_sstable(image)->Some_0),
        parse_sstable(image)->Some_0.entries == entry_views(t.entries_view()),
        parse_sstable(image)->Some_0.bloom == t.metadata.bloom_filter.bits@,
        parse_sstable(image)->Some_0.min_key == t.metadata.min_key@,
        parse_sstable(image)->Some_0.max_key == t.metadata.max_key@,
{
    assert(tables_view(new_tables) == tables_view(old_tables).union_prefer_right(t.view()));
    assert(tables_view(new_tables).union_prefer_right(Map::<Seq<u8>, Option<Seq<u8>>>::empty())
        =~= tables_view(old_tables).union_prefer_right(pre_mem));
    crate::sstable::lemma_sstable_roundtrip(ents, t.metadata.bloom_filter.bits@);
    let d = parse_sstable(image)->Some_0;
    assert(d.entries == crate::sstable::pairs_view(ents));
    assert forall|j: int| 0 <= j < ents.len() implies (#[trigger] entry_views(
        t.entries_view(),
    )[j]) == crate::sstable::pairs_view(ents)[j] by {
        assert(t.entries_view()[j].key@ == ents[j].0@);
        assert(t.entries_view()[j].value@ == ents[j].1@);
    }
    assert(entry_views(t.entries_view()) =~= crate::sstable::pairs_view(ents));
    // The parsed data is valid: sorted, covered, and range-matched.
    assert(d.count == d.entries.len());
    assert(d.bloom.len() <= usize::MAX / 8);
    assert forall|i: int, j: int| 0 <= i < j < d.entries.len() implies crate::keys::lex_lt(
        (#[trigger] d.entries[i]).0,
        (#[trigger] d.entries[j]).0,
    ) by {
        assert(d.entries[i].0 == ents[i].0@ && d.entries[j].0 == ents[j].0@);
    }
    assert forall|i: int| 0 <= i < d.entries.len() implies crate::bloom::bloom_covers(
        d.bloom,
        (#[trigger] d.entries[i]).0,
    ) by {
        assert(d.entries[i].0 == t.entries_view()[i].key@);
        assert(crate::bloom::bloom_covers(
            t.metadata.bloom_filter.bits@,
            t.entries_view()[i].key@,
        ));
    }
}

/// A key and value within the memtable bounds form a representable record.
proof fn lemma_entry_ok_record_fits(e: (Vec<u8>, Value))
    requires
        entry_ok(e.0@, e.1@),
    ensures
        crate::record::record_fits(
            crate::sstable::rec_kind(e),
            e.0@,
            crate::sstable::rec_value(e),
        ),
{
    let k = e.0@;
    let v = crate::sstable::rec_value(e);
    crate::wire::lemma_varint_len(k.len());
    crate::wire::lemma_varint_len(v.len());
    assert(crate::record::payload_bytes(crate::sstable::rec_kind(e), k, v).len() <= 11 + k.len()
        + v.len());
}

} // verus!
