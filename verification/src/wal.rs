use crate::memtable::entries_map;
use crate::record::{parse_record, read_record, record_fits, RecParse, RecordKind};
use crate::sstable::{pairs_view, rec_kind, rec_value, records_image};
use crate::{SnailError, Value};
use vstd::prelude::*;

verus! {

// The write-ahead log, seen from the verified side: its file is a plain
// sequence of records in insertion order, replayed here from bytes. The
// background writer owning the file handle runs outside the library and is
// driven by the commands below; what it appends for a SET or DELETE is the
// record encoding of this crate's codec, and when it syncs is decided by
// `SyncManager`.

/// A command for the background log writer.
pub enum WriteCommand {
    WriteRecord { kind: RecordKind, key: Vec<u8>, value: Vec<u8> },
    Flush,
    Reset,
    Shutdown,
}

/// Reads records from position `i` to the end of the log: each SET becomes
/// a present value, each DELETE a tombstone, duplicates kept in order. Any
/// malformed record fails the whole replay.
pub open spec fn parse_wal(s: Seq<u8>, i: int) -> Option<Seq<(Seq<u8>, Option<Seq<u8>>)>>
    decreases s.len() - i,
    when 0 <= i <= s.len()
    via parse_wal_dec
{
    match parse_record(s, i) {
        RecParse::Eof => Some(Seq::empty()),
        RecParse::Corrupt => None,
        RecParse::Rec { kind, key, value, crc, length, used } => {
            match parse_wal(s, i + used) {
                None => None,
                Some(rest) => Some(
                    seq![
                        (
                            key,
                            if kind == RecordKind::Put {
                                Some(value)
                            } else {
                                None
                            },
                        ),
                    ] + rest,
                ),
            }
        },
    }
}

#[via_fn]
proof fn parse_wal_dec(s: Seq<u8>, i: int) {
    match parse_record(s, i) {
        RecParse::Rec { kind, key, value, crc, length, used } => {
            assert(used == 8 + length);
            assert(i + used <= s.len());
        },
        _ => {},
    }
}

/// Decodes a whole log image into its replay list.
#[verifier::loop_isolation(false)]
pub fn replay(bytes: &Vec<u8>) -> (r: Result<Vec<(Vec<u8>, Value)>, SnailError>)
    ensures
        match r {
            Ok(es) => parse_wal(bytes@, 0) == Some(pairs_view(es@)),
            Err(e) => e == SnailError::Corruption && parse_wal(bytes@, 0) is None,
        },
{
    let mut out: Vec<(Vec<u8>, Value)> = Vec::new();
    let mut pos: usize = 0;
    loop
        invariant
            pos <= bytes@.len(),
            parse_wal(bytes@, 0) == wal_extend(pairs_view(out@), parse_wal(bytes@, pos as int)),
        decreases bytes@.len() - pos,
    {
        let ghost before = pos as int;
        let ghost prev = pairs_view(out@);
        let rec = match read_record(bytes, &mut pos) {
            Ok(Some(rec)) => rec,
            Ok(None) => {
                proof {
                    assert(parse_wal(bytes@, before) == Some(
                        Seq::<(Seq<u8>, Option<Seq<u8>>)>::empty(),
                    ));
                    assert(prev + Seq::<(Seq<u8>, Option<Seq<u8>>)>::empty() =~= prev);
                }
                return Ok(out);
            },
            Err(_) => {
                return Err(SnailError::Corruption);
            },
        };
        let value = match rec.kind {
            RecordKind::Put => Value::Present(rec.value),
            RecordKind::Delete => Value::Deleted,
        };
        out.push((rec.key, value));
        proof {
            let pair = (rec.key@, if rec.kind == RecordKind::Put {
                Some(rec.value@)
            } else {
                None
            });
            assert(pairs_view(out@) =~= prev + seq![pair]);
            let rest = parse_wal(bytes@, pos as int);
            assert(parse_wal(bytes@, before) == (match rest {
                None => None::<Seq<(Seq<u8>, Option<Seq<u8>>)>>,
                Some(r2) => Some(seq![pair] + r2),
            }));
            if rest is Some {
                let r2 = rest->Some_0;
                assert((prev + seq![pair]) + r2 =~= prev + (seq![pair] + r2));
            }
        }
    }
}

/// Prepends already-read pairs to a partial replay.
pub open spec fn wal_extend(
    acc: Seq<(Seq<u8>, Option<Seq<u8>>)>,
    res: Option<Seq<(Seq<u8>, Option<Seq<u8>>)>>,
) -> Option<Seq<(Seq<u8>, Option<Seq<u8>>)>> {
    match res {
        None => None,
        Some(rest) => Some(acc + rest),
    }
}

/// Replaying the records written for an operation list returns exactly
/// those operations, in order: the log round-trips, for every operation
/// whose key is valid UTF-8 and whose sizes the record format carries.
#[verifier::rlimit(100)]
pub proof fn lemma_wal_roundtrip(ops: Seq<(Vec<u8>, Value)>, x: Seq<u8>, i: int)
    requires
        0 <= i <= x.len(),
        x.skip(i) == records_image(ops),
        forall|j: int|
            0 <= j < ops.len() ==> record_fits(
                rec_kind(#[trigger] ops[j]),
                ops[j].0@,
                rec_value(ops[j]),
            ),
        forall|j: int| 0 <= j < ops.len() ==> crate::utf8::is_valid_utf8((#[trigger] ops[j]).0@),
    ensures
        parse_wal(x, i) == Some(pairs_view(ops)),
    decreases ops.len(),
{
    if ops.len() == 0 {
        assert(x.skip(i).len() == 0);
        assert(i == x.len());
        assert(pairs_view(ops) =~= Seq::<(Seq<u8>, Option<Seq<u8>>)>::empty());
    } else {
        let e0 = ops[0];
        let rb0 = crate::record::record_bytes(rec_kind(e0), e0.0@, rec_value(e0));
        let rest_img = records_image(ops.skip(1));
        assert(records_image(ops) == rb0 + rest_img);
        crate::record::lemma_record_roundtrip(rec_kind(e0), e0.0@, rec_value(e0), rest_img);
        crate::sstable::lemma_parse_record_shift(x, i);
        assert(x.skip(i) =~= rb0 + rest_img);
        assert(parse_record(x, i) == (RecParse::Rec {
            kind: rec_kind(e0),
            key: e0.0@,
            value: rec_value(e0),
            crc: crate::digest::crc32_of(crate::record::payload_bytes(
                rec_kind(e0),
                e0.0@,
                rec_value(e0),
            )),
            length: crate::record::payload_bytes(rec_kind(e0), e0.0@, rec_value(e0)).len(),
            used: rb0.len() as int,
        }));
        let i2 = i + rb0.len() as int;
        assert(x.skip(i2) =~= x.skip(i).skip(rb0.len() as int));
        assert(x.skip(i).skip(rb0.len() as int) =~= rest_img);
        assert(forall|j: int| 0 <= j < ops.skip(1).len() ==> (#[trigger] ops.skip(1)[j]) == ops[j
            + 1]);
        lemma_wal_roundtrip(ops.skip(1), x, i2);
        let pair0 = (
            e0.0@,
            if rec_kind(e0) == RecordKind::Put {
                Some(rec_value(e0))
            } else {
                None
            },
        );
        assert(pair0.1 == e0.1@);
        assert(pairs_view(ops) =~= seq![(e0.0@, e0.1@)] + pairs_view(ops.skip(1)));
    }
}

/// Reopening restores what was written: when the log bytes are exactly the
/// records appended for an operation list, whatever entry list the decoder
/// returns for them denotes the same map as the operations themselves, so a
/// store rebuilt from the replay reads as if the operations had just been
/// applied. (Durability of the bytes is the log writer's side: an explicit
/// flush, or the periodic sync interval, must have passed.)
pub proof fn lemma_reopen_restores(ops: Seq<(Vec<u8>, Value)>, es: Seq<(Vec<u8>, Value)>)
    requires
        forall|j: int|
            0 <= j < ops.len() ==> record_fits(
                rec_kind(#[trigger] ops[j]),
                ops[j].0@,
                rec_value(ops[j]),
            ),
        forall|j: int| 0 <= j < ops.len() ==> crate::utf8::is_valid_utf8((#[trigger] ops[j]).0@),
        parse_wal(records_image(ops), 0) == Some(pairs_view(es)),
    ensures
        entries_map(es) == entries_map(ops),
{
    assert(records_image(ops).skip(0) =~= records_image(ops));
    lemma_wal_roundtrip(ops, records_image(ops), 0);
    lemma_entries_map_congruent(es, ops);
}

/// Two operation lists with the same views replay to the same map.
pub proof fn lemma_entries_map_congruent(s1: Seq<(Vec<u8>, Value)>, s2: Seq<(Vec<u8>, Value)>)
    requires
        pairs_view(s1) == pairs_view(s2),
    ensures
        entries_map(s1) == entries_map(s2),
    decreases s1.len(),
{
    assert(pairs_view(s1).len() == s1.len());
    assert(pairs_view(s2).len() == s2.len());
    assert(s1.len() == s2.len());
    if s1.len() > 0 {
        assert(pairs_view(s1.drop_last()) =~= pairs_view(s2.drop_last())) by {
            assert(forall|i: int|
                0 <= i < s1.len() - 1 ==> (#[trigger] pairs_view(s1.drop_last())[i])
                    == pairs_view(s1)[i] && pairs_view(s2.drop_last())[i] == pairs_view(s2)[i]);
        }
        lemma_entries_map_congruent(s1.drop_last(), s2.drop_last());
        assert(pairs_view(s1)[s1.len() - 1] == (s1.last().0@, s1.last().1@));
        assert(pairs_view(s2)[s2.len() - 1] == (s2.last().0@, s2.last().1@));
        assert(s1.last().0@ == s2.last().0@ && s1.last().1@ == s2.last().1@);
    }
}

} // verus!
