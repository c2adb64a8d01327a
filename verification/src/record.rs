use crate::digest::{crc32, crc32_of};
use crate::utf8::{is_utf8, is_valid_utf8};
use crate::wire::{
    decode_var_u32, encode_var_u32, get_u32_le, le_bytes, le_val, lemma_le_bytes_len,
    lemma_le_roundtrip, lemma_p256_vals, lemma_varint_len, lemma_varint_parse_shift,
    lemma_varint_roundtrip, p256, put_u32_le, varint, varint_parse,
};
use crate::SnailError;
use vstd::prelude::*;

verus! {

// One length-prefixed, CRC-checked record, the unit of both the write-ahead
// log and the table data section:
//
//   [length: u32 LE] [crc32: u32 LE] [payload]
//   payload = [kind: u8] [key_len: varint] [key] [value_len: varint] [value]
//
// `length` counts payload bytes only and the checksum covers the payload
// bytes only. `kind` is 1 for SET and 2 for DELETE. Key bytes must be valid
// UTF-8.

#[derive(Clone, Copy, Debug, PartialEq, Eq, Structural)]
pub enum RecordKind {
    Put,
    Delete,
}

impl RecordKind {
    pub open spec fn spec_byte(self) -> u8 {
        match self {
            RecordKind::Put => 1,
            RecordKind::Delete => 2,
        }
    }

    pub fn as_byte(self) -> (r: u8)
        ensures
            r == self.spec_byte(),
    {
        match self {
            RecordKind::Put => 1,
            RecordKind::Delete => 2,
        }
    }

    /// Accepts exactly the two wire codes; anything else is corruption.
    pub fn from_byte(byte: u8) -> (r: Result<RecordKind, SnailError>)
        ensures
            match r {
                Ok(k) => k.spec_byte() == byte,
                Err(e) => e == SnailError::Corruption && byte != 1 && byte != 2,
            },
    {
        match byte {
            1 => Ok(RecordKind::Put),
            2 => Ok(RecordKind::Delete),
            _ => Err(SnailError::Corruption),
        }
    }
}

/// A record decoded from the wire format, with the raw framing fields kept.
pub struct DecodedRecord {
    pub kind: RecordKind,
    pub key: Vec<u8>,
    pub value: Vec<u8>,
    pub crc32: u32,
    pub length: u32,
    pub key_length: u32,
    pub value_length: u32,
}

/// The payload of one record.
pub open spec fn payload_bytes(kind: RecordKind, key: Seq<u8>, value: Seq<u8>) -> Seq<u8> {
    seq![kind.spec_byte()] + varint(key.len()) + key + varint(value.len()) + value
}

/// The full wire form of one record: framing header plus payload.
pub open spec fn record_bytes(kind: RecordKind, key: Seq<u8>, value: Seq<u8>) -> Seq<u8> {
    let p = payload_bytes(kind, key, value);
    le_bytes(p.len(), 4) + le_bytes(crc32_of(p) as nat, 4) + p
}

/// Whether key, value and the payload they form stay within the 32-bit
/// length fields of the format.
pub open spec fn record_fits(kind: RecordKind, key: Seq<u8>, value: Seq<u8>) -> bool {
    &&& key.len() <= u32::MAX
    &&& value.len() <= u32::MAX
    &&& payload_bytes(kind, key, value).len() <= u32::MAX
}

/// The outcome of reading one record from a byte string.
pub enum RecParse {
    /// No bytes at all remain at the read position.
    Eof,
    /// The bytes at the read position are not a well-formed record.
    Corrupt,
    /// A record: its fields and the total number of bytes it occupies.
    Rec { kind: RecordKind, key: Seq<u8>, value: Seq<u8>, crc: u32, length: nat, used: int },
}

/// Splits a record payload into kind, key and value, enforcing the varint
/// bounds, exact consumption and UTF-8 validity of the key.
pub open spec fn parse_payload(p: Seq<u8>) -> Option<(RecordKind, Seq<u8>, Seq<u8>)> {
    if p.len() < 1 {
        None
    } else if p[0] != 1 && p[0] != 2 {
        None
    } else {
        let kind = if p[0] == 1 {
            RecordKind::Put
        } else {
            RecordKind::Delete
        };
        match varint_parse(p, 1) {
            None => None,
            Some((klen, kused)) => {
                if 1 + kused + klen > p.len() {
                    None
                } else {
                    let key = p.subrange(1 + kused, 1 + kused + klen);
                    match varint_parse(p, 1 + kused + klen) {
                        None => None,
                        Some((vlen, vused)) => {
                            let vstart = 1 + kused + klen + vused;
                            if vstart + vlen != p.len() {
                                None
                            } else if !is_valid_utf8(key) {
                                None
                            } else {
                                let value = p.subrange(vstart as int, (vstart + vlen) as int);
                                Some((kind, key, value))
                            }
                        },
                    }
                }
            },
        }
    }
}

/// Reads one record at position `i` of `s`: end of stream exactly when zero
/// bytes remain, otherwise either a validated record or corruption.
pub open spec fn parse_record(s: Seq<u8>, i: int) -> RecParse {
    if !(0 <= i <= s.len()) {
        RecParse::Corrupt
    } else if i == s.len() {
        RecParse::Eof
    } else if i + 8 > s.len() {
        RecParse::Corrupt
    } else {
        let length = le_val(s.subrange(i, i + 4));
        let crc = le_val(s.subrange(i + 4, i + 8));
        if i + 8 + length > s.len() {
            RecParse::Corrupt
        } else {
            let p = s.subrange(i + 8, i + 8 + length);
            if crc32_of(p) != crc {
                RecParse::Corrupt
            } else {
                match parse_payload(p) {
                    None => RecParse::Corrupt,
                    Some((kind, key, value)) => RecParse::Rec {
                        kind,
                        key,
                        value,
                        crc: crc32_of(p),
                        length: p.len(),
                        used: 8 + length as int,
                    },
                }
            }
        }
    }
}

/// Appends a copy of `src` to `out`.
pub fn append_bytes(out: &mut Vec<u8>, src: &Vec<u8>)
    ensures
        final(out)@ == old(out)@ + src@,
{
    let n = src.len();
    let mut i: usize = 0;
    while i < n
        invariant
            0 <= i <= n,
            n == src@.len(),
            out@ == old(out)@ + src@.take(i as int),
        decreases n - i,
    {
        out.push(src[i]);
        proof {
            assert(out@ =~= old(out)@ + src@.take(i as int + 1));
        }
        i = i + 1;
    }
    proof {
        assert(out@ =~= old(out)@ + src@);
    }
}

/// Copies `len` bytes of `src` starting at `start`.
pub fn copy_range(src: &Vec<u8>, start: usize, len: usize) -> (r: Vec<u8>)
    requires
        start + len <= src@.len(),
    ensures
        r@ == src@.subrange(start as int, start as int + len as int),
{
    let total = src.len();
    let mut r: Vec<u8> = Vec::new();
    let mut i: usize = 0;
    while i < len
        invariant
            0 <= i <= len,
            total == src@.len(),
            start + len <= src@.len(),
            r@ == src@.subrange(start as int, start as int + i as int),
        decreases len - i,
    {
        r.push(src[start + i]);
        proof {
            assert(r@ =~= src@.subrange(start as int, start as int + i as int + 1));
        }
        i = i + 1;
    }
    r
}

/// Appends exactly one record for `(kind, key, value)` to `out`, or reports
/// `InvalidInput` and leaves `out` unchanged when a length field would
/// overflow its 32-bit bound.
pub fn write_record(out: &mut Vec<u8>, kind: RecordKind, key: &Vec<u8>, value: &Vec<u8>) -> (r:
    Result<(), SnailError>)
    ensures
        match r {
            Ok(()) => record_fits(kind, key@, value@) && final(out)@ == old(out)@ + record_bytes(
                kind,
                key@,
                value@,
            ),
            Err(e) => {
                &&& e == SnailError::InvalidInput
                &&& !record_fits(kind, key@, value@)
                &&& final(out)@ == old(out)@
            },
        },
{
    if key.len() > u32::MAX as usize {
        return Err(SnailError::InvalidInput);
    }
    if value.len() > u32::MAX as usize {
        return Err(SnailError::InvalidInput);
    }
    let mut payload: Vec<u8> = Vec::new();
    payload.push(kind.as_byte());
    encode_var_u32(&mut payload, key.len() as u32);
    append_bytes(&mut payload, key);
    encode_var_u32(&mut payload, value.len() as u32);
    append_bytes(&mut payload, value);
    proof {
        assert(payload@ =~= payload_bytes(kind, key@, value@));
    }
    if payload.len() > u32::MAX as usize {
        return Err(SnailError::InvalidInput);
    }
    let length = payload.len() as u32;
    let crc = crc32(&payload);
    put_u32_le(out, length);
    put_u32_le(out, crc);
    append_bytes(out, &payload);
    proof {
        assert(out@ =~= old(out)@ + record_bytes(kind, key@, value@));
    }
    Ok(())
}

/// Reads one record from `buf` at `*cursor`, advancing the cursor past it on
/// success. `Ok(None)` reports a clean end of stream; `Corruption` reports a
/// malformed record and leaves the cursor unchanged.
#[verifier::loop_isolation(false)]
pub fn read_record(buf: &Vec<u8>, cursor: &mut usize) -> (r: Result<
    Option<DecodedRecord>,
    SnailError,
>)
    requires
        *old(cursor) <= buf@.len(),
    ensures
        match r {
            Ok(None) => parse_record(buf@, *old(cursor) as int) is Eof && *final(cursor) == *old(
                cursor,
            ),
            Ok(Some(rec)) => {
                &&& parse_record(buf@, *old(cursor) as int) matches RecParse::Rec {
                    kind,
                    key,
                    value,
                    crc,
                    length,
                    used,
                }
                &&& parse_record(buf@, *old(cursor) as int) == (RecParse::Rec {
                    kind: rec.kind,
                    key: rec.key@,
                    value: rec.value@,
                    crc: rec.crc32,
                    length: rec.length as nat,
                    used: *final(cursor) - *old(cursor),
                })
                &&& rec.key_length == rec.key@.len()
                &&& rec.value_length == rec.value@.len()
                &&& *old(cursor) < *final(cursor) <= buf@.len()
            },
            Err(e) => {
                &&& e == SnailError::Corruption
                &&& parse_record(buf@, *old(cursor) as int) is Corrupt
                &&& *final(cursor) == *old(cursor)
            },
        },
{
    let n = buf.len();
    let start = *cursor;
    if start == n {
        return Ok(None);
    }
    if n - start < 8 {
        return Err(SnailError::Corruption);
    }
    let length = get_u32_le(buf, start);
    let crc_stored = get_u32_le(buf, start + 4);
    proof {
        lemma_p256_vals();
        crate::wire::lemma_le_val_bound(buf@.subrange(start as int, start as int + 4));
    }
    if (length as usize) > n - (start + 8) {
        return Err(SnailError::Corruption);
    }
    let payload = copy_range(buf, start + 8, length as usize);
    let crc_computed = crc32(&payload);
    if crc_computed != crc_stored {
        return Err(SnailError::Corruption);
    }
    // Decode the payload.
    let ghost p = payload@;
    if payload.len() < 1 {
        return Err(SnailError::Corruption);
    }
    let kind_byte = payload[0];
    let kind = match RecordKind::from_byte(kind_byte) {
        Ok(k) => k,
        Err(e) => {
            return Err(e);
        },
    };
    let mut pc: usize = 1;
    let key_len = match decode_var_u32(&payload, &mut pc) {
        Some(v) => v,
        None => {
            return Err(SnailError::Corruption);
        },
    };
    if (key_len as usize) > payload.len() - pc {
        proof {
            assert(1 + (pc - 1) + key_len as nat > p.len());
        }
        return Err(SnailError::Corruption);
    }
    let ghost kused = pc - 1;
    let key = copy_range(&payload, pc, key_len as usize);
    let key_end = pc + key_len as usize;
    pc = key_end;
    let value_len = match decode_var_u32(&payload, &mut pc) {
        Some(v) => v,
        None => {
            return Err(SnailError::Corruption);
        },
    };
    let ghost vused = pc - key_end;
    if (value_len as usize) != payload.len() - pc {
        return Err(SnailError::Corruption);
    }
    let value = copy_range(&payload, pc, value_len as usize);
    if !is_utf8(&key) {
        return Err(SnailError::Corruption);
    }
    proof {
        assert(key@ =~= p.subrange(1 + kused, 1 + kused + key_len as nat));
        assert(value@ =~= p.subrange(
            1 + kused + key_len as nat + vused,
            1 + kused + key_len as nat + vused + value_len as nat,
        ));
        assert(parse_payload(p) == Some((kind, key@, value@)));
    }
    *cursor = start + 8 + length as usize;
    Ok(
        Some(
            DecodedRecord {
                kind,
                key,
                value,
                crc32: crc_stored,
                length,
                key_length: key_len,
                value_length: value_len,
            },
        ),
    )
}

/// Reading back a written record returns the same kind, key and value: the
/// codec round-trips, for every key that is valid UTF-8 and every pair of
/// sizes the format can carry, whatever bytes follow the record.
#[verifier::rlimit(100)]
pub proof fn lemma_record_roundtrip(kind: RecordKind, key: Seq<u8>, value: Seq<u8>, rest: Seq<u8>)
    requires
        record_fits(kind, key, value),
        is_valid_utf8(key),
    ensures
        parse_record(record_bytes(kind, key, value) + rest, 0) == (RecParse::Rec {
            kind,
            key,
            value,
            crc: crc32_of(payload_bytes(kind, key, value)),
            length: payload_bytes(kind, key, value).len(),
            used: record_bytes(kind, key, value).len() as int,
        }),
        record_bytes(kind, key, value).len() == 8 + payload_bytes(kind, key, value).len(),
{
    let p = payload_bytes(kind, key, value);
    let rb = record_bytes(kind, key, value);
    let s = rb + rest;
    lemma_p256_vals();
    lemma_le_bytes_len(p.len(), 4);
    lemma_le_bytes_len(crc32_of(p) as nat, 4);
    assert(rb.len() == 8 + p.len());
    assert(s.len() == 8 + p.len() + rest.len());
    assert(s.subrange(0, 4) =~= le_bytes(p.len(), 4));
    assert(s.subrange(4, 8) =~= le_bytes(crc32_of(p) as nat, 4));
    lemma_le_roundtrip(p.len(), 4);
    lemma_le_roundtrip(crc32_of(p) as nat, 4);
    assert(le_val(s.subrange(0, 4)) == p.len());
    assert(le_val(s.subrange(4, 8)) == crc32_of(p));
    assert(s.subrange(8, 8 + p.len() as int) =~= p);
    // Now the payload parses back to (kind, key, value).
    lemma_varint_len(key.len());
    lemma_varint_len(value.len());
    let kv = varint(key.len());
    let vv = varint(value.len());
    assert(p.len() == 1 + kv.len() + key.len() + vv.len() + value.len());
    assert(p[0] == kind.spec_byte());
    // key length varint at position 1
    let tail1 = kv + (key + vv + value);
    assert(p.skip(1) =~= tail1);
    lemma_varint_parse_shift(p, tail1, 1, 0);
    lemma_varint_roundtrip(key.len(), key + vv + value);
    assert(kv + (key + vv + value) =~= varint(key.len()) + (key + vv + value));
    assert(varint_parse(p, 1) == Some((key.len(), kv.len() as int)));
    let kused = kv.len() as int;
    assert(1 + kused + key.len() <= p.len());
    assert(p.subrange(1 + kused, 1 + kused + key.len() as int) =~= key);
    // value length varint after the key
    let tail2 = vv + value;
    assert(p.skip(1 + kused + key.len() as int) =~= tail2);
    lemma_varint_parse_shift(p, tail2, 1 + kused + key.len() as int, 0);
    lemma_varint_roundtrip(value.len(), value);
    assert(vv + value =~= varint(value.len()) + value);
    assert(varint_parse(p, 1 + kused + key.len() as int) == Some((value.len(), vv.len() as int)));
    let vused = vv.len() as int;
    let vstart = 1 + kused + key.len() + vused;
    assert(vstart + value.len() == p.len());
    assert(p.subrange(vstart as int, (vstart + value.len()) as int) =~= value);
    assert(parse_payload(p) == Some((kind, key, value)));
    assert(0 < s.len());
    assert(0 + 8 + p.len() <= s.len());
}

} // verus!
