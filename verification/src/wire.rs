use vstd::prelude::*;

verus! {

// Little-endian fixed-width integers and base-128 varints, the two numeric
// encodings of the record and table formats.

/// 256 to the power `e`.
pub open spec fn p256(e: nat) -> nat
    decreases e,
{
    if e == 0 {
        1
    } else {
        256 * p256((e - 1) as nat)
    }
}

/// 128 to the power `e`.
pub open spec fn p128(e: nat) -> nat
    decreases e,
{
    if e == 0 {
        1
    } else {
        128 * p128((e - 1) as nat)
    }
}

pub proof fn lemma_p256_vals()
    ensures
        p256(0) == 1,
        p256(1) == 256,
        p256(2) == 0x10000,
        p256(3) == 0x1000000,
        p256(4) == 0x100000000,
        p256(5) == 0x10000000000,
        p256(6) == 0x1000000000000,
        p256(7) == 0x100000000000000,
        p256(8) == 0x10000000000000000,
{
    assert(p256(0) == 1);
    assert(p256(1) == 256);
    assert(p256(2) == 0x10000);
    assert(p256(3) == 0x1000000);
    assert(p256(4) == 0x100000000);
    assert(p256(5) == 0x10000000000);
    assert(p256(6) == 0x1000000000000);
    assert(p256(7) == 0x100000000000000);
    assert(p256(8) == 0x10000000000000000);
}

pub proof fn lemma_p128_vals()
    ensures
        p128(0) == 1,
        p128(1) == 128,
        p128(2) == 16384,
        p128(3) == 2097152,
        p128(4) == 268435456,
{
    assert(p128(0) == 1);
    assert(p128(1) == 128);
    assert(p128(2) == 16384);
    assert(p128(3) == 2097152);
    assert(p128(4) == 268435456);
}

pub proof fn lemma_p256_pos(e: nat)
    ensures
        p256(e) >= 1,
    decreases e,
{
    if e > 0 {
        lemma_p256_pos((e - 1) as nat);
    }
}

pub proof fn lemma_p128_le(e1: nat, e2: nat)
    requires
        e1 <= e2,
    ensures
        p128(e1) <= p128(e2),
        p128(e1) >= 1,
    decreases e2,
{
    if e2 > 0 {
        if e1 == e2 {
            lemma_p128_le((e1 - 1) as nat, (e2 - 1) as nat);
            assert(p128(e1) == 128 * p128((e1 - 1) as nat));
            assert(p128((e1 - 1) as nat) >= 1);
        } else {
            lemma_p128_le(e1, (e2 - 1) as nat);
            assert(p128(e2) == 128 * p128((e2 - 1) as nat));
        }
    }
}

/// The `len` little-endian bytes of `n` (low byte first).
pub open spec fn le_bytes(n: nat, len: nat) -> Seq<u8>
    decreases len,
{
    if len == 0 {
        Seq::empty()
    } else {
        seq![(n % 256) as u8] + le_bytes(n / 256, (len - 1) as nat)
    }
}

/// The value of a little-endian byte string.
pub open spec fn le_val(s: Seq<u8>) -> nat
    decreases s.len(),
{
    if s.len() == 0 {
        0
    } else {
        (s[0] + 256 * le_val(s.skip(1))) as nat
    }
}

pub proof fn lemma_le_bytes_len(n: nat, len: nat)
    ensures
        le_bytes(n, len).len() == len,
    decreases len,
{
    if len > 0 {
        lemma_le_bytes_len(n / 256, (len - 1) as nat)
    }
}

/// Decoding inverts encoding for values that fit in `len` bytes.
pub proof fn lemma_le_roundtrip(n: nat, len: nat)
    requires
        n < p256(len),
    ensures
        le_val(le_bytes(n, len)) == n,
    decreases len,
{
    if len > 0 {
        assert(p256(len) == 256 * p256((len - 1) as nat));
        assert(n / 256 < p256((len - 1) as nat)) by (nonlinear_arith)
            requires
                n < 256 * p256((len - 1) as nat),
                n >= 0,
        ;
        lemma_le_roundtrip(n / 256, (len - 1) as nat);
        let s = le_bytes(n, len);
        lemma_le_bytes_len(n / 256, (len - 1) as nat);
        assert(s.skip(1) =~= le_bytes(n / 256, (len - 1) as nat));
        assert(le_val(s) == n % 256 + 256 * (n / 256));
    }
}

/// The value of a byte string splits at any byte boundary.
pub proof fn lemma_le_val_split(s: Seq<u8>, k: nat)
    requires
        k <= s.len(),
    ensures
        le_val(s) == le_val(s.take(k as int)) + p256(k) * le_val(s.skip(k as int)),
    decreases k,
{
    if k == 0 {
        assert(s.take(0) =~= Seq::<u8>::empty());
        assert(s.skip(0) =~= s);
        assert(p256(0) == 1);
        assert(p256(0) * le_val(s) == le_val(s)) by (nonlinear_arith)
            requires
                p256(0) == 1,
        ;
    } else {
        assert(s.len() > 0);
        lemma_le_val_split(s.skip(1), (k - 1) as nat);
        let q = p256((k - 1) as nat);
        assert(s.skip(1).take(k - 1) =~= s.take(k as int).skip(1));
        assert(s.skip(1).skip(k - 1) =~= s.skip(k as int));
        assert(le_val(s) == s[0] + 256 * le_val(s.skip(1)));
        assert(le_val(s.take(k as int)) == s[0] + 256 * le_val(s.take(k as int).skip(1)));
        assert(p256(k) == 256 * q);
        let a = le_val(s.take(k as int).skip(1));
        let b = le_val(s.skip(k as int));
        assert(256 * (a + q * b) == 256 * a + (256 * q) * b) by (nonlinear_arith);
        assert(le_val(s.skip(1)) == a + q * b);
        assert(le_val(s) == s[0] + 256 * (a + q * b));
        assert(p256(k) * b == (256 * q) * b);
        assert(le_val(s) == le_val(s.take(k as int)) + p256(k) * le_val(s.skip(k as int)));
    }
}

/// The value of `len` bytes is below `256^len`.
pub proof fn lemma_le_val_bound(s: Seq<u8>)
    ensures
        le_val(s) < p256(s.len()),
    decreases s.len(),
{
    if s.len() == 0 {
    } else {
        lemma_le_val_bound(s.skip(1));
        let q = p256((s.len() - 1) as nat);
        assert(p256(s.len()) == 256 * q);
        assert(s[0] + 256 * le_val(s.skip(1)) < 256 * q) by (nonlinear_arith)
            requires
                le_val(s.skip(1)) < q,
                0 <= s[0] < 256,
        ;
    }
}

/// Appends the four little-endian bytes of `n`.
pub fn put_u32_le(out: &mut Vec<u8>, n: u32)
    ensures
        final(out)@ == old(out)@ + le_bytes(n as nat, 4),
{
    let b0 = (n % 256) as u8;
    let b1 = ((n / 256) % 256) as u8;
    let b2 = ((n / 65536) % 256) as u8;
    let b3 = ((n / 16777216) % 256) as u8;
    out.push(b0);
    out.push(b1);
    out.push(b2);
    out.push(b3);
    proof {
        let m = n as nat;
        vstd::arithmetic::div_mod::lemma_div_denominator(m as int, 256, 256);
        vstd::arithmetic::div_mod::lemma_div_denominator(m as int, 65536, 256);
        assert(m / 256 / 256 == m / 65536);
        assert(m / 65536 / 256 == m / 16777216);
        vstd::arithmetic::div_mod::lemma_multiply_divide_lt(m as int, 16777216, 256);
        assert(m / 16777216 < 256);
        vstd::arithmetic::div_mod::lemma_small_mod(m / 16777216, 256);
        assert(m / 16777216 % 256 == m / 16777216);
        assert(le_bytes(m / 16777216 / 256, 0) =~= Seq::<u8>::empty());
        assert(le_bytes(m / 16777216, 1) =~= seq![(m / 16777216 % 256) as u8]);
        assert(le_bytes(m / 65536, 2) =~= seq![(m / 65536 % 256) as u8] + le_bytes(
            m / 16777216,
            1,
        ));
        assert(le_bytes(m / 256, 3) =~= seq![(m / 256 % 256) as u8] + le_bytes(m / 65536, 2));
        assert(le_bytes(m, 4) =~= seq![(m % 256) as u8] + le_bytes(m / 256, 3));
        assert(out@ =~= old(out)@ + le_bytes(m, 4));
    }
}

/// Appends the eight little-endian bytes of `n`.
pub fn put_u64_le(out: &mut Vec<u8>, n: u64)
    ensures
        final(out)@ == old(out)@ + le_bytes(n as nat, 8),
{
    let lo = (n % 4294967296) as u32;
    let hi = (n / 4294967296) as u32;
    put_u32_le(out, lo);
    put_u32_le(out, hi);
    proof {
        let m = n as nat;
        lemma_p256_vals();
        lemma_le_bytes_concat4(m % 4294967296, m / 4294967296, 4);
        assert(m % 4294967296 + 4294967296 * (m / 4294967296) == m);
        assert(out@ =~= old(out)@ + (le_bytes(m % 4294967296, 4) + le_bytes(m / 4294967296, 4)));
    }
}

/// Splitting a value at a byte boundary splits its encoding: the low `len`
/// bytes encode `lo`, the next four encode `hi`.
pub proof fn lemma_le_bytes_concat4(lo: nat, hi: nat, len: nat)
    requires
        lo < p256(len),
    ensures
        le_bytes((lo + p256(len) * hi) as nat, (len + 4) as nat) =~= le_bytes(lo, len) + le_bytes(
            hi,
            4,
        ),
    decreases len,
{
    let p = p256(len);
    if len == 0 {
        assert(le_bytes(lo, 0) =~= Seq::<u8>::empty());
        assert(p == 1);
        assert(lo == 0);
        assert(p * hi == hi) by (nonlinear_arith)
            requires
                p == 1,
        ;
        assert((lo + p * hi) as nat == hi);
        assert(le_bytes(hi, 4) =~= Seq::<u8>::empty() + le_bytes(hi, 4));
    } else {
        let q = p256((len - 1) as nat);
        assert(p == 256 * q);
        let n = (lo + p * hi) as nat;
        lemma_p256_pos((len - 1) as nat);
        vstd::arithmetic::div_mod::lemma_fundamental_div_mod(lo as int, 256);
        assert(lo == 256 * (lo / 256) + lo % 256);
        assert(n == (lo / 256 + q * hi) * 256 + lo % 256) by (nonlinear_arith)
            requires
                p == 256 * q,
                n == lo + p * hi,
                lo == 256 * (lo / 256) + lo % 256,
        ;
        vstd::arithmetic::div_mod::lemma_fundamental_div_mod_converse(
            n as int,
            256,
            lo as int / 256 + q * hi,
            lo as int % 256,
        );
        assert(n % 256 == lo % 256 && n / 256 == lo / 256 + q * hi);
        assert(lo / 256 < q) by (nonlinear_arith)
            requires
                lo < 256 * q,
                lo >= 0,
                q > 0,
        ;
        lemma_le_bytes_concat4(lo / 256, hi, (len - 1) as nat);
        assert(le_bytes(n, (len + 4) as nat) =~= seq![(lo % 256) as u8] + le_bytes(
            (lo / 256 + q * hi) as nat,
            (len + 3) as nat,
        ));
        assert(le_bytes(lo, len) =~= seq![(lo % 256) as u8] + le_bytes(lo / 256, (len - 1) as nat));
    }
}

/// Reads the four little-endian bytes starting at `pos`.
pub fn get_u32_le(buf: &Vec<u8>, pos: usize) -> (r: u32)
    requires
        pos + 4 <= buf@.len(),
    ensures
        r as nat == le_val(buf@.subrange(pos as int, pos as int + 4)),
{
    let n = buf.len();
    let b0 = buf[pos] as u32;
    let b1 = buf[pos + 1] as u32;
    let b2 = buf[pos + 2] as u32;
    let b3 = buf[pos + 3] as u32;
    let r = b0 + b1 * 256 + b2 * 65536 + b3 * 16777216;
    proof {
        let s = buf@.subrange(pos as int, pos as int + 4);
        let s1 = s.skip(1);
        let s2 = s1.skip(1);
        let s3 = s2.skip(1);
        assert(s3.skip(1) =~= Seq::<u8>::empty());
        assert(le_val(s3) == s3[0] + 256 * le_val(s3.skip(1)));
        assert(le_val(s3) == s[3]);
        assert(le_val(s2) == s2[0] + 256 * le_val(s2.skip(1)));
        assert(le_val(s2) == s[2] + 256 * (s[3] as nat));
        assert(le_val(s1) == s1[0] + 256 * le_val(s1.skip(1)));
        assert(le_val(s1) == s[1] + 256 * (s[2] + 256 * (s[3] as nat)));
        assert(le_val(s) == s[0] + 256 * le_val(s.skip(1)));
        assert(le_val(s) == s[0] + 256 * (s[1] + 256 * (s[2] + 256 * (s[3] as nat))));
        assert(s[0] == buf@[pos as int] && s[1] == buf@[pos as int + 1] && s[2] == buf@[pos as int
            + 2] && s[3] == buf@[pos as int + 3]);
    }
    r
}

/// Reads the eight little-endian bytes starting at `pos`.
pub fn get_u64_le(buf: &Vec<u8>, pos: usize) -> (r: u64)
    requires
        pos + 8 <= buf@.len(),
    ensures
        r as nat == le_val(buf@.subrange(pos as int, pos as int + 8)),
{
    let n = buf.len();
    let lo = get_u32_le(buf, pos) as u64;
    let hi = get_u32_le(buf, pos + 4) as u64;
    proof {
        let s = buf@.subrange(pos as int, pos as int + 8);
        lemma_le_val_split(s, 4);
        assert(s.take(4) =~= buf@.subrange(pos as int, pos as int + 4));
        assert(s.skip(4) =~= buf@.subrange(pos as int + 4, pos as int + 8));
        lemma_p256_vals();
        lemma_le_val_bound(s.skip(4));
        assert(le_val(s.skip(4)) < p256(4));
        assert(lo as nat + 4294967296 * (hi as nat) < 0x10000000000000000) by (nonlinear_arith)
            requires
                lo < 0x100000000,
                hi < 0x100000000,
        ;
    }
    let r = lo + hi * 4294967296;
    r
}

// ---------------------------------------------------------------------------
// Base-128 varints: seven value bits per byte, low group first, continuation
// bit 0x80 on every byte except the last. At most five bytes; the fifth byte
// may carry at most four value bits, so every decoded value fits in 32 bits.

/// The canonical varint encoding of `n`.
pub open spec fn varint(n: nat) -> Seq<u8>
    decreases n,
{
    if n < 128 {
        seq![n as u8]
    } else {
        seq![(n % 128 + 128) as u8] + varint(n / 128)
    }
}

/// Parses a varint at position `i` of `s`; `j` counts the bytes already
/// consumed within the varint. Yields the decoded value and the number of
/// bytes read, or `None` for a truncated, overlong, or out-of-range encoding.
pub open spec fn varint_parse_at(s: Seq<u8>, i: int, j: nat) -> Option<(nat, int)>
    decreases 5 - j,
{
    if j >= 5 || i < 0 || i >= s.len() {
        None
    } else {
        let b = s[i];
        if b < 128 {
            if j == 4 && b >= 16 {
                None
            } else {
                Some((b as nat, 1))
            }
        } else {
            match varint_parse_at(s, i + 1, j + 1) {
                None => None,
                Some((v, n)) => Some((((b - 128) as nat + 128 * v) as nat, n + 1)),
            }
        }
    }
}

pub open spec fn varint_parse(s: Seq<u8>, i: int) -> Option<(nat, int)> {
    varint_parse_at(s, i, 0)
}

/// A value below `128^k` encodes in at most `k` bytes.
pub proof fn lemma_varint_len_k(n: nat, k: nat)
    requires
        k >= 1,
        n < p128(k),
    ensures
        1 <= varint(n).len() <= k,
    decreases n,
{
    if n >= 128 {
        let q = p128((k - 1) as nat);
        assert(p128(k) == 128 * q);
        assert(k >= 2) by {
            if k == 1 {
                assert(p128(1) == 128 * p128(0));
            }
        }
        assert(n / 128 < q) by (nonlinear_arith)
            requires
                n < 128 * q,
                n >= 0,
        ;
        lemma_varint_len_k(n / 128, (k - 1) as nat);
        assert(varint(n).len() == 1 + varint(n / 128).len());
    }
}

pub proof fn lemma_varint_len(n: nat)
    requires
        n < 0x100000000,
    ensures
        1 <= varint(n).len() <= 5,
        n < 128 ==> varint(n).len() == 1,
{
    lemma_p128_vals();
    assert(p128(5) == 128 * p128(4));
    lemma_varint_len_k(n, 5);
}

/// Parsing only looks at the suffix from `i` on.
pub proof fn lemma_varint_parse_shift(s: Seq<u8>, t: Seq<u8>, i: int, j: nat)
    requires
        0 <= i <= s.len(),
        t == s.skip(i),
    ensures
        varint_parse_at(s, i, j) == varint_parse_at(t, 0, j),
    decreases 5 - j,
{
    if j < 5 {
        if i < s.len() {
            assert(t[0] == s[i]);
            if s[i] >= 128 {
                lemma_varint_parse_shift(s, s.skip(i + 1), i + 1, (j + 1) as nat);
                assert(t.skip(1) =~= s.skip(i + 1));
                lemma_varint_parse_shift(t, t.skip(1), 1, (j + 1) as nat);
            }
        } else {
            assert(t.len() == 0);
        }
    }
}

/// Parsing an encoded varint followed by anything else returns the value and
/// its encoded length.
pub proof fn lemma_varint_roundtrip_at(n: nat, rest: Seq<u8>, j: nat)
    requires
        j <= 4,
        n < p128((4 - j) as nat) * 16,
    ensures
        varint_parse_at(varint(n) + rest, 0, j) == Some((n, varint(n).len() as int)),
    decreases n,
{
    let s = varint(n) + rest;
    lemma_p128_vals();
    if n < 128 {
        assert(s[0] == n as u8);
        if j == 4 {
            assert(p128(0) * 16 == 16);
            assert(n < 16);
        }
    } else {
        let b = (n % 128 + 128) as u8;
        assert(s[0] == b);
        assert(j < 4) by {
            if j == 4 {
                assert(p128(0) * 16 == 16);
            }
        }
        let tail = varint(n / 128) + rest;
        assert(s.skip(1) =~= tail);
        lemma_varint_parse_shift(s, tail, 1, (j + 1) as nat);
        let q = p128((3 - j) as nat);
        assert(p128((4 - j) as nat) == 128 * q);
        assert(n / 128 < q * 16) by (nonlinear_arith)
            requires
                n < (128 * q) * 16,
                n >= 0,
                q >= 1,
        ;
        lemma_varint_roundtrip_at(n / 128, rest, (j + 1) as nat);
        assert(varint_parse_at(tail, 0, (j + 1) as nat) == Some((
            n / 128,
            varint(n / 128).len() as int,
        )));
        assert((b - 128) as nat + 128 * (n / 128) == n);
        assert(varint(n).len() == 1 + varint(n / 128).len());
    }
}

pub proof fn lemma_varint_roundtrip(n: nat, rest: Seq<u8>)
    requires
        n < 0x100000000,
    ensures
        varint_parse(varint(n) + rest, 0) == Some((n, varint(n).len() as int)),
{
    lemma_p128_vals();
    lemma_varint_roundtrip_at(n, rest, 0);
}

/// Appends the varint encoding of `value`.
pub fn encode_var_u32(out: &mut Vec<u8>, value: u32)
    ensures
        final(out)@ == old(out)@ + varint(value as nat),
    decreases value,
{
    if value < 128 {
        out.push(value as u8);
        assert(out@ =~= old(out)@ + varint(value as nat));
    } else {
        out.push((value % 128 + 128) as u8);
        encode_var_u32(out, value / 128);
        assert(out@ =~= old(out)@ + varint(value as nat));
    }
}

/// Shifts a partial varint parse by the bytes already consumed: `value` and
/// `mult` accumulate the value bits read so far, `j` the byte count.
pub open spec fn varint_extend(res: Option<(nat, int)>, value: nat, mult: nat, j: int) -> Option<
    (nat, int),
> {
    match res {
        None => None,
        Some((v, len)) => Some(((value + mult * v) as nat, j + len)),
    }
}

/// Decodes a varint from `buf` at `*cursor`, advancing the cursor past it.
/// Fails exactly when the spec-level parse fails, leaving the cursor where
/// it was.
#[verifier::loop_isolation(false)]
pub fn decode_var_u32(buf: &Vec<u8>, cursor: &mut usize) -> (r: Option<u32>)
    requires
        *old(cursor) <= buf@.len(),
    ensures
        match r {
            Some(v) => {
                &&& varint_parse(buf@, *old(cursor) as int) == Some((
                    v as nat,
                    *final(cursor) - *old(cursor),
                ))
                &&& *old(cursor) < *final(cursor) <= buf@.len()
            },
            None => {
                &&& varint_parse(buf@, *old(cursor) as int) is None
                &&& *final(cursor) == *old(cursor)
            },
        },
{
    let start = *cursor;
    let mut value: u32 = 0;
    let mut mult: u32 = 1;
    let mut j: usize = 0;
    loop
        invariant
            start <= *cursor <= buf@.len(),
            j <= 4,
            *cursor == start + j,
            mult as nat == p128(j as nat),
            (value as nat) < mult as nat,
            varint_parse(buf@, start as int) == varint_extend(
                varint_parse_at(buf@, *cursor as int, j as nat),
                value as nat,
                mult as nat,
                j as int,
            ),
        decreases 5 - j,
    {
        proof {
            lemma_p128_vals();
            lemma_p128_le(j as nat, 4);
        }
        if *cursor >= buf.len() {
            *cursor = start;
            return None;
        }
        let b = buf[*cursor];
        if b < 128 {
            if j == 4 && b >= 16 {
                *cursor = start;
                return None;
            }
            proof {
                if j < 4 {
                    lemma_p128_le(j as nat, 3);
                }
                assert(value as nat + (mult as nat) * (b as nat) < 0x100000000)
                    by (nonlinear_arith)
                    requires
                        (value as nat) < (mult as nat),
                        j < 4 ==> (mult as nat) <= 2097152 && (b as nat) < 128,
                        j == 4 ==> (mult as nat) == 268435456 && (b as nat) < 16,
                        j <= 4,
                ;
                assert(varint_parse_at(buf@, *cursor as int, j as nat) == Some::<(nat, int)>((
                    b as nat,
                    1int,
                )));
            }
            let r = value + mult * (b as u32);
            *cursor = *cursor + 1;
            return Some(r);
        }
        if j == 4 {
            proof {
                assert(varint_parse_at(buf@, *cursor as int + 1, 5) is None);
                assert(varint_parse_at(buf@, *cursor as int, 4) is None);
            }
            *cursor = start;
            return None;
        }
        proof {
            lemma_p128_le(j as nat, 3);
            assert((mult as nat) * ((b - 128) as nat) + (value as nat) < (mult as nat) * 128)
                by (nonlinear_arith)
                requires
                    (value as nat) < (mult as nat),
                    ((b - 128) as nat) < 128,
            ;
            assert((mult as nat) * 128 <= 268435456) by (nonlinear_arith)
                requires
                    (mult as nat) <= 2097152,
            ;
        }
        let add = mult * ((b - 128) as u32);
        let value2 = value + add;
        let mult2 = mult * 128;
        proof {
            let c = *cursor as int;
            let pa = varint_parse_at(buf@, c + 1, (j + 1) as nat);
            if pa is Some {
                let v2 = pa->Some_0.0;
                let len2 = pa->Some_0.1;
                assert(varint_parse_at(buf@, c, j as nat) == Some::<(nat, int)>((
                    ((b - 128) as nat + 128 * v2) as nat,
                    len2 + 1,
                )));
                assert(value as nat + (mult as nat) * ((b - 128) as nat + 128 * v2) == (value2
                    as nat) + (mult2 as nat) * v2) by (nonlinear_arith)
                    requires
                        value2 as nat == value as nat + (mult as nat) * ((b - 128) as nat),
                        mult2 as nat == (mult as nat) * 128,
                ;
                assert(varint_parse(buf@, start as int) == Some::<(nat, int)>((
                    (value2 as nat) + (mult2 as nat) * v2,
                    (j + 1) + len2,
                )));
            } else {
                assert(varint_parse_at(buf@, c, j as nat) is None);
            }
        }
        value = value2;
        mult = mult2;
        j = j + 1;
        *cursor = *cursor + 1;
    }
}

} // verus!
