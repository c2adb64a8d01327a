use vstd::prelude::*;

verus! {

// Keys are byte strings that must form valid UTF-8. Validity is stated
// directly over the bytes: each position starts a well-formed scalar-value
// encoding of one to four bytes. Overlong forms, surrogate code points
// (U+D800..U+DFFF) and values above U+10FFFF are excluded, so the predicate
// accepts exactly the byte strings that encode a sequence of Unicode scalar
// values.

pub open spec fn is_cont_byte(b: u8) -> bool {
    0x80 <= b <= 0xBF
}

/// The length of the scalar-value encoding starting at `i`, or 0 when the
/// bytes at `i` do not start a well-formed encoding.
pub open spec fn utf8_len_at(s: Seq<u8>, i: int) -> int {
    let b0 = s[i];
    if !(0 <= i < s.len()) {
        0
    } else if b0 < 0x80 {
        1
    } else if 0xC2 <= b0 && b0 <= 0xDF {
        if i + 1 < s.len() && is_cont_byte(s[i + 1]) {
            2
        } else {
            0
        }
    } else if 0xE0 <= b0 && b0 <= 0xEF {
        if i + 2 < s.len() && is_cont_byte(s[i + 1]) && is_cont_byte(s[i + 2]) && (b0 != 0xE0 || s[i
            + 1] >= 0xA0) && (b0 != 0xED || s[i + 1] <= 0x9F) {
            3
        } else {
            0
        }
    } else if 0xF0 <= b0 && b0 <= 0xF4 {
        if i + 3 < s.len() && is_cont_byte(s[i + 1]) && is_cont_byte(s[i + 2]) && is_cont_byte(
            s[i + 3],
        ) && (b0 != 0xF0 || s[i + 1] >= 0x90) && (b0 != 0xF4 || s[i + 1] <= 0x8F) {
            4
        } else {
            0
        }
    } else {
        0
    }
}

pub open spec fn is_valid_utf8_from(s: Seq<u8>, i: int) -> bool
    decreases s.len() - i when 0 <= i <= s.len()
{
    if i >= s.len() {
        true
    } else {
        let n = utf8_len_at(s, i);
        n > 0 && is_valid_utf8_from(s, i + n)
    }
}

pub open spec fn is_valid_utf8(s: Seq<u8>) -> bool {
    is_valid_utf8_from(s, 0)
}

/// Checks that `bytes` is well-formed UTF-8.
#[verifier::loop_isolation(false)]
pub fn is_utf8(bytes: &Vec<u8>) -> (r: bool)
    ensures
        r == is_valid_utf8(bytes@),
{
    let n = bytes.len();
    let mut i: usize = 0;
    while i < n
        invariant
            0 <= i <= n,
            is_valid_utf8(bytes@) == is_valid_utf8_from(bytes@, i as int),
        decreases n - i,
    {
        let b0 = bytes[i];
        if b0 < 0x80 {
            proof {
                assert(utf8_len_at(bytes@, i as int) == 1);
            }
            i = i + 1;
        } else if 0xC2 <= b0 && b0 <= 0xDF {
            if n - i > 1 && 0x80 <= bytes[i + 1] && bytes[i + 1] <= 0xBF {
                proof {
                    assert(utf8_len_at(bytes@, i as int) == 2);
                }
                i = i + 2;
            } else {
                proof {
                    assert(utf8_len_at(bytes@, i as int) == 0);
                }
                return false;
            }
        } else if 0xE0 <= b0 && b0 <= 0xEF {
            if n - i > 2 && 0x80 <= bytes[i + 1] && bytes[i + 1] <= 0xBF && 0x80 <= bytes[i + 2]
                && bytes[i + 2] <= 0xBF && (b0 != 0xE0 || bytes[i + 1] >= 0xA0) && (b0 != 0xED
                || bytes[i + 1] <= 0x9F) {
                proof {
                    assert(utf8_len_at(bytes@, i as int) == 3);
                }
                i = i + 3;
            } else {
                proof {
                    assert(utf8_len_at(bytes@, i as int) == 0);
                }
                return false;
            }
        } else if 0xF0 <= b0 && b0 <= 0xF4 {
            if n - i > 3 && 0x80 <= bytes[i + 1] && bytes[i + 1] <= 0xBF && 0x80 <= bytes[i + 2]
                && bytes[i + 2] <= 0xBF && 0x80 <= bytes[i + 3] && bytes[i + 3] <= 0xBF && (b0
                != 0xF0 || bytes[i + 1] >= 0x90) && (b0 != 0xF4 || bytes[i + 1] <= 0x8F) {
                proof {
                    assert(utf8_len_at(bytes@, i as int) == 4);
                }
                i = i + 4;
            } else {
                proof {
                    assert(utf8_len_at(bytes@, i as int) == 0);
                }
                return false;
            }
        } else {
            proof {
                assert(utf8_len_at(bytes@, i as int) == 0);
            }
            return false;
        }
    }
    true
}

} // verus!
