//! The byte level of the codec: turning characters into their UTF-8 bytes
//! and reassembling accumulated bytes into characters. The byte sequences
//! are specified by `vstd::utf8`.

use vstd::prelude::*;
use vstd::utf8::{
    char_is_scalar, char_u32_cast, decode_first_codepoint, decode_first_scalar, decode_utf8,
    encode_scalar, encode_utf8, encode_utf8_decode_utf8, encode_utf8_valid_utf8, is_scalar,
    length_of_first_scalar, pop_first_scalar, valid_first_scalar, valid_utf8,
};

verus! {

/// Relies on char::from_u32: every Unicode scalar value is `Some`, holding
/// the character with that value.
#[verifier::external_body]
pub(crate) fn char_from_scalar(u: u32) -> (c: char)
    requires
        is_scalar(u),
    ensures
        c as u32 == u,
{
    char::from_u32(u).unwrap()
}

/// Relies on String's FromIterator implementation: collecting characters
/// yields the string made of exactly those characters, in order.
#[verifier::external_body]
pub(crate) fn string_from_chars(v: Vec<char>) -> (r: String)
    ensures
        r@ == v@,
{
    v.into_iter().collect()
}

/// The UTF-8 bytes of a single character, between one and four of them.
pub(crate) fn char_utf8_bytes(c: char) -> (r: Vec<u8>)
    ensures
        r@ == encode_scalar(c as u32),
        1 <= r@.len() <= 4,
{
    proof {
        char_is_scalar(c);
    }
    let u = c as u32;
    let mut v: Vec<u8> = Vec::new();
    if u <= 0x7F {
        v.push((u & 0x7F) as u8);
        proof {
            assert(v@ =~= encode_scalar(u));
        }
    } else if u <= 0x7FF {
        v.push(0xC0 | ((u >> 6) & 0x1F) as u8);
        v.push(0x80 | (u & 0x3F) as u8);
        proof {
            assert(v@ =~= encode_scalar(u));
        }
    } else if u <= 0xFFFF {
        v.push(0xE0 | ((u >> 12) & 0x0F) as u8);
        v.push(0x80 | ((u >> 6) & 0x3F) as u8);
        v.push(0x80 | (u & 0x3F) as u8);
        proof {
            assert(v@ =~= encode_scalar(u));
        }
    } else {
        v.push(0xF0 | ((u >> 18) & 0x7) as u8);
        v.push(0x80 | ((u >> 12) & 0x3F) as u8);
        v.push(0x80 | ((u >> 6) & 0x3F) as u8);
        v.push(0x80 | (u & 0x3F) as u8);
        proof {
            assert(v@ =~= encode_scalar(u));
        }
    }
    v
}

/// The characters encoded by a byte sequence, or `None` when the bytes are
/// not a valid UTF-8 encoding.
pub(crate) fn utf8_decode_chars(bytes: &[u8]) -> (r: Option<Vec<char>>)
    ensures
        r is Some <==> valid_utf8(bytes@),
        r matches Some(v) ==> v@ == decode_utf8(bytes@),
{
    let n = bytes.len();
    let mut out: Vec<char> = Vec::new();
    let mut i: usize = 0;
    proof {
        assert(bytes@.skip(0) =~= bytes@);
    }
    while i < n
        invariant
            n == bytes@.len(),
            i <= n,
            valid_utf8(bytes@) <==> valid_utf8(bytes@.skip(i as int)),
            valid_utf8(bytes@.skip(i as int)) ==> decode_utf8(bytes@) == out@ + decode_utf8(
                bytes@.skip(i as int),
            ),
        decreases n - i,
    {
        let ghost suf = bytes@.skip(i as int);
        let b0 = bytes[i];
        proof {
            assert(forall|j: int| 0 <= j < suf.len() ==> suf[j] == bytes@[i + j]);
            assert(suf[0] == b0);
        }
        let width: usize;
        let cp: u32;
        if b0 < 0x80 {
            width = 1;
            cp = b0 as u32;
            proof {
                assert(b0 & 0x7F == b0) by (bit_vector)
                    requires
                        b0 < 0x80,
                ;
                assert(cp == decode_first_codepoint(suf));
            }
        } else if 0xC0 <= b0 && b0 <= 0xDF {
            if n - i < 2 {
                proof {
                    lemma_invalid_suffix(bytes@, i as int);
                }
                return None;
            }
            let b1 = bytes[i + 1];
            if !(0x80 <= b1 && b1 <= 0xBF) {
                proof {
                    lemma_invalid_suffix(bytes@, i as int);
                }
                return None;
            }
            width = 2;
            cp = (((b0 & 0x1F) as u32) << 6) | (b1 & 0x3F) as u32;
            proof {
                assert(cp <= 0x7FF) by (bit_vector)
                    requires
                        cp == (((b0 & 0x1F) as u32) << 6) | (b1 & 0x3F) as u32,
                ;
                assert(cp == decode_first_codepoint(suf));
            }
            if cp < 0x80 {
                proof {
                    lemma_invalid_suffix(bytes@, i as int);
                }
                return None;
            }
        } else if 0xE0 <= b0 && b0 <= 0xEF {
            if n - i < 3 {
                proof {
                    lemma_invalid_suffix(bytes@, i as int);
                }
                return None;
            }
            let b1 = bytes[i + 1];
            let b2 = bytes[i + 2];
            if !(0x80 <= b1 && b1 <= 0xBF) || !(0x80 <= b2 && b2 <= 0xBF) {
                proof {
                    lemma_invalid_suffix(bytes@, i as int);
                }
                return None;
            }
            width = 3;
            cp = (((b0 & 0x0F) as u32) << 12) | (((b1 & 0x3F) as u32) << 6) | (b2 & 0x3F) as u32;
            proof {
                assert(cp <= 0xFFFF) by (bit_vector)
                    requires
                        cp == (((b0 & 0x0F) as u32) << 12) | (((b1 & 0x3F) as u32) << 6) | (b2
                            & 0x3F) as u32,
                ;
                assert(cp == decode_first_codepoint(suf));
            }
            if cp < 0x800 || (0xD800 <= cp && cp <= 0xDFFF) {
                proof {
                    lemma_invalid_suffix(bytes@, i as int);
                }
                return None;
            }
        } else if 0xF0 <= b0 && b0 <= 0xF7 {
            if n - i < 4 {
                proof {
                    lemma_invalid_suffix(bytes@, i as int);
                }
                return None;
            }
            let b1 = bytes[i + 1];
            let b2 = bytes[i + 2];
            let b3 = bytes[i + 3];
            if !(0x80 <= b1 && b1 <= 0xBF) || !(0x80 <= b2 && b2 <= 0xBF) || !(0x80 <= b3 && b3
                <= 0xBF) {
                proof {
                    lemma_invalid_suffix(bytes@, i as int);
                }
                return None;
            }
            width = 4;
            cp = (((b0 & 0x07) as u32) << 18) | (((b1 & 0x3F) as u32) << 12) | (((b2
                & 0x3F) as u32) << 6) | (b3 & 0x3F) as u32;
            proof {
                assert(cp == decode_first_codepoint(suf));
            }
            if cp < 0x10000 || cp > 0x10FFFF {
                proof {
                    lemma_invalid_suffix(bytes@, i as int);
                }
                return None;
            }
        } else {
            // A bare continuation byte, or a byte no UTF-8 leading byte can be.
            proof {
                lemma_invalid_suffix(bytes@, i as int);
            }
            return None;
        }
        proof {
            assert(valid_first_scalar(suf));
            assert(decode_first_scalar(suf) == cp);
            assert(length_of_first_scalar(suf) == width);
            assert(pop_first_scalar(suf) =~= bytes@.skip(i + width as int));
            assert(valid_utf8(suf) <==> valid_utf8(bytes@.skip(i + width as int)));
        }
        let c = char_from_scalar(cp);
        proof {
            char_u32_cast(c, cp);
            if valid_utf8(suf) {
                assert(decode_utf8(suf) == seq![c] + decode_utf8(bytes@.skip(i + width as int)));
                assert(out@ + decode_utf8(suf) =~= out@.push(c) + decode_utf8(
                    bytes@.skip(i + width as int),
                ));
            }
        }
        out.push(c);
        i = i + width;
    }
    proof {
        assert(bytes@.skip(n as int) =~= Seq::<u8>::empty());
        assert(valid_utf8(bytes@.skip(n as int)));
        assert(decode_utf8(bytes@.skip(n as int)) =~= Seq::<char>::empty());
        assert(out@ + decode_utf8(bytes@.skip(n as int)) =~= out@);
    }
    Some(out)
}

/// When the suffix beginning at `i` does not open with a well-formed scalar
/// encoding, the suffix, and with it the whole, is not valid UTF-8.
proof fn lemma_invalid_suffix(bytes: Seq<u8>, i: int)
    requires
        0 <= i < bytes.len(),
        !valid_first_scalar(bytes.skip(i)),
    ensures
        !valid_utf8(bytes.skip(i)),
{
    assert(bytes.skip(i).len() > 0);
}

/// The characters of a string, in order.
pub(crate) fn chars_of(s: &str) -> (r: Vec<char>)
    ensures
        r@ == s@,
{
    proof {
        encode_utf8_valid_utf8(s@);
        encode_utf8_decode_utf8(s@);
    }
    let bytes: &[u8] = s.as_bytes();
    let r = utf8_decode_chars(bytes);
    r.unwrap()
}

} // verus!
