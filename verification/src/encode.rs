//! The encoder: a per-character classification map. Unreserved characters
//! pass through; every other character becomes one `%XX` triplet per byte of
//! its UTF-8 encoding; the form/URL dialect writes the space as `+`.

use vstd::prelude::*;
use vstd::utf8::encode_scalar;

use crate::classify::{is_unreserved, is_unreserved_char};
use crate::hex::{upper_hex_char, upper_hex_digit};
use crate::text::{char_utf8_bytes, chars_of, string_from_chars};

verus! {

/// The escape triplet for one raw byte: `%` and two uppercase hex digits.
pub open spec fn escape_byte(b: u8) -> Seq<char> {
    seq!['%', upper_hex_digit(b as int / 16), upper_hex_digit(b as int % 16)]
}

/// The concatenated escape triplets for a run of raw bytes.
pub open spec fn escape_bytes(bs: Seq<u8>) -> Seq<char>
    decreases bs.len(),
{
    if bs.len() == 0 {
        seq![]
    } else {
        escape_byte(bs[0]) + escape_bytes(bs.drop_first())
    }
}

/// What the plain encoder emits for one character.
pub open spec fn encoded_char(c: char) -> Seq<char> {
    if is_unreserved_char(c) {
        seq![c]
    } else {
        escape_bytes(encode_scalar(c as u32))
    }
}

/// What the plain encoder emits for a text: the order-preserving
/// concatenation of its per-character emissions.
pub open spec fn encoded(s: Seq<char>) -> Seq<char>
    decreases s.len(),
{
    if s.len() == 0 {
        seq![]
    } else {
        encoded_char(s[0]) + encoded(s.drop_first())
    }
}

/// What the form/URL encoder emits for one character: as the plain encoder,
/// except that the space becomes a literal `+`.
pub open spec fn url_encoded_char(c: char) -> Seq<char> {
    if c == ' ' {
        seq!['+']
    } else {
        encoded_char(c)
    }
}

/// What the form/URL encoder emits for a text.
pub open spec fn url_encoded(s: Seq<char>) -> Seq<char>
    decreases s.len(),
{
    if s.len() == 0 {
        seq![]
    } else {
        url_encoded_char(s[0]) + url_encoded(s.drop_first())
    }
}

/// The escape triplets for one character's UTF-8 bytes, as characters.
fn escape_char(c: char) -> (r: Vec<char>)
    ensures
        r@ == escape_bytes(encode_scalar(c as u32)),
{
    let bytes = char_utf8_bytes(c);
    let mut r: Vec<char> = Vec::new();
    let n = bytes.len();
    let mut i: usize = 0;
    proof {
        assert(bytes@.skip(0) =~= bytes@);
    }
    while i < n
        invariant
            n == bytes@.len(),
            i <= n,
            escape_bytes(bytes@) == r@ + escape_bytes(bytes@.skip(i as int)),
        decreases n - i,
    {
        let ghost suf = bytes@.skip(i as int);
        let ghost old_r = r@;
        let b = bytes[i];
        proof {
            assert(suf[0] == b);
            assert(suf.drop_first() =~= bytes@.skip(i + 1));
        }
        r.push('%');
        r.push(upper_hex_char(b / 16));
        r.push(upper_hex_char(b % 16));
        proof {
            assert(escape_bytes(suf) == escape_byte(b) + escape_bytes(bytes@.skip(i + 1)));
            assert(r@ + escape_bytes(bytes@.skip(i + 1)) =~= old_r + escape_bytes(suf)) by {
                assert(escape_byte(b) =~= seq!['%', upper_hex_digit(b as int / 16), upper_hex_digit(
                    b as int % 16,
                )]);
            }
        }
        i = i + 1;
    }
    proof {
        assert(bytes@.skip(n as int) =~= Seq::<u8>::empty());
        assert(r@ + escape_bytes(bytes@.skip(n as int)) =~= r@);
    }
    r
}

/// Percent-encode a text. Every character outside the unreserved set is
/// replaced by one `%XX` triplet per byte of its UTF-8 encoding; unreserved
/// characters pass through unchanged. Total: no input fails.
pub fn encode(s: &str) -> (r: String)
    ensures
        r@ == encoded(s@),
{
    let cs = chars_of(s);
    let mut out: Vec<char> = Vec::new();
    let n = cs.len();
    let mut i: usize = 0;
    proof {
        assert(cs@.skip(0) =~= cs@);
    }
    while i < n
        invariant
            n == cs@.len(),
            i <= n,
            cs@ == s@,
            encoded(s@) == out@ + encoded(cs@.skip(i as int)),
        decreases n - i,
    {
        let ghost suf = cs@.skip(i as int);
        let ghost old_out = out@;
        let c = cs[i];
        proof {
            assert(suf[0] == c);
            assert(suf.drop_first() =~= cs@.skip(i + 1));
            assert(encoded(suf) == encoded_char(c) + encoded(cs@.skip(i + 1)));
        }
        if is_unreserved(c) {
            out.push(c);
            proof {
                assert(out@ + encoded(cs@.skip(i + 1)) =~= old_out + encoded(suf));
            }
        } else {
            let mut esc = escape_char(c);
            proof {
                assert(out@ + esc@ + encoded(cs@.skip(i + 1)) =~= out@ + encoded(suf));
            }
            out.append(&mut esc);
        }
        i = i + 1;
    }
    proof {
        assert(cs@.skip(n as int) =~= Seq::<char>::empty());
        assert(out@ + encoded(cs@.skip(n as int)) =~= out@);
    }
    string_from_chars(out)
}

/// Percent-encode a text in the form/URL dialect: as [`encode`], except that
/// each space character is written as a literal `+`. Total: no input fails.
pub fn url_encode(s: &str) -> (r: String)
    ensures
        r@ == url_encoded(s@),
{
    let cs = chars_of(s);
    let mut out: Vec<char> = Vec::new();
    let n = cs.len();
    let mut i: usize = 0;
    proof {
        assert(cs@.skip(0) =~= cs@);
    }
    while i < n
        invariant
            n == cs@.len(),
            i <= n,
            cs@ == s@,
            url_encoded(s@) == out@ + url_encoded(cs@.skip(i as int)),
        decreases n - i,
    {
        let ghost suf = cs@.skip(i as int);
        let ghost old_out = out@;
        let c = cs[i];
        proof {
            assert(suf[0] == c);
            assert(suf.drop_first() =~= cs@.skip(i + 1));
            assert(url_encoded(suf) == url_encoded_char(c) + url_encoded(cs@.skip(i + 1)));
        }
        if c == ' ' {
            out.push('+');
            proof {
                assert(out@ + url_encoded(cs@.skip(i + 1)) =~= old_out + url_encoded(suf));
            }
        } else if is_unreserved(c) {
            out.push(c);
            proof {
                assert(out@ + url_encoded(cs@.skip(i + 1)) =~= old_out + url_encoded(suf));
            }
        } else {
            let mut esc = escape_char(c);
            proof {
                assert(out@ + esc@ + url_encoded(cs@.skip(i + 1)) =~= out@ + url_encoded(suf));
            }
            out.append(&mut esc);
        }
        i = i + 1;
    }
    proof {
        assert(cs@.skip(n as int) =~= Seq::<char>::empty());
        assert(out@ + url_encoded(cs@.skip(n as int)) =~= out@);
    }
    string_from_chars(out)
}

} // verus!
