//! The decoder: a single left-to-right scan that regroups consecutive `%XX`
//! escape triplets into runs of raw bytes, reassembles each run into text
//! once a literal character or the end of input is reached, and reports
//! malformed input through a typed error instead of corrupting data.

use vstd::prelude::*;
use vstd::utf8::{decode_utf8, valid_utf8};

use crate::classify::{is_reserved, is_reserved_char, is_unicode_alphanumeric, unicode_alphanumeric};
use crate::hex::{hex_byte, hex_digit_value, is_hex_digit};
use crate::text::{chars_of, string_from_chars, utf8_decode_chars};

verus! {

/// Why a decode failed.
#[derive(Clone, Copy, Debug, PartialEq, Eq, Structural)]
pub enum DecodeError {
    /// A completed two-character escape payload is not two hex digits.
    InvalidHexDigit,
    /// The input ends mid-escape: a trailing `%`, alone or with one more
    /// character.
    TruncatedEscape,
    /// A completed run of escaped bytes is not a valid UTF-8 encoding.
    InvalidEncodedBytes,
    /// Strict decoding only: the input holds a character outside the
    /// permitted literal set.
    DisallowedCharacter,
}

/// The scan's escape state: outside any escape, right after a `%`, or one
/// character into an escape payload. The payload character read so far is
/// carried as its scalar value.
#[derive(Clone, Copy)]
pub enum Escape {
    Idle,
    Started,
    OneDigit(u32),
}

/// The state after reading a `%`: escaping begins, and a payload character
/// already read stays where it is.
pub open spec fn begin_escape(st: Escape) -> Escape {
    match st {
        Escape::Idle => Escape::Started,
        s => s,
    }
}

/// The decode state machine, one character of input per step.
///
/// `st` is the escape state, `acc` the bytes collected from completed escape
/// triplets but not yet reassembled, and `out` the text produced so far.
/// A `%` begins an escape; the next two characters form a byte, appended to
/// `acc`; a literal character first flushes `acc` as one UTF-8 unit; the end
/// of input flushes too, and fails if it comes mid-escape.
pub open spec fn scan(input: Seq<char>, st: Escape, acc: Seq<u8>, out: Seq<char>) -> Result<
    Seq<char>,
    DecodeError,
>
    decreases input.len(),
{
    if input.len() == 0 {
        match st {
            Escape::Idle => {
                if acc.len() == 0 {
                    Ok(out)
                } else if valid_utf8(acc) {
                    Ok(out + decode_utf8(acc))
                } else {
                    Err(DecodeError::InvalidEncodedBytes)
                }
            },
            _ => Err(DecodeError::TruncatedEscape),
        }
    } else {
        let c = input[0];
        let rest = input.drop_first();
        if c == '%' {
            scan(rest, begin_escape(st), acc, out)
        } else {
            match st {
                Escape::Started => scan(rest, Escape::OneDigit(c as u32), acc, out),
                Escape::OneDigit(d) => {
                    if is_hex_digit(d) && is_hex_digit(c as u32) {
                        scan(rest, Escape::Idle, acc.push(hex_byte(d, c as u32)), out)
                    } else {
                        Err(DecodeError::InvalidHexDigit)
                    }
                },
                Escape::Idle => {
                    if acc.len() == 0 {
                        scan(rest, Escape::Idle, acc, out.push(c))
                    } else if valid_utf8(acc) {
                        scan(rest, Escape::Idle, Seq::empty(), out + decode_utf8(acc) + seq![c])
                    } else {
                        Err(DecodeError::InvalidEncodedBytes)
                    }
                },
            }
        }
    }
}

/// What decoding a text yields: the state machine run from its initial
/// state, with nothing accumulated and nothing emitted.
pub open spec fn decoded(s: Seq<char>) -> Result<Seq<char>, DecodeError> {
    scan(s, Escape::Idle, Seq::empty(), Seq::empty())
}

/// The form/URL dialect's pre-pass: every literal `+` becomes a space.
pub open spec fn plus_to_space(s: Seq<char>) -> Seq<char> {
    s.map_values(|c: char| if c == '+' { ' ' } else { c })
}

/// What decoding a text in the form/URL dialect yields.
pub open spec fn url_decoded(s: Seq<char>) -> Result<Seq<char>, DecodeError> {
    decoded(plus_to_space(s))
}

/// The literal set a strict decoder accepts: alphanumeric under the broad
/// Unicode-aware definition, or reserved, or — in the form/URL dialect
/// only — `+`.
pub open spec fn allowed_char(c: char, allow_plus: bool) -> bool {
    unicode_alphanumeric(c) || is_reserved_char(c) || (allow_plus && c == '+')
}

/// Whether every character of the input is in the strict literal set.
pub open spec fn strict_input_ok(s: Seq<char>, allow_plus: bool) -> bool {
    forall|i: int| 0 <= i < s.len() ==> #[trigger] allowed_char(s[i], allow_plus)
}

/// One step of the machine: a `%` begins an escape and keeps everything
/// else as it is.
pub proof fn lemma_scan_percent(input: Seq<char>, st: Escape, acc: Seq<u8>, out: Seq<char>)
    requires
        input.len() > 0,
        input[0] == '%',
    ensures
        scan(input, st, acc, out) == scan(input.drop_first(), begin_escape(st), acc, out),
{
}

/// One step of the machine: the first character after a `%` starts the
/// escape payload.
pub proof fn lemma_scan_started(input: Seq<char>, acc: Seq<u8>, out: Seq<char>)
    requires
        input.len() > 0,
        input[0] != '%',
    ensures
        scan(input, Escape::Started, acc, out) == scan(
            input.drop_first(),
            Escape::OneDigit(input[0] as u32),
            acc,
            out,
        ),
{
}

/// One step of the machine: a completed two-hex-digit payload appends its
/// byte to the accumulator.
pub proof fn lemma_scan_digit_ok(input: Seq<char>, d: u32, acc: Seq<u8>, out: Seq<char>)
    requires
        input.len() > 0,
        input[0] != '%',
        is_hex_digit(d),
        is_hex_digit(input[0] as u32),
    ensures
        scan(input, Escape::OneDigit(d), acc, out) == scan(
            input.drop_first(),
            Escape::Idle,
            acc.push(hex_byte(d, input[0] as u32)),
            out,
        ),
{
}

/// One step of the machine: a completed payload that is not two hex digits
/// fails.
pub proof fn lemma_scan_digit_bad(input: Seq<char>, d: u32, acc: Seq<u8>, out: Seq<char>)
    requires
        input.len() > 0,
        input[0] != '%',
        !(is_hex_digit(d) && is_hex_digit(input[0] as u32)),
    ensures
        scan(input, Escape::OneDigit(d), acc, out) == Err::<Seq<char>, DecodeError>(
            DecodeError::InvalidHexDigit,
        ),
{
}

/// One step of the machine: a literal character with nothing accumulated
/// passes straight to the output.
pub proof fn lemma_scan_literal(input: Seq<char>, out: Seq<char>)
    requires
        input.len() > 0,
        input[0] != '%',
    ensures
        scan(input, Escape::Idle, Seq::empty(), out) == scan(
            input.drop_first(),
            Escape::Idle,
            Seq::empty(),
            out.push(input[0]),
        ),
{
}

/// One step of the machine: a literal character first flushes the
/// accumulated bytes as one UTF-8 unit, then follows them.
pub proof fn lemma_scan_flush(input: Seq<char>, acc: Seq<u8>, out: Seq<char>)
    requires
        input.len() > 0,
        input[0] != '%',
        acc.len() > 0,
        valid_utf8(acc),
    ensures
        scan(input, Escape::Idle, acc, out) == scan(
            input.drop_first(),
            Escape::Idle,
            Seq::empty(),
            out + decode_utf8(acc) + seq![input[0]],
        ),
{
}

/// One step of the machine: accumulated bytes that are not valid UTF-8 fail
/// at the flush.
pub proof fn lemma_scan_flush_bad(input: Seq<char>, acc: Seq<u8>, out: Seq<char>)
    requires
        input.len() > 0,
        input[0] != '%',
        acc.len() > 0,
        !valid_utf8(acc),
    ensures
        scan(input, Escape::Idle, acc, out) == Err::<Seq<char>, DecodeError>(
            DecodeError::InvalidEncodedBytes,
        ),
{
}

/// Runs the decode state machine over the input characters.
pub(crate) fn do_decode(input: &Vec<char>) -> (r: Result<Vec<char>, DecodeError>)
    ensures
        (match r {
            Ok(v) => decoded(input@) == Ok::<Seq<char>, DecodeError>(v@),
            Err(e) => decoded(input@) == Err::<Seq<char>, DecodeError>(e),
        }),
{
    let n = input.len();
    let mut st = Escape::Idle;
    let mut acc: Vec<u8> = Vec::new();
    let mut out: Vec<char> = Vec::new();
    let mut i: usize = 0;
    proof {
        assert(input@.skip(0) =~= input@);
    }
    while i < n
        invariant
            n == input@.len(),
            i <= n,
            decoded(input@) == scan(input@.skip(i as int), st, acc@, out@),
        decreases n - i,
    {
        let ghost suf = input@.skip(i as int);
        let ghost rest = input@.skip(i + 1);
        let ghost old_st = st;
        let ghost old_acc = acc@;
        let ghost old_out = out@;
        let c = input[i];
        proof {
            assert(suf.len() == n - i);
            assert(suf[0] == c);
            assert(suf.drop_first() =~= rest);
        }
        if c == '%' {
            st = match st {
                Escape::Idle => Escape::Started,
                s => s,
            };
            proof {
                assert(st == begin_escape(old_st));
                lemma_scan_percent(suf, old_st, old_acc, old_out);
            }
        } else {
            match st {
                Escape::Started => {
                    st = Escape::OneDigit(c as u32);
                    proof {
                        lemma_scan_started(suf, old_acc, old_out);
                    }
                },
                Escape::OneDigit(d) => {
                    let hi = hex_digit_value(d);
                    let lo = hex_digit_value(c as u32);
                    match (hi, lo) {
                        (Some(h), Some(l)) => {
                            acc.push(h * 16 + l);
                            st = Escape::Idle;
                            proof {
                                assert(h * 16 + l == hex_byte(d, c as u32));
                                lemma_scan_digit_ok(suf, d, old_acc, old_out);
                            }
                        },
                        _ => {
                            proof {
                                lemma_scan_digit_bad(suf, d, old_acc, old_out);
                            }
                            return Err(DecodeError::InvalidHexDigit);
                        },
                    }
                },
                Escape::Idle => {
                    if acc.len() > 0 {
                        match utf8_decode_chars(acc.as_slice()) {
                            Some(mut cs) => {
                                proof {
                                    lemma_scan_flush(suf, old_acc, old_out);
                                    assert(old_out + decode_utf8(old_acc) + seq![c] =~= (old_out
                                        + cs@).push(c));
                                }
                                out.append(&mut cs);
                                out.push(c);
                                acc.clear();
                                proof {
                                    assert(acc@ =~= Seq::<u8>::empty());
                                }
                            },
                            None => {
                                proof {
                                    lemma_scan_flush_bad(suf, old_acc, old_out);
                                }
                                return Err(DecodeError::InvalidEncodedBytes);
                            },
                        }
                    } else {
                        proof {
                            assert(old_acc =~= Seq::<u8>::empty());
                            lemma_scan_literal(suf, old_out);
                        }
                        out.push(c);
                    }
                },
            }
        }
        i = i + 1;
    }
    proof {
        assert(input@.skip(n as int) =~= Seq::<char>::empty());
    }
    match st {
        Escape::Idle => {
            if acc.len() == 0 {
                Ok(out)
            } else {
                match utf8_decode_chars(acc.as_slice()) {
                    Some(mut cs) => {
                        out.append(&mut cs);
                        Ok(out)
                    },
                    None => Err(DecodeError::InvalidEncodedBytes),
                }
            }
        },
        _ => Err(DecodeError::TruncatedEscape),
    }
}

/// Whether every character of the input is in the strict literal set.
fn all_allowed(cs: &Vec<char>, allow_plus: bool) -> (r: bool)
    ensures
        r == strict_input_ok(cs@, allow_plus),
{
    let n = cs.len();
    let mut i: usize = 0;
    while i < n
        invariant
            n == cs@.len(),
            i <= n,
            forall|j: int| 0 <= j < i ==> #[trigger] allowed_char(cs@[j], allow_plus),
        decreases n - i,
    {
        let c = cs[i];
        if !(is_unicode_alphanumeric(c) || is_reserved(c) || (allow_plus && c == '+')) {
            proof {
                assert(!allowed_char(cs@[i as int], allow_plus));
            }
            return false;
        }
        i = i + 1;
    }
    true
}

/// Decode a percent-encoded text. Consecutive `%XX` triplets are regrouped
/// into one byte run and reassembled as UTF-8 before any following literal
/// character is appended; malformed input yields the error the state machine
/// assigns to it, and nothing else.
pub fn decode(s: &str) -> (r: Result<String, DecodeError>)
    ensures
        (match r {
            Ok(t) => decoded(s@) == Ok::<Seq<char>, DecodeError>(t@),
            Err(e) => decoded(s@) == Err::<Seq<char>, DecodeError>(e),
        }),
{
    let cs = chars_of(s);
    match do_decode(&cs) {
        Ok(v) => Ok(string_from_chars(v)),
        Err(e) => Err(e),
    }
}

/// Decode a form/URL-dialect text: every literal `+` is read as a space,
/// then the input is decoded as [`decode`] does.
pub fn url_decode(s: &str) -> (r: Result<String, DecodeError>)
    ensures
        (match r {
            Ok(t) => url_decoded(s@) == Ok::<Seq<char>, DecodeError>(t@),
            Err(e) => url_decoded(s@) == Err::<Seq<char>, DecodeError>(e),
        }),
{
    let cs = chars_of(s);
    let rep = replace_plus(&cs);
    match do_decode(&rep) {
        Ok(v) => Ok(string_from_chars(v)),
        Err(e) => Err(e),
    }
}

/// A copy of the characters with every `+` replaced by a space.
fn replace_plus(cs: &Vec<char>) -> (r: Vec<char>)
    ensures
        r@ == plus_to_space(cs@),
{
    let n = cs.len();
    let mut r: Vec<char> = Vec::new();
    let mut i: usize = 0;
    while i < n
        invariant
            n == cs@.len(),
            i <= n,
            r@.len() == i,
            forall|j: int|
                0 <= j < i ==> r@[j] == (if cs@[j] == '+' {
                    ' '
                } else {
                    cs@[j]
                }),
        decreases n - i,
    {
        let c = cs[i];
        if c == '+' {
            r.push(' ');
        } else {
            r.push(c);
        }
        i = i + 1;
    }
    proof {
        assert(r@ =~= plus_to_space(cs@));
    }
    r
}

/// Decode as [`decode`] does, after rejecting any input that holds a
/// character the matching encoder would never leave unescaped: anything not
/// alphanumeric in the broad Unicode sense and not in the reserved set fails
/// with `DisallowedCharacter`.
pub fn strict_decode(s: &str) -> (r: Result<String, DecodeError>)
    ensures
        !strict_input_ok(s@, false) ==> r == Err::<String, DecodeError>(
            DecodeError::DisallowedCharacter,
        ),
        strict_input_ok(s@, false) ==> (match r {
            Ok(t) => decoded(s@) == Ok::<Seq<char>, DecodeError>(t@),
            Err(e) => decoded(s@) == Err::<Seq<char>, DecodeError>(e),
        }),
{
    let cs = chars_of(s);
    if !all_allowed(&cs, false) {
        return Err(DecodeError::DisallowedCharacter);
    }
    match do_decode(&cs) {
        Ok(v) => Ok(string_from_chars(v)),
        Err(e) => Err(e),
    }
}

/// Decode as [`url_decode`] does, after the strict pre-validation of
/// [`strict_decode`] — with the one dialect-specific allowance that a
/// literal `+` is permitted.
pub fn strict_url_decode(s: &str) -> (r: Result<String, DecodeError>)
    ensures
        !strict_input_ok(s@, true) ==> r == Err::<String, DecodeError>(
            DecodeError::DisallowedCharacter,
        ),
        strict_input_ok(s@, true) ==> (match r {
            Ok(t) => url_decoded(s@) == Ok::<Seq<char>, DecodeError>(t@),
            Err(e) => url_decoded(s@) == Err::<Seq<char>, DecodeError>(e),
        }),
{
    let cs = chars_of(s);
    if !all_allowed(&cs, true) {
        return Err(DecodeError::DisallowedCharacter);
    }
    let rep = replace_plus(&cs);
    match do_decode(&rep) {
        Ok(v) => Ok(string_from_chars(v)),
        Err(e) => Err(e),
    }
}

} // verus!
