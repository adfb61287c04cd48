//! The laws relating the encoder and the decoder: decoding inverts
//! encoding, in either dialect, and encoding leaves a fully unreserved text
//! unchanged.

use vstd::prelude::*;
use vstd::utf8::{
    decode_utf8, encode_scalar, encode_utf8, encode_utf8_decode_utf8, encode_utf8_valid_utf8,
    is_ascii_chars, is_ascii_chars_concat, valid_utf8,
};

use crate::classify::is_unreserved_char;
use crate::decode::{
    decoded, lemma_scan_digit_ok, lemma_scan_flush, lemma_scan_literal, lemma_scan_percent,
    lemma_scan_started, plus_to_space, scan, url_decoded, DecodeError, Escape,
};
use crate::encode::{encoded, encoded_char, escape_byte, escape_bytes, url_encoded, url_encoded_char};
use crate::hex::{hex_byte, hex_value, lemma_upper_hex_digit_value, upper_hex_digit};

verus! {

/// An unreserved character is ASCII and never a `%`, a `+`, or a space.
proof fn lemma_unreserved_plain(c: char)
    requires
        is_unreserved_char(c),
    ensures
        c != '%',
        c != '+',
        c != ' ',
        '\0' <= c <= '\u{7f}',
{
}

/// Appending one character to a text appends that character's scalar
/// encoding to the text's UTF-8 bytes.
proof fn lemma_encode_utf8_snoc(p: Seq<char>, c: char)
    ensures
        encode_utf8(p.push(c)) == encode_utf8(p) + encode_scalar(c as u32),
    decreases p.len(),
{
    if p.len() == 0 {
        assert(p.push(c)[0] == c);
        assert(p.push(c).drop_first() =~= Seq::<char>::empty());
        assert(encode_utf8(Seq::<char>::empty()) =~= Seq::<u8>::empty());
        assert(encode_utf8(p.push(c)) =~= encode_utf8(p) + encode_scalar(c as u32));
    } else {
        assert(p.push(c)[0] == p[0]);
        assert(p.push(c).drop_first() =~= p.drop_first().push(c));
        lemma_encode_utf8_snoc(p.drop_first(), c);
        assert(encode_utf8(p.push(c)) =~= encode_utf8(p) + encode_scalar(c as u32));
    }
}

/// A nonempty text has a nonempty UTF-8 encoding.
proof fn lemma_encode_utf8_nonempty(p: Seq<char>)
    requires
        p.len() > 0,
    ensures
        encode_utf8(p).len() > 0,
{
    assert(encode_scalar(p[0] as u32).len() > 0);
}

/// The characters of a run of escape triplets: three per byte, each either
/// a `%` or an uppercase hexadecimal digit — so all ASCII, and never a `+`.
proof fn lemma_escape_bytes_elems(bs: Seq<u8>)
    ensures
        escape_bytes(bs).len() == 3 * bs.len(),
        forall|j: int|
            0 <= j < escape_bytes(bs).len() ==> #[trigger] escape_bytes(bs)[j] != '+' && '\0'
                <= escape_bytes(bs)[j] <= '\u{7f}',
    decreases bs.len(),
{
    if bs.len() == 0 {
    } else {
        lemma_upper_hex_digit_value(bs[0] as int / 16);
        lemma_upper_hex_digit_value(bs[0] as int % 16);
        lemma_escape_bytes_elems(bs.drop_first());
        assert forall|j: int| 0 <= j < escape_bytes(bs).len() implies #[trigger] escape_bytes(
            bs,
        )[j] != '+' && '\0' <= escape_bytes(bs)[j] <= '\u{7f}' by {
            if j >= 3 {
                assert(escape_bytes(bs)[j] == escape_bytes(bs.drop_first())[j - 3]);
            }
        }
    }
}

/// Replacing `+` by spaces distributes over concatenation.
proof fn lemma_plus_to_space_concat(a: Seq<char>, b: Seq<char>)
    ensures
        plus_to_space(a + b) == plus_to_space(a) + plus_to_space(b),
{
    assert(plus_to_space(a + b) =~= plus_to_space(a) + plus_to_space(b));
}

/// The machine at the end of input, with a pending text's bytes
/// accumulated: it flushes them and succeeds.
proof fn lemma_scan_end(p: Seq<char>, out: Seq<char>)
    ensures
        scan(Seq::empty(), Escape::Idle, encode_utf8(p), out) == Ok::<Seq<char>, DecodeError>(
            out + p,
        ),
{
    if p.len() == 0 {
        assert(encode_utf8(p) =~= Seq::<u8>::empty());
        assert(out + p =~= out);
    } else {
        lemma_encode_utf8_nonempty(p);
        encode_utf8_valid_utf8(p);
        encode_utf8_decode_utf8(p);
    }
}

/// The machine consuming one literal character, with a pending text's bytes
/// accumulated: the pending text is flushed and the character follows it.
proof fn lemma_scan_literal_char(c: char, tail: Seq<char>, p: Seq<char>, out: Seq<char>)
    requires
        c != '%',
    ensures
        scan(seq![c] + tail, Escape::Idle, encode_utf8(p), out) == scan(
            tail,
            Escape::Idle,
            encode_utf8(Seq::empty()),
            out + p + seq![c],
        ),
{
    let full = seq![c] + tail;
    assert(full[0] == c);
    assert(full.drop_first() =~= tail);
    assert(encode_utf8(Seq::<char>::empty()) =~= Seq::<u8>::empty());
    if p.len() == 0 {
        assert(encode_utf8(p) =~= Seq::<u8>::empty());
        lemma_scan_literal(full, out);
        assert(out.push(c) =~= out + p + seq![c]);
    } else {
        lemma_encode_utf8_nonempty(p);
        encode_utf8_valid_utf8(p);
        encode_utf8_decode_utf8(p);
        lemma_scan_flush(full, encode_utf8(p), out);
        assert(out + decode_utf8(encode_utf8(p)) + seq![c] =~= out + p + seq![c]);
    }
}

/// The machine consuming a run of escape triplets: each byte they name goes
/// to the accumulator, and nothing else changes.
proof fn lemma_scan_triplets(bs: Seq<u8>, tail: Seq<char>, acc: Seq<u8>, out: Seq<char>)
    ensures
        scan(escape_bytes(bs) + tail, Escape::Idle, acc, out) == scan(
            tail,
            Escape::Idle,
            acc + bs,
            out,
        ),
    decreases bs.len(),
{
    if bs.len() == 0 {
        assert(escape_bytes(bs) + tail =~= tail);
        assert(acc + bs =~= acc);
    } else {
        let b = bs[0];
        let hi = upper_hex_digit(b as int / 16);
        let lo = upper_hex_digit(b as int % 16);
        lemma_upper_hex_digit_value(b as int / 16);
        lemma_upper_hex_digit_value(b as int % 16);
        let full = escape_bytes(bs) + tail;
        assert(escape_bytes(bs) == escape_byte(b) + escape_bytes(bs.drop_first()));
        let f1 = seq![hi, lo] + (escape_bytes(bs.drop_first()) + tail);
        let f2 = seq![lo] + (escape_bytes(bs.drop_first()) + tail);
        let f3 = escape_bytes(bs.drop_first()) + tail;
        assert(full[0] == '%');
        assert(full.len() > 0);
        lemma_scan_percent(full, Escape::Idle, acc, out);
        assert(full.drop_first() =~= f1);
        assert(f1[0] == hi);
        lemma_scan_started(f1, acc, out);
        assert(f1.drop_first() =~= f2);
        assert(f2[0] == lo);
        lemma_scan_digit_ok(f2, hi as u32, acc, out);
        assert(f2.drop_first() =~= f3);
        assert(hex_byte(hi as u32, lo as u32) == b) by {
            assert(hex_value(hi as u32) == b as int / 16);
            assert(hex_value(lo as u32) == b as int % 16);
            assert((b as int / 16) * 16 + b as int % 16 == b);
        }
        lemma_scan_triplets(bs.drop_first(), tail, acc.push(b), out);
        assert(acc.push(b) + bs.drop_first() =~= acc + bs);
    }
}

/// The machine over a plainly encoded text, with a pending text's bytes
/// accumulated: it succeeds with everything already emitted, the pending
/// text, and the encoded text itself.
proof fn lemma_scan_encoded(s: Seq<char>, p: Seq<char>, out: Seq<char>)
    ensures
        scan(encoded(s), Escape::Idle, encode_utf8(p), out) == Ok::<Seq<char>, DecodeError>(
            out + p + s,
        ),
    decreases s.len(),
{
    if s.len() == 0 {
        assert(encoded(s) =~= Seq::<char>::empty());
        lemma_scan_end(p, out);
        assert(out + p + s =~= out + p);
    } else {
        let c = s[0];
        let rest = s.drop_first();
        assert(encoded(s) == encoded_char(c) + encoded(rest));
        if is_unreserved_char(c) {
            lemma_unreserved_plain(c);
            assert(encoded(s) =~= seq![c] + encoded(rest));
            lemma_scan_literal_char(c, encoded(rest), p, out);
            lemma_scan_encoded(rest, Seq::empty(), out + p + seq![c]);
            assert(out + p + seq![c] + Seq::<char>::empty() + rest =~= out + p + s);
        } else {
            let bs = encode_scalar(c as u32);
            assert(encoded(s) =~= escape_bytes(bs) + encoded(rest));
            lemma_scan_triplets(bs, encoded(rest), encode_utf8(p), out);
            lemma_encode_utf8_snoc(p, c);
            assert(encode_utf8(p) + bs =~= encode_utf8(p.push(c)));
            lemma_scan_encoded(rest, p.push(c), out);
            assert(out + p.push(c) + rest =~= out + p + s);
        }
    }
}

/// The machine over a form/URL encoded text whose `+` signs have been read
/// back as spaces, with a pending text's bytes accumulated.
proof fn lemma_scan_url_encoded(s: Seq<char>, p: Seq<char>, out: Seq<char>)
    ensures
        scan(plus_to_space(url_encoded(s)), Escape::Idle, encode_utf8(p), out) == Ok::<
            Seq<char>,
            DecodeError,
        >(out + p + s),
    decreases s.len(),
{
    if s.len() == 0 {
        assert(plus_to_space(url_encoded(s)) =~= Seq::<char>::empty());
        lemma_scan_end(p, out);
        assert(out + p + s =~= out + p);
    } else {
        let c = s[0];
        let rest = s.drop_first();
        assert(url_encoded(s) == url_encoded_char(c) + url_encoded(rest));
        lemma_plus_to_space_concat(url_encoded_char(c), url_encoded(rest));
        let image = plus_to_space(url_encoded(s));
        if c == ' ' {
            assert(plus_to_space(url_encoded_char(c)) =~= seq![' ']);
            assert(image =~= seq![c] + plus_to_space(url_encoded(rest)));
            lemma_scan_literal_char(c, plus_to_space(url_encoded(rest)), p, out);
            lemma_scan_url_encoded(rest, Seq::empty(), out + p + seq![c]);
            assert(out + p + seq![c] + Seq::<char>::empty() + rest =~= out + p + s);
        } else if is_unreserved_char(c) {
            lemma_unreserved_plain(c);
            assert(plus_to_space(url_encoded_char(c)) =~= seq![c]);
            assert(image =~= seq![c] + plus_to_space(url_encoded(rest)));
            lemma_scan_literal_char(c, plus_to_space(url_encoded(rest)), p, out);
            lemma_scan_url_encoded(rest, Seq::empty(), out + p + seq![c]);
            assert(out + p + seq![c] + Seq::<char>::empty() + rest =~= out + p + s);
        } else {
            let bs = encode_scalar(c as u32);
            lemma_escape_bytes_elems(bs);
            assert(plus_to_space(url_encoded_char(c)) =~= escape_bytes(bs));
            assert(image =~= escape_bytes(bs) + plus_to_space(url_encoded(rest)));
            lemma_scan_triplets(bs, plus_to_space(url_encoded(rest)), encode_utf8(p), out);
            lemma_encode_utf8_snoc(p, c);
            assert(encode_utf8(p) + bs =~= encode_utf8(p.push(c)));
            lemma_scan_url_encoded(rest, p.push(c), out);
            assert(out + p.push(c) + rest =~= out + p + s);
        }
    }
}

/// Round trip, plain dialect: decoding what the encoder produced yields the
/// original text, for every text.
pub proof fn lemma_decode_encode_round_trip(s: Seq<char>)
    ensures
        decoded(encoded(s)) == Ok::<Seq<char>, DecodeError>(s),
{
    assert(encode_utf8(Seq::<char>::empty()) =~= Seq::<u8>::empty());
    lemma_scan_encoded(s, Seq::empty(), Seq::empty());
    assert(Seq::<char>::empty() + Seq::<char>::empty() + s =~= s);
}

/// Round trip, form/URL dialect: decoding what the encoder produced yields
/// the original text, for every text.
pub proof fn lemma_url_decode_url_encode_round_trip(s: Seq<char>)
    ensures
        url_decoded(url_encoded(s)) == Ok::<Seq<char>, DecodeError>(s),
{
    assert(encode_utf8(Seq::<char>::empty()) =~= Seq::<u8>::empty());
    lemma_scan_url_encoded(s, Seq::empty(), Seq::empty());
    assert(Seq::<char>::empty() + Seq::<char>::empty() + s =~= s);
}

/// The wire format is ASCII: whatever the text, everything either encoder
/// emits is an ASCII character.
pub proof fn lemma_encoded_ascii(s: Seq<char>)
    ensures
        is_ascii_chars(encoded(s)),
        is_ascii_chars(url_encoded(s)),
    decreases s.len(),
{
    if s.len() == 0 {
        assert(encoded(s) =~= Seq::<char>::empty());
        assert(url_encoded(s) =~= Seq::<char>::empty());
    } else {
        let c = s[0];
        let rest = s.drop_first();
        lemma_encoded_ascii(rest);
        if is_unreserved_char(c) {
            lemma_unreserved_plain(c);
            assert(seq![c][0] == c);
            assert(is_ascii_chars(seq![c]));
            assert(is_ascii_chars(encoded_char(c)));
        } else {
            lemma_escape_bytes_elems(encode_scalar(c as u32));
            assert(is_ascii_chars(encoded_char(c)));
        }
        assert(is_ascii_chars(url_encoded_char(c))) by {
            if c == ' ' {
                assert(is_ascii_chars(seq!['+']));
            }
        }
        assert(encoded(s) =~= encoded_char(c) + encoded(rest));
        is_ascii_chars_concat(encoded(s), encoded_char(c), encoded(rest));
        assert(url_encoded(s) =~= url_encoded_char(c) + url_encoded(rest));
        is_ascii_chars_concat(url_encoded(s), url_encoded_char(c), url_encoded(rest));
    }
}

/// Encoding a text that holds only unreserved characters returns it
/// unchanged, in either dialect.
pub proof fn lemma_encode_unreserved_identity(s: Seq<char>)
    requires
        forall|i: int| 0 <= i < s.len() ==> is_unreserved_char(#[trigger] s[i]),
    ensures
        encoded(s) == s,
        url_encoded(s) == s,
    decreases s.len(),
{
    if s.len() == 0 {
        assert(encoded(s) =~= s);
        assert(url_encoded(s) =~= s);
    } else {
        let c = s[0];
        lemma_unreserved_plain(c);
        lemma_encode_unreserved_identity(s.drop_first());
        assert(encoded(s) =~= seq![c] + s.drop_first());
        assert(url_encoded(s) =~= seq![c] + s.drop_first());
        assert(seq![c] + s.drop_first() =~= s);
    }
}

} // verus!
