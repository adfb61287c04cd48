use percent_codec::{
    decode, encode, strict_decode, strict_url_decode, url_decode, url_encode, DecodeError,
};

#[test]
fn round_trip_plain() {
    let inputs = ["", "abc", "a b%c", "テスト", "100% +_~ done", "na\u{00ef}ve"];
    for s in inputs {
        assert_eq!(decode(&encode(s)).unwrap(), s);
    }
}

#[test]
fn round_trip_url() {
    let inputs = ["", "abc", "a b%c", "テスト", "100% +_~ done", "na\u{00ef}ve"];
    for s in inputs {
        assert_eq!(url_decode(&url_encode(s)).unwrap(), s);
    }
}

#[test]
fn encode_unreserved_identity() {
    assert_eq!(encode("Abc-123._~"), "Abc-123._~");
    assert_eq!(url_encode("Abc-123._~"), "Abc-123._~");
}

#[test]
fn encode_output_is_ascii() {
    assert!(encode("テスト % +").is_ascii());
    assert!(url_encode("テスト % +").is_ascii());
}

#[test]
fn encode_empty() {
    assert_eq!(encode(""), "");
    assert_eq!(url_encode(""), "");
    assert_eq!(decode("").unwrap(), "");
}

#[test]
fn decode_truncated_escape() {
    assert_eq!(decode("%2"), Err(DecodeError::TruncatedEscape));
    assert_eq!(decode("%"), Err(DecodeError::TruncatedEscape));
    assert_eq!(decode("abc%E3%8"), Err(DecodeError::TruncatedEscape));
}

#[test]
fn decode_invalid_hex() {
    assert_eq!(decode("%ZZ"), Err(DecodeError::InvalidHexDigit));
    assert_eq!(decode("%4G"), Err(DecodeError::InvalidHexDigit));
}

#[test]
fn decode_invalid_encoded_bytes() {
    // 0xFF alone is no UTF-8 encoding, and a lone continuation byte is none.
    assert_eq!(decode("%FF"), Err(DecodeError::InvalidEncodedBytes));
    assert_eq!(decode("%80x"), Err(DecodeError::InvalidEncodedBytes));
    // an overlong encoding of '/' is rejected
    assert_eq!(decode("%C0%AF"), Err(DecodeError::InvalidEncodedBytes));
}

#[test]
fn decode_multibyte_regrouping() {
    // three consecutive triplets form one character
    assert_eq!(decode("%E3%83%86").unwrap(), "テ");
    // a literal after a run flushes the run first
    assert_eq!(decode("%E3%83%86x").unwrap(), "テx");
    // two runs separated by a literal
    assert_eq!(decode("%E3%83%86-%E3%82%B9").unwrap(), "テ-ス");
}

#[test]
fn decode_lowercase_hex() {
    assert_eq!(decode("%2f").unwrap(), "/");
    assert_eq!(decode("%e3%83%86").unwrap(), "テ");
}

#[test]
fn decode_percent_within_escape() {
    // a % in mid-escape re-marks escaping and keeps the digit read so far
    assert_eq!(decode("%2%35").unwrap(), "#5");
}

#[test]
fn url_decode_plus() {
    assert_eq!(url_decode("a+b").unwrap(), "a b");
    assert_eq!(url_decode("%2B").unwrap(), "+");
}

#[test]
fn strict_decode_values() {
    assert_eq!(strict_decode("abc123").unwrap(), "abc123");
    assert_eq!(strict_decode(" "), Err(DecodeError::DisallowedCharacter));
    assert_eq!(strict_decode("%"), Err(DecodeError::DisallowedCharacter));
    assert_eq!(strict_decode("+"), Err(DecodeError::DisallowedCharacter));
}

#[test]
fn strict_decode_broad_alphanumerics() {
    // the strict literal set is the broad Unicode alphanumeric class, wider
    // than what the encoder itself leaves unescaped
    assert_eq!(strict_decode("日本語").unwrap(), "日本語");
    assert_eq!(strict_url_decode("Ａ１").unwrap(), "Ａ１");
}

#[test]
fn strict_url_decode_values() {
    assert_eq!(strict_url_decode("+").unwrap(), " ");
    assert_eq!(strict_url_decode(" "), Err(DecodeError::DisallowedCharacter));
    assert_eq!(strict_url_decode("a+b").unwrap(), "a b");
}
