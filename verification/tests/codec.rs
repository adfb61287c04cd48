use percent_codec::{
    decode, encode, is_reserved, is_whitespace, strict_decode, strict_url_decode, url_decode,
    url_encode,
};

#[test]
fn test_is_reserved() {
    assert!(is_reserved('-'));
    assert!(is_reserved('.'));
    assert!(is_reserved('_'));
    assert!(is_reserved('~'));
    assert!(!is_reserved('a'));
}

#[test]
fn test_is_whitespace() {
    assert!(is_whitespace(' '));
    assert!(!is_whitespace('　'));
}

#[test]
fn test_encode() {
    assert_eq!(encode("abc"), "abc");
    assert_eq!(encode("%"), "%25");
    assert_eq!(encode(" "), "%20");
    assert_eq!(encode("テスト"), "%E3%83%86%E3%82%B9%E3%83%88");
}

#[test]
fn test_url_encode() {
    assert_eq!(url_encode("abc"), "abc");
    assert_eq!(url_encode("%"), "%25");
    assert_eq!(url_encode(" "), "+");
    assert_eq!(url_encode("テスト"), "%E3%83%86%E3%82%B9%E3%83%88");
}

#[test]
fn test_decode() {
    assert_eq!(decode("abc").unwrap(), "abc");
    assert_eq!(decode("%25").unwrap(), "%");
    assert_eq!(decode("%20").unwrap(), " ");
    assert_eq!(decode("%E3%83%86%E3%82%B9%E3%83%88").unwrap(), "テスト");
}

#[test]
fn test_url_decode() {
    assert_eq!(url_decode("abc").unwrap(), "abc");
    assert_eq!(url_decode("%25").unwrap(), "%");
    assert_eq!(url_decode("+").unwrap(), " ");
    assert_eq!(url_decode("%E3%83%86%E3%82%B9%E3%83%88").unwrap(), "テスト");
}

#[test]
fn test_strict_decode() {
    assert!(strict_decode("abc123").is_ok());
    assert!(strict_decode(" ").is_err());
    assert!(strict_decode("%").is_err());
    assert!(strict_decode("+").is_err());
}

#[test]
fn test_strict_url_decode() {
    assert!(strict_url_decode("abc123").is_ok());
    assert!(strict_url_decode(" ").is_err());
    assert!(strict_url_decode("%").is_err());
    assert!(strict_url_decode("+").is_ok());
}
