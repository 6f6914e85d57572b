use http_server::uri::{url_decode, url_decode_text, url_encode, UrlDecodeError};

#[test]
fn test_urlencode_basic() {
    assert_eq!(url_encode(b"hello world"), "hello%20world");
    assert_eq!(url_encode(b"foo/bar"), "foo%2Fbar");
    assert_eq!(url_encode(b"~_.-"), "~_.-");
    assert_eq!(url_encode(b""), "");
    assert_eq!(url_encode(b"123"), "123");
}

#[test]
fn test_urlencode_non_ascii() {
    assert_eq!(url_encode("é".as_bytes()), "%C3%A9");
    assert_eq!(url_encode(&[0xFF]), "%FF");
}

#[test]
fn test_urlencode_reserved_chars() {
    assert_eq!(url_encode(b"&=+!@$#"), "%26%3D%2B%21%40%24%23");
    assert_eq!(url_encode(b"{}[]"), "%7B%7D%5B%5D");
}

#[test]
fn test_urldecode_basic() {
    assert_eq!(url_decode(b"hello%20world").unwrap(), "hello world".as_bytes());
    assert_eq!(url_decode(b"foo%2Fbar").unwrap(), "foo/bar".as_bytes());
    assert_eq!(url_decode(b"~_.-").unwrap(), "~_.-".as_bytes());
    assert_eq!(url_decode(b"").unwrap(), "".as_bytes());
    assert_eq!(url_decode(b"123").unwrap(), "123".as_bytes());
}

#[test]
fn test_urldecode_non_ascii() {
    assert_eq!(url_decode(b"%C3%A9").unwrap(), "é".as_bytes());
    assert_eq!(url_decode(b"%FF").unwrap(), vec![0xFF]);
}

#[test]
fn test_urldecode_malformed() {
    assert!(url_decode(b"%").is_err());
    assert!(url_decode(b"%A").is_err());
    assert!(url_decode(b"%GG").is_err());
    assert!(url_decode(b"foo%").is_err());
    assert!(url_decode(b"foo%A").is_err());
    assert!(url_decode(b"foo%G1").is_err());
}

#[test]
fn test_urldecode_with_pluses_not_spaces() {
    assert_eq!(url_decode(b"a+b").unwrap(), "a+b".as_bytes());
}

#[test]
fn url_round_trip_on_bytes() {
    let samples: Vec<&[u8]> = vec![b"", b"a b/c?d=e&f", "héllo wörld".as_bytes(), b"%%%", b"~-._"];
    for s in samples {
        let enc = url_encode(s);
        assert!(enc.bytes().all(|b| b.is_ascii_alphanumeric() || b"-._~%".contains(&b)));
        let dec = url_decode(enc.as_bytes()).unwrap();
        assert_eq!(dec.as_slice(), s);
    }
}

#[test]
fn url_decode_error_variants() {
    assert!(matches!(url_decode(b"%G0"), Err(UrlDecodeError::MalformedEncoding)));
    assert!(matches!(url_decode_text(b"%C3"), Err(UrlDecodeError::InvalidUtf8(_))));
    assert_eq!(url_decode_text(b"%C3%A9").unwrap(), "é");
    assert_eq!(url_decode(b"%41%62").unwrap(), "Ab".as_bytes());
    assert_eq!(url_decode(b"%7e").unwrap(), "~".as_bytes());
}

#[test]
fn url_round_trip_any_bytes() {
    for b in [&[0xFFu8][..], &[0x00, 0x80, b'%', b'+'], b"", &[0xC3]] {
        assert_eq!(url_decode(url_encode(b).as_bytes()).unwrap(), b.to_vec());
    }
    assert_eq!(url_decode(b"%FF").unwrap(), vec![0xFF]);
    assert!(matches!(url_decode(b"%F"), Err(UrlDecodeError::MalformedEncoding)));
}
