use http_server::header::{Builtin, HeaderMap, HeaderName, HeaderValue};
use http_server::host::{parse_host, parse_ipv4, HeaderParseError, HostParseError, HostWithPort, IpLiteral, UriHost};

fn value(v: &[u8]) -> HeaderValue {
    let mut h = HeaderValue::new();
    h.push(v.to_vec());
    h
}

#[test]
fn test_uri_host_valid_ipv6() {
    let host = parse_host(b"[::1]").unwrap();
    assert!(matches!(host, UriHost::IpLiteral(IpLiteral::Ipv6(ref t)) if t.as_slice() == b"::1"));
}

#[test]
fn test_uri_host_valid_ipvfuture() {
    let host = parse_host(b"[v5.123]").unwrap();
    assert!(matches!(host, UriHost::IpLiteral(IpLiteral::IpvFuture(_))));
}

#[test]
fn test_uri_host_invalid_ipv6() {
    assert_eq!(parse_host(b"[1234::gggg]").unwrap_err(), HostParseError::InvalidAddress);
}

#[test]
fn host_ipv4_and_names() {
    assert_eq!(parse_ipv4(b"127.0.0.1"), Some([127, 0, 0, 1]));
    assert_eq!(parse_ipv4(b"256.0.0.1"), None);
    assert_eq!(parse_ipv4(b"01.0.0.1"), None);
    assert_eq!(parse_ipv4(b"1.2.3"), None);
    assert!(matches!(parse_host(b"example.org").unwrap(), UriHost::RegName(_)));
    assert!(matches!(parse_host(b"10.0.0.2").unwrap(), UriHost::Ipv4([10, 0, 0, 2])));
    assert_eq!(parse_host("é".as_bytes()).unwrap_err(), HostParseError::InvalidRegName);
    assert_eq!(parse_host(b"a b").unwrap_err(), HostParseError::InvalidRegName);
    assert_eq!(parse_host(b"a%2").unwrap_err(), HostParseError::InvalidRegName);
    assert!(matches!(parse_host(b"a%20b!$").unwrap(), UriHost::RegName(_)));
}

#[test]
fn host_with_port() {
    let h = HostWithPort::from_header_value(&value(b"example.org:8080")).unwrap();
    assert_eq!(h.port, Some(8080));
    assert!(matches!(h.host, UriHost::RegName(_)));
    let h = HostWithPort::from_header_value(&value(b"[::1]:80")).unwrap();
    assert_eq!(h.port, Some(80));
    let h = HostWithPort::from_header_value(&value(b"[::1]")).unwrap();
    assert_eq!(h.port, None);
    assert_eq!(HostWithPort::from_header_value(&value(b"x:")).unwrap_err(), HostParseError::InvalidPort);
    assert_eq!(HostWithPort::from_header_value(&value(b"x:70000")).unwrap_err(), HostParseError::InvalidPort);
    let mut two = value(b"a");
    two.push(b"b".to_vec());
    assert_eq!(HostWithPort::from_header_value(&two).unwrap_err(), HostParseError::DuplicateHeader);
}

#[test]
fn ipv6_grammar() {
    for ok in [&b"[1:2:3:4:5:6:7:8]"[..], b"[::]", b"[::1]", b"[fe80::1:2]", b"[::ffff:1.2.3.4]", b"[1::]"] {
        assert!(matches!(parse_host(ok), Ok(UriHost::IpLiteral(IpLiteral::Ipv6(_)))), "{:?}", ok);
    }
    for bad in [&b"[1:::2:::3]"[..], b"[1.2.3]", b"[1:2:3:4:5:6:7:8:9]", b"[12345::]", b"[1::2::3]", b"[]", b"[1:2:3:4:5:6:7]", b"[1:2:3:4:5:6:7::8]"] {
        assert_eq!(parse_host(bad).unwrap_err(), HostParseError::InvalidAddress, "{:?}", bad);
    }
}

#[test]
fn typed_header_accessors() {
    let mut m = HeaderMap::new();
    assert_eq!(m.get_content_length(), Ok(None));
    assert!(matches!(m.get_host(), Ok(None)));
    m.append(HeaderName::Builtin(Builtin::Host), b"example.org:81".to_vec());
    m.append(HeaderName::Builtin(Builtin::ContentLength), b"7, 8".to_vec());
    assert!(matches!(m.get_host(), Ok(Some(h)) if h.port == Some(81)));
    assert_eq!(
        m.get_content_length(),
        Err(HeaderParseError::ContentLength(http_server::error::ParseErrorKind::ConflictingContentLength))
    );
    m.append(HeaderName::Builtin(Builtin::Host), b"b".to_vec());
    assert!(matches!(m.get_host(), Err(HeaderParseError::Host(HostParseError::DuplicateHeader))));
}
