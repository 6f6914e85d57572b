use http_server::api;
use http_server::ascii::{bytes_are_ascii, AsciiStr, AsciiString, InvalidAsciiError};
use http_server::config::HttpServerConfig;
use http_server::error::{HttpParseError, LimitKind, Location, ParseErrorKind};
use http_server::fields::ConnectionType;
use http_server::header::{Builtin, HeaderName, HeaderValue};
use http_server::method::{self, Method};
use http_server::request::{RequestTarget, OriginForm};
use http_server::response::StatusCode;
use http_server::version::HttpVersion;

#[test]
fn version_round_trip() {
    for v in [HttpVersion::http_1_0(), HttpVersion::http_1_1(), HttpVersion { major: 2, minor: 0 }, HttpVersion { major: 9, minor: 9 }] {
        assert_eq!(HttpVersion::from_str(&v.to_string()), Ok(v));
    }
    assert_eq!(HttpVersion::http_1_1().to_string(), "HTTP/1.1");
    assert!(HttpVersion::from_str("HTTP/1").is_err());
    assert!(HttpVersion::from_str("HTTP/10.0").is_err());
    assert!(HttpVersion::from_str("HTTP/01.1").is_err());
    assert!(HttpVersion::from_str("HTTP/+1.1").is_err());
    assert!(HttpVersion::from_str("http/1.1").is_err());
}

#[test]
fn api_versions() {
    assert_eq!(api::HttpVersion::from_str("HTTP/2"), Ok(api::HttpVersion::HTTP_2));
    assert_eq!(api::HttpVersion::HTTP_0_9.as_str(), "HTTP/0.9");
    assert!(api::HttpVersion::from_str("HTTP/4").is_err());
    assert_eq!(api::Method::from_str("PATCH"), api::Method::PATCH);
    assert!(matches!(api::Method::from_str("HEAD"), api::Method::Extension(_)));
}

#[test]
fn status_codes() {
    let err = |kind| HttpParseError { kind, location: Location::StartLine, offset: 0, line: None };
    assert_eq!(err(ParseErrorKind::VersionNotSupported).status_code().as_u16(), 505);
    assert_eq!(err(ParseErrorKind::Timeout).status_code().as_u16(), 408);
    assert_eq!(err(ParseErrorKind::Io(std::io::ErrorKind::Other)).status_code().as_u16(), 500);
    assert_eq!(err(ParseErrorKind::TooLarge { what: LimitKind::RequestLineBytes, limit: 1, actual: 2 }).status_code().as_u16(), 431);
    assert_eq!(err(ParseErrorKind::TooLarge { what: LimitKind::PathBytes, limit: 1, actual: 2 }).status_code().as_u16(), 400);
    assert_eq!(StatusCode::new(200).canonical_reason(), Some("OK"));
    assert_eq!(StatusCode::new(299).canonical_reason(), None);
}

#[test]
fn config_defaults() {
    let c = HttpServerConfig::default();
    assert_eq!(c.max_request_line_bytes, 8192);
    assert_eq!(c.max_header_bytes_total, 65536);
    assert_eq!(c.max_header_count, 100);
    assert_eq!(c.max_body_bytes, None);
    assert_eq!(c.max_chunk_size_bytes, 8 * 1024 * 1024);
    assert_eq!(c.keep_alive_timeout_secs, 75);
}

#[test]
fn methods() {
    assert!(matches!(Method::from_bytes(b"DELETE"), Some(Method::Builtin(method::Builtin::DELETE))));
    assert!(matches!(Method::from_bytes(b"get"), Some(Method::Custom(_))));
    assert!(Method::from_bytes(b"").is_none());
    assert!(method::Builtin::HEAD.is_safe());
    assert!(!method::Builtin::POST.is_idempotent());
    assert!(method::Builtin::PUT.is_idempotent());
}

#[test]
fn header_names() {
    assert_eq!(Builtin::from_bytes(b"content-LENGTH"), Some(Builtin::ContentLength));
    assert_eq!(Builtin::from_bytes(b"X-Other"), None);
    assert!(HeaderName::from_bytes(b"HOST").same(&HeaderName::Builtin(Builtin::Host)));
    assert_eq!(HeaderName::from_bytes(b"X-Other").as_bytes(), b"X-Other".to_vec());
    assert!(HeaderName::try_from(&[0xC3, 0xA9]).is_err());
}

#[test]
fn ascii_strings() {
    assert_eq!(bytes_are_ascii(b"abc"), Ok(()));
    assert_eq!(bytes_are_ascii(&[0x80]), Err(InvalidAsciiError));
    assert_eq!(AsciiString::from_str("hi").unwrap().as_bytes(), b"hi");
    assert!(AsciiStr::from_str("é").is_err());
    assert_eq!(AsciiStr::from_ascii(b"ok").unwrap().to_ascii_string().as_bytes(), b"ok");
}

#[test]
fn request_targets() {
    match RequestTarget::try_from(b"/a%20b?x=%41") {
        Ok(RequestTarget::Origin(o)) => {
            assert_eq!(o.path().unwrap(), "/a b");
            assert_eq!(o.query().unwrap(), Some("x=A".to_string()));
        }
        other => panic!("{:?}", other),
    }
    assert!(matches!(RequestTarget::try_from(b"*"), Ok(RequestTarget::Asterisk)));
    assert!(matches!(RequestTarget::try_from(b"http://x/"), Ok(RequestTarget::Absolute(_))));
    assert!(matches!(RequestTarget::try_from(b"127.0.0.1:80"), Ok(RequestTarget::Authority(_))));
    assert!(RequestTarget::try_from(b"").is_err());
    assert!(OriginForm::from_bytes(b"x").is_none());
}

#[test]
fn connection_values() {
    let mut v = HeaderValue::new();
    v.push(b"keep-ALIVE".to_vec());
    assert_eq!(ConnectionType::from_header_value(&v), vec![ConnectionType::KeepAlive]);
    let mut v = HeaderValue::new();
    v.push(b"x-custom".to_vec());
    assert_eq!(ConnectionType::from_header_value(&v), vec![ConnectionType::Unknown(b"x-custom".to_vec())]);
    v.push(b"close , Upgrade".to_vec());
    assert_eq!(
        ConnectionType::from_header_value(&v),
        vec![ConnectionType::Unknown(b"x-custom".to_vec()), ConnectionType::Close, ConnectionType::Upgrade]
    );
    assert!(ConnectionType::from_header_value(&HeaderValue::new()).is_empty());
    assert_eq!(ConnectionType::Close.to_header_value(), b"Close".to_vec());
}
