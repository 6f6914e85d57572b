use http_server::config::HttpServerConfig;
use http_server::connection::{client_wants_close, closes_after, error_response, keep_alive, response_closes, Parser};
use http_server::error::{LimitKind, Location, ParseErrorKind};
use http_server::fields::ConnectionType;
use http_server::header::{Builtin, HeaderName};
use http_server::method::{self, Method};
use http_server::parser::{parse_request, ParseOutcome};
use http_server::request::{Body, Request};
use http_server::response::{ResponseBuilder, StatusCode};
use http_server::serialize::serialize_response;
use http_server::version::HttpVersion;

fn parse(bytes: &[u8]) -> ParseOutcome {
    parse_request(bytes, &HttpServerConfig::default())
}

fn complete(bytes: &[u8]) -> (Request, usize) {
    match parse(bytes) {
        ParseOutcome::Complete(r, n) => (r, n),
        other => panic!("expected a request, got {:?}", other),
    }
}

fn failed_kind(bytes: &[u8]) -> ParseErrorKind {
    match parse(bytes) {
        ParseOutcome::Failed(e) => e.kind,
        other => panic!("expected an error, got {:?}", other),
    }
}

fn body_of(r: &Request) -> Option<Vec<u8>> {
    match &r.body {
        Body::Empty => None,
        Body::Full(b) => Some(b.clone()),
    }
}

#[test]
fn basic_get_keep_alive() {
    let input = b"GET / HTTP/1.1\r\nHost: x\r\n\r\n";
    let (req, n) = complete(input);
    assert_eq!(n, input.len());
    assert!(matches!(req.method, Method::Builtin(method::Builtin::GET)));
    assert_eq!(req.target, b"/".to_vec());
    assert_eq!(req.version, HttpVersion { major: 1, minor: 1 });
    assert!(body_of(&req).is_none());
    let res = ResponseBuilder::from_req(&req, StatusCode::new(200)).body(b"hi".to_vec()).build();
    let wire = serialize_response(&res);
    assert!(wire.starts_with(b"HTTP/1.1 200 OK\r\n"));
    assert!(wire.ends_with(b"\r\n\r\nhi"));
    let text = String::from_utf8(wire).unwrap();
    assert!(text.contains("Content-Length: 2\r\n"));
    assert!(keep_alive(&req, &res));
}

#[test]
fn post_with_content_length() {
    let input = b"POST /a HTTP/1.1\r\nHost: x\r\ncontent-length: 5\r\n\r\nABCDE";
    let (req, n) = complete(input);
    assert_eq!(n, input.len());
    assert_eq!(body_of(&req), Some(b"ABCDE".to_vec()));
}

#[test]
fn chunked_body() {
    let input = b"POST /c HTTP/1.1\r\nHost: x\r\nTransfer-Encoding: chunked\r\n\r\n5\r\nHello\r\n6\r\n World\r\n0\r\n\r\n";
    let (req, n) = complete(input);
    assert_eq!(n, input.len());
    assert_eq!(body_of(&req), Some(b"Hello World".to_vec()));
}

#[test]
fn chunked_with_extensions_and_trailers() {
    let input = b"POST /c HTTP/1.1\r\nHost: x\r\nTransfer-Encoding: gzip, Chunked\r\n\r\na;name=v\r\n0123456789\r\n0\r\nX-T: 1\r\n\r\n";
    let (req, _) = complete(input);
    assert_eq!(body_of(&req), Some(b"0123456789".to_vec()));
}

#[test]
fn chunked_errors() {
    let head = "POST /c HTTP/1.1\r\nHost: x\r\nTransfer-Encoding: chunked\r\n\r\n";
    assert_eq!(failed_kind(format!("{}zz\r\n", head).as_bytes()), ParseErrorKind::ChunkSizeInvalid);
    assert_eq!(failed_kind(format!("{}5\r\nHelloXX", head).as_bytes()), ParseErrorKind::ChunkCrlfMissing);
    assert_eq!(failed_kind(format!("{}5;a b@\r\nHello\r\n", head).as_bytes()), ParseErrorKind::ChunkExtensionsInvalid);
    assert!(matches!(parse(format!("{}5\r\nHel", head).as_bytes()), ParseOutcome::Incomplete));
    let over = failed_kind(format!("{}900000\r\n", head).as_bytes());
    assert!(matches!(over, ParseErrorKind::TooLarge { what: LimitKind::ChunkSizeBytes, .. }));
}

#[test]
fn transfer_encoding_not_ending_in_chunked() {
    let input = b"POST / HTTP/1.1\r\nHost: x\r\nTransfer-Encoding: chunked, gzip\r\n\r\n";
    assert_eq!(failed_kind(input), ParseErrorKind::InvalidTransferEncoding);
}

#[test]
fn missing_host() {
    let input = b"GET / HTTP/1.1\r\n\r\n";
    let err = match parse(input) {
        ParseOutcome::Failed(e) => e,
        other => panic!("{:?}", other),
    };
    assert_eq!(err.kind, ParseErrorKind::MissingRequiredHeader);
    assert_eq!(err.status_code().as_u16(), 400);
    let res = error_response(&err);
    assert!(response_closes(&res));
    let wire = String::from_utf8(serialize_response(&res)).unwrap();
    assert!(wire.starts_with("HTTP/1.1 400 "));
    assert!(wire.contains("Connection: Close\r\n"));
}

#[test]
fn http_1_0_needs_no_host() {
    let (req, _) = complete(b"GET / HTTP/1.0\r\n\r\n");
    assert_eq!(req.version, HttpVersion { major: 1, minor: 0 });
    assert!(client_wants_close(&req));
    let (req, _) = complete(b"GET / HTTP/1.0\r\nConnection: keep-alive\r\n\r\n");
    assert!(!client_wants_close(&req));
}

#[test]
fn oversize_header_line() {
    let mut input = b"GET / HTTP/1.1\r\nHost: x\r\nX-Big: ".to_vec();
    input.extend(std::iter::repeat(b'a').take(9 * 1024));
    input.extend_from_slice(b"\r\n\r\n");
    let err = match parse(&input) {
        ParseOutcome::Failed(e) => e,
        other => panic!("{:?}", other),
    };
    assert!(matches!(err.kind, ParseErrorKind::TooLarge { what: LimitKind::HeaderLineBytes, .. }));
    let wire = serialize_response(&error_response(&err));
    assert!(wire.starts_with(b"HTTP/1.1 431 "));
    // still unterminated: the limit applies before the line ends
    let partial = &input[..input.len() - 4];
    assert!(matches!(parse(partial), ParseOutcome::Failed(_)));
}

#[test]
fn obs_fold_rejected() {
    let input = b"GET / HTTP/1.1\r\nHost: x\r\nX: a\r\n b\r\n\r\n";
    let err = match parse(input) {
        ParseOutcome::Failed(e) => e,
        other => panic!("{:?}", other),
    };
    assert_eq!(err.kind, ParseErrorKind::MalformedHeaderLine);
    assert_eq!(err.location, Location::Headers);
    assert_eq!(err.line, Some(4));
    assert_eq!(err.status_code().as_u16(), 400);
    assert!(err.offset <= input.len());
}

#[test]
fn content_length_with_chunked_conflicts() {
    let input = b"POST / HTTP/1.1\r\nHost: x\r\nContent-Length: 3\r\nTransfer-Encoding: chunked\r\n\r\n";
    let err = match parse(input) {
        ParseOutcome::Failed(e) => e,
        other => panic!("{:?}", other),
    };
    assert_eq!(err.kind, ParseErrorKind::ConflictingContentLength);
    let res = error_response(&err);
    assert_eq!(res.status.as_u16(), 400);
    assert!(response_closes(&res));
}

#[test]
fn content_length_lists() {
    let (req, _) = complete(b"POST / HTTP/1.1\r\nHost: x\r\nContent-Length: 3 , 3\r\n\r\nabc");
    assert_eq!(body_of(&req), Some(b"abc".to_vec()));
    assert_eq!(failed_kind(b"POST / HTTP/1.1\r\nHost: x\r\nContent-Length: 3, 4\r\n\r\nabc"), ParseErrorKind::ConflictingContentLength);
    assert_eq!(failed_kind(b"POST / HTTP/1.1\r\nHost: x\r\nContent-Length: 3x\r\n\r\nabc"), ParseErrorKind::InvalidContentLength);
    assert_eq!(failed_kind(b"POST / HTTP/1.1\r\nHost: x\r\nContent-Length: 3\r\nContent-Length: 3\r\n\r\nabc"), ParseErrorKind::DuplicateHeader);
    assert_eq!(failed_kind(b"GET / HTTP/1.1\r\nHost: x\r\nHost: y\r\n\r\n"), ParseErrorKind::DuplicateHeader);
}

#[test]
fn body_shorter_than_content_length() {
    let mut p = Parser::new(HttpServerConfig::default());
    p.feed(b"POST / HTTP/1.1\r\nHost: x\r\nContent-Length: 10\r\n\r\nabc");
    assert!(matches!(p.parse_request(), ParseOutcome::Incomplete));
    let err = p.end_of_stream().unwrap();
    assert_eq!(err.kind, ParseErrorKind::IncompleteMessage);
    assert_eq!(err.location, Location::Body);
}

#[test]
fn clean_end_of_stream() {
    let p = Parser::new(HttpServerConfig::default());
    assert!(p.end_of_stream().is_none());
}

#[test]
fn two_requests_back_to_back() {
    let mut p = Parser::new(HttpServerConfig::default());
    p.feed(b"GET /one HTTP/1.1\r\nHost: x\r\nConnection: keep-alive\r\n\r\nGET /two HTTP/1.1\r\nHost: x\r\nConnection: keep-alive\r\n\r\n");
    let first = match p.parse_request() {
        ParseOutcome::Complete(r, _) => r,
        other => panic!("{:?}", other),
    };
    let second = match p.parse_request() {
        ParseOutcome::Complete(r, _) => r,
        other => panic!("{:?}", other),
    };
    assert_eq!(first.target, b"/one".to_vec());
    assert_eq!(second.target, b"/two".to_vec());
    assert!(!client_wants_close(&first));
    assert!(matches!(p.parse_request(), ParseOutcome::Incomplete));
    assert!(p.end_of_stream().is_none());
}

#[test]
fn close_response_ends_connection() {
    let mut p = Parser::new(HttpServerConfig::default());
    p.feed(b"GET / HTTP/1.1\r\nHost: x\r\n\r\nGET /next HTTP/1.1\r\nHost: x\r\n\r\n");
    let req = match p.parse_request() {
        ParseOutcome::Complete(r, _) => r,
        other => panic!("{:?}", other),
    };
    let res = ResponseBuilder::from_req(&req, StatusCode::new(200)).set_connection(ConnectionType::Close).build();
    assert!(response_closes(&res));
    assert!(!keep_alive(&req, &res));
}

#[test]
fn start_line_errors() {
    assert_eq!(failed_kind(b"G(T / HTTP/1.1\r\nHost: x\r\n\r\n"), ParseErrorKind::InvalidMethod);
    assert_eq!(failed_kind(b"GET / HTTP/2.0\r\nHost: x\r\n\r\n"), ParseErrorKind::VersionNotSupported);
    assert_eq!(failed_kind(b"GET / HTTP/0.9\r\nHost: x\r\n\r\n"), ParseErrorKind::VersionNotSupported);
    assert_eq!(failed_kind(b"GET / HTTQ/1.1\r\nHost: x\r\n\r\n"), ParseErrorKind::InvalidVersion);
    assert_eq!(failed_kind(b"GET / HTTP/10.0\r\nHost: x\r\n\r\n"), ParseErrorKind::InvalidVersion);
    assert_eq!(failed_kind(b"GET / HTTP/01.1\r\nHost: x\r\n\r\n"), ParseErrorKind::InvalidVersion);
    assert_eq!(failed_kind(b"GET / HTTP/1.1 extra\r\nHost: x\r\n\r\n"), ParseErrorKind::InvalidVersion);
    assert_eq!(failed_kind(b"GET /\r\nHost: x\r\n\r\n"), ParseErrorKind::MalformedHeaderLine);
    assert_eq!(failed_kind(b"GET  HTTP/1.1\r\nHost: x\r\n\r\n"), ParseErrorKind::InvalidTarget);
    assert!(matches!(parse(b"GET / HTTP/1.1\r\nHost"), ParseOutcome::Incomplete));
}

#[test]
fn header_errors() {
    assert_eq!(failed_kind(b"GET / HTTP/1.1\r\nHost x\r\n\r\n"), ParseErrorKind::MalformedHeaderLine);
    assert_eq!(failed_kind(b"GET / HTTP/1.1\r\nHo st: x\r\n\r\n"), ParseErrorKind::InvalidHeaderName);
    assert_eq!(failed_kind(b"GET / HTTP/1.1\r\n: x\r\n\r\n"), ParseErrorKind::InvalidHeaderName);
    assert_eq!(failed_kind(b"GET / HTTP/1.1\r\nHost: a\rb\r\n\r\n"), ParseErrorKind::InvalidHeaderValue);
}

#[test]
fn header_values_are_grouped_case_insensitively() {
    let (req, _) = complete(b"GET / HTTP/1.1\r\nhost: x\r\nX-A: 1\r\nx-a:  2 \r\nX-B: 3\r\n\r\n");
    let xa = req.headers.get(&HeaderName::from_bytes(b"X-A")).unwrap();
    assert_eq!(xa.len(), 2);
    assert_eq!(xa.get(0), b"1");
    assert_eq!(xa.get(1), b"2");
    assert_eq!(xa.collect(), b"1, 2".to_vec());
    assert!(req.headers.contains(&HeaderName::Builtin(Builtin::Host)));
    assert_eq!(req.headers.entries.len(), 3);
}

#[test]
fn header_count_limit() {
    let mut cfg = HttpServerConfig::default();
    cfg.max_header_count = 2;
    let input = b"GET / HTTP/1.1\r\nHost: x\r\nA: 1\r\nB: 2\r\n\r\n";
    match parse_request(input, &cfg) {
        ParseOutcome::Failed(e) => {
            assert!(matches!(e.kind, ParseErrorKind::TooLarge { what: LimitKind::HeaderCount, limit: 2, actual: 3 }));
            assert_eq!(e.status_code().as_u16(), 431);
        }
        other => panic!("{:?}", other),
    }
}

#[test]
fn body_limit() {
    let mut cfg = HttpServerConfig::default();
    cfg.max_body_bytes = Some(4);
    let input = b"POST / HTTP/1.1\r\nHost: x\r\nContent-Length: 5\r\n\r\nABCDE";
    match parse_request(input, &cfg) {
        ParseOutcome::Failed(e) => {
            assert!(matches!(e.kind, ParseErrorKind::TooLarge { what: LimitKind::BodyBytes, limit: 4, actual: 5 }));
            assert_eq!(e.status_code().as_u16(), 413);
        }
        other => panic!("{:?}", other),
    }
}

#[test]
fn serialized_headers_parse_back() {
    let res = ResponseBuilder::new(HttpVersion::http_1_1(), StatusCode::new(404))
        .add_header(b"X-Thing", b"a".to_vec())
        .add_header(b"x-thing", b"b".to_vec())
        .set_header(HeaderName::Builtin(Builtin::SetCookie), b"c=1".to_vec())
        .set_header(HeaderName::Builtin(Builtin::SetCookie), b"d=2".to_vec())
        .build();
    let wire = String::from_utf8(serialize_response(&res)).unwrap();
    assert!(wire.starts_with("HTTP/1.1 404 Not Found\r\n"));
    assert!(wire.contains("X-Thing: a, b\r\n"));
    assert!(wire.contains("Set-Cookie: c=1\r\nSet-Cookie: d=2\r\n"));
    let head = wire.replacen("HTTP/1.1 404 Not Found", "GET / HTTP/1.1", 1);
    let req = format!("{}", head).replacen("\r\n", "\r\nHost: h\r\n", 1);
    let (parsed, _) = complete(req.as_bytes());
    let x = parsed.headers.get(&HeaderName::from_bytes(b"x-THING")).unwrap();
    assert_eq!(x.collect(), b"a, b".to_vec());
}

#[test]
fn timeouts_and_close_decisions() {
    let cfg = HttpServerConfig::default();
    let mut p = Parser::new(cfg.clone());
    assert_eq!(p.read_timeout_secs(), 75);
    assert!(p.on_timeout().is_none());
    p.feed(b"POST / HTTP/1.1\r\nHost");
    assert_eq!(p.read_timeout_secs(), 10);
    let e = p.on_timeout().unwrap();
    assert_eq!(e.kind, ParseErrorKind::Timeout);
    assert_eq!(e.location, Location::Headers);
    assert_eq!(e.status_code().as_u16(), 408);
    p.feed(b": x\r\nContent-Length: 4\r\n\r\nab");
    assert_eq!(p.read_timeout_secs(), 60);
    assert_eq!(p.on_timeout().unwrap().location, Location::Body);
    p.feed(b"cd");
    let req = match p.parse_request() {
        ParseOutcome::Complete(r, _) => r,
        other => panic!("{:?}", other),
    };
    let res = ResponseBuilder::from_req(&req, StatusCode::new(200)).build();
    assert!(!closes_after(&req, &res, false));
    assert!(closes_after(&req, &res, true));
}
