//! A server-independent view of HTTP messages: methods, versions, request lines and headers.

use crate::ascii::{ascii_seq, AsciiString};
use crate::method::{bytes_eq, method_of, Builtin};
use vstd::prelude::*;
use vstd::utf8::*;

verus! {

#[derive(Debug, Clone, PartialEq, Eq)]
pub enum Method {
    GET,
    POST,
    PUT,
    DELETE,
    PATCH,
    OPTIONS,
    CONNECT,
    TRACE,
    Extension(AsciiString),
}

impl Method {
    /// The method spelled by `s`: a known one, else an extension method holding the text.
    pub fn from_str(s: &str) -> (r: Method)
        requires
            ascii_seq(encode_utf8(s@)),
        ensures
            match method_of(encode_utf8(s@)) {
                Some(Builtin::GET) => r == Method::GET,
                Some(Builtin::POST) => r == Method::POST,
                Some(Builtin::PUT) => r == Method::PUT,
                Some(Builtin::DELETE) => r == Method::DELETE,
                Some(Builtin::PATCH) => r == Method::PATCH,
                Some(Builtin::OPTIONS) => r == Method::OPTIONS,
                Some(Builtin::CONNECT) => r == Method::CONNECT,
                Some(Builtin::TRACE) => r == Method::TRACE,
                _ => r matches Method::Extension(a) && a.view() == encode_utf8(s@),
            },
    {
        match Builtin::try_from(s.as_bytes()) {
            Some(Builtin::GET) => Method::GET,
            Some(Builtin::POST) => Method::POST,
            Some(Builtin::PUT) => Method::PUT,
            Some(Builtin::DELETE) => Method::DELETE,
            Some(Builtin::PATCH) => Method::PATCH,
            Some(Builtin::OPTIONS) => Method::OPTIONS,
            Some(Builtin::CONNECT) => Method::CONNECT,
            Some(Builtin::TRACE) => Method::TRACE,
            _ => match AsciiString::from_str(s) {
                Ok(a) => Method::Extension(a),
                Err(_) => {
                    proof {
                        assert(false);
                    }
                    Method::GET
                },
            },
        }
    }
}

#[derive(Debug, Clone, PartialEq, Eq)]
pub enum HeaderType {
    Extension(AsciiString),
}

#[derive(Debug, Clone)]
pub struct Header {
    pub ty: HeaderType,
    pub val: Vec<String>,
}

#[allow(non_camel_case_types)]
#[derive(Debug, Clone, Copy, PartialEq, Eq, Structural)]
pub enum HttpVersion {
    HTTP_0_9,
    HTTP_1_0,
    HTTP_1_1,
    HTTP_2,
    HTTP_3,
}

#[derive(Debug, Clone, Copy, PartialEq, Eq, Structural)]
pub struct InvalidHttpVersion;

/// The text of a version.
pub open spec fn version_text(v: HttpVersion) -> Seq<char> {
    match v {
        HttpVersion::HTTP_0_9 => "HTTP/0.9"@,
        HttpVersion::HTTP_1_0 => "HTTP/1.0"@,
        HttpVersion::HTTP_1_1 => "HTTP/1.1"@,
        HttpVersion::HTTP_2 => "HTTP/2"@,
        HttpVersion::HTTP_3 => "HTTP/3"@,
    }
}

/// Text equality, through the bytes of the two strings.
fn str_eq(a: &str, b: &str) -> (r: bool)
    ensures
        r == (a@ == b@),
{
    let r = bytes_eq(a.as_bytes(), b.as_bytes());
    proof {
        encode_utf8_decode_utf8(a@);
        encode_utf8_decode_utf8(b@);
    }
    r
}

impl HttpVersion {
    pub fn as_str(&self) -> (r: &'static str)
        ensures
            r@ == version_text(*self),
    {
        match self {
            HttpVersion::HTTP_0_9 => "HTTP/0.9",
            HttpVersion::HTTP_1_0 => "HTTP/1.0",
            HttpVersion::HTTP_1_1 => "HTTP/1.1",
            HttpVersion::HTTP_2 => "HTTP/2",
            HttpVersion::HTTP_3 => "HTTP/3",
        }
    }

    /// The version whose text is exactly `s`.
    pub fn from_str(s: &str) -> (r: Result<HttpVersion, InvalidHttpVersion>)
        ensures
            r matches Ok(v) ==> version_text(v) == s@,
            r is Err ==> forall|v: HttpVersion| version_text(v) != s@,
    {
        if str_eq(s, "HTTP/0.9") {
            Ok(HttpVersion::HTTP_0_9)
        } else if str_eq(s, "HTTP/1.0") {
            Ok(HttpVersion::HTTP_1_0)
        } else if str_eq(s, "HTTP/1.1") {
            Ok(HttpVersion::HTTP_1_1)
        } else if str_eq(s, "HTTP/2") {
            Ok(HttpVersion::HTTP_2)
        } else if str_eq(s, "HTTP/3") {
            Ok(HttpVersion::HTTP_3)
        } else {
            Err(InvalidHttpVersion)
        }
    }
}

#[derive(Debug, Clone, PartialEq, Eq)]
pub struct RequestLine {
    pub method: Method,
    pub path: AsciiString,
    pub version: HttpVersion,
}

#[derive(Debug, Clone)]
pub struct HttpRequest {
    pub req_line: RequestLine,
    pub headers: Vec<Header>,
}

} // verus!
