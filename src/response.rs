//! Status codes and responses.

use crate::fields::ConnectionType;
use crate::header::{builtin_name, name_key, Builtin, HeaderMap, HeaderName};
use crate::num::dec_digits;
use crate::parser::key_of;
use crate::request::{Body, Request};
use crate::version::HttpVersion;
use vstd::prelude::*;
use vstd::slice::slice_to_vec;
use vstd::utf8::*;

verus! {

/// An HTTP status code, in `100..=599`.
#[derive(Debug, Clone, Copy, PartialEq, Eq, Structural)]
pub struct StatusCode(u16);

/// The canonical reason phrase of the status codes this library knows.
pub open spec fn reason_text(code: u16) -> Option<Seq<char>> {
    match code {
        200 => Some("OK"@),
        400 => Some("Bad Request"@),
        404 => Some("Not Found"@),
        408 => Some("Request Timeout"@),
        413 => Some("Content Too Large"@),
        431 => Some("Request Header Fields Too Large"@),
        500 => Some("Internal Server Error"@),
        505 => Some("HTTP Version Not Supported"@),
        _ => None,
    }
}

impl StatusCode {
    pub closed spec fn code(&self) -> u16 {
        self.0
    }

    pub closed spec fn wf(&self) -> bool {
        100 <= self.0 <= 599
    }

    /// The status code with the given number.
    pub fn new(code: u16) -> (r: StatusCode)
        requires
            100 <= code <= 599,
        ensures
            r.code() == code,
            r.wf(),
    {
        StatusCode(code)
    }

    pub fn as_u16(&self) -> (r: u16)
        ensures
            r == self.code(),
    {
        self.0
    }

    pub fn canonical_reason(&self) -> (r: Option<&'static str>)
        ensures
            r is Some == reason_text(self.code()) is Some,
            r matches Some(s) ==> s@ == reason_text(self.code())->0,
    {
        match self.0 {
            200 => Some("OK"),
            400 => Some("Bad Request"),
            404 => Some("Not Found"),
            408 => Some("Request Timeout"),
            413 => Some("Content Too Large"),
            431 => Some("Request Header Fields Too Large"),
            500 => Some("Internal Server Error"),
            505 => Some("HTTP Version Not Supported"),
            _ => None,
        }
    }
}


/// A response, as the application builds it.
#[derive(Debug, Clone)]
pub struct Response {
    pub version: HttpVersion,
    pub status: StatusCode,
    /// The reason phrase.
    pub message: Vec<u8>,
    pub headers: HeaderMap,
    pub body: Body,
}

/// The reason phrase a built response carries: the canonical one, else `Unknown Reason`.
pub open spec fn reason_bytes(code: u16) -> Seq<u8> {
    match reason_text(code) {
        Some(t) => encode_utf8(t),
        None => encode_utf8("Unknown Reason"@),
    }
}

/// Builds a response step by step.
pub struct ResponseBuilder {
    pub version: HttpVersion,
    pub status: StatusCode,
    pub headers: HeaderMap,
    pub body: Body,
}

impl ResponseBuilder {
    pub fn new(version: HttpVersion, status: StatusCode) -> (r: ResponseBuilder)
        ensures
            r.version == version,
            r.status == status,
            r.headers.wf(),
            r.headers.entries@.len() == 0,
            r.body is Empty,
    {
        ResponseBuilder { version, status, headers: HeaderMap::new(), body: Body::Empty }
    }

    /// A builder answering `req`, in its version.
    pub fn from_req(req: &Request, status: StatusCode) -> (r: ResponseBuilder)
        ensures
            r.version == req.version,
            r.status == status,
            r.headers.wf(),
            r.headers.entries@.len() == 0,
            r.body is Empty,
    {
        ResponseBuilder::new(req.version, status)
    }

    /// Adds a value of `name`.
    pub fn set_header(self, name: HeaderName, value: Vec<u8>) -> (r: ResponseBuilder)
        requires
            self.headers.wf(),
        ensures
            r.version == self.version && r.status == self.status && r.body == self.body,
            r.headers.entries@.len() == if self.headers.has(name_key(name)) {
                self.headers.entries@.len()
            } else {
                self.headers.entries@.len() + 1
            },
            forall|i: int|
                0 <= i < self.headers.entries@.len() ==> (#[trigger] r.headers.entries@[i]).0 == self.headers.entries@[i].0,
            !self.headers.has(name_key(name)) ==> r.headers.entries@.last().0 == name,
            r.headers.wf(),
            forall|k: Seq<u8>| #[trigger] r.headers.values_of(k) == if k == name_key(name) {
                self.headers.values_of(k).push(value@)
            } else {
                self.headers.values_of(k)
            },
    {
        let mut b = self;
        b.headers.append(name, value);
        b
    }

    /// Adds a value under the name spelled by `name`, which must be ASCII.
    pub fn add_header(self, name: &[u8], value: Vec<u8>) -> (r: ResponseBuilder)
        requires
            self.headers.wf(),
            crate::ascii::ascii_seq(name@),
        ensures
            r.version == self.version && r.status == self.status && r.body == self.body,
            r.headers.entries@.len() == if self.headers.has(crate::header::lower_seq(name@)) {
                self.headers.entries@.len()
            } else {
                self.headers.entries@.len() + 1
            },
            forall|i: int|
                0 <= i < self.headers.entries@.len() ==> (#[trigger] r.headers.entries@[i]).0 == self.headers.entries@[i].0,
            !self.headers.has(crate::header::lower_seq(name@)) ==> crate::header::name_bytes(
                r.headers.entries@.last().0,
            ) == match crate::header::builtin_of(name@) {
                Some(b) => builtin_name(b),
                None => name@,
            },
            r.headers.wf(),
            forall|k: Seq<u8>| #[trigger] r.headers.values_of(k) == if k == crate::header::lower_seq(name@) {
                self.headers.values_of(k).push(value@)
            } else {
                self.headers.values_of(k)
            },
    {
        self.set_header(HeaderName::from_bytes(name), value)
    }

    /// Adds an option to the `Connection` field.
    pub fn set_connection(self, option: ConnectionType) -> (r: ResponseBuilder)
        requires
            self.headers.wf(),
        ensures
            r.version == self.version && r.status == self.status && r.body == self.body,
            r.headers.entries@.len() == if self.headers.has(name_key(HeaderName::Builtin(Builtin::Connection))) {
                self.headers.entries@.len()
            } else {
                self.headers.entries@.len() + 1
            },
            forall|i: int|
                0 <= i < self.headers.entries@.len() ==> (#[trigger] r.headers.entries@[i]).0 == self.headers.entries@[i].0,
            !self.headers.has(name_key(HeaderName::Builtin(Builtin::Connection))) ==> r.headers.entries@.last().0 == HeaderName::Builtin(Builtin::Connection),
            r.headers.wf(),
            forall|k: Seq<u8>| #[trigger] r.headers.values_of(k) == if k == key_of(Builtin::Connection) {
                self.headers.values_of(k).push(option.to_header_value_spec())
            } else {
                self.headers.values_of(k)
            },
    {
        let v = option.to_header_value();
        self.set_header(HeaderName::Builtin(Builtin::Connection), v)
    }

    /// Sets the body, and a `Content-Length` with its length where none is set.
    pub fn body(self, bytes: Vec<u8>) -> (r: ResponseBuilder)
        requires
            self.headers.wf(),
        ensures
            r.version == self.version && r.status == self.status,
            r.body == Body::Full(bytes),
            r.headers.entries@.len() == if self.headers.has(name_key(HeaderName::Builtin(Builtin::ContentLength))) {
                self.headers.entries@.len()
            } else {
                self.headers.entries@.len() + 1
            },
            forall|i: int|
                0 <= i < self.headers.entries@.len() ==> (#[trigger] r.headers.entries@[i]).0 == self.headers.entries@[i].0,
            !self.headers.has(name_key(HeaderName::Builtin(Builtin::ContentLength))) ==> r.headers.entries@.last().0 == HeaderName::Builtin(Builtin::ContentLength),
            r.headers.wf(),
            forall|k: Seq<u8>| #[trigger] r.headers.values_of(k) == if k == key_of(Builtin::ContentLength) && !self.headers.has(k) {
                seq![dec_digits(bytes@.len())]
            } else {
                self.headers.values_of(k)
            },
    {
        let mut b = self;
        let len = bytes.len();
        b.body = Body::Full(bytes);
        let name = HeaderName::Builtin(Builtin::ContentLength);
        if !b.headers.contains(&name) {
            let mut digits: Vec<u8> = Vec::new();
            crate::serialize::push_decimal(&mut digits, len as u64);
            proof {
                assert(digits@ =~= dec_digits(len as nat));
                assert(b.headers.values_of(key_of(Builtin::ContentLength)) =~= Seq::<Seq<u8>>::empty());
            }
            b.headers.append(name, digits);
            proof {
                assert(seq![dec_digits(len as nat)] =~= Seq::<Seq<u8>>::empty().push(dec_digits(len as nat)));
            }
        }
        b
    }

    /// The response, with the canonical reason phrase of its status.
    pub fn build(self) -> (r: Response)
        ensures
            r.version == self.version,
            r.status == self.status,
            r.message@ == reason_bytes(self.status.code()),
            r.headers == self.headers,
            r.body == self.body,
    {
        let message = match self.status.canonical_reason() {
            Some(s) => slice_to_vec(s.as_bytes()),
            None => slice_to_vec("Unknown Reason".as_bytes()),
        };
        Response { version: self.version, status: self.status, message, headers: self.headers, body: self.body }
    }
}

} // verus!
