//! Requests and their targets (RFC 9112, section 3).

use crate::header::HeaderMap;
use crate::method::Method;
use crate::uri::{decodes_to, url_decode_text, UrlDecodeError};
use crate::version::HttpVersion;
use vstd::prelude::*;
use vstd::slice::slice_to_vec;

verus! {

/// The body of a message.
#[derive(Debug, Clone)]
pub enum Body {
    /// No body was framed.
    Empty,
    /// A body of known length.
    Full(Vec<u8>),
}

/// The bytes of a body, `None` where no body was framed.
pub open spec fn body_bytes(b: Body) -> Option<Seq<u8>> {
    match b {
        Body::Empty => None,
        Body::Full(v) => Some(v@),
    }
}

/// A parsed request.
#[derive(Debug, Clone)]
pub struct Request {
    pub method: Method,
    pub target: Vec<u8>,
    pub version: HttpVersion,
    pub headers: HeaderMap,
    pub body: Body,
    /// The peer's address, as text, once the connection has stamped it.
    pub remote: Option<String>,
}

/// The target of a request, by the form its first byte selects.
#[derive(Debug, Clone)]
pub enum RequestTarget {
    /// `absolute-path [ "?" query ]`.
    Origin(OriginForm),
    /// An absolute URI.
    Absolute(Vec<u8>),
    /// `host:port`.
    Authority(Vec<u8>),
    /// `*`.
    Asterisk,
}

/// An origin-form target: the bytes, which start with `/`, and the index of the first `?`.
#[derive(Debug, Clone)]
pub struct OriginForm {
    data: Vec<u8>,
    query: Option<usize>,
}

#[derive(Debug, Clone, Copy, PartialEq, Eq, Structural)]
pub struct RequestTargetParseError;

/// Absolute form of a request target (RFC 9112, 3.2.2).
pub struct AbsoluteForm {}

/// Authority form of a request target (RFC 9112, 3.2.3).
pub struct AuthorityForm {}

/// A letter.
pub open spec fn alpha(b: u8) -> bool {
    (65 <= b <= 90) || (97 <= b <= 122)
}

/// The form a target takes: by its first byte, `/` origin, `*` asterisk (alone), a letter
/// absolute, anything else authority; an empty target or a longer one starting with `*` has none.
pub open spec fn target_form(t: Seq<u8>) -> Option<int> {
    if t.len() == 0 {
        None
    } else if t[0] == 47 {
        Some(0)
    } else if t[0] == 42 {
        if t.len() == 1 {
            Some(3)
        } else {
            None
        }
    } else if alpha(t[0]) {
        Some(1)
    } else {
        Some(2)
    }
}

impl OriginForm {
    pub closed spec fn view(&self) -> Seq<u8> {
        self.data@
    }

    /// The index of the first `?`, if any.
    pub closed spec fn query_index(&self) -> Option<usize> {
        self.query
    }

    pub closed spec fn wf(&self) -> bool {
        &&& self.data@.len() > 0
        &&& self.data@[0] == 47
        &&& match self.query {
            Some(q) => crate::scan::first_of(self.data@, 63) == Some(q as int) && q < self.data@.len(),
            None => crate::scan::first_of(self.data@, 63) is None,
        }
    }

    /// An origin-form target; `None` unless `bytes` starts with `/`.
    pub fn from_bytes(bytes: &[u8]) -> (r: Option<OriginForm>)
        ensures
            r is Some == (bytes@.len() > 0 && bytes@[0] == 47),
            r matches Some(o) ==> o.wf() && o.view() == bytes@,
    {
        if bytes.len() == 0 || bytes[0] != 47 {
            return None;
        }
        let query = crate::scan::find_byte(63, bytes);
        Some(OriginForm { data: slice_to_vec(bytes), query })
    }

    /// The target as it arrived.
    pub fn as_bytes(&self) -> (r: &[u8])
        ensures
            r@ == self.view(),
    {
        self.data.as_slice()
    }

    /// The path: the bytes before the first `?`.
    pub open spec fn path_bytes(&self) -> Seq<u8> {
        match self.query_index() {
            Some(q) => self.view().subrange(0, q as int),
            None => self.view(),
        }
    }

    /// The path, percent-decoded.
    pub fn path(&self) -> (r: Result<String, UrlDecodeError>)
        requires
            self.wf(),
        ensures
            decodes_to(self.path_bytes(), r),
    {
        match self.query {
            Some(q) => url_decode_text(&self.data[0..q]),
            None => url_decode_text(self.data.as_slice()),
        }
    }

    /// The query after `?`, percent-decoded, if there is one.
    pub fn query(&self) -> (r: Result<Option<String>, UrlDecodeError>)
        requires
            self.wf(),
        ensures
            self.query_index() is None ==> r matches Ok(None),
            self.query_index() matches Some(q) ==> decodes_to(
                self.view().subrange(q + 1, self.view().len() as int),
                match r {
                    Ok(Some(s)) => Ok(s),
                    Ok(None) => Err(UrlDecodeError::MalformedEncoding),
                    Err(e) => Err(e),
                },
            ) && !(r matches Ok(None)),
    {
        let n = self.data.len();
        proof {
            if let Some(q) = self.query {
                assert(q < n);
            }
        }
        match self.query {
            Some(q) => match url_decode_text(
                &self.data[q + 1..n],
            ) {
                Ok(s) => Ok(Some(s)),
                Err(e) => Err(e),
            },
            None => Ok(None),
        }
    }
}

impl RequestTarget {
    /// The target of a request, by its first byte.
    pub fn try_from(t: &[u8]) -> (r: Result<RequestTarget, RequestTargetParseError>)
        ensures
            r is Ok == (target_form(t@) is Some),
            r matches Ok(x) ==> match x {
                RequestTarget::Origin(o) => target_form(t@) == Some(0int) && o.wf() && o.view() == t@,
                RequestTarget::Absolute(v) => target_form(t@) == Some(1int) && v@ == t@,
                RequestTarget::Authority(v) => target_form(t@) == Some(2int) && v@ == t@,
                RequestTarget::Asterisk => target_form(t@) == Some(3int),
            },
    {
        if t.len() == 0 {
            return Err(RequestTargetParseError);
        }
        let c = t[0];
        if c == 47 {
            match OriginForm::from_bytes(t) {
                Some(o) => Ok(RequestTarget::Origin(o)),
                None => Err(RequestTargetParseError),
            }
        } else if c == 42 {
            if t.len() > 1 {
                Err(RequestTargetParseError)
            } else {
                Ok(RequestTarget::Asterisk)
            }
        } else if (65 <= c && c <= 90) || (97 <= c && c <= 122) {
            Ok(RequestTarget::Absolute(slice_to_vec(t)))
        } else {
            Ok(RequestTarget::Authority(slice_to_vec(t)))
        }
    }
}

impl Request {
    /// The target of the request, read by its form.
    pub fn target(&self) -> (r: Result<RequestTarget, RequestTargetParseError>)
        ensures
            r is Ok == (target_form(self.target@) is Some),
            r matches Ok(x) ==> match x {
                RequestTarget::Origin(o) => target_form(self.target@) == Some(0int) && o.wf() && o.view() == self.target@,
                RequestTarget::Absolute(v) => target_form(self.target@) == Some(1int) && v@ == self.target@,
                RequestTarget::Authority(v) => target_form(self.target@) == Some(2int) && v@ == self.target@,
                RequestTarget::Asterisk => target_form(self.target@) == Some(3int),
            },
    {
        RequestTarget::try_from(self.target.as_slice())
    }
}

} // verus!
