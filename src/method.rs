//! Request methods (RFC 9110, section 9).

use crate::scan::{all_tchar, tchar};
use vstd::prelude::*;
use vstd::slice::slice_to_vec;

verus! {

/// The methods this library knows by name.
#[derive(Debug, Clone, Copy, PartialEq, Eq, Structural)]
pub enum Builtin {
    GET,
    POST,
    PUT,
    DELETE,
    PATCH,
    OPTIONS,
    CONNECT,
    TRACE,
    HEAD,
}

/// The canonical (uppercase) spelling of a known method.
pub open spec fn method_name(b: Builtin) -> Seq<u8> {
    match b {
        Builtin::GET => seq![71u8, 69u8, 84u8],
        Builtin::POST => seq![80u8, 79u8, 83u8, 84u8],
        Builtin::PUT => seq![80u8, 85u8, 84u8],
        Builtin::DELETE => seq![68u8, 69u8, 76u8, 69u8, 84u8, 69u8],
        Builtin::PATCH => seq![80u8, 65u8, 84u8, 67u8, 72u8],
        Builtin::OPTIONS => seq![79u8, 80u8, 84u8, 73u8, 79u8, 78u8, 83u8],
        Builtin::CONNECT => seq![67u8, 79u8, 78u8, 78u8, 69u8, 67u8, 84u8],
        Builtin::TRACE => seq![84u8, 82u8, 65u8, 67u8, 69u8],
        Builtin::HEAD => seq![72u8, 69u8, 65u8, 68u8],
    }
}

/// The known method spelled exactly (case-sensitively) by `s`.
pub open spec fn method_of(s: Seq<u8>) -> Option<Builtin> {
    if s == method_name(Builtin::GET) {
        Some(Builtin::GET)
    } else if s == method_name(Builtin::POST) {
        Some(Builtin::POST)
    } else if s == method_name(Builtin::PUT) {
        Some(Builtin::PUT)
    } else if s == method_name(Builtin::DELETE) {
        Some(Builtin::DELETE)
    } else if s == method_name(Builtin::PATCH) {
        Some(Builtin::PATCH)
    } else if s == method_name(Builtin::OPTIONS) {
        Some(Builtin::OPTIONS)
    } else if s == method_name(Builtin::CONNECT) {
        Some(Builtin::CONNECT)
    } else if s == method_name(Builtin::TRACE) {
        Some(Builtin::TRACE)
    } else if s == method_name(Builtin::HEAD) {
        Some(Builtin::HEAD)
    } else {
        None
    }
}

/// Compares two byte strings exactly.
pub fn bytes_eq(a: &[u8], b: &[u8]) -> (r: bool)
    ensures
        r == (a@ == b@),
{
    if a.len() != b.len() {
        return false;
    }
    let mut i: usize = 0;
    while i < a.len()
        invariant
            a@.len() == b@.len(),
            i <= a@.len(),
            forall|j: int| 0 <= j < i ==> a@[j] == b@[j],
        decreases a@.len() - i,
    {
        if a[i] != b[i] {
            return false;
        }
        i += 1;
    }
    proof {
        assert(a@ =~= b@);
    }
    true
}

impl Builtin {
    /// Safe methods (RFC 9110, 9.2.1): GET, HEAD, OPTIONS and TRACE.
    pub fn is_safe(&self) -> (r: bool)
        ensures
            r == (*self == Builtin::GET || *self == Builtin::HEAD || *self == Builtin::OPTIONS
                || *self == Builtin::TRACE),
    {
        match self {
            Builtin::GET | Builtin::HEAD | Builtin::OPTIONS | Builtin::TRACE => true,
            _ => false,
        }
    }

    /// Idempotent methods (RFC 9110, 9.2.2): the safe ones, PUT and DELETE.
    pub fn is_idempotent(&self) -> (r: bool)
        ensures
            r == (*self == Builtin::PUT || *self == Builtin::DELETE || *self == Builtin::GET
                || *self == Builtin::HEAD || *self == Builtin::OPTIONS || *self == Builtin::TRACE),
    {
        match self {
            Builtin::PUT | Builtin::DELETE => true,
            other => other.is_safe(),
        }
    }

    pub fn name(&self) -> (r: Vec<u8>)
        ensures
            r@ == method_name(*self),
    {
        let r = match self {
            Builtin::GET => vec![71, 69, 84],
            Builtin::POST => vec![80, 79, 83, 84],
            Builtin::PUT => vec![80, 85, 84],
            Builtin::DELETE => vec![68, 69, 76, 69, 84, 69],
            Builtin::PATCH => vec![80, 65, 84, 67, 72],
            Builtin::OPTIONS => vec![79, 80, 84, 73, 79, 78, 83],
            Builtin::CONNECT => vec![67, 79, 78, 78, 69, 67, 84],
            Builtin::TRACE => vec![84, 82, 65, 67, 69],
            Builtin::HEAD => vec![72, 69, 65, 68],
        };
        proof {
            assert(r@ =~= method_name(*self));
        }
        r
    }

    /// The known method spelled exactly by `bytes`.
    pub fn try_from(bytes: &[u8]) -> (r: Option<Builtin>)
        ensures
            r == method_of(bytes@),
    {
        let n = Builtin::GET.name();
        if bytes_eq(bytes, n.as_slice()) {
            return Some(Builtin::GET);
        }
        let n = Builtin::POST.name();
        if bytes_eq(bytes, n.as_slice()) {
            return Some(Builtin::POST);
        }
        let n = Builtin::PUT.name();
        if bytes_eq(bytes, n.as_slice()) {
            return Some(Builtin::PUT);
        }
        let n = Builtin::DELETE.name();
        if bytes_eq(bytes, n.as_slice()) {
            return Some(Builtin::DELETE);
        }
        let n = Builtin::PATCH.name();
        if bytes_eq(bytes, n.as_slice()) {
            return Some(Builtin::PATCH);
        }
        let n = Builtin::OPTIONS.name();
        if bytes_eq(bytes, n.as_slice()) {
            return Some(Builtin::OPTIONS);
        }
        let n = Builtin::CONNECT.name();
        if bytes_eq(bytes, n.as_slice()) {
            return Some(Builtin::CONNECT);
        }
        let n = Builtin::TRACE.name();
        if bytes_eq(bytes, n.as_slice()) {
            return Some(Builtin::TRACE);
        }
        let n = Builtin::HEAD.name();
        if bytes_eq(bytes, n.as_slice()) {
            return Some(Builtin::HEAD);
        }
        None
    }
}

/// A request method: a known one, or another token.
#[derive(Debug, Clone)]
pub enum Method {
    Builtin(Builtin),
    Custom(Vec<u8>),
}

/// The spelling of a method.
pub open spec fn method_bytes(m: Method) -> Seq<u8> {
    match m {
        Method::Builtin(b) => method_name(b),
        Method::Custom(v) => v@,
    }
}

impl Method {
    /// A method with the given token; `None` unless it is a non-empty run of token characters.
    pub fn from_bytes(bytes: &[u8]) -> (r: Option<Method>)
        ensures
            r is Some == (bytes@.len() > 0 && all_tchar(bytes@)),
            r matches Some(m) ==> method_bytes(m) == bytes@ && (m is Builtin <==> method_of(
                bytes@,
            ) is Some),
            r matches Some(Method::Builtin(b)) ==> method_of(bytes@) == Some(b),
    {
        if bytes.len() == 0 {
            return None;
        }
        let mut i: usize = 0;
        while i < bytes.len()
            invariant
                i <= bytes@.len(),
                forall|j: int| 0 <= j < i ==> tchar(#[trigger] bytes@[j]),
            decreases bytes@.len() - i,
        {
            if !crate::scan::is_tchar(bytes[i]) {
                return None;
            }
            i += 1;
        }
        match Builtin::try_from(bytes) {
            Some(b) => Some(Method::Builtin(b)),
            None => Some(Method::Custom(slice_to_vec(bytes))),
        }
    }

    /// A custom method, holding the bytes as they are.
    pub fn custom(bytes: Vec<u8>) -> (r: Method)
        ensures
            r == Method::Custom(bytes),
    {
        Method::Custom(bytes)
    }

    /// The spelling of the method.
    pub fn as_bytes(&self) -> (r: Vec<u8>)
        ensures
            r@ == method_bytes(*self),
    {
        match self {
            Method::Builtin(b) => b.name(),
            Method::Custom(v) => v.clone(),
        }
    }
}

} // verus!
