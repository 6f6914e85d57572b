//! ASCII byte strings.

use vstd::prelude::*;
use vstd::slice::slice_to_vec;
use vstd::utf8::*;

verus! {

#[derive(Debug, Clone, Copy, PartialEq, Eq, Structural)]
pub struct InvalidAsciiError;

/// Every byte is below 128.
pub open spec fn ascii_seq(s: Seq<u8>) -> bool {
    forall|i: int| 0 <= i < s.len() ==> #[trigger] s[i] < 128
}

pub fn bytes_are_ascii(bytes: &[u8]) -> (r: Result<(), InvalidAsciiError>)
    ensures
        r is Ok == ascii_seq(bytes@),
{
    let mut i: usize = 0;
    while i < bytes.len()
        invariant
            i <= bytes@.len(),
            forall|j: int| 0 <= j < i ==> bytes@[j] < 128,
        decreases bytes@.len() - i,
    {
        if bytes[i] >= 128 {
            return Err(InvalidAsciiError);
        }
        i += 1;
    }
    Ok(())
}

/// An owned string of ASCII bytes.
#[derive(Debug, Clone, PartialEq, Eq, Hash)]
pub struct AsciiString {
    bytes: Vec<u8>,
}

impl AsciiString {
    pub closed spec fn view(&self) -> Seq<u8> {
        self.bytes@
    }

    pub closed spec fn wf(&self) -> bool {
        ascii_seq(self.bytes@)
    }

    pub fn from_str(s: &str) -> (r: Result<AsciiString, InvalidAsciiError>)
        ensures
            r is Ok == ascii_seq(encode_utf8(s@)),
            r matches Ok(a) ==> a.wf() && a.view() == encode_utf8(s@),
    {
        AsciiString::from_ascii(s.as_bytes())
    }

    pub fn from_ascii(bytes: &[u8]) -> (r: Result<AsciiString, InvalidAsciiError>)
        ensures
            r is Ok == ascii_seq(bytes@),
            r matches Ok(a) ==> a.wf() && a.view() == bytes@,
    {
        match bytes_are_ascii(bytes) {
            Ok(()) => Ok(AsciiString { bytes: slice_to_vec(bytes) }),
            Err(e) => Err(e),
        }
    }

    pub fn from_bytes(bytes: Vec<u8>) -> (r: Result<AsciiString, InvalidAsciiError>)
        ensures
            r is Ok == ascii_seq(bytes@),
            r matches Ok(a) ==> a.wf() && a.view() == bytes@,
    {
        match bytes_are_ascii(bytes.as_slice()) {
            Ok(()) => Ok(AsciiString { bytes }),
            Err(e) => Err(e),
        }
    }

    pub fn as_bytes(&self) -> (r: &[u8])
        ensures
            r@ == self.view(),
    {
        self.bytes.as_slice()
    }
}

/// A string of ASCII bytes, as read from a byte slice or a `str`.
#[derive(Debug, PartialEq, Eq, Hash)]
pub struct AsciiStr {
    bytes: Vec<u8>,
}

impl AsciiStr {
    pub closed spec fn view(&self) -> Seq<u8> {
        self.bytes@
    }

    pub closed spec fn wf(&self) -> bool {
        ascii_seq(self.bytes@)
    }

    pub fn from_str(s: &str) -> (r: Result<AsciiStr, InvalidAsciiError>)
        ensures
            r is Ok == ascii_seq(encode_utf8(s@)),
            r matches Ok(a) ==> a.wf() && a.view() == encode_utf8(s@),
    {
        AsciiStr::from_ascii(s.as_bytes())
    }

    pub fn from_ascii(bytes: &[u8]) -> (r: Result<AsciiStr, InvalidAsciiError>)
        ensures
            r is Ok == ascii_seq(bytes@),
            r matches Ok(a) ==> a.wf() && a.view() == bytes@,
    {
        match bytes_are_ascii(bytes) {
            Ok(()) => Ok(AsciiStr { bytes: slice_to_vec(bytes) }),
            Err(e) => Err(e),
        }
    }

    pub fn to_ascii_string(&self) -> (r: AsciiString)
        requires
            self.wf(),
        ensures
            r.wf(),
            r.view() == self.view(),
    {
        AsciiString { bytes: slice_to_vec(self.bytes.as_slice()) }
    }

    pub fn as_bytes(&self) -> (r: &[u8])
        ensures
            r@ == self.view(),
    {
        self.bytes.as_slice()
    }
}

/// Reading a value as ASCII.
pub trait AsAsciiStr {
    fn as_ascii_str(&self) -> Result<AsciiStr, InvalidAsciiError>;
}

impl AsAsciiStr for [u8] {
    fn as_ascii_str(&self) -> (r: Result<AsciiStr, InvalidAsciiError>) {
        AsciiStr::from_ascii(self)
    }
}

/// Copying a value into an owned ASCII string.
pub trait ToAsciiString {
    fn to_ascii_string(&self) -> Result<AsciiString, InvalidAsciiError>;
}

impl ToAsciiString for [u8] {
    fn to_ascii_string(&self) -> (r: Result<AsciiString, InvalidAsciiError>) {
        AsciiString::from_ascii(self)
    }
}

/// Turning a value into an owned ASCII string.
pub trait IntoAsciiString {
    fn into_ascii_string(self) -> Result<AsciiString, InvalidAsciiError>;
}

impl IntoAsciiString for Vec<u8> {
    fn into_ascii_string(self) -> (r: Result<AsciiString, InvalidAsciiError>) {
        AsciiString::from_bytes(self)
    }
}

} // verus!
