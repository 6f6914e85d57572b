//! The protocol version of a message (RFC 9110, section 2.5).

use crate::num::{dec_digits, digit, lemma_dec_digits};
use crate::text::{ascii_bytes_valid_utf8, string_from_utf8};
use vstd::prelude::*;
use vstd::utf8::*;

verus! {

pub const DOT: u8 = 46;

#[derive(Debug, Clone, Copy, PartialEq, Eq, Structural)]
pub struct HttpVersion {
    pub major: u8,
    pub minor: u8,
}

#[derive(Debug, Clone, Copy, PartialEq, Eq, Structural)]
pub struct ParseHttpVersionError;

/// The bytes `HTTP/`.
pub open spec fn http_prefix() -> Seq<u8> {
    seq![72u8, 84u8, 84u8, 80u8, 47u8]
}

/// The text of a version: `HTTP/<major>.<minor>`.
pub open spec fn version_bytes(major: u8, minor: u8) -> Seq<u8> {
    http_prefix() + dec_digits(major as nat) + seq![DOT] + dec_digits(minor as nat)
}

/// The version that `HTTP/<digit>.<digit>` names.
pub open spec fn parse_version(s: Seq<u8>) -> Option<(u8, u8)> {
    if s.len() == 8 && s.subrange(0, 5) == http_prefix() && digit(s[5]) && s[6] == DOT && digit(
        s[7],
    ) {
        Some(((s[5] - 48) as u8, (s[7] - 48) as u8))
    } else {
        None
    }
}

/// Reading the text of any version with single-digit numbers gives that version back.
pub proof fn law_version_round_trip(major: u8, minor: u8)
    requires
        major < 10,
        minor < 10,
    ensures
        parse_version(version_bytes(major, minor)) == Some((major, minor)),
{
    lemma_dec_digits(major as nat);
    lemma_dec_digits(minor as nat);
    let s = version_bytes(major, minor);
    assert(dec_digits(major as nat) == seq![(48 + major) as u8]);
    assert(dec_digits(minor as nat) == seq![(48 + minor) as u8]);
    assert(s =~= http_prefix() + seq![(48 + major) as u8, DOT, (48 + minor) as u8]);
    assert(s.subrange(0, 5) =~= http_prefix());
}

impl HttpVersion {
    pub fn http_1_1() -> (r: HttpVersion)
        ensures
            r.major == 1 && r.minor == 1,
    {
        HttpVersion { major: 1, minor: 1 }
    }

    pub fn http_1_0() -> (r: HttpVersion)
        ensures
            r.major == 1 && r.minor == 0,
    {
        HttpVersion { major: 1, minor: 0 }
    }

    /// Reads `HTTP/<digit>.<digit>`.
    pub fn from_bytes(s: &[u8]) -> (r: Result<HttpVersion, ParseHttpVersionError>)
        ensures
            match parse_version(s@) {
                Some((major, minor)) => r == Ok::<HttpVersion, ParseHttpVersionError>(
                    HttpVersion { major, minor },
                ),
                None => r is Err,
            },
    {
        if s.len() != 8 || s[0] != 72 || s[1] != 84 || s[2] != 84 || s[3] != 80 || s[4] != 47
            || s[5] < 48 || s[5] > 57 || s[6] != DOT || s[7] < 48 || s[7] > 57 {
            proof {
                if s@.len() == 8 && s@.subrange(0, 5) == http_prefix() {
                    assert(s@[0] == s@.subrange(0, 5)[0]);
                    assert(s@[1] == s@.subrange(0, 5)[1]);
                    assert(s@[2] == s@.subrange(0, 5)[2]);
                    assert(s@[3] == s@.subrange(0, 5)[3]);
                    assert(s@[4] == s@.subrange(0, 5)[4]);
                }
            }
            return Err(ParseHttpVersionError);
        }
        proof {
            assert(s@.subrange(0, 5) =~= http_prefix());
        }
        Ok(HttpVersion { major: s[5] - 48, minor: s[7] - 48 })
    }

    /// Reads `HTTP/<digit>.<digit>` from text.
    pub fn from_str(s: &str) -> (r: Result<HttpVersion, ParseHttpVersionError>)
        ensures
            match parse_version(encode_utf8(s@)) {
                Some((major, minor)) => r == Ok::<HttpVersion, ParseHttpVersionError>(
                    HttpVersion { major, minor },
                ),
                None => r is Err,
            },
    {
        HttpVersion::from_bytes(s.as_bytes())
    }

    /// The text `HTTP/<major>.<minor>`, as bytes.
    pub fn to_bytes(&self) -> (r: Vec<u8>)
        ensures
            r@ == version_bytes(self.major, self.minor),
    {
        let mut out: Vec<u8> = vec![72, 84, 84, 80, 47];
        push_decimal_u8(&mut out, self.major);
        out.push(DOT);
        push_decimal_u8(&mut out, self.minor);
        proof {
            assert(out@ =~= version_bytes(self.major, self.minor));
        }
        out
    }

    /// The text `HTTP/<major>.<minor>`.
    pub fn to_string(&self) -> (r: String)
        ensures
            encode_utf8(r@) == version_bytes(self.major, self.minor),
    {
        let bytes = self.to_bytes();
        let ghost b = bytes@;
        proof {
            lemma_dec_digits(self.major as nat);
            lemma_dec_digits(self.minor as nat);
            assert forall|j: int| 0 <= j < b.len() implies b[j] < 128 by {
                let a = dec_digits(self.major as nat);
                let m = dec_digits(self.minor as nat);
                if 5 <= j < 5 + a.len() {
                    assert(b[j] == a[j - 5]);
                } else if j > 5 + a.len() {
                    assert(b[j] == m[j - 6 - a.len()]);
                }
            }
            ascii_bytes_valid_utf8(b);
        }
        match string_from_utf8(bytes) {
            Ok(s) => {
                proof {
                    decode_utf8_encode_utf8(b);
                }
                s
            },
            Err(_) => {
                proof {
                    assert(false);
                }
                String::new()
            },
        }
    }
}

/// Appends the decimal numeral of `n`.
pub fn push_decimal_u8(out: &mut Vec<u8>, n: u8)
    ensures
        final(out)@ == old(out)@ + dec_digits(n as nat),
{
    proof {
        lemma_dec_digits(n as nat);
        if n >= 10 {
            assert(dec_digits(n as nat) == dec_digits((n / 10) as nat).push((48 + n % 10) as u8));
            if n >= 100 {
                assert(dec_digits((n / 10) as nat) == dec_digits((n / 100) as nat).push(
                    (48 + (n / 10) % 10) as u8,
                ));
                assert(dec_digits((n / 100) as nat) == seq![(48 + n / 100) as u8]);
            } else {
                assert(dec_digits((n / 10) as nat) == seq![(48 + n / 10) as u8]);
            }
        } else {
            assert(dec_digits(n as nat) == seq![(48 + n) as u8]);
        }
    }
    let ghost o = out@;
    if n >= 100 {
        out.push(48 + n / 100);
    }
    if n >= 10 {
        out.push(48 + (n / 10) % 10);
    }
    out.push(48 + n % 10);
    proof {
        assert(out@ =~= o + dec_digits(n as nat));
    }
}

} // verus!
