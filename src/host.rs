//! The `Host` field (RFC 9110, 7.2): `uri-host [ ":" port ]`.

use crate::ascii::{ascii_seq, AsciiString};
use crate::header::{HeaderMap, HeaderName, Builtin};
use crate::header::HeaderValue;
use crate::parser::key_of;
use crate::num::{all_digits, dec_value, digit, parse_decimal};
use crate::scan::{find_byte, first_of, lemma_find_from};
use vstd::prelude::*;
use vstd::slice::slice_to_vec;

verus! {

pub const DOT: u8 = 46;
pub const COLON: u8 = 58;

/// The text of an IP literal, without its brackets.
#[derive(Debug, Clone)]
pub enum IpLiteral {
    /// The text of an IPv6 address, checked against its grammar.
    Ipv6(Vec<u8>),
    IpvFuture(IpvFuture),
}

/// A future IP-literal form: `v` followed by the version and address text.
#[derive(Debug, Clone)]
pub struct IpvFuture {
    pub version: u32,
    pub content: AsciiString,
}

#[derive(Debug, Clone)]
pub enum UriHost {
    IpLiteral(IpLiteral),
    Ipv4([u8; 4]),
    RegName(AsciiString),
}

#[derive(Debug, Clone)]
pub struct HostWithPort {
    pub host: UriHost,
    pub port: Option<u16>,
}

#[derive(Debug, Clone, Copy, PartialEq, Eq, Structural)]
pub enum HostParseError {
    /// The field does not occur exactly once.
    DuplicateHeader,
    InvalidAscii,
    /// A registered name holds a byte other than an unreserved character, a sub-delimiter
    /// or a `%HH` escape.
    InvalidRegName,
    InvalidAddress,
    InvalidPort,
}

/// One octet of a dotted-quad: one to three digits, no leading zero, at most 255.
pub open spec fn octet(s: Seq<u8>) -> Option<u8> {
    if 1 <= s.len() <= 3 && all_digits(s) && (s.len() == 1 || s[0] != 48) && dec_value(s) <= 255 {
        Some(dec_value(s) as u8)
    } else {
        None
    }
}

/// The first octet of `s` and the text after its dot.
pub open spec fn octet_dot(s: Seq<u8>) -> Option<(u8, Seq<u8>)> {
    match first_of(s, DOT) {
        None => None,
        Some(i) => match octet(s.subrange(0, i)) {
            None => None,
            Some(o) => Some((o, s.subrange(i + 1, s.len() as int))),
        },
    }
}

/// The address a dotted-quad spells.
pub open spec fn ipv4_spec(s: Seq<u8>) -> Option<[u8; 4]> {
    match octet_dot(s) {
        None => None,
        Some((a, r1)) => match octet_dot(r1) {
            None => None,
            Some((b, r2)) => match octet_dot(r2) {
                None => None,
                Some((c, r3)) => match octet(r3) {
                    None => None,
                    Some(d) => Some([a, b, c, d]),
                },
            },
        },
    }
}

fn parse_octet(s: &[u8]) -> (r: Option<u8>)
    ensures
        r == octet(s@),
{
    if s.len() < 1 || s.len() > 3 || (s.len() > 1 && s[0] == 48) {
        return None;
    }
    match parse_decimal(s) {
        Some(v) => if v <= 255 {
            Some(v as u8)
        } else {
            None
        },
        None => None,
    }
}

fn parse_octet_dot(s: &[u8]) -> (r: Option<(u8, &[u8])>)
    ensures
        match octet_dot(s@) {
            None => r is None,
            Some((o, rest)) => r matches Some((x, y)) && x == o && y@ == rest,
        },
{
    proof {
        lemma_find_from(s@, 0, DOT);
    }
    let i = match find_byte(DOT, s) {
        Some(i) => i,
        None => return None,
    };
    match parse_octet(&s[0..i]) {
        Some(o) => Some((o, &s[i + 1..s.len()])),
        None => None,
    }
}

proof fn lemma_octet_dot(s: Seq<u8>)
    ensures
        octet_dot(s) matches Some((_, rest)) ==> rest.len() + 2 <= s.len(),
{
    lemma_find_from(s, 0, DOT);
}

/// A dotted-quad is at least seven bytes long.
proof fn lemma_ipv4_len(s: Seq<u8>)
    ensures
        ipv4_spec(s) is Some ==> s.len() >= 7,
{
    lemma_octet_dot(s);
    if let Some((_, r1)) = octet_dot(s) {
        lemma_octet_dot(r1);
        if let Some((_, r2)) = octet_dot(r1) {
            lemma_octet_dot(r2);
        }
    }
}

/// Reads a dotted-quad IPv4 address.
pub fn parse_ipv4(s: &[u8]) -> (r: Option<[u8; 4]>)
    ensures
        r == ipv4_spec(s@),
{
    let (a, r1) = match parse_octet_dot(s) {
        Some(x) => x,
        None => return None,
    };
    let (b, r2) = match parse_octet_dot(r1) {
        Some(x) => x,
        None => return None,
    };
    let (c, r3) = match parse_octet_dot(r2) {
        Some(x) => x,
        None => return None,
    };
    match parse_octet(r3) {
        Some(d) => Some([a, b, c, d]),
        None => None,
    }
}

/// One group of an IPv6 address: one to four hexadecimal digits.
pub open spec fn h16(g: Seq<u8>) -> bool {
    1 <= g.len() <= 4 && forall|j: int| 0 <= j < g.len() ==> crate::uri::hex_value(#[trigger] g[j]) is Some
}

/// The number of 16-bit groups that the `:`-separated groups of `s[p..]` stand for; the last
/// may be a dotted-quad (two groups) where `v4` allows it.
pub open spec fn groups_from(s: Seq<u8>, p: int, v4: bool) -> Option<int>
    decreases s.len() - p,
{
    if p < 0 || p > s.len() {
        None
    } else {
        match first_of(s.subrange(p, s.len() as int), COLON) {
            None => {
                let g = s.subrange(p, s.len() as int);
                if h16(g) {
                    Some(1)
                } else if v4 && ipv4_spec(g) is Some {
                    Some(2)
                } else {
                    None
                }
            },
            Some(i) => if i < 0 || p + i >= s.len() || !h16(s.subrange(p, p + i)) {
                None
            } else {
                match groups_from(s, p + i + 1, v4) {
                    Some(c) => Some(c + 1),
                    None => None,
                }
            },
        }
    }
}

/// The groups of `t`, none where it is empty.
pub open spec fn groups(t: Seq<u8>, v4: bool) -> Option<int> {
    if t.len() == 0 {
        Some(0)
    } else {
        groups_from(t, 0, v4)
    }
}

/// Index of the first `::` in `s` at or after `p`.
pub open spec fn double_colon_from(s: Seq<u8>, p: int) -> Option<int>
    decreases s.len() - p,
{
    if p < 0 || p + 1 >= s.len() {
        None
    } else if s[p] == COLON && s[p + 1] == COLON {
        Some(p)
    } else {
        double_colon_from(s, p + 1)
    }
}

/// IPv6 address text (RFC 4291, 2.2): eight groups, or fewer around one `::` that stands for
/// at least one group of zeros; the last two groups may be written as a dotted-quad.
pub open spec fn ipv6_text(s: Seq<u8>) -> bool {
    match double_colon_from(s, 0) {
        None => groups(s, true) == Some(8int),
        Some(d) => match (groups(s.subrange(0, d), false), groups(s.subrange(d + 2, s.len() as int), true)) {
            (Some(a), Some(b)) => a + b <= 7,
            _ => false,
        },
    }
}

proof fn lemma_double_colon(s: Seq<u8>, p: int)
    requires
        0 <= p,
    ensures
        double_colon_from(s, p) matches Some(d) ==> p <= d && d + 1 < s.len(),
    decreases s.len() - p,
{
    if p + 1 < s.len() && !(s[p] == COLON && s[p + 1] == COLON) {
        lemma_double_colon(s, p + 1);
    }
}

fn find_double_colon(s: &[u8]) -> (r: Option<usize>)
    ensures
        match r {
            Some(x) => double_colon_from(s@, 0) == Some(x as int) && x + 1 < s@.len(),
            None => double_colon_from(s@, 0) is None,
        },
{
    proof {
        lemma_double_colon(s@, 0);
    }
    let n = s.len();
    let mut p: usize = 0;
    while p < n && n - p >= 2
        invariant
            n == s@.len(),
            p <= n,
            double_colon_from(s@, p as int) == double_colon_from(s@, 0),
        decreases n - p,
    {
        if s[p] == COLON && s[p + 1] == COLON {
            return Some(p);
        }
        p += 1;
    }
    None
}

fn is_h16(g: &[u8]) -> (r: bool)
    ensures
        r == h16(g@),
{
    if g.len() < 1 || g.len() > 4 {
        return false;
    }
    let mut j: usize = 0;
    while j < g.len()
        invariant
            j <= g@.len(),
            forall|k: int| 0 <= k < j ==> crate::uri::hex_value(#[trigger] g@[k]) is Some,
        decreases g@.len() - j,
    {
        if crate::uri::hex_digit_value(g[j]).is_none() {
            return false;
        }
        j += 1;
    }
    true
}

/// The number of groups `t` stands for, as `groups` reads it.
fn count_groups(t: &[u8], v4: bool) -> (r: Option<usize>)
    ensures
        match r {
            Some(x) => groups(t@, v4) == Some(x as int),
            None => groups(t@, v4) is None,
        },
{
    let n = t.len();
    if n == 0 {
        return Some(0);
    }
    let mut p: usize = 0;
    let mut count: usize = 0;
    loop
        invariant
            n == t@.len(),
            n > 0,
            p <= n,
            count <= p,
            groups_from(t@, 0, v4) == match groups_from(t@, p as int, v4) {
                Some(c) => Some(c + count),
                None => None::<int>,
            },
        decreases n - p,
    {
        proof {
            lemma_find_from(t@.subrange(p as int, n as int), 0, COLON);
        }
        match find_byte(COLON, &t[p..n]) {
            None => {
                let g = &t[p..n];
                proof {
                    assert(g@ == t@.subrange(p as int, n as int));
                    lemma_ipv4_len(g@);
                }
                if is_h16(g) {
                    return Some(count + 1);
                }
                if v4 && parse_ipv4(g).is_some() {
                    return Some(count + 2);
                }
                proof {
                    assert(!h16(t@.subrange(p as int, t@.len() as int)));
                    assert(groups_from(t@, p as int, v4) is None);
                }
                return None;
            },
            Some(i) => {
                if !is_h16(&t[p..p + i]) {
                    proof {
                        assert(t@.subrange(p as int, t@.len() as int).len() == n - p);
                        assert(!h16(t@.subrange(p as int, p + i)));
                        assert(groups_from(t@, p as int, v4) is None);
                    }
                    return None;
                }
                proof {
                    match groups_from(t@, p + i + 1, v4) {
                        Some(c) => {},
                        None => {},
                    }
                }
                count = count + 1;
                p = p + i + 1;
            },
        }
    }
}

/// Whether `s` is IPv6 address text.
pub fn is_ipv6_text(s: &[u8]) -> (r: bool)
    ensures
        r == ipv6_text(s@),
{
    let n = s.len();
    match find_double_colon(s) {
        None => {
            let c = count_groups(s, true);
            let r = match c {
                Some(c) => c == 8,
                None => false,
            };
            proof {
                assert(double_colon_from(s@, 0) is None);
                assert(r == (groups(s@, true) == Some(8int)));
            }
            r
        },
        Some(d) => {
            let left = &s[0..d];
            let right = &s[d + 2..n];
            let a = count_groups(left, false);
            let b = count_groups(right, true);
            let r = match (a, b) {
                (Some(a), Some(b)) => a <= 7 && b <= 7 - a,
                _ => false,
            };
            proof {
                assert(double_colon_from(s@, 0) == Some(d as int));
                assert(left@ == s@.subrange(0, d as int));
                assert(right@ == s@.subrange(d + 2, s@.len() as int));
            }
            r
        },
    }
}

/// The sub-delimiters of RFC 3986: `!$&'()*+,;=`.
pub open spec fn sub_delim(b: u8) -> bool {
    b == 33 || b == 36 || b == 38 || b == 39 || b == 40 || b == 41 || b == 42 || b == 43 || b == 44
        || b == 59 || b == 61
}

/// A registered name (RFC 3986): unreserved characters, sub-delimiters and `%HH` escapes.
pub open spec fn reg_name_ok(h: Seq<u8>) -> bool {
    forall|i: int|
        0 <= i < h.len() ==> crate::uri::unreserved(#[trigger] h[i]) || sub_delim(h[i]) || (h[i]
            == crate::uri::PERCENT && i + 2 < h.len() && crate::uri::hex_value(h[i + 1]) is Some
            && crate::uri::hex_value(h[i + 2]) is Some)
}

/// Which kind of host `h` names.
pub open spec fn host_kind(h: Seq<u8>) -> Result<int, HostParseError> {
    if h.len() >= 2 && h[0] == 91 && h[h.len() - 1] == 93 {
        let inner = h.subrange(1, h.len() - 1);
        if inner.len() > 0 && inner[0] == 118 {
            if ascii_seq(inner) {
                Ok(1)
            } else {
                Err(HostParseError::InvalidAscii)
            }
        } else if ipv6_text(inner) {
            Ok(0)
        } else {
            Err(HostParseError::InvalidAddress)
        }
    } else if ipv4_spec(h) is Some {
        Ok(2)
    } else if reg_name_ok(h) {
        Ok(3)
    } else {
        Err(HostParseError::InvalidRegName)
    }
}

/// `host` is what `h` names, of kind `k`.
pub open spec fn host_ok(h: Seq<u8>, host: UriHost, k: int) -> bool {
    &&& kind_of(host) == k
    &&& match host {
        UriHost::Ipv4(a) => ipv4_spec(h) == Some(a),
        UriHost::IpLiteral(_) => host_text(host) == h.subrange(1, h.len() - 1),
        _ => host_text(host) == h,
    }
}

/// The text a host holds, brackets removed from an IP literal.
pub open spec fn host_text(host: UriHost) -> Seq<u8> {
    match host {
        UriHost::IpLiteral(IpLiteral::Ipv6(v)) => v@,
        UriHost::IpLiteral(IpLiteral::IpvFuture(f)) => f.content.view(),
        UriHost::Ipv4(_) => Seq::empty(),
        UriHost::RegName(a) => a.view(),
    }
}

/// The kind number of a host, in the numbering of `host_kind`.
pub open spec fn kind_of(host: UriHost) -> int {
    match host {
        UriHost::IpLiteral(IpLiteral::Ipv6(_)) => 0,
        UriHost::IpLiteral(IpLiteral::IpvFuture(_)) => 1,
        UriHost::Ipv4(_) => 2,
        UriHost::RegName(_) => 3,
    }
}

/// Reads a host: an IP literal in brackets, a dotted-quad, or a registered name.
#[verifier::loop_isolation(false)]
pub fn parse_host(h: &[u8]) -> (r: Result<UriHost, HostParseError>)
    ensures
        match host_kind(h@) {
            Err(e) => r == Err::<UriHost, HostParseError>(e),
            Ok(k) => r matches Ok(host) && host_ok(h@, host, k),
        },
{
    let n = h.len();
    if n >= 2 && h[0] == 91 && h[n - 1] == 93 {
        let inner = &h[1..n - 1];
        if inner.len() > 0 && inner[0] == 118 {
            return match AsciiString::from_ascii(inner) {
                Ok(content) => Ok(UriHost::IpLiteral(IpLiteral::IpvFuture(IpvFuture { version: 0, content }))),
                Err(_) => Err(HostParseError::InvalidAscii),
            };
        }
        if !is_ipv6_text(inner) {
            return Err(HostParseError::InvalidAddress);
        }
        return Ok(UriHost::IpLiteral(IpLiteral::Ipv6(slice_to_vec(inner))));
    }
    if let Some(a) = parse_ipv4(h) {
        return Ok(UriHost::Ipv4(a));
    }
    if !check_reg_name(h) {
        return Err(HostParseError::InvalidRegName);
    }
    match AsciiString::from_ascii(h) {
        Ok(a) => Ok(UriHost::RegName(a)),
        Err(_) => {
            proof {
                assert forall|i: int| 0 <= i < h@.len() implies #[trigger] h@[i] < 128 by {}
            }
            Err(HostParseError::InvalidAscii)
        },
    }
}

/// Whether `h` is a registered name.
fn check_reg_name(h: &[u8]) -> (r: bool)
    ensures
        r == reg_name_ok(h@),
{
    let n = h.len();
    let mut i: usize = 0;
    while i < n
        invariant
            n == h@.len(),
            i <= n,
            forall|j: int|
                0 <= j < i ==> crate::uri::unreserved(#[trigger] h@[j]) || sub_delim(h@[j]) || (h@[j]
                    == crate::uri::PERCENT && j + 2 < h@.len() && crate::uri::hex_value(h@[j + 1]) is Some
                    && crate::uri::hex_value(h@[j + 2]) is Some),
        decreases n - i,
    {
        let c = h[i];
        let ok = crate::uri::is_unreserved(c) || c == 33 || c == 36 || c == 38 || c == 39 || c == 40
            || c == 41 || c == 42 || c == 43 || c == 44 || c == 59 || c == 61 || (c == crate::uri::PERCENT
            && n - i > 2 && crate::uri::hex_digit_value(h[i + 1]).is_some()
            && crate::uri::hex_digit_value(h[i + 2]).is_some());
        if !ok {
            return false;
        }
        i += 1;
    }
    true
}

/// Index of the last occurrence of `b` in `s`.
pub open spec fn last_of(s: Seq<u8>, b: u8) -> Option<int>
    decreases s.len(),
{
    if s.len() == 0 {
        None
    } else if s.last() == b {
        Some(s.len() - 1)
    } else {
        last_of(s.drop_last(), b)
    }
}

pub proof fn lemma_last_of(s: Seq<u8>, b: u8)
    ensures
        last_of(s, b) matches Some(i) ==> 0 <= i < s.len() && s[i] == b,
    decreases s.len(),
{
    if s.len() > 0 && s.last() != b {
        lemma_last_of(s.drop_last(), b);
    }
}

fn find_last(s: &[u8], b: u8) -> (r: Option<usize>)
    ensures
        match last_of(s@, b) {
            Some(i) => r == Some(i as usize),
            None => r is None,
        },
        r matches Some(i) ==> i < s@.len(),
{
    proof {
        lemma_last_of(s@, b);
        assert(s@.subrange(0, s@.len() as int) =~= s@);
    }
    let mut i: usize = s.len();
    while i > 0
        invariant
            i <= s@.len(),
            last_of(s@, b) == last_of(s@.subrange(0, i as int), b),
        decreases i,
    {
        proof {
            assert(s@.subrange(0, i as int).drop_last() =~= s@.subrange(0, i - 1));
        }
        if s[i - 1] == b {
            return Some(i - 1);
        }
        i -= 1;
    }
    None
}

/// Where the port starts in a `Host` value: after the last `:`, when only digits follow it.
pub open spec fn port_split(v: Seq<u8>) -> Option<int> {
    match last_of(v, COLON) {
        Some(c) => if all_digits(v.subrange(c + 1, v.len() as int)) {
            Some(c)
        } else {
            None
        },
        None => None,
    }
}

/// `r` is what reading a `Host` field with values `vals` gives: a duplicate unless there is
/// exactly one value, else its host and optional port.
pub open spec fn host_result(vals: Seq<Seq<u8>>, r: Result<HostWithPort, HostParseError>) -> bool {
    &&& (vals.len() != 1 ==> r == Err::<HostWithPort, HostParseError>(HostParseError::DuplicateHeader))
    &&& (vals.len() == 1 ==> {
        let v = vals[0];
        match port_split(v) {
            Some(c) => {
                let port = v.subrange(c + 1, v.len() as int);
                if port.len() == 0 || dec_value(port) > 65535 {
                    r == Err::<HostWithPort, HostParseError>(HostParseError::InvalidPort)
                } else {
                    match host_kind(v.subrange(0, c)) {
                        Err(e) => r == Err::<HostWithPort, HostParseError>(e),
                        Ok(k) => r matches Ok(hp) && hp.port == Some(dec_value(port) as u16) && host_ok(v.subrange(0, c), hp.host, k),
                    }
                }
            },
            None => match host_kind(v) {
                Err(e) => r == Err::<HostWithPort, HostParseError>(e),
                Ok(k) => r matches Ok(hp) && hp.port is None && host_ok(v, hp.host, k),
            },
        }
    })
}

/// An error reading a known header field, tagged with the field it came from.
#[derive(Debug, Clone, PartialEq, Eq)]
pub enum HeaderParseError {
    Host(HostParseError),
    ContentLength(crate::error::ParseErrorKind),
}

impl HeaderMap {
    /// The `Host` field, if present.
    pub fn get_host(&self) -> (r: Result<Option<HostWithPort>, HeaderParseError>)
        ensures
            !self.has(key_of(Builtin::Host)) ==> r matches Ok(None),
            self.has(key_of(Builtin::Host)) ==> match r {
                Ok(Some(h)) => host_result(self.values_of(key_of(Builtin::Host)), Ok(h)),
                Err(HeaderParseError::Host(e)) => host_result(self.values_of(key_of(Builtin::Host)), Err(e)),
                _ => false,
            },
    {
        match self.get(&HeaderName::Builtin(Builtin::Host)) {
            Some(v) => match HostWithPort::from_header_value(v) {
                Ok(h) => Ok(Some(h)),
                Err(e) => Err(HeaderParseError::Host(e)),
            },
            None => Ok(None),
        }
    }

    /// The `Content-Length` field, if present: a list of equal numerals.
    pub fn get_content_length(&self) -> (r: Result<Option<u64>, HeaderParseError>)
        ensures
            !self.has(key_of(Builtin::ContentLength)) ==> r matches Ok(None),
            self.has(key_of(Builtin::ContentLength)) ==> match crate::parser::content_length_spec(
                crate::header::joined(self.values_of(key_of(Builtin::ContentLength))),
            ) {
                Ok(n) => r == Ok::<Option<u64>, HeaderParseError>(Some(n)),
                Err(k) => r == Err::<Option<u64>, HeaderParseError>(HeaderParseError::ContentLength(k)),
            },
    {
        match self.get(&HeaderName::Builtin(Builtin::ContentLength)) {
            Some(v) => {
                let j = v.collect();
                match crate::parser::content_length_value(j.as_slice()) {
                    Ok(n) => Ok(Some(n)),
                    Err(k) => Err(HeaderParseError::ContentLength(k)),
                }
            },
            None => Ok(None),
        }
    }
}

impl HostWithPort {
    /// Reads the `Host` field, which must occur exactly once.
    pub fn from_header_value(value: &HeaderValue) -> (r: Result<HostWithPort, HostParseError>)
        ensures
            host_result(value.view(), r),
    {
        if value.len() != 1 {
            return Err(HostParseError::DuplicateHeader);
        }
        let v = value.get(0);
        let vlen = v.len();
        proof {
            lemma_last_of(v@, COLON);
        }
        if let Some(c) = find_last(v, COLON) {
            let port = &v[c + 1..vlen];
            let mut all = true;
            let mut i: usize = 0;
            while i < port.len()
                invariant
                    i <= port@.len(),
                    all == forall|j: int| 0 <= j < i ==> digit(#[trigger] port@[j]),
                decreases port@.len() - i,
            {
                if port[i] < 48 || port[i] > 57 {
                    all = false;
                }
                i += 1;
            }
            if all {
                if port.len() == 0 {
                    return Err(HostParseError::InvalidPort);
                }
                let p = match parse_decimal(port) {
                    Some(p) => p,
                    None => return Err(HostParseError::InvalidPort),
                };
                if p > 65535 {
                    return Err(HostParseError::InvalidPort);
                }
                return match parse_host(&v[0..c]) {
                    Ok(host) => Ok(HostWithPort { host, port: Some(p as u16) }),
                    Err(e) => Err(e),
                };
            }
        }
        match parse_host(v) {
            Ok(host) => Ok(HostWithPort { host, port: None }),
            Err(e) => Err(e),
        }
    }
}

} // verus!
