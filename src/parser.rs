//! The request parser: start line, header fields and body framing (RFC 9112), over the bytes
//! received so far on a connection.

use crate::config::HttpServerConfig;
use crate::error::{HttpParseError, LimitKind, Location, ParseErrorKind};
use crate::scan::{
    all_tchar, find_byte, first_of, is_ows, is_tchar, ows, tchar, trim_end, trim_start, word_end,
    ReaderLine, COLON, CR, LF,
};
use crate::header::{builtin_name, eq_ignore_case, joined, lower_seq, name_bytes, name_key, Builtin, HeaderMap, HeaderName};
use crate::num::{all_digits, dec_value, parse_decimal};
use crate::uri::hex_value;
use crate::header::append_bytes;
use crate::version::{parse_version, HttpVersion};
use crate::method::{method_bytes, method_of, Method};
use crate::request::{body_bytes, Body, Request};
use vstd::slice::slice_to_vec;
use std::ops::Range;
use vstd::prelude::*;

verus! {

/// The line that starts at `p`: its start, the end of its content (before `\r\n` or `\n`),
/// and the index just past its `\n`; `None` while no `\n` has arrived.
pub open spec fn line_at(buf: Seq<u8>, p: int) -> Option<(usize, usize, usize)> {
    match first_of(buf.subrange(p, buf.len() as int), LF) {
        None => None,
        Some(i) => {
            let nl = p + i;
            let end = if i > 0 && buf[nl - 1] == CR {
                nl - 1
            } else {
                nl
            };
            Some((p as usize, end as usize, (nl + 1) as usize))
        },
    }
}

/// Finds the line that starts at `p`.
pub fn get_line(buf: &[u8], p: usize) -> (r: Option<(usize, usize, usize)>)
    requires
        p <= buf@.len(),
    ensures
        r == line_at(buf@, p as int),
        r matches Some((s, e, n)) ==> s == p && p <= e < n <= buf@.len(),
{
    let rest = &buf[p..buf.len()];
    match find_byte(LF, rest) {
        None => None,
        Some(i) => {
            let nl = p + i;
            let end = if i > 0 && buf[nl - 1] == CR {
                nl - 1
            } else {
                nl
            };
            Some((p, end, nl + 1))
        },
    }
}

/// An error record with the given parts.
pub open spec fn err_at(
    kind: ParseErrorKind,
    location: Location,
    offset: int,
    line: Option<usize>,
) -> HttpParseError {
    HttpParseError { kind, location, offset: offset as usize, line }
}

/// An error record with the given parts.
pub fn parse_error(
    kind: ParseErrorKind,
    location: Location,
    offset: usize,
    line: Option<usize>,
) -> (r: HttpParseError)
    ensures
        r == err_at(kind, location, offset as int, line),
{
    HttpParseError { kind, location, offset, line }
}

/// The error for a limit that was exceeded.
pub fn limit_error(what: LimitKind, limit: usize, actual: usize, location: Location, offset: usize) -> (r: HttpParseError)
    ensures
        r == too_large(what, limit, actual as int, location, offset as int),
{
    HttpParseError { kind: ParseErrorKind::TooLarge { what, limit, actual }, location, offset, line: None }
}

/// The next word of `buf[s..e]`: its range and where the rest of the line starts.
pub open spec fn next_word_spec(buf: Seq<u8>, s: int, e: int) -> Option<(int, int, int)> {
    if s >= e {
        None
    } else {
        let w = word_end(buf, s, e);
        Some((s, w, if w < e { w + 1 } else { w }))
    }
}

/// The parts of a request line: the method and target as ranges of the buffer, and the version.
#[derive(Debug)]
pub struct RequestLine {
    pub method: Range<usize>,
    pub target: Range<usize>,
    pub version: HttpVersion,
}

/// The request line `method SP target SP version` in `buf[s..e]`.
pub open spec fn request_line_spec(buf: Seq<u8>, s: int, e: int) -> Result<RequestLine, HttpParseError> {
    let malformed = |o: int| err_at(
        ParseErrorKind::MalformedHeaderLine,
        Location::StartLine,
        o,
        Some(1usize),
    );
    match next_word_spec(buf, s, e) {
        None => Err(malformed(s)),
        Some((ms, me, s1)) => match next_word_spec(buf, s1, e) {
            None => Err(malformed(s1)),
            Some((ts, te, s2)) => match next_word_spec(buf, s2, e) {
                None => Err(malformed(s2)),
                Some((vs, ve, s3)) => if me == ms || !all_tchar(buf.subrange(ms, me)) {
                    Err(err_at(
                        ParseErrorKind::InvalidMethod,
                        Location::StartLine,
                        ms,
                        Some(1usize),
                    ))
                } else if te == ts {
                    Err(err_at(
                        ParseErrorKind::InvalidTarget,
                        Location::StartLine,
                        ts,
                        Some(1usize),
                    ))
                } else {
                    match parse_version(buf.subrange(vs, ve)) {
                        None => Err(err_at(
                            ParseErrorKind::InvalidVersion,
                            Location::StartLine,
                            vs,
                            Some(1usize),
                        )),
                        Some((major, minor)) => if s3 < e {
                            Err(err_at(
                                ParseErrorKind::InvalidVersion,
                                Location::StartLine,
                                s3,
                                Some(1usize),
                            ))
                        } else if !(major == 1 && (minor == 0 || minor == 1)) {
                            Err(err_at(
                                ParseErrorKind::VersionNotSupported,
                                Location::StartLine,
                                vs,
                                Some(1usize),
                            ))
                        } else {
                            Ok(
                                RequestLine {
                                    method: Range { start: ms as usize, end: me as usize },
                                    target: Range { start: ts as usize, end: te as usize },
                                    version: HttpVersion { major, minor },
                                },
                            )
                        },
                    }
                },
            },
        },
    }
}

/// The parts of a status line: the version, the status code, and the reason phrase as a range
/// of the buffer.
#[derive(Debug)]
pub struct ResponseLine {
    pub version: HttpVersion,
    pub status_code: u32,
    pub reason_phrase: Option<Range<usize>>,
}

/// Every byte of `s` satisfies `tchar`, checked.
pub fn check_tchar(s: &[u8]) -> (r: bool)
    ensures
        r == all_tchar(s@),
{
    let mut i: usize = 0;
    while i < s.len()
        invariant
            i <= s@.len(),
            forall|j: int| 0 <= j < i ==> tchar(#[trigger] s@[j]),
        decreases s@.len() - i,
    {
        if !is_tchar(s[i]) {
            return false;
        }
        i += 1;
    }
    true
}

/// Parses the request line held in `buf[s..e]`.
pub fn parse_request_line(buf: &[u8], s: usize, e: usize) -> (r: Result<RequestLine, HttpParseError>)
    requires
        s <= e <= buf@.len(),
    ensures
        r == request_line_spec(buf@, s as int, e as int),
        r matches Ok(rl) ==> s <= rl.method.start <= rl.method.end <= rl.target.start
            <= rl.target.end <= e,
{
    let mut line = ReaderLine::new(buf, s, e);
    let ghost b = buf@;
    proof {
        if s < e {
            crate::scan::lemma_word_end(b, s as int, e as int);
        }
    }
    let m = match line.next_word() {
        Some(m) => m,
        None => return Err(parse_error(
            ParseErrorKind::MalformedHeaderLine,
            Location::StartLine,
            line.line_start,
            Some(1),
        )),
    };
    let s1 = line.line_start;
    proof {
        if s1 < e {
            crate::scan::lemma_word_end(b, s1 as int, e as int);
        }
    }
    let t = match line.next_word() {
        Some(t) => t,
        None => return Err(parse_error(
            ParseErrorKind::MalformedHeaderLine,
            Location::StartLine,
            line.line_start,
            Some(1),
        )),
    };
    let s2 = line.line_start;
    proof {
        if s2 < e {
            crate::scan::lemma_word_end(b, s2 as int, e as int);
        }
    }
    let v = match line.next_word() {
        Some(v) => v,
        None => return Err(parse_error(
            ParseErrorKind::MalformedHeaderLine,
            Location::StartLine,
            line.line_start,
            Some(1),
        )),
    };
    if m.end == m.start || !check_tchar(&buf[m.start..m.end]) {
        return Err(parse_error(
            ParseErrorKind::InvalidMethod,
            Location::StartLine,
            m.start,
            Some(1),
        ));
    }
    if t.end == t.start {
        return Err(parse_error(
            ParseErrorKind::InvalidTarget,
            Location::StartLine,
            t.start,
            Some(1),
        ));
    }
    let version = match HttpVersion::from_bytes(&buf[v.start..v.end]) {
        Ok(version) => version,
        Err(_) => return Err(parse_error(
            ParseErrorKind::InvalidVersion,
            Location::StartLine,
            v.start,
            Some(1),
        )),
    };
    if !line.is_empty() {
        return Err(parse_error(
            ParseErrorKind::InvalidVersion,
            Location::StartLine,
            line.line_start,
            Some(1),
        ));
    }
    if !(version.major == 1 && (version.minor == 0 || version.minor == 1)) {
        return Err(parse_error(
            ParseErrorKind::VersionNotSupported,
            Location::StartLine,
            v.start,
            Some(1),
        ));
    }
    Ok(RequestLine { method: m, target: t, version })
}


/// A carriage return or line feed occurs in `s`.
pub open spec fn has_cr_or_lf(s: Seq<u8>) -> bool {
    exists|j: int| 0 <= j < s.len() && (s[j] == CR || s[j] == LF)
}

/// The name and value of a header line, as ranges of the buffer.
#[derive(Debug)]
pub struct HeaderLine {
    pub name: Range<usize>,
    pub value: Range<usize>,
}

/// The header line `name ":" OWS value OWS` in `buf[s..e]` (non-empty).
pub open spec fn header_line_spec(buf: Seq<u8>, s: int, e: int) -> Result<HeaderLine, HttpParseError> {
    if ows(buf[s]) {
        Err(err_at(ParseErrorKind::MalformedHeaderLine, Location::Headers, s, None))
    } else {
        match first_of(buf.subrange(s, e), COLON) {
            None => Err(err_at(ParseErrorKind::MalformedHeaderLine, Location::Headers, s, None)),
            Some(i) => {
                let c = s + i;
                if c == s || !all_tchar(buf.subrange(s, c)) {
                    Err(err_at(ParseErrorKind::InvalidHeaderName, Location::Headers, s, None))
                } else {
                    let vs = trim_start(buf, c + 1, e);
                    let ve = trim_end(buf, vs, e);
                    if has_cr_or_lf(buf.subrange(vs, ve)) {
                        Err(err_at(ParseErrorKind::InvalidHeaderValue, Location::Headers, vs, None))
                    } else {
                        Ok(
                            HeaderLine {
                                name: Range { start: s as usize, end: c as usize },
                                value: Range { start: vs as usize, end: ve as usize },
                            },
                        )
                    }
                }
            },
        }
    }
}

pub proof fn lemma_trim_bounds(buf: Seq<u8>, s: int, e: int)
    requires
        s <= e,
    ensures
        s <= trim_start(buf, s, e) <= e,
        forall|v: int| s <= v <= e ==> v <= #[trigger] trim_end(buf, v, e) <= e,
    decreases e - s,
{
    if s < e && ows(buf[s]) {
        lemma_trim_bounds(buf, s + 1, e);
    }
    assert forall|v: int| s <= v <= e implies v <= #[trigger] trim_end(buf, v, e) <= e by {
        lemma_trim_end_bounds(buf, v, e);
    }
}

pub proof fn lemma_trim_end_bounds(buf: Seq<u8>, v: int, e: int)
    requires
        v <= e,
    ensures
        v <= trim_end(buf, v, e) <= e,
    decreases e - v,
{
    if e > v && ows(buf[e - 1]) {
        lemma_trim_end_bounds(buf, v, e - 1);
    }
}

/// Parses the header line held in `buf[s..e]`.
#[verifier::loop_isolation(false)]
pub fn parse_header_line(buf: &[u8], s: usize, e: usize) -> (r: Result<HeaderLine, HttpParseError>)
    requires
        s < e <= buf@.len(),
    ensures
        r == header_line_spec(buf@, s as int, e as int),
        r matches Ok(h) ==> h.name.start <= h.name.end <= h.value.start <= h.value.end <= e,
        r matches Ok(h) ==> h.name.start < h.name.end && all_tchar(buf@.subrange(h.name.start as int, h.name.end as int)),
{
    if is_ows(buf[s]) {
        return Err(parse_error(ParseErrorKind::MalformedHeaderLine, Location::Headers, s, None));
    }
    let mut line = ReaderLine::new(buf, s, e);
    proof {
        crate::scan::lemma_find_from(buf@.subrange(s as int, e as int), 0, COLON);
    }
    let name = match line.next(COLON) {
        Some(name) => name,
        None => return Err(parse_error(
            ParseErrorKind::MalformedHeaderLine,
            Location::Headers,
            s,
            None,
        )),
    };
    if name.end == name.start || !check_tchar(&buf[name.start..name.end]) {
        return Err(parse_error(ParseErrorKind::InvalidHeaderName, Location::Headers, s, None));
    }
    let value = line.trim();
    proof {
        lemma_trim_bounds(buf@, line.line_start as int, e as int);
    }
    let mut i: usize = value.start;
    while i < value.end
        invariant
            value.start <= i <= value.end <= buf@.len(),
            forall|j: int| value.start <= j < i ==> buf@[j] != CR && buf@[j] != LF,
        decreases value.end - i,
    {
        if buf[i] == CR || buf[i] == LF {
            proof {
                let v = buf@.subrange(value.start as int, value.end as int);
                assert(v[i - value.start] == buf@[i as int]);
                assert(has_cr_or_lf(v));
            }
            return Err(parse_error(
                ParseErrorKind::InvalidHeaderValue,
                Location::Headers,
                value.start,
                None,
            ));
        }
        i += 1;
    }
    proof {
        let v = buf@.subrange(value.start as int, value.end as int);
        assert forall|j: int| 0 <= j < v.len() implies !(v[j] == CR || v[j] == LF) by {
            assert(v[j] == buf@[value.start + j]);
        }
    }
    Ok(HeaderLine { name, value })
}


/// The header fields as they arrived: name and value bytes of each line.
pub type WireHeaders = Seq<(Seq<u8>, Seq<u8>)>;

/// The values, in arrival order, of the fields whose lowercased name is `k`.
pub open spec fn wire_values(hs: WireHeaders, k: Seq<u8>) -> Seq<Seq<u8>>
    decreases hs.len(),
{
    if hs.len() == 0 {
        Seq::empty()
    } else if lower_seq(hs.last().0) == k {
        wire_values(hs.drop_last(), k).push(hs.last().1)
    } else {
        wire_values(hs.drop_last(), k)
    }
}

/// Every name in `m` is spelled as a token.
pub open spec fn token_names(m: HeaderMap) -> bool {
    forall|i: int| 0 <= i < m.entries@.len() ==> name_bytes((#[trigger] m.entries@[i]).0).len() > 0
        && all_tchar(name_bytes(m.entries@[i].0))
}

/// `m` holds exactly the fields of `hs`, each name once, its values in arrival order.
pub open spec fn map_models(m: HeaderMap, hs: WireHeaders) -> bool {
    &&& m.wf()
    &&& token_names(m)
    &&& forall|k: Seq<u8>| #[trigger] m.values_of(k) == wire_values(hs, k)
    &&& forall|k: Seq<u8>| #[trigger] m.has(k) == (wire_values(hs, k).len() > 0)
}

/// Where reading the header block stands.
pub enum HeadersStep {
    /// The empty line was read: the fields, and the index just past that line.
    Done(WireHeaders, int),
    NeedMore,
    Fail(HttpParseError),
}

pub open spec fn too_large(
    what: LimitKind,
    limit: usize,
    actual: int,
    location: Location,
    offset: int,
) -> HttpParseError {
    err_at(
        ParseErrorKind::TooLarge { what, limit, actual: actual as usize },
        location,
        offset,
        None,
    )
}

/// The error `e`, reported at header line `count + 2` (the start line is line 1).
pub open spec fn on_line(e: HttpParseError, count: int) -> HttpParseError {
    HttpParseError { line: Some(sat(count + 2)), ..e }
}

/// Reports `e` at header line `count + 2`.
pub fn with_line(e: HttpParseError, count: usize) -> (r: HttpParseError)
    ensures
        r == on_line(e, count as int),
{
    let line: usize = if count < usize::MAX - 1 { count + 2 } else { usize::MAX };
    HttpParseError { line: Some(line), ..e }
}

/// Reads header lines from `p` up to the empty line. `hs` is where the header block began,
/// `count` the number of fields read so far and `acc` the fields themselves.
pub open spec fn headers_spec(buf: Seq<u8>, cfg: HttpServerConfig, hs: int, p: int, count: int, acc: WireHeaders) -> HeadersStep
    decreases buf.len() - p,
{
    if p > buf.len() {
        HeadersStep::NeedMore
    } else {
        match line_at(buf, p) {
            None => if buf.len() - p > cfg.max_header_line_bytes {
                HeadersStep::Fail(on_line(too_large(
                    LimitKind::HeaderLineBytes,
                    cfg.max_header_line_bytes,
                    buf.len() - p,
                    Location::Headers,
                    p,
                ), count))
            } else if buf.len() - hs > cfg.max_header_bytes_total {
                HeadersStep::Fail(on_line(too_large(
                    LimitKind::HeaderBytesTotal,
                    cfg.max_header_bytes_total,
                    buf.len() - hs,
                    Location::Headers,
                    p,
                ), count))
            } else {
                HeadersStep::NeedMore
            },
            Some((s, e, n)) => if n - hs > cfg.max_header_bytes_total {
                HeadersStep::Fail(on_line(too_large(
                    LimitKind::HeaderBytesTotal,
                    cfg.max_header_bytes_total,
                    n - hs,
                    Location::Headers,
                    s as int,
                ), count))
            } else if e == s {
                HeadersStep::Done(acc, n as int)
            } else if e - s > cfg.max_header_line_bytes {
                HeadersStep::Fail(on_line(too_large(
                    LimitKind::HeaderLineBytes,
                    cfg.max_header_line_bytes,
                    e - s,
                    Location::Headers,
                    s as int,
                ), count))
            } else if count + 1 > cfg.max_header_count {
                HeadersStep::Fail(on_line(too_large(
                    LimitKind::HeaderCount,
                    cfg.max_header_count,
                    count + 1,
                    Location::Headers,
                    s as int,
                ), count))
            } else {
                match header_line_spec(buf, s as int, e as int) {
                    Err(x) => HeadersStep::Fail(on_line(x, count)),
                    Ok(h) => {
                        if n <= p || n > buf.len() {
                            HeadersStep::NeedMore
                        } else {
                            headers_spec(buf, cfg, hs, n as int, count + 1, acc.push((
                                buf.subrange(h.name.start as int, h.name.end as int),
                                buf.subrange(h.value.start as int, h.value.end as int),
                            )))
                        }
                    },
                }
            },
        }
    }
}

/// Reads the header block that starts at `hs`: the header map and the index just past the
/// empty line; `Ok(None)` while the block is incomplete.
pub fn parse_headers(buf: &[u8], cfg: &HttpServerConfig, hs: usize) -> (r: Result<Option<(HeaderMap, usize)>, HttpParseError>)
    requires
        hs <= buf@.len(),
    ensures
        match (r, headers_spec(buf@, *cfg, hs as int, hs as int, 0, Seq::empty())) {
            (Ok(Some((m, end))), HeadersStep::Done(acc, e)) => end == e && map_models(m, acc) && hs < end <= buf@.len(),
            (Ok(None), HeadersStep::NeedMore) => true,
            (Err(x), HeadersStep::Fail(y)) => x == y,
            _ => false,
        },
{
    let mut map = HeaderMap::new();
    let mut p: usize = hs;
    let mut count: usize = 0;
    let ghost mut acc: WireHeaders = Seq::empty();
    proof {
        assert forall|k: Seq<u8>| #[trigger] wire_values(acc, k) == Seq::<Seq<u8>>::empty() by {}
    }
    loop
        invariant
            hs <= p <= buf@.len(),
            count <= p - hs,
            map_models(map, acc),
            headers_spec(buf@, *cfg, hs as int, p as int, count as int, acc) == headers_spec(buf@, *cfg, hs as int, hs as int, 0, Seq::empty()),
        decreases buf@.len() - p,
    {
        let (s, e, n) = match get_line(buf, p) {
            Some(l) => l,
            None => {
                if buf.len() - p > cfg.max_header_line_bytes {
                    return Err(with_line(limit_error(LimitKind::HeaderLineBytes, cfg.max_header_line_bytes, buf.len() - p, Location::Headers, p), count));
                }
                if buf.len() - hs > cfg.max_header_bytes_total {
                    return Err(with_line(limit_error(LimitKind::HeaderBytesTotal, cfg.max_header_bytes_total, buf.len() - hs, Location::Headers, p), count));
                }
                return Ok(None);
            },
        };
        if n - hs > cfg.max_header_bytes_total {
            return Err(with_line(limit_error(LimitKind::HeaderBytesTotal, cfg.max_header_bytes_total, n - hs, Location::Headers, s), count));
        }
        if e == s {
            return Ok(Some((map, n)));
        }
        if e - s > cfg.max_header_line_bytes {
            return Err(with_line(limit_error(LimitKind::HeaderLineBytes, cfg.max_header_line_bytes, e - s, Location::Headers, s), count));
        }
        if count >= cfg.max_header_count {
            return Err(with_line(limit_error(LimitKind::HeaderCount, cfg.max_header_count, count + 1, Location::Headers, s), count));
        }
        let h = match parse_header_line(buf, s, e) {
            Ok(h) => h,
            Err(x) => return Err(with_line(x, count)),
        };
        let name = HeaderName::from_bytes(&buf[h.name.start..h.name.end]);
        let value = slice_to_vec(&buf[h.value.start..h.value.end]);
        let ghost pair = (buf@.subrange(h.name.start as int, h.name.end as int), buf@.subrange(h.value.start as int, h.value.end as int));
        let ghost old_map = map;
        map.append(name, value);
        proof {
            assert forall|i: int| 0 <= i < map.entries@.len() implies name_bytes((#[trigger] map.entries@[i]).0).len() > 0
                && all_tchar(name_bytes(map.entries@[i].0)) by {
                if i < old_map.entries@.len() {
                    assert(map.entries@[i].0 == old_map.entries@[i].0);
                } else {
                    assert(map.entries@[i].0 == name);
                    if let HeaderName::Builtin(b) = name {
                        crate::header::lemma_builtin_name_tchar(b);
                    }
                }
            }
            let nacc = acc.push(pair);
            assert(nacc.drop_last() =~= acc);
            assert forall|k: Seq<u8>| #[trigger] map.values_of(k) == wire_values(nacc, k) by {}
            assert forall|k: Seq<u8>| #[trigger] map.has(k) == (wire_values(nacc, k).len() > 0) by {
                assert(map.values_of(k) == wire_values(nacc, k));
                assert(old_map.values_of(k) == wire_values(acc, k));
                if old_map.has(k) {
                    crate::header::lemma_key_index(old_map.keys(), 0, k);
                }
            }
            acc = nacc;
        }
        p = n;
        count = count + 1;
    }
}


pub const COMMA: u8 = 44;

/// `s[a..b]` without leading and trailing spaces and tabs.
pub open spec fn trimmed(s: Seq<u8>, a: int, b: int) -> Seq<u8> {
    let x = trim_start(s, a, b);
    s.subrange(x, trim_end(s, x, b))
}

/// The items of the comma-separated list `s[p..]`, each trimmed of spaces and tabs.
pub open spec fn items_from(s: Seq<u8>, p: int) -> Seq<Seq<u8>>
    decreases s.len() - p,
{
    if p < 0 || p > s.len() {
        Seq::empty()
    } else {
        match first_of(s.subrange(p, s.len() as int), COMMA) {
            None => seq![trimmed(s, p, s.len() as int)],
            Some(i) => if i < 0 || p + i >= s.len() {
                Seq::empty()
            } else {
                seq![trimmed(s, p, p + i)] + items_from(s, p + i + 1)
            },
        }
    }
}

/// The items of a comma-separated list.
pub open spec fn list_items(s: Seq<u8>) -> Seq<Seq<u8>> {
    items_from(s, 0)
}

/// A numeral of decimal digits that fits in 64 bits.
pub open spec fn valid_length(p: Seq<u8>) -> bool {
    p.len() > 0 && all_digits(p) && dec_value(p) <= u64::MAX
}

/// The value of a `Content-Length` field: a list of equal numerals.
pub open spec fn content_length_spec(s: Seq<u8>) -> Result<u64, ParseErrorKind> {
    let items = list_items(s);
    if exists|i: int| 0 <= i < items.len() && !valid_length(#[trigger] items[i]) {
        Err(ParseErrorKind::InvalidContentLength)
    } else if exists|i: int| 0 <= i < items.len() && dec_value(#[trigger] items[i]) != dec_value(items[0]) {
        Err(ParseErrorKind::ConflictingContentLength)
    } else {
        Ok(dec_value(items[0]) as u64)
    }
}

/// The end of the current list item and where the next begins; `last` for the final item.
pub fn item_end(s: &[u8], p: usize) -> (r: (usize, usize, bool))
    requires
        p <= s@.len(),
    ensures
        p <= r.0 <= s@.len(),
        match first_of(s@.subrange(p as int, s@.len() as int), COMMA) {
            None => r.0 == s@.len() && r.1 == s@.len() && r.2,
            Some(i) => !r.2 && r.0 == p + i && r.1 == p + i + 1 && p + i < s@.len(),
        },
{
    proof {
        crate::scan::lemma_find_from(s@.subrange(p as int, s@.len() as int), 0, COMMA);
    }
    match find_byte(COMMA, &s[p..s.len()]) {
        Some(i) => (p + i, p + i + 1, false),
        None => (s.len(), s.len(), true),
    }
}

pub proof fn lemma_items_from(s: Seq<u8>, p: int)
    requires
        0 <= p <= s.len(),
    ensures
        items_from(s, p).len() >= 1,
    decreases s.len() - p,
{
    crate::scan::lemma_find_from(s.subrange(p, s.len() as int), 0, COMMA);
    match first_of(s.subrange(p, s.len() as int), COMMA) {
        None => {},
        Some(i) => {
            lemma_items_from(s, p + i + 1);
        },
    }
}

/// Reads the value of a `Content-Length` field.
pub fn content_length_value(s: &[u8]) -> (r: Result<u64, ParseErrorKind>)
    ensures
        r == content_length_spec(s@),
{
    let mut p: usize = 0;
    let mut first: u64 = 0;
    let mut conflict = false;
    let mut has_first = false;
    let ghost mut done: Seq<Seq<u8>> = Seq::empty();
    proof {
        lemma_items_from(s@, 0);
    }
    loop
        invariant
            p <= s@.len(),
            list_items(s@) == done + items_from(s@, p as int),
            items_from(s@, p as int).len() >= 1,
            forall|j: int| 0 <= j < done.len() ==> valid_length(#[trigger] done[j]),
            has_first == (done.len() > 0),
            done.len() > 0 ==> first == dec_value(done[0]),
            conflict == exists|j: int| 0 <= j < done.len() && dec_value(#[trigger] done[j]) != first,
        decreases s@.len() - p,
    {
        let (end, next, last) = item_end(s, p);
        let t = ReaderLine::new(s, p, end).trim();
        proof {
            lemma_trim_bounds(s@, p as int, end as int);
        }
        let item = &s[t.start..t.end];
        let ghost cur = trimmed(s@, p as int, end as int);
        proof {
            assert(item@ == cur);
            match first_of(s@.subrange(p as int, s@.len() as int), COMMA) {
                None => {
                    assert(end == s@.len());
                    assert(cur == trimmed(s@, p as int, s@.len() as int));
                    assert(items_from(s@, p as int) == seq![cur]);
                },
                Some(i) => {
                    assert(items_from(s@, p as int) == seq![cur] + items_from(s@, p + i + 1));
                },
            }
            assert(items_from(s@, p as int)[0] == cur);
        }
        let v = match parse_decimal(item) {
            Some(v) => v,
            None => {
                proof {
                    let items = list_items(s@);
                    assert(items[done.len() as int] == cur);
                    assert(!valid_length(items[done.len() as int]));
                }
                return Err(ParseErrorKind::InvalidContentLength);
            },
        };
        let ghost old_done = done;
        if !has_first {
            first = v;
            has_first = true;
        }
        if v != first {
            conflict = true;
        }
        proof {
            done = done.push(cur);
            assert forall|j: int| 0 <= j < done.len() implies valid_length(#[trigger] done[j]) by {
                if j < old_done.len() {
                    assert(done[j] == old_done[j]);
                }
            }
            if old_done.len() > 0 {
                assert(done[0] == old_done[0]);
            }
            if conflict {
                if v != first {
                    assert(dec_value(done[old_done.len() as int]) != first);
                } else {
                    let j = choose|j: int| 0 <= j < old_done.len() && dec_value(#[trigger] old_done[j]) != first;
                    assert(done[j] == old_done[j]);
                }
            } else {
                assert forall|j: int| 0 <= j < done.len() implies !(dec_value(#[trigger] done[j]) != first) by {
                    if j < old_done.len() {
                        assert(done[j] == old_done[j]);
                    }
                }
            }
        }
        if last {
            proof {
                let items = list_items(s@);
                assert(items =~= done);
                assert(items[0] == done[0]);
                if conflict {
                    let j = choose|j: int| 0 <= j < done.len() && dec_value(#[trigger] done[j]) != first;
                    assert(dec_value(items[j]) != dec_value(items[0]));
                } else {
                    assert forall|i: int| 0 <= i < items.len() implies !(dec_value(#[trigger] items[i]) != dec_value(items[0])) by {
                        assert(items[i] == done[i]);
                    }
                }
                assert forall|i: int| 0 <= i < items.len() implies valid_length(#[trigger] items[i]) by {
                    assert(items[i] == done[i]);
                }
            }
            if conflict {
                return Err(ParseErrorKind::ConflictingContentLength);
            }
            return Ok(first);
        }
        proof {
            let rest = items_from(s@, next as int);
            assert(items_from(s@, p as int) == seq![cur] + rest);
            assert(done + rest =~= old_done + (seq![cur] + rest));
            lemma_items_from(s@, next as int);
        }
        p = next;
    }
}


/// The bytes `chunked`.
pub open spec fn chunked_bytes() -> Seq<u8> {
    seq![99u8, 104u8, 117u8, 110u8, 107u8, 101u8, 100u8]
}

/// The last coding of a `Transfer-Encoding` list is `chunked`, in any case.
pub open spec fn ends_chunked(s: Seq<u8>) -> bool {
    lower_seq(list_items(s).last()) == lower_seq(chunked_bytes())
}

/// Whether the last item of the list `s` is `chunked`, in any case.
pub fn last_item_is_chunked(s: &[u8]) -> (r: bool)
    ensures
        r == ends_chunked(s@),
{
    let mut p: usize = 0;
    let ghost mut done: Seq<Seq<u8>> = Seq::empty();
    proof {
        lemma_items_from(s@, 0);
    }
    loop
        invariant
            p <= s@.len(),
            list_items(s@) == done + items_from(s@, p as int),
            items_from(s@, p as int).len() >= 1,
        decreases s@.len() - p,
    {
        let (end, next, last) = item_end(s, p);
        let ghost cur = trimmed(s@, p as int, end as int);
        proof {
            match first_of(s@.subrange(p as int, s@.len() as int), COMMA) {
                None => {
                    assert(items_from(s@, p as int) == seq![cur]);
                },
                Some(i) => {
                    assert(items_from(s@, p as int) == seq![cur] + items_from(s@, p + i + 1));
                },
            }
        }
        if last {
            let t = ReaderLine::new(s, p, end).trim();
            proof {
                lemma_trim_bounds(s@, p as int, end as int);
                assert(list_items(s@).last() == cur);
            }
            let chunked: Vec<u8> = vec![99, 104, 117, 110, 107, 101, 100];
            proof {
                assert(chunked@ =~= chunked_bytes());
            }
            return eq_ignore_case(&s[t.start..t.end], chunked.as_slice());
        }
        proof {
            let rest = items_from(s@, next as int);
            assert(done.push(cur) + rest =~= done + (seq![cur] + rest));
            done = done.push(cur);
            lemma_items_from(s@, next as int);
        }
        p = next;
    }
}

/// How the body of a request is delimited.
#[derive(Debug, Clone, Copy, PartialEq, Eq, Structural)]
pub enum Framing {
    NoBody,
    Length(u64),
    Chunked,
}

/// The key under which a known header name is looked up.
pub open spec fn key_of(b: Builtin) -> Seq<u8> {
    lower_seq(builtin_name(b))
}

/// The framing of a request whose fields are `vals` (values by key), in the order of checks:
/// `Host` is required on HTTP/1.1; `Transfer-Encoding` must end in `chunked` and excludes
/// `Content-Length`; `Content-Length` must be a list of equal numerals; `Host`,
/// `Content-Length` and `Content-Type` may occur once.
pub open spec fn framing_spec(vals: spec_fn(Seq<u8>) -> Seq<Seq<u8>>, version: HttpVersion) -> Result<Framing, ParseErrorKind> {
    let host = vals(key_of(Builtin::Host));
    let te = vals(key_of(Builtin::TransferEncoding));
    let cl = vals(key_of(Builtin::ContentLength));
    let ct = vals(key_of(Builtin::ContentType));
    if version == (HttpVersion { major: 1, minor: 1 }) && host.len() == 0 {
        Err(ParseErrorKind::MissingRequiredHeader)
    } else {
        let f = if te.len() > 0 {
            if !ends_chunked(joined(te)) {
                Err(ParseErrorKind::InvalidTransferEncoding)
            } else if cl.len() > 0 {
                Err(ParseErrorKind::ConflictingContentLength)
            } else {
                Ok(Framing::Chunked)
            }
        } else if cl.len() > 0 {
            match content_length_spec(joined(cl)) {
                Ok(n) => Ok(Framing::Length(n)),
                Err(k) => Err(k),
            }
        } else {
            Ok(Framing::NoBody)
        };
        match f {
            Err(k) => Err(k),
            Ok(fr) => if host.len() > 1 || cl.len() > 1 || ct.len() > 1 {
                Err(ParseErrorKind::DuplicateHeader)
            } else {
                Ok(fr)
            },
        }
    }
}

/// The number of values of a known field and the values joined with `", "`.
fn field_values(map: &HeaderMap, b: Builtin) -> (r: (usize, Vec<u8>))
    ensures
        r.0 == map.values_of(key_of(b)).len(),
        r.1@ == joined(map.values_of(key_of(b))),
{
    let name = HeaderName::Builtin(b);
    match map.get(&name) {
        Some(v) => (v.len(), v.collect()),
        None => {
            proof {
                assert(map.values_of(key_of(b)) =~= Seq::<Seq<u8>>::empty());
            }
            (0, Vec::new())
        },
    }
}

/// Decides how the body of a request with these header fields is delimited.
pub fn framing(map: &HeaderMap, version: HttpVersion) -> (r: Result<Framing, ParseErrorKind>)
    ensures
        r == framing_spec(|k: Seq<u8>| map.values_of(k), version),
{
    let (host, _) = field_values(map, Builtin::Host);
    let (te, te_joined) = field_values(map, Builtin::TransferEncoding);
    let (cl, cl_joined) = field_values(map, Builtin::ContentLength);
    let (ct, _) = field_values(map, Builtin::ContentType);
    if version.major == 1 && version.minor == 1 && host == 0 {
        return Err(ParseErrorKind::MissingRequiredHeader);
    }
    let f = if te > 0 {
        if !last_item_is_chunked(te_joined.as_slice()) {
            return Err(ParseErrorKind::InvalidTransferEncoding);
        } else if cl > 0 {
            return Err(ParseErrorKind::ConflictingContentLength);
        } else {
            Framing::Chunked
        }
    } else if cl > 0 {
        match content_length_value(cl_joined.as_slice()) {
            Ok(n) => Framing::Length(n),
            Err(k) => return Err(k),
        }
    } else {
        Framing::NoBody
    };
    if host > 1 || cl > 1 || ct > 1 {
        return Err(ParseErrorKind::DuplicateHeader);
    }
    Ok(f)
}


pub const SEMICOLON: u8 = 59;
pub const EQUALS: u8 = 61;

/// The end of the run of hexadecimal digits that starts at `s`, within `buf[s..e]`.
pub open spec fn hex_end(buf: Seq<u8>, s: int, e: int) -> int
    decreases e - s,
{
    if s >= e {
        e
    } else if hex_value(buf[s]) is Some {
        hex_end(buf, s + 1, e)
    } else {
        s
    }
}

/// The value of a run of hexadecimal digits.
pub open spec fn hex_num(s: Seq<u8>) -> nat
    decreases s.len(),
{
    if s.len() == 0 {
        0
    } else {
        hex_num(s.drop_last()) * 16 + hex_value(s.last())->0 as nat
    }
}

/// The bytes that may follow `;` in a chunk-size line: tokens, `=`, `;` and whitespace.
pub open spec fn ext_ok(s: Seq<u8>) -> bool {
    forall|j: int| 0 <= j < s.len() ==> tchar(#[trigger] s[j]) || s[j] == SEMICOLON || s[j] == EQUALS || ows(s[j])
}

/// The chunk size on the line `buf[s..e]`: one to sixteen hexadecimal digits, then nothing
/// or a `;` and extensions.
pub open spec fn chunk_size_spec(buf: Seq<u8>, s: int, e: int) -> Result<u64, HttpParseError> {
    let h = hex_end(buf, s, e);
    if h == s || h - s > 16 {
        Err(err_at(ParseErrorKind::ChunkSizeInvalid, Location::Body, s, None))
    } else if h < e && buf[h] != SEMICOLON {
        Err(err_at(ParseErrorKind::ChunkSizeInvalid, Location::Body, h, None))
    } else if h < e && !ext_ok(buf.subrange(h + 1, e)) {
        Err(err_at(ParseErrorKind::ChunkExtensionsInvalid, Location::Body, h, None))
    } else {
        Ok(hex_num(buf.subrange(s, h)) as u64)
    }
}

pub proof fn lemma_hex_end(buf: Seq<u8>, s: int, e: int)
    requires
        s <= e,
    ensures
        s <= hex_end(buf, s, e) <= e,
        hex_end(buf, s, e) < e ==> hex_value(buf[hex_end(buf, s, e)]) is None,
        forall|j: int| s <= j < hex_end(buf, s, e) ==> hex_value(#[trigger] buf[j]) is Some,
    decreases e - s,
{
    if s < e && hex_value(buf[s]) is Some {
        lemma_hex_end(buf, s + 1, e);
    }
}

pub proof fn lemma_hex_num_bound(s: Seq<u8>)
    requires
        forall|j: int| 0 <= j < s.len() ==> hex_value(#[trigger] s[j]) is Some,
    ensures
        hex_num(s) < pow16(s.len()),
    decreases s.len(),
{
    if s.len() > 0 {
        lemma_hex_num_bound(s.drop_last());
        let v = hex_value(s.last())->0 as nat;
        assert(v < 16);
        let a = hex_num(s.drop_last());
        let p = pow16((s.len() - 1) as nat);
        assert(a * 16 + v < p * 16) by (nonlinear_arith)
            requires
                a < p,
                v < 16,
        ;
    }
}

pub open spec fn pow16(n: nat) -> nat
    decreases n,
{
    if n == 0 {
        1
    } else {
        pow16((n - 1) as nat) * 16
    }
}

pub proof fn lemma_pow16_mono(a: nat, b: nat)
    requires
        a <= b,
    ensures
        pow16(a) <= pow16(b),
    decreases b,
{
    if a < b {
        lemma_pow16_mono(a, (b - 1) as nat);
    }
}

/// Reads the chunk size on the line `buf[s..e]`.
#[verifier::loop_isolation(false)]
pub fn parse_chunk_size(buf: &[u8], s: usize, e: usize) -> (r: Result<u64, HttpParseError>)
    requires
        s <= e <= buf@.len(),
    ensures
        r == chunk_size_spec(buf@, s as int, e as int),
{
    let ghost b = buf@;
    proof {
        lemma_hex_end(b, s as int, e as int);
    }
    let mut h: usize = s;
    let mut v: u64 = 0;
    while h < e && h - s < 17 && crate::uri::hex_digit_value(buf[h]).is_some()
        invariant
            s <= h <= e,
            hex_end(b, h as int, e as int) == hex_end(b, s as int, e as int),
            h - s <= 16 ==> v == hex_num(b.subrange(s as int, h as int)),
            forall|j: int| s <= j < h ==> hex_value(#[trigger] b[j]) is Some,
        decreases e - h,
    {
        let d = crate::uri::hex_digit_value(buf[h]).unwrap();
        proof {
            assert(b.subrange(s as int, h + 1).drop_last() =~= b.subrange(s as int, h as int));
        }
        if h - s < 16 {
            proof {
                lemma_hex_num_bound(b.subrange(s as int, h as int));
                lemma_pow16_mono((h - s) as nat, 15);
                assert(pow16(15) == 0x1000000000000000) by {
                    reveal_with_fuel(pow16, 16);
                }
                assert(v * 16 + d < 0x10000000000000000) by (nonlinear_arith)
                    requires
                        v < 0x1000000000000000,
                        d < 16,
                ;
            }
            v = v * 16 + d as u64;
        }
        h += 1;
    }
    proof {
        if h < e && h - s < 17 {
            assert(hex_end(b, h as int, e as int) == h);
        }
    }
    if h == s || h - s > 16 {
        proof {
            if h - s > 16 {
                lemma_hex_end_at_least(b, s as int, e as int, h as int);
            }
        }
        return Err(parse_error(ParseErrorKind::ChunkSizeInvalid, Location::Body, s, None));
    }
    if h < e && buf[h] != SEMICOLON {
        return Err(parse_error(ParseErrorKind::ChunkSizeInvalid, Location::Body, h, None));
    }
    if h < e {
        let mut j: usize = h + 1;
        while j < e
            invariant
                h + 1 <= j <= e,
                forall|k: int| h + 1 <= k < j ==> tchar(#[trigger] b[k]) || b[k] == SEMICOLON || b[k] == EQUALS || ows(b[k]),
            decreases e - j,
        {
            let c = buf[j];
            if !(is_tchar(c) || c == SEMICOLON || c == EQUALS || is_ows(c)) {
                proof {
                    assert(b.subrange(h + 1, e as int)[j - h - 1] == c);
                }
                return Err(parse_error(
                    ParseErrorKind::ChunkExtensionsInvalid,
                    Location::Body,
                    h,
                    None,
                ));
            }
            j += 1;
        }
        proof {
            let x = b.subrange(h + 1, e as int);
            assert forall|k: int| 0 <= k < x.len() implies tchar(#[trigger] x[k]) || x[k] == SEMICOLON || x[k] == EQUALS || ows(x[k]) by {
                assert(x[k] == b[h + 1 + k]);
            }
        }
    }
    Ok(v)
}

pub proof fn lemma_hex_end_at_least(buf: Seq<u8>, s: int, e: int, h: int)
    requires
        s <= h <= e,
        forall|j: int| s <= j < h ==> hex_value(#[trigger] buf[j]) is Some,
    ensures
        hex_end(buf, s, e) >= h,
    decreases h - s,
{
    lemma_hex_end(buf, s, e);
    if s < h {
        lemma_hex_end_at_least(buf, s + 1, e, h);
    }
}


/// `v`, or the largest `usize` where it does not fit.
pub open spec fn sat(v: int) -> usize {
    if v > usize::MAX {
        usize::MAX
    } else if v < 0 {
        0
    } else {
        v as usize
    }
}

/// Where reading trailers or a body stands.
pub enum BodyStep {
    /// Finished: the body and the index just past the message.
    Done(Seq<u8>, int),
    NeedMore,
    Fail(HttpParseError),
}

/// Skips trailer lines from `p` up to the empty line; `ts` is where the trailers began.
pub open spec fn trailers_spec(buf: Seq<u8>, cfg: HttpServerConfig, ts: int, p: int) -> BodyStep
    decreases buf.len() - p,
{
    if p > buf.len() {
        BodyStep::NeedMore
    } else {
        match line_at(buf, p) {
            None => if buf.len() - ts > cfg.max_trailer_bytes_total {
                BodyStep::Fail(too_large(
                    LimitKind::TrailerBytesTotal,
                    cfg.max_trailer_bytes_total,
                    buf.len() - ts,
                    Location::Trailers,
                    p,
                ))
            } else {
                BodyStep::NeedMore
            },
            Some((s, e, n)) => if n - ts > cfg.max_trailer_bytes_total {
                BodyStep::Fail(too_large(
                    LimitKind::TrailerBytesTotal,
                    cfg.max_trailer_bytes_total,
                    n - ts,
                    Location::Trailers,
                    s as int,
                ))
            } else if e == s {
                BodyStep::Done(Seq::empty(), n as int)
            } else if n <= p || n > buf.len() {
                BodyStep::NeedMore
            } else {
                trailers_spec(buf, cfg, ts, n as int)
            },
        }
    }
}

/// Reads chunks from `p`, `body` holding the payload decoded so far.
pub open spec fn chunks_spec(buf: Seq<u8>, cfg: HttpServerConfig, p: int, body: Seq<u8>) -> BodyStep
    decreases buf.len() - p,
{
    if p > buf.len() {
        BodyStep::NeedMore
    } else {
        match line_at(buf, p) {
            None => BodyStep::NeedMore,
            Some((s, e, n)) => match chunk_size_spec(buf, s as int, e as int) {
                Err(x) => BodyStep::Fail(x),
                Ok(size) => if size > cfg.max_chunk_size_bytes {
                    BodyStep::Fail(too_large(
                        LimitKind::ChunkSizeBytes,
                        cfg.max_chunk_size_bytes,
                        sat(size as int) as int,
                        Location::Body,
                        s as int,
                    ))
                } else if size == 0 {
                    match trailers_spec(buf, cfg, n as int, n as int) {
                        BodyStep::Done(_, end) => BodyStep::Done(body, end),
                        other => other,
                    }
                } else if cfg.max_body_bytes is Some && body.len() + size > cfg.max_body_bytes->0 {
                    BodyStep::Fail(too_large(
                        LimitKind::BodyBytes,
                        cfg.max_body_bytes->0,
                        sat(body.len() + size) as int,
                        Location::Body,
                        n as int,
                    ))
                } else if n < p || buf.len() - n < size + 2 {
                    BodyStep::NeedMore
                } else if buf[n + size] != CR || buf[n + size + 1] != LF {
                    BodyStep::Fail(err_at(
                        ParseErrorKind::ChunkCrlfMissing,
                        Location::Body,
                        n + size,
                        None,
                    ))
                } else {
                    chunks_spec(buf, cfg, n + size + 2, body + buf.subrange(n as int, n + size))
                },
            },
        }
    }
}

/// Relates an executable body step to its specification.
pub open spec fn body_step_matches(r: Result<Option<(Vec<u8>, usize)>, HttpParseError>, s: BodyStep) -> bool {
    match (r, s) {
        (Ok(Some((b, end))), BodyStep::Done(sb, se)) => b@ == sb && end == se,
        (Ok(None), BodyStep::NeedMore) => true,
        (Err(x), BodyStep::Fail(y)) => x == y,
        _ => false,
    }
}

/// Skips the trailer section that starts at `ts`; the index just past it.
pub fn skip_trailers(buf: &[u8], cfg: &HttpServerConfig, ts: usize) -> (r: Result<Option<usize>, HttpParseError>)
    requires
        ts <= buf@.len(),
    ensures
        match (r, trailers_spec(buf@, *cfg, ts as int, ts as int)) {
            (Ok(Some(end)), BodyStep::Done(_, se)) => end == se && ts < end <= buf@.len(),
            (Ok(None), BodyStep::NeedMore) => true,
            (Err(x), BodyStep::Fail(y)) => x == y,
            _ => false,
        },
{
    let mut p: usize = ts;
    loop
        invariant
            ts <= p <= buf@.len(),
            trailers_spec(buf@, *cfg, ts as int, p as int) == trailers_spec(buf@, *cfg, ts as int, ts as int),
        decreases buf@.len() - p,
    {
        let (s, e, n) = match get_line(buf, p) {
            Some(l) => l,
            None => {
                if buf.len() - ts > cfg.max_trailer_bytes_total {
                    return Err(limit_error(LimitKind::TrailerBytesTotal, cfg.max_trailer_bytes_total, buf.len() - ts, Location::Trailers, p));
                }
                return Ok(None);
            },
        };
        if n - ts > cfg.max_trailer_bytes_total {
            return Err(limit_error(LimitKind::TrailerBytesTotal, cfg.max_trailer_bytes_total, n - ts, Location::Trailers, s));
        }
        if e == s {
            return Ok(Some(n));
        }
        p = n;
    }
}

/// Decodes the chunked body that starts at `p`: the payload and the index just past the
/// message; `Ok(None)` while it is incomplete.
pub fn parse_chunked(buf: &[u8], cfg: &HttpServerConfig, p: usize) -> (r: Result<Option<(Vec<u8>, usize)>, HttpParseError>)
    requires
        p <= buf@.len(),
    ensures
        body_step_matches(r, chunks_spec(buf@, *cfg, p as int, Seq::empty())),
        r matches Ok(Some((_, end))) ==> p < end <= buf@.len(),
{
    let mut body: Vec<u8> = Vec::new();
    let mut q: usize = p;
    loop
        invariant
            p <= q <= buf@.len(),
            body@.len() <= q,
            cfg.max_body_bytes matches Some(m) ==> body@.len() <= m,
            chunks_spec(buf@, *cfg, q as int, body@) == chunks_spec(buf@, *cfg, p as int, Seq::empty()),
        decreases buf@.len() - q,
    {
        let (s, e, n) = match get_line(buf, q) {
            Some(l) => l,
            None => return Ok(None),
        };
        let size = match parse_chunk_size(buf, s, e) {
            Ok(size) => size,
            Err(x) => return Err(x),
        };
        if size > cfg.max_chunk_size_bytes as u64 {
            let actual = if size > usize::MAX as u64 { usize::MAX } else { size as usize };
            return Err(parse_error(
                ParseErrorKind::TooLarge { what: LimitKind::ChunkSizeBytes, limit: cfg.max_chunk_size_bytes, actual },
                Location::Body,
                s,
                None,
            ));
        }
        let size = size as usize;
        if size == 0 {
            return match skip_trailers(buf, cfg, n) {
                Ok(Some(end)) => Ok(Some((body, end))),
                Ok(None) => Ok(None),
                Err(x) => Err(x),
            };
        }
        if let Some(m) = cfg.max_body_bytes {
            if size > m - body.len() {
                let actual = if size > usize::MAX - body.len() { usize::MAX } else { body.len() + size };
                return Err(parse_error(
                    ParseErrorKind::TooLarge { what: LimitKind::BodyBytes, limit: m, actual },
                    Location::Body,
                    n,
                    None,
                ));
            }
        }
        if buf.len() - n < 2 || buf.len() - n - 2 < size {
            return Ok(None);
        }
        if buf[n + size] != CR || buf[n + size + 1] != LF {
            return Err(parse_error(
                ParseErrorKind::ChunkCrlfMissing,
                Location::Body,
                n + size,
                None,
            ));
        }
        append_bytes(&mut body, &buf[n..n + size]);
        q = n + size + 2;
    }
}


/// What a complete request holds, as the bytes that arrived.
pub struct RequestModel {
    pub method: Seq<u8>,
    pub target: Seq<u8>,
    pub version: HttpVersion,
    pub headers: WireHeaders,
    pub body: Option<Seq<u8>>,
    /// The number of bytes the request took up.
    pub consumed: int,
}

/// Where parsing a request stands.
pub enum Parsed {
    Done(RequestModel),
    NeedMore,
    Fail(HttpParseError),
}

/// The request at the start of `buf`, under the limits of `cfg`: the request line, the
/// header block up to the empty line, the framing checks, then the body as framed.
pub open spec fn parse_spec(buf: Seq<u8>, cfg: HttpServerConfig) -> Parsed {
    match line_at(buf, 0) {
        None => if buf.len() > cfg.max_request_line_bytes {
            Parsed::Fail(too_large(
                LimitKind::RequestLineBytes,
                cfg.max_request_line_bytes,
                buf.len() as int,
                Location::StartLine,
                0,
            ))
        } else {
            Parsed::NeedMore
        },
        Some((s, e, n)) => if e - s > cfg.max_request_line_bytes {
            Parsed::Fail(too_large(
                LimitKind::RequestLineBytes,
                cfg.max_request_line_bytes,
                e - s,
                Location::StartLine,
                0,
            ))
        } else {
            match request_line_spec(buf, s as int, e as int) {
                Err(x) => Parsed::Fail(x),
                Ok(rl) => match headers_spec(buf, cfg, n as int, n as int, 0, Seq::empty()) {
                    HeadersStep::NeedMore => Parsed::NeedMore,
                    HeadersStep::Fail(x) => Parsed::Fail(x),
                    HeadersStep::Done(acc, hend) => {
                        let model = |body: Option<Seq<u8>>, consumed: int| RequestModel {
                            method: buf.subrange(rl.method.start as int, rl.method.end as int),
                            target: buf.subrange(rl.target.start as int, rl.target.end as int),
                            version: rl.version,
                            headers: acc,
                            body,
                            consumed,
                        };
                        match framing_spec(|k: Seq<u8>| wire_values(acc, k), rl.version) {
                            Err(k) => Parsed::Fail(err_at(k, Location::Headers, 0, None)),
                            Ok(Framing::NoBody) => Parsed::Done(model(None, hend)),
                            Ok(Framing::Length(len)) => if cfg.max_body_bytes is Some && len > cfg.max_body_bytes->0 {
                                Parsed::Fail(too_large(
                                    LimitKind::BodyBytes,
                                    cfg.max_body_bytes->0,
                                    sat(len as int) as int,
                                    Location::Body,
                                    hend,
                                ))
                            } else if buf.len() - hend < len {
                                Parsed::NeedMore
                            } else {
                                Parsed::Done(model(Some(buf.subrange(hend, hend + len)), hend + len))
                            },
                            Ok(Framing::Chunked) => match chunks_spec(buf, cfg, hend, Seq::empty()) {
                                BodyStep::Done(b, end) => Parsed::Done(model(Some(b), end)),
                                BodyStep::NeedMore => Parsed::NeedMore,
                                BodyStep::Fail(x) => Parsed::Fail(x),
                            },
                        }
                    },
                },
            }
        },
    }
}

/// The length of the request head in `buf`: up to the empty line that ends the header block,
/// or the whole buffer while the start line or that block is incomplete or malformed.
pub open spec fn head_len(buf: Seq<u8>, cfg: HttpServerConfig) -> int {
    match line_at(buf, 0) {
        Some((_, _, n)) => match headers_spec(buf, cfg, n as int, n as int, 0, Seq::empty()) {
            HeadersStep::Done(_, hend) => hend,
            _ => buf.len() as int,
        },
        None => buf.len() as int,
    }
}

/// The outcome of parsing the bytes received so far.
#[derive(Debug)]
pub enum ParseOutcome {
    /// A complete request, and the number of bytes it took up.
    Complete(Request, usize),
    /// More bytes are needed.
    Incomplete,
    Failed(HttpParseError),
}

/// `r` is the request that `m` describes, before the connection stamps it.
pub open spec fn request_models(r: Request, m: RequestModel) -> bool {
    &&& method_bytes(r.method) == m.method
    &&& (r.method is Builtin) == (method_of(m.method) is Some)
    &&& (r.method matches Method::Builtin(b) ==> method_of(m.method) == Some(b))
    &&& r.target@ == m.target
    &&& r.version == m.version
    &&& map_models(r.headers, m.headers)
    &&& body_bytes(r.body) == m.body
    &&& r.remote is None
}

pub open spec fn outcome_matches(r: ParseOutcome, p: Parsed) -> bool {
    match (r, p) {
        (ParseOutcome::Complete(req, n), Parsed::Done(m)) => request_models(req, m) && n == m.consumed,
        (ParseOutcome::Incomplete, Parsed::NeedMore) => true,
        (ParseOutcome::Failed(x), Parsed::Fail(y)) => x == y,
        _ => false,
    }
}

/// Parses the request at the start of `buf`.
pub fn parse_request(buf: &[u8], cfg: &HttpServerConfig) -> (r: ParseOutcome)
    ensures
        outcome_matches(r, parse_spec(buf@, *cfg)),
        r matches ParseOutcome::Complete(_, n) ==> 0 < n <= buf@.len(),
        r matches ParseOutcome::Failed(e) ==> e.offset <= buf@.len(),
        r matches ParseOutcome::Failed(e) ==> (e.location == Location::StartLine || e.location
            == Location::Headers ==> e.offset <= head_len(buf@, *cfg)),
{
    let buf_len: usize = buf.len();
    proof {
        assert(buf@.len() == buf_len);
        crate::laws::law_error_offset_in_buffer(buf@, *cfg);
        crate::laws::law_error_offset_in_head(buf@, *cfg);
    }
    let (s, e, n) = match get_line(buf, 0) {
        Some(l) => l,
        None => {
            if buf.len() > cfg.max_request_line_bytes {
                return ParseOutcome::Failed(limit_error(LimitKind::RequestLineBytes, cfg.max_request_line_bytes, buf.len(), Location::StartLine, 0));
            }
            return ParseOutcome::Incomplete;
        },
    };
    if e - s > cfg.max_request_line_bytes {
        return ParseOutcome::Failed(limit_error(LimitKind::RequestLineBytes, cfg.max_request_line_bytes, e - s, Location::StartLine, 0));
    }
    let rl = match parse_request_line(buf, s, e) {
        Ok(rl) => rl,
        Err(x) => return ParseOutcome::Failed(x),
    };
    let (headers, hend) = match parse_headers(buf, cfg, n) {
        Ok(Some(h)) => h,
        Ok(None) => return ParseOutcome::Incomplete,
        Err(x) => return ParseOutcome::Failed(x),
    };
    let ghost acc = match headers_spec(buf@, *cfg, n as int, n as int, 0, Seq::empty()) {
        HeadersStep::Done(acc, _) => acc,
        _ => Seq::empty(),
    };
    proof {
        assert((|k: Seq<u8>| headers.values_of(k)) =~= (|k: Seq<u8>| wire_values(acc, k)));
    }
    let f = match framing(&headers, rl.version) {
        Ok(f) => f,
        Err(k) => return ParseOutcome::Failed(parse_error(k, Location::Headers, 0, None)),
    };
    proof {
        // the request line's method is a non-empty token
        let b = buf@;
        crate::scan::lemma_word_end(b, s as int, e as int);
        let (ms, me, s1) = next_word_spec(b, s as int, e as int)->0;
        assert(me != ms && all_tchar(b.subrange(ms, me)));
        assert(rl.method.start == ms && rl.method.end == me);
    }
    let method = match Method::from_bytes(&buf[rl.method.start..rl.method.end]) {
        Some(m) => m,
        None => {
            proof {
                assert(false);
            }
            return ParseOutcome::Incomplete;
        },
    };
    let target = slice_to_vec(&buf[rl.target.start..rl.target.end]);
    let (body, consumed) = match f {
        Framing::NoBody => (Body::Empty, hend),
        Framing::Length(len) => {
            if let Some(m) = cfg.max_body_bytes {
                if len > m as u64 {
                    let actual = if len > usize::MAX as u64 { usize::MAX } else { len as usize };
                    return ParseOutcome::Failed(parse_error(
                        ParseErrorKind::TooLarge { what: LimitKind::BodyBytes, limit: m, actual },
                        Location::Body,
                        hend,
                        None,
                    ));
                }
            }
            if ((buf.len() - hend) as u64) < len {
                return ParseOutcome::Incomplete;
            }
            let len = len as usize;
            (Body::Full(slice_to_vec(&buf[hend..hend + len])), hend + len)
        },
        Framing::Chunked => match parse_chunked(buf, cfg, hend) {
            Ok(Some((b, end))) => (Body::Full(b), end),
            Ok(None) => return ParseOutcome::Incomplete,
            Err(x) => return ParseOutcome::Failed(x),
        },
    };
    ParseOutcome::Complete(
        Request { method, target, version: rl.version, headers, body, remote: None },
        consumed,
    )
}

} // verus!
