//! Properties that relate several functions of the codec, proved over their specifications.

use crate::config::HttpServerConfig;
use crate::error::{HttpParseError, Location};
use crate::parser::{
    chunk_size_spec, chunks_spec, header_line_spec, headers_spec, lemma_hex_end, lemma_trim_bounds,
    line_at, next_word_spec, parse_spec, request_line_spec, trailers_spec, BodyStep, HeadersStep,
    Parsed, WireHeaders, head_len,
};
use crate::scan::{first_of, lemma_find_from, lemma_word_end, COLON, LF};
use crate::parser::{ext_ok, SEMICOLON, hex_end, hex_num, pow16, wire_values, has_cr_or_lf, key_of, map_models, request_models, RequestModel};
use crate::request::Request;
use crate::parser::{framing_spec, ends_chunked, Framing};
use crate::version::HttpVersion;
use crate::error::ParseErrorKind;
use crate::header::{key_index_from, lemma_key_index, Builtin};
use crate::header::{joined, lower_seq, name_bytes, name_key, HeaderMap, HeaderName, HeaderValue};
use crate::serialize::{crlf, entries_bytes, entry_bytes, field_line, split_lines};
use crate::scan::{all_tchar, ows, tchar, trim_end, trim_start};
use crate::scan::{is_first_from, CR};
use crate::uri::{hex_upper, hex_value};
use vstd::prelude::*;

verus! {

pub proof fn lemma_line_at(buf: Seq<u8>, p: int)
    requires
        0 <= p <= buf.len(),
        buf.len() <= usize::MAX,
    ensures
        line_at(buf, p) matches Some((s, e, n)) ==> s == p && p <= e < n <= buf.len(),
{
    lemma_find_from(buf.subrange(p, buf.len() as int), 0, LF);
}

proof fn lemma_request_line_offsets(buf: Seq<u8>, s: int, e: int)
    requires
        0 <= s <= e <= buf.len(),
        buf.len() <= usize::MAX,
    ensures
        request_line_spec(buf, s, e) matches Err(x) ==> x.offset <= e,
{
    lemma_word_end(buf, s, e);
    if let Some((ms, me, s1)) = next_word_spec(buf, s, e) {
        lemma_word_end(buf, s1, e);
        if let Some((ts, te, s2)) = next_word_spec(buf, s1, e) {
            lemma_word_end(buf, s2, e);
        }
    }
}

proof fn lemma_header_line_offsets(buf: Seq<u8>, s: int, e: int)
    requires
        0 <= s < e <= buf.len(),
        buf.len() <= usize::MAX,
    ensures
        header_line_spec(buf, s, e) matches Err(x) ==> x.offset <= buf.len(),
{
    lemma_find_from(buf.subrange(s, e), 0, COLON);
    if let Some(i) = first_of(buf.subrange(s, e), COLON) {
        lemma_trim_bounds(buf, s + i + 1, e);
    }
}

proof fn lemma_headers_offsets(buf: Seq<u8>, cfg: HttpServerConfig, hs: int, p: int, count: int, acc: WireHeaders)
    requires
        0 <= hs <= p <= buf.len(),
        buf.len() <= usize::MAX,
    ensures
        headers_spec(buf, cfg, hs, p, count, acc) matches HeadersStep::Fail(x) ==> x.offset <= buf.len(),
    decreases buf.len() - p,
{
    lemma_line_at(buf, p);
    if let Some((s, e, n)) = line_at(buf, p) {
        if e > s {
            lemma_header_line_offsets(buf, s as int, e as int);
            if let Ok(h) = header_line_spec(buf, s as int, e as int) {
                if n > p && n <= buf.len() {
                    let pair = (buf.subrange(h.name.start as int, h.name.end as int), buf.subrange(h.value.start as int, h.value.end as int));
                    lemma_headers_offsets(buf, cfg, hs, n as int, count + 1, acc.push(pair));
                }
            }
        }
    }
}

proof fn lemma_trailers_offsets(buf: Seq<u8>, cfg: HttpServerConfig, ts: int, p: int)
    requires
        0 <= ts <= p <= buf.len(),
        buf.len() <= usize::MAX,
    ensures
        trailers_spec(buf, cfg, ts, p) matches BodyStep::Fail(x) ==> x.offset <= buf.len()
            && x.location == Location::Trailers,
    decreases buf.len() - p,
{
    lemma_line_at(buf, p);
    if let Some((s, e, n)) = line_at(buf, p) {
        if n > p && n <= buf.len() {
            lemma_trailers_offsets(buf, cfg, ts, n as int);
        }
    }
}

proof fn lemma_chunks_offsets(buf: Seq<u8>, cfg: HttpServerConfig, p: int, body: Seq<u8>)
    requires
        0 <= p <= buf.len(),
        buf.len() <= usize::MAX,
    ensures
        chunks_spec(buf, cfg, p, body) matches BodyStep::Fail(x) ==> x.offset <= buf.len() && (
        x.location == Location::Body || x.location == Location::Trailers),
    decreases buf.len() - p,
{
    lemma_line_at(buf, p);
    if let Some((s, e, n)) = line_at(buf, p) {
        lemma_hex_end(buf, s as int, e as int);
        lemma_trailers_offsets(buf, cfg, n as int, n as int);
        if let Ok(size) = chunk_size_spec(buf, s as int, e as int) {
            if n >= p && buf.len() - n >= size + 2 {
                lemma_chunks_offsets(buf, cfg, n + size + 2, body + buf.subrange(n as int, n + size));
            }
        }
    }
}

/// Every error the parser reports points into the bytes it was given.
pub proof fn law_error_offset_in_buffer(buf: Seq<u8>, cfg: HttpServerConfig)
    requires
        buf.len() <= usize::MAX,
    ensures
        parse_spec(buf, cfg) matches Parsed::Fail(x) ==> x.offset <= buf.len(),
{
    lemma_line_at(buf, 0);
    if let Some((s, e, n)) = line_at(buf, 0) {
        lemma_request_line_offsets(buf, s as int, e as int);
        lemma_headers_offsets(buf, cfg, n as int, n as int, 0, Seq::empty());
        lemma_headers_end(buf, cfg, n as int, n as int, 0, Seq::empty());
        if let HeadersStep::Done(acc, hend) = headers_spec(buf, cfg, n as int, n as int, 0, Seq::empty()) {
            lemma_chunks_offsets(buf, cfg, hend, Seq::empty());
        }
    }
}

/// Every error the parser reports in the start line or the header block points into the head:
/// the bytes up to the empty line that ends the header block, or all of them while that
/// block is incomplete.
pub proof fn law_error_offset_in_head(buf: Seq<u8>, cfg: HttpServerConfig)
    requires
        buf.len() <= usize::MAX,
    ensures
        parse_spec(buf, cfg) matches Parsed::Fail(x) ==> (x.location == Location::StartLine
            || x.location == Location::Headers ==> x.offset <= head_len(buf, cfg)),
{
    law_error_offset_in_buffer(buf, cfg);
    lemma_line_at(buf, 0);
    if let Some((s, e, n)) = line_at(buf, 0) {
        lemma_request_line_offsets(buf, s as int, e as int);
        lemma_headers_end(buf, cfg, n as int, n as int, 0, Seq::empty());
        if let HeadersStep::Done(acc, hend) = headers_spec(buf, cfg, n as int, n as int, 0, Seq::empty()) {
            lemma_chunks_offsets(buf, cfg, hend, Seq::empty());
        }
    }
}

/// The header block ends inside the buffer.
pub proof fn lemma_headers_end(buf: Seq<u8>, cfg: HttpServerConfig, hs: int, p: int, count: int, acc: WireHeaders)
    requires
        0 <= hs <= p <= buf.len(),
        buf.len() <= usize::MAX,
    ensures
        headers_spec(buf, cfg, hs, p, count, acc) matches HeadersStep::Done(_, end) ==> p < end <= buf.len(),
    decreases buf.len() - p,
{
    lemma_line_at(buf, p);
    if let Some((s, e, n)) = line_at(buf, p) {
        if e > s {
            if let Ok(h) = header_line_spec(buf, s as int, e as int) {
                if n > p && n <= buf.len() {
                    let pair = (buf.subrange(h.name.start as int, h.name.end as int), buf.subrange(h.value.start as int, h.value.end as int));
                    lemma_headers_end(buf, cfg, hs, n as int, count + 1, acc.push(pair));
                }
            }
        }
    }
}


/// The shortest uppercase hexadecimal numeral of `n`.
pub open spec fn hex_digits(n: nat) -> Seq<u8>
    decreases n,
{
    if n < 16 {
        seq![hex_upper(n as u8)]
    } else {
        hex_digits(n / 16).push(hex_upper((n % 16) as u8))
    }
}

pub proof fn lemma_hex_upper(n: u8)
    requires
        n < 16,
    ensures
        hex_value(hex_upper(n)) == Some(n),
{
}

pub proof fn lemma_hex_digits(n: nat)
    ensures
        hex_digits(n).len() >= 1,
        forall|j: int| 0 <= j < hex_digits(n).len() ==> hex_value(#[trigger] hex_digits(n)[j]) is Some,
        hex_num(hex_digits(n)) == n,
        n < pow16((hex_digits(n).len() - 1) as nat) * 16,
        hex_digits(n).len() > 1 ==> n >= pow16((hex_digits(n).len() - 1) as nat),
    decreases n,
{
    let d = hex_digits(n);
    if n < 16 {
        lemma_hex_upper(n as u8);
        assert(d.drop_last() =~= Seq::<u8>::empty());
        assert(hex_num(d) == hex_num(d.drop_last()) * 16 + hex_value(d.last())->0 as nat);
    } else {
        lemma_hex_digits(n / 16);
        lemma_hex_upper((n % 16) as u8);
        assert(d.drop_last() =~= hex_digits(n / 16));
        assert(hex_num(d) == hex_num(d.drop_last()) * 16 + hex_value(d.last())->0 as nat);
        assert(n == (n / 16) * 16 + n % 16) by (nonlinear_arith);
        let k = hex_digits(n / 16).len();
        assert forall|j: int| 0 <= j < d.len() implies hex_value(#[trigger] d[j]) is Some by {
            if j < k {
                assert(d[j] == hex_digits(n / 16)[j]);
            }
        }
        assert(pow16(k as nat) == pow16((k - 1) as nat) * 16);
        assert(n < pow16(k as nat) * 16) by (nonlinear_arith)
            requires
                n / 16 < pow16((k - 1) as nat) * 16,
                pow16(k as nat) == pow16((k - 1) as nat) * 16,
                n == (n / 16) * 16 + n % 16,
                n % 16 < 16,
        ;
        if k > 1 {
            assert(n >= pow16(k as nat)) by (nonlinear_arith)
                requires
                    n / 16 >= pow16((k - 1) as nat),
                    pow16(k as nat) == pow16((k - 1) as nat) * 16,
                    n == (n / 16) * 16 + n % 16,
            ;
        } else {
            assert(pow16(1) == 16) by {
                reveal_with_fuel(pow16, 2);
            }
        }
    }
}

/// A numeral of fewer than 2^64 has at most sixteen hexadecimal digits.
pub proof fn lemma_hex_digits_short(n: nat)
    requires
        n <= u64::MAX,
    ensures
        hex_digits(n).len() <= 16,
{
    lemma_hex_digits(n);
    let k = hex_digits(n).len();
    if k > 16 {
        crate::parser::lemma_pow16_mono(16, (k - 1) as nat);
        assert(pow16(16) == 0x10000000000000000) by {
            reveal_with_fuel(pow16, 17);
        }
    }
}

/// A chunk extension as written after the size: nothing, or `;` and extension text.
pub open spec fn chunk_ext_ok(x: Seq<u8>) -> bool {
    x.len() == 0 || (x[0] == SEMICOLON && ext_ok(x.subrange(1, x.len() as int)))
}

/// One chunk of the chunked coding: size, extension, CRLF, data, CRLF.
pub open spec fn chunk_bytes(c: (Seq<u8>, Seq<u8>)) -> Seq<u8> {
    hex_digits(c.0.len()) + c.1 + seq![CR, LF] + c.0 + seq![CR, LF]
}

/// Trailer lines, each followed by CRLF.
pub open spec fn trailer_lines(tr: Seq<Seq<u8>>) -> Seq<u8>
    decreases tr.len(),
{
    if tr.len() == 0 {
        Seq::empty()
    } else {
        tr[0] + seq![CR, LF] + trailer_lines(tr.drop_first())
    }
}

/// A trailer line: non-empty, without CR or LF.
pub open spec fn trailer_ok(t: Seq<u8>) -> bool {
    t.len() > 0 && forall|j: int| 0 <= j < t.len() ==> #[trigger] t[j] != CR && t[j] != LF
}

/// The last chunk: `0`, its extension, CRLF, the trailer lines and the empty line.
pub open spec fn last_chunk(x0: Seq<u8>, tr: Seq<Seq<u8>>) -> Seq<u8> {
    seq![48u8] + x0 + seq![CR, LF] + trailer_lines(tr) + seq![CR, LF]
}

/// The chunked coding of chunks `cs` (data and extension each), then the last chunk with
/// extension `x0` and trailer lines `tr`.
pub open spec fn chunked_encoding(cs: Seq<(Seq<u8>, Seq<u8>)>, x0: Seq<u8>, tr: Seq<Seq<u8>>) -> Seq<u8>
    decreases cs.len(),
{
    if cs.len() == 0 {
        last_chunk(x0, tr)
    } else {
        chunk_bytes(cs[0]) + chunked_encoding(cs.drop_first(), x0, tr)
    }
}

/// The data of the chunks, one after another.
pub open spec fn concat(cs: Seq<(Seq<u8>, Seq<u8>)>) -> Seq<u8>
    decreases cs.len(),
{
    if cs.len() == 0 {
        Seq::empty()
    } else {
        cs[0].0 + concat(cs.drop_first())
    }
}

/// The first line feed of `buf` at or after `p` is at `p + i`.
proof fn lemma_first_lf(buf: Seq<u8>, p: int, i: int)
    requires
        0 <= p,
        0 <= i,
        p + i < buf.len(),
        buf[p + i] == LF,
        forall|j: int| p <= j < p + i ==> buf[j] != LF,
    ensures
        first_of(buf.subrange(p, buf.len() as int), LF) == Some(i),
{
    let sub = buf.subrange(p, buf.len() as int);
    assert(is_first_from(sub, 0, LF, i)) by {
        assert forall|j: int| 0 <= j < i implies sub[j] != LF by {
            assert(sub[j] == buf[p + j]);
        }
    }
    lemma_find_from(sub, 0, LF);
}

proof fn lemma_hex_end_all(buf: Seq<u8>, s: int, e: int)
    requires
        0 <= s <= e <= buf.len(),
        forall|j: int| s <= j < e ==> hex_value(#[trigger] buf[j]) is Some,
    ensures
        hex_end(buf, s, e) == e,
    decreases e - s,
{
    if s < e {
        lemma_hex_end_all(buf, s + 1, e);
    }
}

/// An extension holds no line feed and no hexadecimal digit first.
proof fn lemma_ext_bytes(x: Seq<u8>)
    requires
        chunk_ext_ok(x),
    ensures
        forall|j: int| 0 <= j < x.len() ==> #[trigger] x[j] != LF && x[j] != CR,
        x.len() > 0 ==> x[0] == SEMICOLON && hex_value(x[0]) is None,
{
    if x.len() > 0 {
        let y = x.subrange(1, x.len() as int);
        assert forall|j: int| 0 <= j < x.len() implies #[trigger] x[j] != LF && x[j] != CR by {
            if j > 0 {
                assert(x[j] == y[j - 1]);
            }
        }
    }
}

proof fn lemma_trailers(buf: Seq<u8>, cfg: HttpServerConfig, ts: int, p: int, tr: Seq<Seq<u8>>)
    requires
        0 <= ts <= p,
        p + trailer_lines(tr).len() + 2 <= buf.len() <= usize::MAX,
        buf.subrange(p, p + trailer_lines(tr).len() + 2) == trailer_lines(tr) + seq![CR, LF],
        forall|i: int| 0 <= i < tr.len() ==> trailer_ok(#[trigger] tr[i]),
        p + trailer_lines(tr).len() + 2 - ts <= cfg.max_trailer_bytes_total,
    ensures
        trailers_spec(buf, cfg, ts, p) matches BodyStep::Done(_, end) && end == p + trailer_lines(tr).len() + 2,
    decreases tr.len(),
{
    let tl = trailer_lines(tr);
    let sub = buf.subrange(p, p + tl.len() + 2);
    if tr.len() == 0 {
        assert(buf[p] == sub[0] && buf[p + 1] == sub[1]);
        lemma_first_lf(buf, p, 1);
        lemma_line_at(buf, p);
        assert(line_at(buf, p) == Some((p as usize, p as usize, (p + 2) as usize)));
    } else {
        let t = tr[0];
        let r = tr.drop_first();
        assert(tl == t + seq![CR, LF] + trailer_lines(r));
        assert(trailer_ok(t));
        assert forall|j: int| p <= j < p + t.len() implies buf[j] == t[j - p] by {
            assert(buf[j] == sub[j - p]);
        }
        assert(buf[p + t.len()] == sub[t.len() as int]);
        assert(buf[p + t.len() + 1] == sub[t.len() + 1int]);
        lemma_first_lf(buf, p, t.len() + 1int);
        lemma_line_at(buf, p);
        let n = p + t.len() + 2;
        assert(line_at(buf, p) == Some((p as usize, (p + t.len()) as usize, n as usize)));
        assert(buf.subrange(n, n + trailer_lines(r).len() + 2) =~= trailer_lines(r) + seq![CR, LF]) by {
            assert forall|j: int| 0 <= j < trailer_lines(r).len() + 2 implies #[trigger] buf.subrange(n, n + trailer_lines(r).len() + 2)[j] == (trailer_lines(r) + seq![CR, LF])[j] by {
                assert(buf[n + j] == sub[t.len() + 2 + j]);
            }
        }
        assert forall|i: int| 0 <= i < r.len() implies trailer_ok(#[trigger] r[i]) by {
            assert(r[i] == tr[i + 1]);
        }
        lemma_trailers(buf, cfg, ts, n, r);
    }
}

#[verifier::rlimit(60)]
proof fn lemma_last_chunk(buf: Seq<u8>, cfg: HttpServerConfig, p: int, body: Seq<u8>, x0: Seq<u8>, tr: Seq<Seq<u8>>)
    requires
        0 <= p,
        p + last_chunk(x0, tr).len() <= buf.len() <= usize::MAX,
        buf.subrange(p, p + last_chunk(x0, tr).len()) == last_chunk(x0, tr),
        chunk_ext_ok(x0),
        forall|i: int| 0 <= i < tr.len() ==> trailer_ok(#[trigger] tr[i]),
        trailer_lines(tr).len() + 2 <= cfg.max_trailer_bytes_total,
    ensures
        chunks_spec(buf, cfg, p, body) == BodyStep::Done(body, p + last_chunk(x0, tr).len()),
{
    let lc = last_chunk(x0, tr);
    let sub = buf.subrange(p, p + lc.len());
    let k = x0.len() as int;
    lemma_ext_bytes(x0);
    assert(buf[p] == sub[0] && sub[0] == 48u8);
    assert forall|j: int| p + 1 <= j < p + 1 + k implies buf[j] == x0[j - p - 1] by {
        assert(buf[j] == sub[j - p]);
    }
    assert(buf[p + 1 + k] == sub[1 + k] && sub[1 + k] == CR);
    assert(buf[p + 2 + k] == sub[2 + k] && sub[2 + k] == LF);
    assert forall|j: int| p <= j < p + 2 + k implies buf[j] != LF by {
        if j > p && j < p + 1 + k {
            assert(buf[j] == x0[j - p - 1]);
        }
    }
    lemma_first_lf(buf, p, 2 + k);
    lemma_line_at(buf, p);
    let e = p + 1 + k;
    let n = p + 3 + k;
    assert(line_at(buf, p) == Some((p as usize, e as usize, n as usize)));
    assert(hex_value(buf[p]) is Some);
    if k > 0 {
        assert(buf[p + 1] == x0[0]);
    }
    lemma_hex_end_stop(buf, p, p + 1, e);
    assert(buf.subrange(p, p + 1) =~= seq![48u8]);
    assert(seq![48u8].drop_last() =~= Seq::<u8>::empty());
    assert(hex_num(seq![48u8]) == hex_num(Seq::<u8>::empty()) * 16 + hex_value(48u8)->0 as nat);
    if k > 0 {
        assert(buf.subrange(p + 2, e) =~= x0.subrange(1, k));
    }
    assert(chunk_size_spec(buf, p, e) == Ok::<u64, HttpParseError>(0));
    let tl = trailer_lines(tr);
    assert(buf.subrange(n, n + tl.len() + 2) =~= tl + seq![CR, LF]) by {
        assert forall|j: int| 0 <= j < tl.len() + 2 implies #[trigger] buf.subrange(n, n + tl.len() + 2)[j] == (tl + seq![CR, LF])[j] by {
            assert(buf[n + j] == sub[3 + k + j]);
        }
    }
    lemma_trailers(buf, cfg, n, n, tr);
}

#[verifier::rlimit(80)]
proof fn lemma_chunk_step(buf: Seq<u8>, cfg: HttpServerConfig, p: int, c: (Seq<u8>, Seq<u8>), body: Seq<u8>)
    requires
        0 <= p,
        p + chunk_bytes(c).len() <= buf.len() <= usize::MAX,
        buf.subrange(p, p + chunk_bytes(c).len()) == chunk_bytes(c),
        0 < c.0.len() <= cfg.max_chunk_size_bytes,
        chunk_ext_ok(c.1),
        cfg.max_body_bytes matches Some(m) ==> body.len() + c.0.len() <= m,
    ensures
        chunks_spec(buf, cfg, p, body) == chunks_spec(buf, cfg, p + chunk_bytes(c).len(), body + c.0),
{
    let x = c.0;
    let ext = c.1;
    let cb = chunk_bytes(c);
    let sub = buf.subrange(p, p + cb.len());
    let hx = hex_digits(x.len());
    lemma_hex_digits(x.len());
    lemma_hex_digits_short(x.len());
    lemma_ext_bytes(ext);
    let k = hx.len() as int;
    let q = ext.len() as int;
    let size = x.len() as int;
    assert forall|j: int| p <= j < p + k implies buf[j] == hx[j - p] by {
        assert(buf[j] == sub[j - p]);
        assert(cb[j - p] == hx[j - p]);
    }
    assert forall|j: int| p + k <= j < p + k + q implies buf[j] == ext[j - p - k] by {
        assert(buf[j] == sub[j - p]);
        assert(cb[j - p] == ext[j - p - k]);
    }
    assert(buf[p + k + q] == sub[k + q] && cb[k + q] == CR);
    assert(buf[p + k + q + 1] == sub[k + q + 1] && cb[k + q + 1] == LF);
    assert forall|j: int| p <= j < p + k + q + 1 implies buf[j] != LF by {
        if j < p + k {
            assert(hex_value(hx[j - p]) is Some);
        } else if j < p + k + q {
            assert(buf[j] == ext[j - p - k]);
        }
    }
    lemma_first_lf(buf, p, k + q + 1);
    lemma_line_at(buf, p);
    let e = p + k + q;
    let n = p + k + q + 2;
    assert(line_at(buf, p) == Some((p as usize, e as usize, n as usize)));
    assert forall|j: int| p <= j < p + k implies hex_value(#[trigger] buf[j]) is Some by {
        assert(buf[j] == hx[j - p]);
    }
    lemma_hex_end_all(buf, p, p + k);
    lemma_hex_end_stop(buf, p, p + k, e);
    assert(buf.subrange(p, p + k) =~= hx);
    if q > 0 {
        assert(buf[p + k] == ext[0]);
        assert(buf.subrange(p + k + 1, e) =~= ext.subrange(1, q));
    }
    assert(chunk_size_spec(buf, p, e) == Ok::<u64, HttpParseError>(x.len() as u64));
    assert(buf[n + size] == sub[k + q + 2 + size] && cb[k + q + 2 + size] == CR);
    assert(buf[n + size + 1] == sub[k + q + 3 + size] && cb[k + q + 3 + size] == LF);
    assert forall|j: int| 0 <= j < size implies #[trigger] buf.subrange(n, n + size)[j] == x[j] by {
        assert(buf[n + j] == sub[k + q + 2 + j]);
        assert(cb[k + q + 2 + j] == x[j]);
    }
    assert(buf.subrange(n, n + size) =~= x);
}

/// The hexadecimal run from `s` stops at `h` when it reaches `h` and `h` ends it.
proof fn lemma_hex_end_stop(buf: Seq<u8>, s: int, h: int, e: int)
    requires
        0 <= s <= h <= e <= buf.len(),
        forall|j: int| s <= j < h ==> hex_value(#[trigger] buf[j]) is Some,
        h < e ==> hex_value(buf[h]) is None,
    ensures
        hex_end(buf, s, e) == h,
    decreases h - s,
{
    if s < h {
        lemma_hex_end_stop(buf, s + 1, h, e);
    }
}

/// Decoding the chunked coding of any chunks — each non-empty, within the chunk limit, with
/// or without an extension — followed by the last chunk with any extension and trailer lines,
/// with the whole body within the body limit, gives the concatenated data and consumes
/// exactly the coding; the trailers are discarded.
#[verifier::rlimit(100)]
pub proof fn law_chunked_round_trip(pre: Seq<u8>, cs: Seq<(Seq<u8>, Seq<u8>)>, x0: Seq<u8>, tr: Seq<Seq<u8>>, rest: Seq<u8>, cfg: HttpServerConfig, body: Seq<u8>)
    requires
        forall|i: int| 0 <= i < cs.len() ==> (#[trigger] cs[i]).0.len() > 0 && cs[i].0.len() <= cfg.max_chunk_size_bytes && chunk_ext_ok(cs[i].1),
        chunk_ext_ok(x0),
        forall|i: int| 0 <= i < tr.len() ==> trailer_ok(#[trigger] tr[i]),
        trailer_lines(tr).len() + 2 <= cfg.max_trailer_bytes_total,
        cfg.max_body_bytes matches Some(m) ==> body.len() + concat(cs).len() <= m,
        (pre + chunked_encoding(cs, x0, tr) + rest).len() <= usize::MAX,
    ensures
        chunks_spec(pre + chunked_encoding(cs, x0, tr) + rest, cfg, pre.len() as int, body) == BodyStep::Done(
            body + concat(cs),
            (pre.len() + chunked_encoding(cs, x0, tr).len()) as int,
        ),
    decreases cs.len(),
{
    let enc = chunked_encoding(cs, x0, tr);
    let buf = pre + enc + rest;
    let p = pre.len() as int;
    if cs.len() == 0 {
        assert(buf.subrange(p, p + enc.len()) =~= enc);
        lemma_last_chunk(buf, cfg, p, body, x0, tr);
        assert(body + concat(cs) =~= body);
    } else {
        let c = cs[0];
        let cb = chunk_bytes(c);
        assert(enc == cb + chunked_encoding(cs.drop_first(), x0, tr));
        assert(buf.subrange(p, p + cb.len()) =~= cb);
        lemma_chunk_step(buf, cfg, p, c, body);
        let pre2 = pre + cb;
        assert(pre2 + chunked_encoding(cs.drop_first(), x0, tr) + rest =~= buf);
        assert forall|i: int| 0 <= i < cs.drop_first().len() implies (#[trigger] cs.drop_first()[i]).0.len() > 0 && cs.drop_first()[i].0.len() <= cfg.max_chunk_size_bytes && chunk_ext_ok(cs.drop_first()[i].1) by {
            assert(cs.drop_first()[i] == cs[i + 1]);
        }
        assert(concat(cs) == c.0 + concat(cs.drop_first()));
        law_chunked_round_trip(pre2, cs.drop_first(), x0, tr, rest, cfg, body + c.0);
        assert(body + c.0 + concat(cs.drop_first()) =~= body + concat(cs));
    }
}


/// A field value that reads back as itself: non-empty, no CR or LF, no surrounding whitespace.
pub open spec fn clean_value(v: Seq<u8>) -> bool {
    &&& v.len() > 0
    &&& !ows(v[0]) && !ows(v.last())
    &&& forall|j: int| 0 <= j < v.len() ==> #[trigger] v[j] != CR && v[j] != LF
}

/// A field line that reads back as itself.
pub open spec fn clean_pair(w: (Seq<u8>, Seq<u8>)) -> bool {
    w.0.len() > 0 && all_tchar(w.0) && clean_value(w.1)
}

/// The bytes of field lines, one per pair.
pub open spec fn lines_bytes(ws: Seq<(Seq<u8>, Seq<u8>)>) -> Seq<u8>
    decreases ws.len(),
{
    if ws.len() == 0 {
        Seq::empty()
    } else {
        field_line(ws[0].0, ws[0].1) + lines_bytes(ws.drop_first())
    }
}

proof fn lemma_lines_bytes_push(ws: Seq<(Seq<u8>, Seq<u8>)>, w: (Seq<u8>, Seq<u8>))
    ensures
        lines_bytes(ws.push(w)) == lines_bytes(ws) + field_line(w.0, w.1),
    decreases ws.len(),
{
    if ws.len() == 0 {
        assert(ws.push(w).drop_first() =~= Seq::<(Seq<u8>, Seq<u8>)>::empty());
        assert(ws.push(w)[0] == w);
        assert(lines_bytes(Seq::<(Seq<u8>, Seq<u8>)>::empty()) == Seq::<u8>::empty());
        assert(lines_bytes(ws.push(w)) =~= field_line(w.0, w.1));
    } else {
        assert(ws.push(w).drop_first() =~= ws.drop_first().push(w));
        assert(ws.push(w)[0] == ws[0]);
        lemma_lines_bytes_push(ws.drop_first(), w);
        assert(lines_bytes(ws.push(w)) =~= lines_bytes(ws) + field_line(w.0, w.1));
    }
}

/// One field line at `p`, followed by more, reads as that pair.
#[verifier::rlimit(60)]
proof fn lemma_one_line(buf: Seq<u8>, cfg: HttpServerConfig, hs: int, p: int, count: int, acc: WireHeaders, w: (Seq<u8>, Seq<u8>))
    requires
        0 <= hs <= p,
        p + field_line(w.0, w.1).len() <= buf.len() <= usize::MAX,
        buf.subrange(p, p + field_line(w.0, w.1).len()) == field_line(w.0, w.1),
        clean_pair(w),
        p + field_line(w.0, w.1).len() - hs <= cfg.max_header_bytes_total,
        field_line(w.0, w.1).len() <= cfg.max_header_line_bytes,
        count + 1 <= cfg.max_header_count,
    ensures
        headers_spec(buf, cfg, hs, p, count, acc) == headers_spec(buf, cfg, hs, p + field_line(w.0, w.1).len(), count + 1, acc.push(w)),
{
    let line = field_line(w.0, w.1);
    let a = w.0.len() as int;
    let b = w.1.len() as int;
    assert(line.len() == a + b + 4);
    assert forall|j: int| 0 <= j < line.len() implies buf[p + j] == #[trigger] line[j] by {
        assert(buf[p + j] == buf.subrange(p, p + line.len())[j]);
    }
    assert forall|j: int| p <= j < p + a implies buf[j] == w.0[j - p] && tchar(#[trigger] buf[j]) by {
        assert(buf[j] == line[j - p]);
    }
    assert(buf[p + a] == line[a] && line[a] == 58u8);
    assert(buf[p + a + 1] == line[a + 1] && line[a + 1] == 32u8);
    assert forall|j: int| p + a + 2 <= j < p + a + 2 + b implies buf[j] == w.1[j - p - a - 2] by {
        assert(buf[j] == line[j - p]);
    }
    assert(buf[p + a + 2 + b] == line[a + 2 + b] && line[a + 2 + b] == CR);
    assert(buf[p + a + 3 + b] == line[a + 3 + b] && line[a + 3 + b] == LF);
    assert forall|j: int| p <= j < p + a + 3 + b implies buf[j] != LF by {
        if j < p + a {
            assert(tchar(buf[j]));
        } else if j >= p + a + 2 && j < p + a + 2 + b {
            assert(buf[j] == w.1[j - p - a - 2]);
        }
    }
    lemma_first_lf(buf, p, a + 3 + b);
    lemma_line_at(buf, p);
    let e = p + a + 2 + b;
    let n = p + a + b + 4;
    assert(line_at(buf, p) == Some((p as usize, e as usize, n as usize)));
    let sub = buf.subrange(p, e);
    assert(is_first_from(sub, 0, COLON, a)) by {
        assert forall|j: int| 0 <= j < a implies sub[j] != COLON by {
            assert(sub[j] == buf[p + j]);
            assert(tchar(buf[p + j]));
        }
    }
    lemma_find_from(sub, 0, COLON);
    assert(buf.subrange(p, p + a) =~= w.0);
    let c = p + a;
    assert(trim_start(buf, c + 1, e) == trim_start(buf, c + 2, e));
    assert(buf[c + 2] == w.1[0]);
    assert(trim_start(buf, c + 2, e) == c + 2);
    assert(buf[e - 1] == w.1[b - 1]);
    assert(trim_end(buf, c + 2, e) == e);
    assert(buf.subrange(c + 2, e) =~= w.1);
    assert(!has_cr_or_lf(w.1));
    assert(header_line_spec(buf, p, e) matches Ok(h) && h.name.start == p && h.name.end == c && h.value.start == c + 2 && h.value.end == e);
}

/// Lines for the pairs `ws` at `p`, then the empty line, read as those pairs.
proof fn lemma_lines(buf: Seq<u8>, cfg: HttpServerConfig, hs: int, p: int, count: int, acc: WireHeaders, ws: Seq<(Seq<u8>, Seq<u8>)>)
    requires
        0 <= hs <= p,
        p + lines_bytes(ws).len() + 2 <= buf.len() <= usize::MAX,
        buf.subrange(p, p + lines_bytes(ws).len() + 2) == lines_bytes(ws) + crlf(),
        forall|i: int| 0 <= i < ws.len() ==> clean_pair(#[trigger] ws[i]),
        p + lines_bytes(ws).len() + 2 - hs <= cfg.max_header_bytes_total,
        forall|i: int| 0 <= i < ws.len() ==> field_line((#[trigger] ws[i]).0, ws[i].1).len() <= cfg.max_header_line_bytes,
        count + ws.len() <= cfg.max_header_count,
    ensures
        headers_spec(buf, cfg, hs, p, count, acc) == HeadersStep::Done(acc + ws, p + lines_bytes(ws).len() + 2),
    decreases ws.len(),
{
    let lb = lines_bytes(ws);
    let sub = buf.subrange(p, p + lb.len() + 2);
    if ws.len() == 0 {
        assert(buf[p] == sub[0] && buf[p + 1] == sub[1]);
        lemma_first_lf(buf, p, 1);
        lemma_line_at(buf, p);
        assert(line_at(buf, p) == Some((p as usize, p as usize, (p + 2) as usize)));
        assert(acc + ws =~= acc);
    } else {
        let w = ws[0];
        let fl = field_line(w.0, w.1);
        let rest = ws.drop_first();
        assert(lb == fl + lines_bytes(rest));
        assert(buf.subrange(p, p + fl.len()) =~= fl) by {
            assert forall|j: int| 0 <= j < fl.len() implies #[trigger] buf.subrange(p, p + fl.len())[j] == fl[j] by {
                assert(buf[p + j] == sub[j]);
            }
        }
        lemma_one_line(buf, cfg, hs, p, count, acc, w);
        let p2 = p + fl.len();
        assert(buf.subrange(p2, p2 + lines_bytes(rest).len() + 2) =~= lines_bytes(rest) + crlf()) by {
            assert forall|j: int| 0 <= j < lines_bytes(rest).len() + 2 implies #[trigger] buf.subrange(p2, p2 + lines_bytes(rest).len() + 2)[j] == (lines_bytes(rest) + crlf())[j] by {
                assert(buf[p2 + j] == sub[fl.len() + j]);
            }
        }
        assert forall|i: int| 0 <= i < rest.len() implies clean_pair(#[trigger] rest[i]) by {
            assert(rest[i] == ws[i + 1]);
        }
        assert forall|i: int| 0 <= i < rest.len() implies field_line((#[trigger] rest[i]).0, rest[i].1).len() <= cfg.max_header_line_bytes by {
            assert(rest[i] == ws[i + 1]);
        }
        lemma_lines(buf, cfg, hs, p2, count + 1, acc.push(w), rest);
        assert(acc.push(w) + rest =~= acc + ws);
    }
}


proof fn lemma_lines_bytes_append(a: Seq<(Seq<u8>, Seq<u8>)>, b: Seq<(Seq<u8>, Seq<u8>)>)
    ensures
        lines_bytes(a + b) == lines_bytes(a) + lines_bytes(b),
    decreases b.len(),
{
    if b.len() == 0 {
        assert(a + b =~= a);
        assert(lines_bytes(a) + lines_bytes(b) =~= lines_bytes(a));
    } else {
        let w = b.last();
        assert(a + b =~= (a + b.drop_last()).push(w));
        assert(b =~= b.drop_last().push(w));
        lemma_lines_bytes_append(a, b.drop_last());
        lemma_lines_bytes_push(a + b.drop_last(), w);
        lemma_lines_bytes_push(b.drop_last(), w);
        assert(lines_bytes(a + b) =~= lines_bytes(a) + lines_bytes(b));
    }
}

/// The values an entry puts on the wire, one per line.
pub open spec fn entry_values(e: (HeaderName, HeaderValue)) -> Seq<Seq<u8>> {
    if name_key(e.0) == key_of(Builtin::SetCookie) {
        e.1.view()
    } else {
        seq![joined(e.1.view())]
    }
}

/// The pairs an entry puts on the wire.
pub open spec fn entry_pairs(e: (HeaderName, HeaderValue)) -> Seq<(Seq<u8>, Seq<u8>)> {
    Seq::new(entry_values(e).len(), |i: int| (name_bytes(e.0), entry_values(e)[i]))
}

/// The pairs a header map puts on the wire, in order.
pub open spec fn block_lines(es: Seq<(HeaderName, HeaderValue)>) -> Seq<(Seq<u8>, Seq<u8>)>
    decreases es.len(),
{
    if es.len() == 0 {
        Seq::empty()
    } else {
        block_lines(es.drop_last()) + entry_pairs(es.last())
    }
}

proof fn lemma_split_lines(name: Seq<u8>, vals: Seq<Seq<u8>>)
    ensures
        split_lines(name, vals) == lines_bytes(Seq::new(vals.len(), |i: int| (name, vals[i]))),
    decreases vals.len(),
{
    let ws = Seq::new(vals.len(), |i: int| (name, vals[i]));
    if vals.len() == 0 {
        assert(ws =~= Seq::<(Seq<u8>, Seq<u8>)>::empty());
    } else {
        lemma_split_lines(name, vals.drop_last());
        let ws0 = Seq::new(vals.drop_last().len(), |i: int| (name, vals.drop_last()[i]));
        assert(ws =~= ws0.push((name, vals.last())));
        lemma_lines_bytes_push(ws0, (name, vals.last()));
    }
}

proof fn lemma_entries_bytes(es: Seq<(HeaderName, HeaderValue)>)
    ensures
        entries_bytes(es) == lines_bytes(block_lines(es)),
    decreases es.len(),
{
    if es.len() > 0 {
        let e = es.last();
        lemma_entries_bytes(es.drop_last());
        lemma_lines_bytes_append(block_lines(es.drop_last()), entry_pairs(e));
        if name_key(e.0) == key_of(Builtin::SetCookie) {
            lemma_split_lines(name_bytes(e.0), e.1.view());
            assert(entry_pairs(e) =~= Seq::new(e.1.view().len(), |i: int| (name_bytes(e.0), e.1.view()[i])));
        } else {
            let w = (name_bytes(e.0), joined(e.1.view()));
            assert(entry_pairs(e) =~= seq![w]);
            lemma_lines_bytes_push(Seq::empty(), w);
            assert(Seq::<(Seq<u8>, Seq<u8>)>::empty().push(w) =~= seq![w]);
        }
    }
}

proof fn lemma_wire_values_append(a: Seq<(Seq<u8>, Seq<u8>)>, b: Seq<(Seq<u8>, Seq<u8>)>, k: Seq<u8>)
    ensures
        wire_values(a + b, k) == wire_values(a, k) + wire_values(b, k),
    decreases b.len(),
{
    if b.len() == 0 {
        assert(a + b =~= a);
        assert(wire_values(a, k) + wire_values(b, k) =~= wire_values(a, k));
    } else {
        assert((a + b).drop_last() =~= a + b.drop_last());
        assert((a + b).last() == b.last());
        lemma_wire_values_append(a, b.drop_last(), k);
        assert(wire_values(a + b, k) =~= wire_values(a, k) + wire_values(b, k));
    }
}

proof fn lemma_wire_values_same_name(name: Seq<u8>, vals: Seq<Seq<u8>>, k: Seq<u8>)
    ensures
        wire_values(Seq::new(vals.len(), |i: int| (name, vals[i])), k) == if lower_seq(name) == k {
            vals
        } else {
            Seq::<Seq<u8>>::empty()
        },
    decreases vals.len(),
{
    let ws = Seq::new(vals.len(), |i: int| (name, vals[i]));
    if vals.len() > 0 {
        lemma_wire_values_same_name(name, vals.drop_last(), k);
        assert(ws.drop_last() =~= Seq::new(vals.drop_last().len(), |i: int| (name, vals.drop_last()[i])));
        if lower_seq(name) == k {
            assert(vals.drop_last().push(vals.last()) =~= vals);
        }
    } else {
        if lower_seq(name) == k {
            assert(vals =~= Seq::<Seq<u8>>::empty());
        }
    }
}

/// The values under key `k` that the entries put on the wire.
pub open spec fn expected_values(es: Seq<(HeaderName, HeaderValue)>, k: Seq<u8>) -> Seq<Seq<u8>>
    decreases es.len(),
{
    if es.len() == 0 {
        Seq::empty()
    } else if name_key(es.last().0) == k {
        expected_values(es.drop_last(), k) + entry_values(es.last())
    } else {
        expected_values(es.drop_last(), k)
    }
}

proof fn lemma_block_wire_values(es: Seq<(HeaderName, HeaderValue)>, k: Seq<u8>)
    ensures
        wire_values(block_lines(es), k) == expected_values(es, k),
    decreases es.len(),
{
    if es.len() > 0 {
        let e = es.last();
        lemma_block_wire_values(es.drop_last(), k);
        lemma_wire_values_append(block_lines(es.drop_last()), entry_pairs(e), k);
        lemma_wire_values_same_name(name_bytes(e.0), entry_values(e), k);
        assert(entry_pairs(e) =~= Seq::new(entry_values(e).len(), |i: int| (name_bytes(e.0), entry_values(e)[i])));
        if name_key(e.0) != k {
            assert(expected_values(es.drop_last(), k) + Seq::<Seq<u8>>::empty() =~= expected_values(es.drop_last(), k));
        }
    }
}

/// The keys of entries, in order.
pub open spec fn entry_keys(es: Seq<(HeaderName, HeaderValue)>) -> Seq<Seq<u8>> {
    es.map_values(|e: (HeaderName, HeaderValue)| name_key(e.0))
}

proof fn lemma_expected_unique(es: Seq<(HeaderName, HeaderValue)>, k: Seq<u8>)
    requires
        forall|i: int, j: int| 0 <= i < j < es.len() ==> name_key(es[i].0) != name_key(es[j].0),
    ensures
        expected_values(es, k) == match key_index_from(entry_keys(es), 0, k) {
            Some(i) => entry_values(es[i]),
            None => Seq::<Seq<u8>>::empty(),
        },
    decreases es.len(),
{
    lemma_key_index(entry_keys(es), 0, k);
    if es.len() > 0 {
        let d = es.drop_last();
        lemma_expected_unique(d, k);
        lemma_key_index(entry_keys(d), 0, k);
        let ks = entry_keys(es);
        let kd = entry_keys(d);
        assert(kd =~= ks.drop_last());
        match key_index_from(kd, 0, k) {
            Some(i) => {
                assert(ks[i] == kd[i]);
                assert(name_key(es.last().0) != k) by {
                    assert(es[i] == d[i]);
                    assert(ks[i] == name_key(es[i].0));
                }
                crate::header::lemma_key_index_first(ks, 0, k, i);
                assert(d[i] == es[i]);
            },
            None => {
                if name_key(es.last().0) == k {
                    assert(ks[es.len() - 1] == k);
                    assert forall|j: int| 0 <= j < es.len() - 1 implies ks[j] != k by {
                        assert(ks[j] == kd[j]);
                    }
                    crate::header::lemma_key_index_first(ks, 0, k, es.len() - 1);
                    assert(Seq::<Seq<u8>>::empty() + entry_values(es.last()) =~= entry_values(es.last()));
                } else {
                    assert forall|j: int| 0 <= j < ks.len() implies ks[j] != k by {
                        if j < es.len() - 1 {
                            assert(ks[j] == kd[j]);
                        }
                    }
                    lemma_key_index(ks, 0, k);
                    if let Some(i) = key_index_from(ks, 0, k) {
                        assert(false);
                    }
                }
            },
        }
    }
}


/// A header map that reads back as itself: each name a token, each entry with at least one
/// value, each value non-empty, without CR or LF and without surrounding whitespace.
pub open spec fn sendable(m: HeaderMap) -> bool {
    &&& m.wf()
    &&& forall|i: int| 0 <= i < m.entries@.len() ==> {
        let e = #[trigger] m.entries@[i];
        &&& name_bytes(e.0).len() > 0
        &&& all_tchar(name_bytes(e.0))
        &&& e.1.view().len() > 0
        &&& forall|j: int| 0 <= j < e.1.view().len() ==> clean_value(#[trigger] e.1.view()[j])
    }
}

proof fn lemma_joined_clean(vs: Seq<Seq<u8>>)
    requires
        vs.len() > 0,
        forall|j: int| 0 <= j < vs.len() ==> clean_value(#[trigger] vs[j]),
    ensures
        clean_value(joined(vs)),
        joined(vs)[0] == vs[0][0],
    decreases vs.len(),
{
    if vs.len() > 1 {
        let d = vs.drop_last();
        assert forall|j: int| 0 <= j < d.len() implies clean_value(#[trigger] d[j]) by {
            assert(d[j] == vs[j]);
        }
        lemma_joined_clean(d);
        let jd = joined(d);
        let x = jd + seq![44u8, 32u8] + vs.last();
        assert(joined(vs) == x);
        assert(clean_value(vs.last()));
        assert(x.last() == vs.last().last());
        assert(x[0] == jd[0]);
        assert forall|j: int| 0 <= j < x.len() implies #[trigger] x[j] != CR && x[j] != LF by {
            if j < jd.len() {
                assert(x[j] == jd[j]);
            } else if j >= jd.len() + 2 {
                assert(x[j] == vs.last()[j - jd.len() - 2]);
            }
        }
    }
}

proof fn lemma_block_clean(es: Seq<(HeaderName, HeaderValue)>)
    requires
        forall|i: int| 0 <= i < es.len() ==> {
            let e = #[trigger] es[i];
            &&& name_bytes(e.0).len() > 0
            &&& all_tchar(name_bytes(e.0))
            &&& e.1.view().len() > 0
            &&& forall|j: int| 0 <= j < e.1.view().len() ==> clean_value(#[trigger] e.1.view()[j])
        },
    ensures
        forall|i: int| 0 <= i < block_lines(es).len() ==> clean_pair(#[trigger] block_lines(es)[i]),
    decreases es.len(),
{
    if es.len() > 0 {
        let d = es.drop_last();
        assert forall|i: int| 0 <= i < d.len() implies {
            let e = #[trigger] d[i];
            &&& name_bytes(e.0).len() > 0
            &&& all_tchar(name_bytes(e.0))
            &&& e.1.view().len() > 0
            &&& forall|j: int| 0 <= j < e.1.view().len() ==> clean_value(#[trigger] e.1.view()[j])
        } by {
            assert(d[i] == es[i]);
        }
        lemma_block_clean(d);
        let e = es.last();
        assert(e == es[es.len() - 1]);
        if name_key(e.0) != key_of(Builtin::SetCookie) {
            lemma_joined_clean(e.1.view());
        }
        let a = block_lines(d);
        let b = entry_pairs(e);
        assert forall|i: int| 0 <= i < block_lines(es).len() implies clean_pair(#[trigger] block_lines(es)[i]) by {
            if i < a.len() {
                assert(block_lines(es)[i] == a[i]);
            } else {
                assert(block_lines(es)[i] == b[i - a.len()]);
            }
        }
    }
}

/// A header map written by the serializer, after any start line and before the empty line,
/// reads back with the same values under every name, ignoring case: each name's values
/// joined with `", "` are equal, and `Set-Cookie` keeps each value on its own.
#[verifier::rlimit(60)]
pub proof fn law_header_round_trip(m: HeaderMap, start: Seq<u8>, rest: Seq<u8>, cfg: HttpServerConfig)
    requires
        sendable(m),
        (start + entries_bytes(m.entries@) + crlf() + rest).len() <= usize::MAX,
        entries_bytes(m.entries@).len() + 2 <= cfg.max_header_bytes_total,
        forall|i: int|
            0 <= i < block_lines(m.entries@).len() ==> field_line((#[trigger] block_lines(m.entries@)[i]).0, block_lines(m.entries@)[i].1).len()
                <= cfg.max_header_line_bytes,
        block_lines(m.entries@).len() <= cfg.max_header_count,
    ensures
        headers_spec(
            start + entries_bytes(m.entries@) + crlf() + rest,
            cfg,
            start.len() as int,
            start.len() as int,
            0,
            Seq::empty(),
        ) matches HeadersStep::Done(acc, end) && end == start.len() + entries_bytes(m.entries@).len() + 2
            && forall|k: Seq<u8>| #![trigger wire_values(acc, k)] joined(wire_values(acc, k)) == joined(m.values_of(k))
            && (k == key_of(Builtin::SetCookie) ==> wire_values(acc, k) == m.values_of(k))
            && (k != key_of(Builtin::SetCookie) ==> wire_values(acc, k) == if m.has(k) {
                seq![joined(m.values_of(k))]
            } else {
                Seq::<Seq<u8>>::empty()
            }),
{
    let es = m.entries@;
    let block = entries_bytes(es);
    let buf = start + block + crlf() + rest;
    let hs = start.len() as int;
    let ws = block_lines(es);
    lemma_entries_bytes(es);
    lemma_block_clean(es);
    assert(buf.subrange(hs, hs + block.len() + 2) =~= block + crlf());
    lemma_lines(buf, cfg, hs, hs, 0, Seq::empty(), ws);
    assert(Seq::<(Seq<u8>, Seq<u8>)>::empty() + ws =~= ws);
    assert(entry_keys(es) =~= m.keys());
    assert forall|i: int, j: int| 0 <= i < j < es.len() implies name_key(es[i].0) != name_key(es[j].0) by {
        assert(m.keys()[i] == name_key(es[i].0));
        assert(m.keys()[j] == name_key(es[j].0));
    }
    assert forall|k: Seq<u8>| #![trigger wire_values(ws, k)] joined(wire_values(ws, k)) == joined(m.values_of(k))
        && (k == key_of(Builtin::SetCookie) ==> wire_values(ws, k) == m.values_of(k))
        && (k != key_of(Builtin::SetCookie) ==> wire_values(ws, k) == if m.has(k) {
            seq![joined(m.values_of(k))]
        } else {
            Seq::<Seq<u8>>::empty()
        }) by {
        lemma_block_wire_values(es, k);
        lemma_expected_unique(es, k);
        lemma_key_index(m.keys(), 0, k);
        if let Some(i) = key_index_from(m.keys(), 0, k) {
            assert(m.keys()[i] == name_key(es[i].0));
            if k != key_of(Builtin::SetCookie) {
                assert(joined(seq![joined(es[i].1.view())]) == joined(es[i].1.view()));
            }
        }
    }
}


proof fn lemma_wire_values_clean(acc: WireHeaders, k: Seq<u8>)
    requires
        forall|i: int| 0 <= i < acc.len() ==> clean_value(#[trigger] acc[i].1),
    ensures
        forall|j: int| 0 <= j < wire_values(acc, k).len() ==> clean_value(#[trigger] wire_values(acc, k)[j]),
    decreases acc.len(),
{
    if acc.len() > 0 {
        let d = acc.drop_last();
        assert forall|i: int| 0 <= i < d.len() implies clean_value(#[trigger] d[i].1) by {
            assert(d[i] == acc[i]);
        }
        lemma_wire_values_clean(d, k);
        assert(clean_value(acc[acc.len() - 1].1));
        assert(acc.last() == acc[acc.len() - 1]);
        let wd = wire_values(d, k);
        if lower_seq(acc.last().0) == k {
            assert(wire_values(acc, k) == wd.push(acc.last().1));
            assert forall|j: int| 0 <= j < wire_values(acc, k).len() implies clean_value(#[trigger] wire_values(acc, k)[j]) by {
                if j < wd.len() {
                    assert(wire_values(acc, k)[j] == wd[j]);
                }
            }
        }
    }
}

/// The header fields of a parsed request, echoed by the serializer and read again, come
/// back with the same values under every name, ignoring case (values joined with `", "`;
/// `Set-Cookie` value by value), in the order they first arrived. Values are non-empty.
pub proof fn law_echo_headers(r: Request, m: RequestModel, start: Seq<u8>, rest: Seq<u8>, cfg: HttpServerConfig)
    requires
        request_models(r, m),
        forall|i: int| 0 <= i < m.headers.len() ==> clean_value(#[trigger] m.headers[i].1),
        (start + entries_bytes(r.headers.entries@) + crlf() + rest).len() <= usize::MAX,
        entries_bytes(r.headers.entries@).len() + 2 <= cfg.max_header_bytes_total,
        forall|i: int|
            0 <= i < block_lines(r.headers.entries@).len() ==> field_line((#[trigger] block_lines(r.headers.entries@)[i]).0, block_lines(r.headers.entries@)[i].1).len()
                <= cfg.max_header_line_bytes,
        block_lines(r.headers.entries@).len() <= cfg.max_header_count,
    ensures
        headers_spec(
            start + entries_bytes(r.headers.entries@) + crlf() + rest,
            cfg,
            start.len() as int,
            start.len() as int,
            0,
            Seq::empty(),
        ) matches HeadersStep::Done(acc, _) && forall|k: Seq<u8>| #![trigger wire_values(acc, k)]
            joined(wire_values(acc, k)) == joined(wire_values(m.headers, k)) && (k == key_of(
            Builtin::SetCookie,
        ) ==> wire_values(acc, k) == wire_values(m.headers, k)),
{
    let h = r.headers;
    let es = h.entries@;
    assert forall|i: int| 0 <= i < es.len() implies {
        let e = #[trigger] es[i];
        &&& name_bytes(e.0).len() > 0
        &&& all_tchar(name_bytes(e.0))
        &&& e.1.view().len() > 0
        &&& forall|j: int| 0 <= j < e.1.view().len() ==> clean_value(#[trigger] e.1.view()[j])
    } by {
        let k = h.keys()[i];
        assert(k == name_key(es[i].0));
        assert forall|j: int| 0 <= j < i implies h.keys()[j] != k by {}
        crate::header::lemma_key_index_first(h.keys(), 0, k, i);
        assert(h.values_of(k) == es[i].1.view());
        assert(h.has(k));
        assert(h.values_of(k) == wire_values(m.headers, k));
        lemma_wire_values_clean(m.headers, k);
    }
    law_header_round_trip(h, start, rest, cfg);
    let buf = start + entries_bytes(es) + crlf() + rest;
    if let HeadersStep::Done(acc, _) = headers_spec(buf, cfg, start.len() as int, start.len() as int, 0, Seq::empty()) {
        assert forall|k: Seq<u8>| #![trigger wire_values(acc, k)]
            joined(wire_values(acc, k)) == joined(wire_values(m.headers, k)) && (k == key_of(Builtin::SetCookie) ==> wire_values(acc, k) == wire_values(m.headers, k)) by {
            assert(h.values_of(k) == wire_values(m.headers, k));
        }
    }
}


/// The start line and header block of `buf` parse, end at `hend`, and frame the body as
/// chunked.
pub open spec fn frames_chunked(buf: Seq<u8>, cfg: HttpServerConfig, hend: int) -> bool {
    match line_at(buf, 0) {
        Some((s, e, n)) => e - s <= cfg.max_request_line_bytes && match request_line_spec(buf, s as int, e as int) {
            Ok(rl) => match headers_spec(buf, cfg, n as int, n as int, 0, Seq::empty()) {
                HeadersStep::Done(acc, h) => h == hend && framing_spec(|k: Seq<u8>| wire_values(acc, k), rl.version)
                    == Ok::<Framing, crate::error::ParseErrorKind>(Framing::Chunked),
                _ => false,
            },
            Err(_) => false,
        },
        None => false,
    }
}

/// A request whose head frames its body as chunked, followed by the chunked coding of some
/// chunks (each non-empty and within the chunk limit, with or without extensions, all within
/// the body limit) and a last chunk with any trailer lines, parses to a request whose body is
/// the concatenated data, taking up exactly the head and the coding.
pub proof fn law_chunked_request(head: Seq<u8>, cs: Seq<(Seq<u8>, Seq<u8>)>, x0: Seq<u8>, tr: Seq<Seq<u8>>, rest: Seq<u8>, cfg: HttpServerConfig)
    requires
        frames_chunked(head + chunked_encoding(cs, x0, tr) + rest, cfg, head.len() as int),
        forall|i: int| 0 <= i < cs.len() ==> (#[trigger] cs[i]).0.len() > 0 && cs[i].0.len() <= cfg.max_chunk_size_bytes && chunk_ext_ok(cs[i].1),
        chunk_ext_ok(x0),
        forall|i: int| 0 <= i < tr.len() ==> trailer_ok(#[trigger] tr[i]),
        trailer_lines(tr).len() + 2 <= cfg.max_trailer_bytes_total,
        cfg.max_body_bytes matches Some(m) ==> concat(cs).len() <= m,
        (head + chunked_encoding(cs, x0, tr) + rest).len() <= usize::MAX,
    ensures
        parse_spec(head + chunked_encoding(cs, x0, tr) + rest, cfg) matches Parsed::Done(m) && m.body == Some(
            concat(cs),
        ) && m.consumed == head.len() + chunked_encoding(cs, x0, tr).len(),
{
    law_chunked_round_trip(head, cs, x0, tr, rest, cfg, Seq::empty());
    assert(Seq::<u8>::empty() + concat(cs) =~= concat(cs));
}


/// The start line of `buf` is a request line that ends at `hs`, within its limit.
pub open spec fn start_line_ok(buf: Seq<u8>, cfg: HttpServerConfig, hs: int) -> bool {
    match line_at(buf, 0) {
        Some((s, e, n)) => n == hs && e - s <= cfg.max_request_line_bytes && request_line_spec(
            buf,
            s as int,
            e as int,
        ) is Ok,
        None => false,
    }
}

/// A header map with a `Host` and no framing fields, written by the serializer after a valid
/// request line and read as a request, gives a request without body whose fields have the
/// map's names and values, ignoring case (values joined with `", "`, `Set-Cookie` value by
/// value), and no other names.
#[verifier::rlimit(60)]
pub proof fn law_header_request(m: HeaderMap, start: Seq<u8>, rest: Seq<u8>, cfg: HttpServerConfig)
    requires
        sendable(m),
        m.has(key_of(Builtin::Host)),
        !m.has(key_of(Builtin::ContentLength)),
        !m.has(key_of(Builtin::TransferEncoding)),
        start_line_ok(start + entries_bytes(m.entries@) + crlf() + rest, cfg, start.len() as int),
        (start + entries_bytes(m.entries@) + crlf() + rest).len() <= usize::MAX,
        entries_bytes(m.entries@).len() + 2 <= cfg.max_header_bytes_total,
        forall|i: int|
            0 <= i < block_lines(m.entries@).len() ==> field_line((#[trigger] block_lines(m.entries@)[i]).0, block_lines(m.entries@)[i].1).len()
                <= cfg.max_header_line_bytes,
        block_lines(m.entries@).len() <= cfg.max_header_count,
    ensures
        parse_spec(start + entries_bytes(m.entries@) + crlf() + rest, cfg) matches Parsed::Done(r)
            && r.body is None && r.consumed == start.len() + entries_bytes(m.entries@).len() + 2
            && forall|k: Seq<u8>| #![trigger wire_values(r.headers, k)] joined(wire_values(r.headers, k))
            == joined(m.values_of(k)) && (k == key_of(Builtin::SetCookie) ==> wire_values(r.headers, k)
            == m.values_of(k)) && (wire_values(r.headers, k).len() > 0 <==> m.has(k)),
{
    let buf = start + entries_bytes(m.entries@) + crlf() + rest;
    law_header_round_trip(m, start, rest, cfg);
    let hs = start.len() as int;
    if let HeadersStep::Done(acc, hend) = headers_spec(buf, cfg, hs, hs, 0, Seq::empty()) {
        let vals = |k: Seq<u8>| wire_values(acc, k);
        assert(key_of(Builtin::Host) != key_of(Builtin::SetCookie)) by {
            assert(key_of(Builtin::Host).len() != key_of(Builtin::SetCookie).len());
        }
        assert(key_of(Builtin::ContentLength) != key_of(Builtin::SetCookie)) by {
            assert(key_of(Builtin::ContentLength).len() != key_of(Builtin::SetCookie).len());
        }
        assert(key_of(Builtin::TransferEncoding) != key_of(Builtin::SetCookie)) by {
            assert(key_of(Builtin::TransferEncoding).len() != key_of(Builtin::SetCookie).len());
        }
        assert(key_of(Builtin::ContentType) != key_of(Builtin::SetCookie)) by {
            assert(key_of(Builtin::ContentType).len() != key_of(Builtin::SetCookie).len());
        }
        assert(vals(key_of(Builtin::Host)).len() == 1);
        assert(vals(key_of(Builtin::TransferEncoding)).len() == 0);
        assert(vals(key_of(Builtin::ContentLength)).len() == 0);
        assert(vals(key_of(Builtin::ContentType)).len() <= 1);
        if let Some((s, e, n)) = line_at(buf, 0) {
            if let Ok(rl) = request_line_spec(buf, s as int, e as int) {
                assert(framing_spec(vals, rl.version) == Ok::<Framing, crate::error::ParseErrorKind>(Framing::NoBody));
            }
        }
        assert forall|k: Seq<u8>| #![trigger wire_values(acc, k)] (wire_values(acc, k).len() > 0 <==> m.has(k)) by {
            if k == key_of(Builtin::SetCookie) {
                lemma_key_index(m.keys(), 0, k);
                if let Some(i) = key_index_from(m.keys(), 0, k) {
                    assert(m.keys()[i] == name_key(m.entries@[i].0));
                }
            }
        }
    }
}


/// The request line of `buf` parses, and a request with that line and the fields `ws` frames
/// its body as `len` bytes: no body where `len` is zero, else a `Content-Length` of `len`.
pub open spec fn frames_body(buf: Seq<u8>, ws: WireHeaders, len: int) -> bool {
    match line_at(buf, 0) {
        Some((s, e, _)) => match request_line_spec(buf, s as int, e as int) {
            Ok(rl) => {
                let f = framing_spec(|k: Seq<u8>| wire_values(ws, k), rl.version);
                (len == 0 && f == Ok::<Framing, crate::error::ParseErrorKind>(Framing::NoBody))
                    || f == Ok::<Framing, crate::error::ParseErrorKind>(Framing::Length(len as u64))
            },
            Err(_) => false,
        },
        None => false,
    }
}

/// A well-formed request — a request line, header lines `name: value` with token names and
/// clean values within the limits, the empty line, and a body framed by its length within
/// the body limit — parses to exactly its header fields, in wire order, and its body, taking
/// up exactly its bytes.
#[verifier::rlimit(60)]
pub proof fn law_well_formed_request(start: Seq<u8>, ws: WireHeaders, body: Seq<u8>, rest: Seq<u8>, cfg: HttpServerConfig)
    requires
        start_line_ok(start + lines_bytes(ws) + crlf() + body + rest, cfg, start.len() as int),
        frames_body(start + lines_bytes(ws) + crlf() + body + rest, ws, body.len() as int),
        forall|i: int| 0 <= i < ws.len() ==> clean_pair(#[trigger] ws[i]),
        forall|i: int| 0 <= i < ws.len() ==> field_line((#[trigger] ws[i]).0, ws[i].1).len() <= cfg.max_header_line_bytes,
        ws.len() <= cfg.max_header_count,
        lines_bytes(ws).len() + 2 <= cfg.max_header_bytes_total,
        cfg.max_body_bytes matches Some(m) ==> body.len() <= m,
        (start + lines_bytes(ws) + crlf() + body + rest).len() <= usize::MAX,
    ensures
        parse_spec(start + lines_bytes(ws) + crlf() + body + rest, cfg) matches Parsed::Done(m)
            && m.headers == ws && m.consumed == start.len() + lines_bytes(ws).len() + 2 + body.len()
            && (m.body is None ==> body.len() == 0) && (m.body matches Some(b) ==> b == body),
{
    let buf = start + lines_bytes(ws) + crlf() + body + rest;
    let hs = start.len() as int;
    let lb = lines_bytes(ws);
    assert(buf.subrange(hs, hs + lb.len() + 2) =~= lb + crlf());
    lemma_lines(buf, cfg, hs, hs, 0, Seq::empty(), ws);
    assert(Seq::<(Seq<u8>, Seq<u8>)>::empty() + ws =~= ws);
    let hend = hs + lb.len() + 2;
    assert(buf.subrange(hend, hend + body.len()) =~= body);
}


/// The version on the request line of `buf`, when that line parses.
pub open spec fn request_version(buf: Seq<u8>) -> Option<HttpVersion> {
    match line_at(buf, 0) {
        Some((s, e, _)) => match request_line_spec(buf, s as int, e as int) {
            Ok(rl) => Some(rl.version),
            Err(_) => None,
        },
        None => None,
    }
}

/// Header lines for the pairs `ws` at `p`, followed by anything, read as those pairs.
proof fn lemma_lines_prefix(buf: Seq<u8>, cfg: HttpServerConfig, hs: int, p: int, count: int, acc: WireHeaders, ws: Seq<(Seq<u8>, Seq<u8>)>)
    requires
        0 <= hs <= p,
        p + lines_bytes(ws).len() <= buf.len() <= usize::MAX,
        buf.subrange(p, p + lines_bytes(ws).len()) == lines_bytes(ws),
        forall|i: int| 0 <= i < ws.len() ==> clean_pair(#[trigger] ws[i]),
        p + lines_bytes(ws).len() - hs <= cfg.max_header_bytes_total,
        forall|i: int| 0 <= i < ws.len() ==> field_line((#[trigger] ws[i]).0, ws[i].1).len() <= cfg.max_header_line_bytes,
        count + ws.len() <= cfg.max_header_count,
    ensures
        headers_spec(buf, cfg, hs, p, count, acc) == headers_spec(buf, cfg, hs, p + lines_bytes(ws).len(), count + ws.len(), acc + ws),
    decreases ws.len(),
{
    let lb = lines_bytes(ws);
    let sub = buf.subrange(p, p + lb.len());
    if ws.len() == 0 {
        assert(acc + ws =~= acc);
    } else {
        let w = ws[0];
        let fl = field_line(w.0, w.1);
        let rest = ws.drop_first();
        assert(lb == fl + lines_bytes(rest));
        assert(buf.subrange(p, p + fl.len()) =~= fl) by {
            assert forall|j: int| 0 <= j < fl.len() implies #[trigger] buf.subrange(p, p + fl.len())[j] == fl[j] by {
                assert(buf[p + j] == sub[j]);
            }
        }
        lemma_one_line(buf, cfg, hs, p, count, acc, w);
        let p2 = p + fl.len();
        assert(buf.subrange(p2, p2 + lines_bytes(rest).len()) =~= lines_bytes(rest)) by {
            assert forall|j: int| 0 <= j < lines_bytes(rest).len() implies #[trigger] buf.subrange(p2, p2 + lines_bytes(rest).len())[j] == lines_bytes(rest)[j] by {
                assert(buf[p2 + j] == sub[fl.len() + j]);
            }
        }
        assert forall|i: int| 0 <= i < rest.len() implies clean_pair(#[trigger] rest[i]) by {
            assert(rest[i] == ws[i + 1]);
        }
        assert forall|i: int| 0 <= i < rest.len() implies field_line((#[trigger] rest[i]).0, rest[i].1).len() <= cfg.max_header_line_bytes by {
            assert(rest[i] == ws[i + 1]);
        }
        lemma_lines_prefix(buf, cfg, hs, p2, count + 1, acc.push(w), rest);
        assert(acc.push(w) + rest =~= acc + ws);
    }
}

/// A line that starts with a space or a tab after valid header lines (obsolete line folding)
/// fails the request as a malformed header line; it is never unfolded.
#[verifier::rlimit(60)]
pub proof fn law_obs_fold_rejected(start: Seq<u8>, ws: WireHeaders, fold: Seq<u8>, rest: Seq<u8>, cfg: HttpServerConfig)
    requires
        start_line_ok(start + lines_bytes(ws) + fold + crlf() + rest, cfg, start.len() as int),
        fold.len() > 0,
        ows(fold[0]),
        forall|j: int| 0 <= j < fold.len() ==> #[trigger] fold[j] != LF && fold[j] != CR,
        forall|i: int| 0 <= i < ws.len() ==> clean_pair(#[trigger] ws[i]),
        forall|i: int| 0 <= i < ws.len() ==> field_line((#[trigger] ws[i]).0, ws[i].1).len() <= cfg.max_header_line_bytes,
        fold.len() <= cfg.max_header_line_bytes,
        ws.len() + 1 <= cfg.max_header_count,
        lines_bytes(ws).len() + fold.len() + 2 <= cfg.max_header_bytes_total,
        (start + lines_bytes(ws) + fold + crlf() + rest).len() <= usize::MAX,
    ensures
        parse_spec(start + lines_bytes(ws) + fold + crlf() + rest, cfg) matches Parsed::Fail(x)
            && x.kind == ParseErrorKind::MalformedHeaderLine && x.location == Location::Headers,
{
    let buf = start + lines_bytes(ws) + fold + crlf() + rest;
    let hs = start.len() as int;
    let lb = lines_bytes(ws);
    assert(buf.subrange(hs, hs + lb.len()) =~= lb);
    lemma_lines_prefix(buf, cfg, hs, hs, 0, Seq::empty(), ws);
    let p = hs + lb.len();
    assert forall|j: int| 0 <= j < fold.len() implies buf[p + j] == fold[j] by {}
    assert(buf[p + fold.len()] == CR && buf[p + fold.len() + 1] == LF);
    assert forall|j: int| p <= j < p + fold.len() + 1 implies buf[j] != LF by {
        if j < p + fold.len() {
            assert(buf[j] == fold[j - p]);
        }
    }
    lemma_first_lf(buf, p, fold.len() + 1int);
    lemma_line_at(buf, p);
    assert(line_at(buf, p) == Some((p as usize, (p + fold.len()) as usize, (p + fold.len() + 2) as usize)));
    assert(ows(buf[p]));
}

/// An HTTP/1.1 request whose valid header block has no `Host` field fails with a missing
/// required header.
pub proof fn law_missing_host(start: Seq<u8>, ws: WireHeaders, rest: Seq<u8>, cfg: HttpServerConfig)
    requires
        start_line_ok(start + lines_bytes(ws) + crlf() + rest, cfg, start.len() as int),
        request_version(start + lines_bytes(ws) + crlf() + rest) == Some(HttpVersion { major: 1, minor: 1 }),
        wire_values(ws, key_of(Builtin::Host)).len() == 0,
        forall|i: int| 0 <= i < ws.len() ==> clean_pair(#[trigger] ws[i]),
        forall|i: int| 0 <= i < ws.len() ==> field_line((#[trigger] ws[i]).0, ws[i].1).len() <= cfg.max_header_line_bytes,
        ws.len() <= cfg.max_header_count,
        lines_bytes(ws).len() + 2 <= cfg.max_header_bytes_total,
        (start + lines_bytes(ws) + crlf() + rest).len() <= usize::MAX,
    ensures
        parse_spec(start + lines_bytes(ws) + crlf() + rest, cfg) matches Parsed::Fail(x)
            && x.kind == ParseErrorKind::MissingRequiredHeader && x.location == Location::Headers,
{
    let buf = start + lines_bytes(ws) + crlf() + rest;
    let hs = start.len() as int;
    let lb = lines_bytes(ws);
    assert(buf.subrange(hs, hs + lb.len() + 2) =~= lb + crlf());
    lemma_lines(buf, cfg, hs, hs, 0, Seq::empty(), ws);
    assert(Seq::<(Seq<u8>, Seq<u8>)>::empty() + ws =~= ws);
}

/// A request whose valid header block has one `Host`, a `Content-Length`, and a
/// `Transfer-Encoding` ending in `chunked` fails with conflicting lengths.
pub proof fn law_length_and_chunked_conflict(start: Seq<u8>, ws: WireHeaders, rest: Seq<u8>, cfg: HttpServerConfig)
    requires
        start_line_ok(start + lines_bytes(ws) + crlf() + rest, cfg, start.len() as int),
        wire_values(ws, key_of(Builtin::Host)).len() == 1,
        wire_values(ws, key_of(Builtin::ContentLength)).len() > 0,
        wire_values(ws, key_of(Builtin::TransferEncoding)).len() > 0,
        ends_chunked(joined(wire_values(ws, key_of(Builtin::TransferEncoding)))),
        forall|i: int| 0 <= i < ws.len() ==> clean_pair(#[trigger] ws[i]),
        forall|i: int| 0 <= i < ws.len() ==> field_line((#[trigger] ws[i]).0, ws[i].1).len() <= cfg.max_header_line_bytes,
        ws.len() <= cfg.max_header_count,
        lines_bytes(ws).len() + 2 <= cfg.max_header_bytes_total,
        (start + lines_bytes(ws) + crlf() + rest).len() <= usize::MAX,
    ensures
        parse_spec(start + lines_bytes(ws) + crlf() + rest, cfg) matches Parsed::Fail(x)
            && x.kind == ParseErrorKind::ConflictingContentLength && x.location == Location::Headers,
{
    let buf = start + lines_bytes(ws) + crlf() + rest;
    let hs = start.len() as int;
    let lb = lines_bytes(ws);
    assert(buf.subrange(hs, hs + lb.len() + 2) =~= lb + crlf());
    lemma_lines(buf, cfg, hs, hs, 0, Seq::empty(), ws);
    assert(Seq::<(Seq<u8>, Seq<u8>)>::empty() + ws =~= ws);
}

/// A request whose valid header block frames a body of `len` bytes, of which fewer have
/// arrived, needs more bytes; if the stream ends there, the parser reports an incomplete
/// message (`Parser::end_of_stream`).
pub proof fn law_short_body_incomplete(start: Seq<u8>, ws: WireHeaders, body: Seq<u8>, len: int, cfg: HttpServerConfig)
    requires
        start_line_ok(start + lines_bytes(ws) + crlf() + body, cfg, start.len() as int),
        frames_body(start + lines_bytes(ws) + crlf() + body, ws, len),
        body.len() < len,
        cfg.max_body_bytes matches Some(m) ==> len <= m,
        forall|i: int| 0 <= i < ws.len() ==> clean_pair(#[trigger] ws[i]),
        forall|i: int| 0 <= i < ws.len() ==> field_line((#[trigger] ws[i]).0, ws[i].1).len() <= cfg.max_header_line_bytes,
        ws.len() <= cfg.max_header_count,
        lines_bytes(ws).len() + 2 <= cfg.max_header_bytes_total,
        (start + lines_bytes(ws) + crlf() + body).len() <= usize::MAX,
        len <= u64::MAX,
    ensures
        parse_spec(start + lines_bytes(ws) + crlf() + body, cfg) matches Parsed::NeedMore,
{
    let buf = start + lines_bytes(ws) + crlf() + body;
    let hs = start.len() as int;
    let lb = lines_bytes(ws);
    assert(buf.subrange(hs, hs + lb.len() + 2) =~= lb + crlf());
    lemma_lines(buf, cfg, hs, hs, 0, Seq::empty(), ws);
    assert(Seq::<(Seq<u8>, Seq<u8>)>::empty() + ws =~= ws);
}

} // verus!
