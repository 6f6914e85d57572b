//! Writing messages to the wire: status or request line, header fields, the empty line and
//! the body.

use crate::header::{builtin_name, joined, name_bytes, name_key, Builtin, HeaderMap, HeaderName, HeaderValue, append_bytes};
use crate::method::method_bytes;
use crate::num::{dec_digits, lemma_dec_digits};
use crate::parser::key_of;
use crate::request::{Body, Request};
use crate::response::Response;
use crate::version::version_bytes;
use vstd::prelude::*;

verus! {

pub open spec fn crlf() -> Seq<u8> {
    seq![13u8, 10u8]
}

/// One field line: `name ": " value CRLF`.
pub open spec fn field_line(name: Seq<u8>, value: Seq<u8>) -> Seq<u8> {
    name + seq![58u8, 32u8] + value + crlf()
}

/// One field line per value.
pub open spec fn split_lines(name: Seq<u8>, vals: Seq<Seq<u8>>) -> Seq<u8>
    decreases vals.len(),
{
    if vals.len() == 0 {
        Seq::empty()
    } else {
        split_lines(name, vals.drop_last()) + field_line(name, vals.last())
    }
}

/// The lines of one header entry: its values joined with `", "` on one line, except for
/// `Set-Cookie`, whose values each get a line of their own.
pub open spec fn entry_bytes(e: (HeaderName, HeaderValue)) -> Seq<u8> {
    if name_key(e.0) == key_of(Builtin::SetCookie) {
        split_lines(name_bytes(e.0), e.1.view())
    } else {
        field_line(name_bytes(e.0), joined(e.1.view()))
    }
}

/// The lines of all entries, in entry order.
pub open spec fn entries_bytes(es: Seq<(HeaderName, HeaderValue)>) -> Seq<u8>
    decreases es.len(),
{
    if es.len() == 0 {
        Seq::empty()
    } else {
        entries_bytes(es.drop_last()) + entry_bytes(es.last())
    }
}

/// The `Content-Length` line the serializer adds: for a body when the field is absent.
pub open spec fn length_line(headers: HeaderMap, body: Body) -> Seq<u8> {
    match body {
        Body::Full(b) => if !headers.has(key_of(Builtin::ContentLength)) {
            field_line(builtin_name(Builtin::ContentLength), dec_digits(b@.len()))
        } else {
            Seq::empty()
        },
        Body::Empty => Seq::empty(),
    }
}

pub open spec fn body_seq(body: Body) -> Seq<u8> {
    match body {
        Body::Full(b) => b@,
        Body::Empty => Seq::empty(),
    }
}

/// The bytes of a response on the wire.
pub open spec fn response_bytes(r: Response) -> Seq<u8> {
    version_bytes(r.version.major, r.version.minor) + seq![32u8] + dec_digits(r.status.code() as nat)
        + seq![32u8] + r.message@ + crlf() + entries_bytes(r.headers.entries@) + length_line(
        r.headers,
        r.body,
    ) + crlf() + body_seq(r.body)
}

/// The bytes of a request on the wire.
pub open spec fn request_bytes(r: Request) -> Seq<u8> {
    method_bytes(r.method) + seq![32u8] + r.target@ + seq![32u8] + version_bytes(
        r.version.major,
        r.version.minor,
    ) + crlf() + entries_bytes(r.headers.entries@) + length_line(r.headers, r.body) + crlf()
        + body_seq(r.body)
}

/// Appends the decimal numeral of `n`.
pub fn push_decimal(out: &mut Vec<u8>, n: u64)
    ensures
        final(out)@ == old(out)@ + dec_digits(n as nat),
    decreases n,
{
    if n >= 10 {
        push_decimal(out, n / 10);
    }
    out.push(48 + (n % 10) as u8);
    proof {
        if n >= 10 {
            assert(dec_digits(n as nat) == dec_digits((n / 10) as nat).push((48 + n % 10) as u8));
        }
        assert(final(out)@ =~= old(out)@ + dec_digits(n as nat));
    }
}

fn push_field_line(out: &mut Vec<u8>, name: &[u8], value: &[u8])
    ensures
        final(out)@ == old(out)@ + field_line(name@, value@),
{
    append_bytes(out, name);
    out.push(58);
    out.push(32);
    append_bytes(out, value);
    out.push(13);
    out.push(10);
    proof {
        assert(final(out)@ =~= old(out)@ + field_line(name@, value@));
    }
}

/// Appends the field lines of `headers`.
#[verifier::loop_isolation(false)]
pub fn write_headers(out: &mut Vec<u8>, headers: &HeaderMap)
    ensures
        final(out)@ == old(out)@ + entries_bytes(headers.entries@),
{
    let set_cookie = HeaderName::Builtin(Builtin::SetCookie);
    let mut i: usize = 0;
    while i < headers.entries.len()
        invariant
            i <= headers.entries@.len(),
            out@ == old(out)@ + entries_bytes(headers.entries@.subrange(0, i as int)),
        decreases headers.entries@.len() - i,
    {
        let ghost before = out@;
        let e = &headers.entries[i];
        let name = e.0.as_bytes();
        if e.0.same(&set_cookie) {
            let mut j: usize = 0;
            while j < e.1.len()
                invariant
                    j <= e.1.view().len(),
                    out@ == before + split_lines(name@, e.1.view().subrange(0, j as int)),
                decreases e.1.view().len() - j,
            {
                push_field_line(out, name.as_slice(), e.1.get(j));
                proof {
                    assert(e.1.view().subrange(0, j + 1).drop_last() =~= e.1.view().subrange(0, j as int));
                    assert(out@ =~= before + split_lines(name@, e.1.view().subrange(0, j + 1)));
                }
                j += 1;
            }
            proof {
                assert(e.1.view().subrange(0, e.1.view().len() as int) =~= e.1.view());
            }
        } else {
            let v = e.1.collect();
            push_field_line(out, name.as_slice(), v.as_slice());
        }
        proof {
            assert(*e == headers.entries@[i as int]);
            assert(out@ == before + entry_bytes(headers.entries@[i as int]));
            let sub = headers.entries@.subrange(0, i + 1);
            assert(sub.drop_last() =~= headers.entries@.subrange(0, i as int));
            assert(sub.last() == headers.entries@[i as int]);
            assert(out@ =~= old(out)@ + entries_bytes(headers.entries@.subrange(0, i + 1)));
        }
        i += 1;
    }
    proof {
        assert(headers.entries@.subrange(0, headers.entries@.len() as int) =~= headers.entries@);
    }
}

/// Appends the `Content-Length` line the serializer adds, the empty line and the body.
fn write_tail(out: &mut Vec<u8>, headers: &HeaderMap, body: &Body)
    ensures
        final(out)@ == old(out)@ + length_line(*headers, *body) + crlf() + body_seq(*body),
{
    match body {
        Body::Full(b) => {
            let name = HeaderName::Builtin(Builtin::ContentLength);
            if !headers.contains(&name) {
                let n = name.as_bytes();
                let mut digits: Vec<u8> = Vec::new();
                push_decimal(&mut digits, b.len() as u64);
                push_field_line(out, n.as_slice(), digits.as_slice());
                proof {
                    assert(digits@ =~= dec_digits(b@.len()));
                }
            }
            out.push(13);
            out.push(10);
            append_bytes(out, b.as_slice());
        },
        Body::Empty => {
            out.push(13);
            out.push(10);
        },
    }
    proof {
        assert(final(out)@ =~= old(out)@ + length_line(*headers, *body) + crlf() + body_seq(*body));
    }
}

/// The bytes of `res` on the wire.
pub fn serialize_response(res: &Response) -> (r: Vec<u8>)
    ensures
        r@ == response_bytes(*res),
{
    let mut out = res.version.to_bytes();
    out.push(32);
    push_decimal(&mut out, res.status.as_u16() as u64);
    out.push(32);
    append_bytes(&mut out, res.message.as_slice());
    out.push(13);
    out.push(10);
    write_headers(&mut out, &res.headers);
    write_tail(&mut out, &res.headers, &res.body);
    proof {
        assert(out@ =~= response_bytes(*res));
    }
    out
}

/// The bytes of `req` on the wire.
pub fn serialize_request(req: &Request) -> (r: Vec<u8>)
    ensures
        r@ == request_bytes(*req),
{
    let mut out = req.method.as_bytes();
    out.push(32);
    append_bytes(&mut out, req.target.as_slice());
    out.push(32);
    let v = req.version.to_bytes();
    append_bytes(&mut out, v.as_slice());
    out.push(13);
    out.push(10);
    write_headers(&mut out, &req.headers);
    write_tail(&mut out, &req.headers, &req.body);
    proof {
        assert(out@ =~= request_bytes(*req));
    }
    out
}

} // verus!
