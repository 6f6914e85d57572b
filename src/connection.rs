//! The decisions of a connection: when to close, what to answer a failed parse or a failed
//! router with, and the buffer of bytes received but not yet parsed. The I/O around them is
//! left to the caller: it feeds received bytes in, writes the serialized responses out, and
//! stops when told to close.

use crate::config::HttpServerConfig;
use crate::error::{status_for, HttpParseError, Location, ParseErrorKind};
use crate::fields::{close_token, connection_has, has_connection_option, keep_alive_token, ConnectionType};
use crate::header::{append_bytes, Builtin};
use crate::parser::{get_line, headers_spec, key_of, line_at, outcome_matches, parse_headers, parse_request, parse_spec, HeadersStep, ParseOutcome};
use crate::request::Request;
use crate::response::{Response, ResponseBuilder, StatusCode};
use crate::version::HttpVersion;
use vstd::prelude::*;

verus! {

/// The client asked to close: `Connection: close`, or HTTP/1.0 without `keep-alive`.
pub open spec fn client_closes(req: Request) -> bool {
    connection_has(req.headers, close_token()) || (req.version == (HttpVersion { major: 1, minor: 0 })
        && !connection_has(req.headers, keep_alive_token()))
}

/// The response announces `Connection: close`.
pub open spec fn server_closes(res: Response) -> bool {
    connection_has(res.headers, close_token())
}

fn close_bytes() -> (r: Vec<u8>)
    ensures
        r@ == close_token(),
{
    let r: Vec<u8> = vec![99, 108, 111, 115, 101];
    proof {
        assert(r@ =~= close_token());
    }
    r
}

/// Whether the client asked to close the connection after this request.
pub fn client_wants_close(req: &Request) -> (r: bool)
    ensures
        r == client_closes(*req),
{
    let close = close_bytes();
    if has_connection_option(&req.headers, close.as_slice()) {
        return true;
    }
    let keep: Vec<u8> = vec![107, 101, 101, 112, 45, 97, 108, 105, 118, 101];
    proof {
        assert(keep@ =~= keep_alive_token());
    }
    req.version.major == 1 && req.version.minor == 0 && !has_connection_option(&req.headers, keep.as_slice())
}

/// Whether the response announces that the connection closes.
pub fn response_closes(res: &Response) -> (r: bool)
    ensures
        r == server_closes(*res),
{
    let close = close_bytes();
    has_connection_option(&res.headers, close.as_slice())
}

/// Whether the connection stays open after `res` answers `req`: neither side asked to close.
pub fn keep_alive(req: &Request, res: &Response) -> (r: bool)
    ensures
        r == !(client_closes(*req) || server_closes(*res)),
{
    !client_wants_close(req) && !response_closes(res)
}

/// The answer to a request that failed to parse: the error's status, `Connection: close`,
/// no body.
pub fn error_response(err: &HttpParseError) -> (r: Response)
    ensures
        r.status.code() == status_for(err.kind),
        r.version == (HttpVersion { major: 1, minor: 1 }),
        r.body is Empty,
        r.headers.wf(),
        r.headers.values_of(key_of(Builtin::Connection)) == seq![ConnectionType::Close.to_header_value_spec()],
{
    let status = err.status_code();
    let b = ResponseBuilder::new(HttpVersion::http_1_1(), status).set_connection(ConnectionType::Close);
    proof {
        assert(seq![ConnectionType::Close.to_header_value_spec()] =~= Seq::<Seq<u8>>::empty().push(ConnectionType::Close.to_header_value_spec()));
    }
    b.build()
}

/// The answer to a request the router failed on: 500 and `Connection: close`.
pub fn router_error_response(req: &Request) -> (r: Response)
    ensures
        r.status.code() == 500,
        r.version == req.version,
        r.body is Empty,
        r.headers.wf(),
        r.headers.values_of(key_of(Builtin::Connection)) == seq![ConnectionType::Close.to_header_value_spec()],
{
    let b = ResponseBuilder::from_req(req, StatusCode::new(500)).set_connection(ConnectionType::Close);
    proof {
        assert(seq![ConnectionType::Close.to_header_value_spec()] =~= Seq::<Seq<u8>>::empty().push(ConnectionType::Close.to_header_value_spec()));
    }
    b.build()
}

/// Reads requests, one at a time, from the bytes a connection has received.
pub struct Parser {
    buf: Vec<u8>,
    config: HttpServerConfig,
}

impl Parser {
    /// The bytes received and not yet consumed by a parsed request.
    pub closed spec fn buffered(&self) -> Seq<u8> {
        self.buf@
    }

    /// The limits the parser applies.
    pub closed spec fn cfg(&self) -> HttpServerConfig {
        self.config
    }

    pub fn new(config: HttpServerConfig) -> (r: Parser)
        ensures
            r.buffered() == Seq::<u8>::empty(),
            r.cfg() == config,
    {
        Parser { buf: Vec::new(), config }
    }

    /// Appends bytes received from the peer.
    pub fn feed(&mut self, bytes: &[u8])
        ensures
            final(self).buffered() == old(self).buffered() + bytes@,
            final(self).cfg() == old(self).cfg(),
    {
        append_bytes(&mut self.buf, bytes);
    }

    /// Parses the next request from the buffered bytes, consuming it when complete.
    pub fn parse_request(&mut self) -> (r: ParseOutcome)
        ensures
            outcome_matches(r, parse_spec(old(self).buffered(), old(self).cfg())),
            final(self).cfg() == old(self).cfg(),
            match r {
                ParseOutcome::Complete(_, n) => final(self).buffered() == old(self).buffered().subrange(
                    n as int,
                    old(self).buffered().len() as int,
                ),
                _ => final(self).buffered() == old(self).buffered(),
            },
    {
        let r = parse_request(self.buf.as_slice(), &self.config);
        if let ParseOutcome::Complete(_, n) = &r {
            let rest = self.buf.split_off(*n);
            self.buf = rest;
        }
        r
    }

    /// The part of a request that the pending bytes have reached.
    pub open spec fn progress(&self) -> Location {
        match line_at(self.buffered(), 0) {
            None => Location::StartLine,
            Some((_, _, n)) => match headers_spec(self.buffered(), self.cfg(), n as int, n as int, 0, Seq::empty()) {
                HeadersStep::Done(_, _) => Location::Body,
                _ => Location::Headers,
            },
        }
    }

    /// Which part of a request the pending bytes have reached, as `progress` states it.
    pub fn current_part(&self) -> (r: Location)
        ensures
            r == self.progress(),
    {
        match get_line(self.buf.as_slice(), 0) {
            None => Location::StartLine,
            Some((_, _, n)) => match parse_headers(self.buf.as_slice(), &self.config, n) {
                Ok(Some(_)) => Location::Body,
                _ => Location::Headers,
            },
        }
    }

    /// What the end of the stream means: nothing where no bytes are pending, else an
    /// incomplete message, located in the part that was being read.
    pub fn end_of_stream(&self) -> (r: Option<HttpParseError>)
        ensures
            r is Some == (self.buffered().len() > 0),
            r matches Some(e) ==> e.kind == ParseErrorKind::IncompleteMessage && e.offset
                == self.buffered().len() && e.location == self.progress(),
    {
        if self.buf.len() == 0 {
            return None;
        }
        let location = self.current_part();
        Some(HttpParseError { kind: ParseErrorKind::IncompleteMessage, location, offset: self.buf.len(), line: None })
    }

    /// No bytes are pending: the connection is between requests.
    pub fn is_idle(&self) -> (r: bool)
        ensures
            r == (self.buffered().len() == 0),
    {
        self.buf.len() == 0
    }

    /// What a failed read means: an I/O error in the part that was being read.
    pub fn on_io_error(&self, kind: std::io::ErrorKind) -> (r: HttpParseError)
        ensures
            r.kind == ParseErrorKind::Io(kind),
            r.location == self.progress(),
            r.offset == self.buffered().len(),
    {
        let location = self.current_part();
        HttpParseError { kind: ParseErrorKind::Io(kind), location, offset: self.buf.len(), line: None }
    }

    /// How long to wait for more bytes, in seconds: the keep-alive timeout between requests,
    /// the body timeout once the head is complete, else the header timeout.
    pub fn read_timeout_secs(&self) -> (r: u64)
        ensures
            self.buffered().len() == 0 ==> r == self.cfg().keep_alive_timeout_secs,
            self.buffered().len() > 0 && self.progress() == Location::Body ==> r
                == self.cfg().request_body_timeout_secs,
            self.buffered().len() > 0 && self.progress() != Location::Body ==> r
                == self.cfg().header_read_timeout_secs,
    {
        if self.buf.len() == 0 {
            self.config.keep_alive_timeout_secs
        } else if self.current_part() == Location::Body {
            self.config.request_body_timeout_secs
        } else {
            self.config.header_read_timeout_secs
        }
    }

    /// What a timeout means: nothing while idle between requests (the connection just
    /// closes), else a timeout error in the part that was being read.
    pub fn on_timeout(&self) -> (r: Option<HttpParseError>)
        ensures
            r is Some == (self.buffered().len() > 0),
            r matches Some(e) ==> e.kind == ParseErrorKind::Timeout && e.offset == self.buffered().len()
                && e.location == self.progress(),
    {
        if self.buf.len() == 0 {
            return None;
        }
        let location = self.current_part();
        Some(HttpParseError { kind: ParseErrorKind::Timeout, location, offset: self.buf.len(), line: None })
    }
}

/// Whether the connection closes after answering `req` with `res`: when the router failed,
/// or when either side asked to close.
pub fn closes_after(req: &Request, res: &Response, router_failed: bool) -> (r: bool)
    ensures
        r == (router_failed || client_closes(*req) || server_closes(*res)),
{
    router_failed || !keep_alive(req, res)
}

} // verus!
