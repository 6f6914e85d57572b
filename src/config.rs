//! Limits and timeouts of the server.

use vstd::prelude::*;

verus! {

/// Limits on what a request may hold, and the timeouts of a connection (in seconds).
#[derive(Debug, Clone)]
pub struct HttpServerConfig {
    pub max_request_line_bytes: usize,
    pub max_header_bytes_total: usize,
    pub max_header_line_bytes: usize,
    pub max_header_count: usize,
    pub max_path_bytes: usize,
    pub max_query_bytes: usize,
    /// `None`: no limit.
    pub max_body_bytes: Option<usize>,
    pub max_chunk_size_bytes: usize,
    pub max_trailer_bytes_total: usize,
    pub header_read_timeout_secs: u64,
    pub request_body_timeout_secs: u64,
    pub keep_alive_timeout_secs: u64,
}

impl HttpServerConfig {
    /// Every limit is positive.
    pub open spec fn wf(&self) -> bool {
        &&& self.max_request_line_bytes > 0
        &&& self.max_header_bytes_total > 0
        &&& self.max_header_line_bytes > 0
        &&& self.max_header_count > 0
        &&& self.max_path_bytes > 0
        &&& self.max_query_bytes > 0
        &&& (self.max_body_bytes matches Some(m) ==> m > 0)
        &&& self.max_chunk_size_bytes > 0
        &&& self.max_trailer_bytes_total > 0
    }

    /// The defaults: 8 KiB request line, 64 KiB of headers, 8 KiB per header line, 100
    /// headers, 4 KiB path, 8 KiB query, no body limit, 8 MiB chunks, 8 KiB of trailers, and
    /// timeouts of 10 s (headers), 60 s (body) and 75 s (idle connection).
    pub fn default() -> (r: HttpServerConfig)
        ensures
            r.wf(),
            r.max_request_line_bytes == 8192,
            r.max_header_bytes_total == 65536,
            r.max_header_line_bytes == 8192,
            r.max_header_count == 100,
            r.max_path_bytes == 4096,
            r.max_query_bytes == 8192,
            r.max_body_bytes is None,
            r.max_chunk_size_bytes == 8388608,
            r.max_trailer_bytes_total == 8192,
            r.header_read_timeout_secs == 10,
            r.request_body_timeout_secs == 60,
            r.keep_alive_timeout_secs == 75,
    {
        HttpServerConfig {
            max_request_line_bytes: 8 * 1024,
            max_header_bytes_total: 64 * 1024,
            max_header_line_bytes: 8 * 1024,
            max_header_count: 100,
            max_path_bytes: 4 * 1024,
            max_query_bytes: 8 * 1024,
            max_body_bytes: None,
            max_chunk_size_bytes: 8 * 1024 * 1024,
            max_trailer_bytes_total: 8 * 1024,
            header_read_timeout_secs: 10,
            request_body_timeout_secs: 60,
            keep_alive_timeout_secs: 75,
        }
    }
}

} // verus!
