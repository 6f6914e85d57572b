//! A verified HTTP/1.1 message codec: byte scanning, request parsing, response serialization
//! and the per-connection keep-alive decisions. The I/O around it (sockets, timers, the
//! router) belongs to the caller, which feeds received bytes in and writes serialized
//! responses out.

pub mod scan;
pub mod num;
pub mod text;
pub mod ascii;
pub mod uri;
pub mod version;
pub mod method;
pub mod header;
pub mod fields;
pub mod host;
pub mod error;
pub mod config;
pub mod request;
pub mod response;
pub mod parser;
pub mod serialize;
pub mod connection;
pub mod api;
pub mod laws;
