//! A minimal HTTP/1.1 client core: an ordered header collection with
//! case-insensitive lookup, and a request/response engine that builds GET
//! requests and parses responses (status line, header block, fixed-length
//! body) from raw bytes. All I/O stays outside; this crate is pure logic
//! over byte sequences.

pub mod headers;
pub mod http;
