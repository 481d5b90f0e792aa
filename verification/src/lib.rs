//! The core of a small HTTP/1.1 server, verified.
//!
//! Everything here works on plain bytes and touches neither sockets nor
//! files. The program around it reads from the connection, performs the file
//! system actions that the library names, and writes what the library hands
//! back.
//!
//! - [`text`]: byte strings: scanning, trimming, splitting, decimal numbers.
//! - [`utf8`]: checking that bytes are well-formed UTF-8.
//! - [`headers`]: ordered header lists and their two lookups.
//! - [`http_request`]: requests, and the parser that reads one from the bytes
//!   received so far.
//! - [`http_response`]: responses and their form on the wire.
//! - [`compression_utils`]: gzip compression of response bodies.
//! - [`files_util`]: requests under `/files/`, as an action and its outcome.
//! - [`handle_request`]: routing and the handlers.
//! - [`connection`]: the life of one connection as a state machine.

pub mod compression_utils;
pub mod connection;
pub mod files_util;
pub mod handle_request;
pub mod headers;
pub mod http_request;
pub mod http_response;
pub mod text;
pub mod utf8;
