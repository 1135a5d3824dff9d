//! Zero-copy parser for HTTP/1.x message heads.
//!
//! [`parse_request`] and [`parse_response`] scan a byte buffer holding a
//! complete message (start line, header block, body) in one left-to-right
//! pass and return a structured view whose fields are borrowed sub-slices
//! of that buffer.  Malformed or truncated input is reported as a typed
//! [`ParseError`], never a panic.

pub mod headers;
pub mod model;
pub mod parse;
pub mod scan;

pub use headers::Headers;
pub use parse::parse_request;
pub use parse::parse_response;
pub use parse::ParseError;
pub use parse::Request;
pub use parse::Response;
pub use scan::bytes_eq;
pub use scan::find_from;
