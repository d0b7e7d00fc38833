//! Encoding and decoding of URL query strings.
//!
//! A query string is held as an ordered list of key/value pairs. It can be parsed from raw
//! text, rendered back as a percent-escaped query string or as a JSON-style object, searched
//! by key, and rewritten by key or by value.

pub mod laws;
pub mod model;
pub mod querystring;

pub use querystring::{QueryError, QueryParams};
