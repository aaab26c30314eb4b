//! A parser and serializer for a line-oriented, recursively nested, tagged
//! text format (the session-tree format used by `.rpp` project files).
//!
//! Raw bytes are parsed into an [`parser::Element`] tree and written back out
//! by [`serialize::serialize_to_string`]. The serializer is the inverse of the
//! parser: re-parsing serialized output yields a structurally equal tree,
//! which `laws` states and proves.

pub mod laws;
pub mod parser;
pub mod serialize;
