//! A permissive parser for a whitespace-significant configuration text format.
//!
//! The format is a superset of simple `key: value` files: values may be
//! strings (quoted or bare), integers, decimal numbers, booleans, nested
//! `{...}` blocks, `[...]` arrays, `(...)` tuples, and `:name` variants with
//! an optional payload. Malformed input never aborts a parse: the parser
//! records a diagnostic, resynchronizes at the next line, and keeps going, so
//! a best-effort value tree is always produced.
//!
//! Every parsing routine is specified against a mathematical model of the
//! grammar (see [`model`]) and verified to compute exactly what the model
//! says, and to terminate on every input.

pub mod model;
pub mod value;
pub mod parser;
pub mod laws;

pub use value::ErrorKind;
pub use value::ParseError;
pub use value::Struct;
pub use value::Value;
pub use parser::Parser;
