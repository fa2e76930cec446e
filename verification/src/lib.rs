//! A stack-based JSON parser.
//!
//! The parser converts a textual JSON document into a dynamically typed
//! [`JsonValue`] tree in a single left-to-right pass.  Nesting is tracked on an
//! explicit, heap-resident stack of parsing contexts rather than through
//! recursive descent, so the depth of a document is bounded only by available
//! memory, never by the host call stack.
//!
//! Dialect: strict JSON.  Object keys must be double-quoted strings; a comma
//! must be followed by another element or member; `true`, `false` and `null`
//! are the only bareword literals.  An integer literal that does not fit a
//! signed 64-bit value is reported as a number-overflow error; a literal with
//! a decimal point or exponent is kept as its raw text in
//! [`JsonNumber::Float`], so no floating-point arithmetic happens here.

pub mod decode;
pub mod engine;
pub mod error;
pub mod value;
pub mod number;
mod strutil;

pub use decode::FromJson;
pub use decode::decode_array;
pub use decode::decode_entries;
pub use decode::to_rust;
pub use engine::parse_str;
pub use error::CtxKind;
pub use error::DecodeError;
pub use error::ShapeKind;
pub use error::ParseError;
pub use error::ParseErrorKind;
pub use value::JsonNumber;
pub use value::JsonValue;
