//! Reformatting of JSON text: a value model, a parser and a layout-aware formatter.
//!
//! Number literals are kept verbatim: the formatter writes each number exactly as the
//! parser read it, so no precision is lost and none is invented.
pub mod value;
pub mod printer;
pub mod parse;
pub mod laws;

pub use printer::{format_value, IndentUnit, LayoutStyle};
pub use parse::{number_value, parse, ParseError, ParseErrorKind, UnrepresentableValue};
pub use value::Value;
