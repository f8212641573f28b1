//! A decoder for JSON text.
//!
//! [`json`] reads one container document (an object or an array) from the
//! front of a text and returns the tree it denotes together with the text
//! that is left. The grammar is given as specification functions in
//! [`grammar`]; every executable parser is proved to compute exactly what
//! the grammar says.

pub mod error;
pub mod grammar;
pub mod laws;
pub mod lexical;
pub mod number;
pub mod parser;
pub mod stack;
pub mod syntax;
pub mod value;

pub use error::{Context, ErrorKind, ParseError};
pub use parser::json;
pub use value::{discard, JsonValue};
