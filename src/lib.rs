//! Parser for a KeyValues-style configuration language: nested `key = value`
//! blocks, bare identifiers, quoted strings and numbers, turned into a tree of
//! values whose objects keep the order in which their keys first appeared.

pub mod token;
pub mod value;
pub mod error;
pub mod grammar;
pub mod laws;
pub mod parse_array;
pub mod parse_next_value;
pub mod parse_program;
pub mod parse_scope;
pub mod parse_simple_value;

pub use error::{Error, ErrorKind};
pub use parse_program::parse_program;
pub use token::{Lexer, Span, Token};
pub use value::{ObjectMap, Value};
