//! A small JSON front end: a lexer that turns text into tokens and a
//! recursive-descent parser that turns tokens into a value tree.
pub mod value;
pub mod lexer;
pub mod parser;
pub mod laws;

pub use lexer::{lex, LexerError, Token};
pub use parser::parse;
pub use value::{JsonNumber, JsonValue};
