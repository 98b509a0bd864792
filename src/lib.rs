//! A JSON tokenizer and parser over UTF-8 text, with every recognizer,
//! the token driver and the value grammar stated and proved against a
//! byte-level model of the JSON grammar.

pub mod lexical;
pub mod locality;
pub mod value;
pub mod document;
pub mod grammar;
pub mod parser;
pub mod tokenizer;

pub use parser::{parse, ParseError, ParseErrorKind};
pub use tokenizer::{tokenize, LexError};
pub use value::{JsonValue, Span};
