//! A small lexing engine: a cursor over a source text, tokens that carry a
//! kind and a byte span, and a driver that turns a classification function
//! into a peekable token sequence in which runs of error tokens are merged.

pub mod input;
pub mod lexer;
pub mod peekable;
pub mod span;
pub mod stream;
pub mod token;
pub mod utf8;

pub use span::Span;
