//! The lexical front end of a small language: a lookahead buffer over a
//! forward-only byte source, and a tokenizer that turns the bytes into
//! keywords, identifiers, operators, delimiters, separators and comments.
pub mod lexer;
pub mod multi_peek;
pub mod source;
pub mod token;

pub use lexer::{tokenize, Lexer, LexerError};
pub use multi_peek::MultiPeek;
pub use source::ByteSource;
pub use token::{Delimiter, Identifier, Keyword, Operator, Token};
