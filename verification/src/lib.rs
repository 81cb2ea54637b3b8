//! A small lexical analyzer: it turns a text buffer into an ordered sequence
//! of classified tokens (keywords, identifiers, numeric literals, operators,
//! punctuation, whitespace markers, and unrecognized characters).
//!
//! The behaviour of the scanner is pinned down by the specification-level
//! model in [`model`]; the executable scanner lives in [`lexer`] and the
//! general properties of the model are proved in [`laws`].

pub mod bench;
pub mod laws;
pub mod lexer;
pub mod model;
pub mod token;

pub use lexer::tokenize;
pub use lexer::Lexer;
pub use token::LexError;
pub use token::Token;
