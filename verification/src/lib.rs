//! A tokenizer for a minimal arithmetic-and-assignment language: integer
//! literals, identifiers, the single-character operators `+ - * / =`, and the
//! delimiters `( ) ;`.
//!
//! The [`lexer::lexer::Lexer`] turns a source string into an ordered sequence
//! of [`lexer::token::Token`] values, stopping with a [`lexer::token::LexError`]
//! at the first character that no classification rule matches.

pub mod lexer;
