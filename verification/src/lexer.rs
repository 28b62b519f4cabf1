//! The lexer converts an input program into a stream of tokens.
//!
//! `token` holds the token data model, `model` the mathematical description of
//! scanning that the contracts are stated over, and `lexer` the scanner itself.

pub mod lexer;
pub mod model;
pub mod token;
