//! The token data model of the tiny language.
//!
//! A token is a classified, indivisible lexical unit produced from a
//! contiguous span of source characters. `SpecToken` is the mathematical
//! image of a `Token`, used by the contracts: it replaces the machine integer
//! by `int` and the identifier text by its character sequence.

use vstd::prelude::*;

verus! {

/// The operator token kinds. Purely lexical: no precedence or meaning is
/// attached at this layer.
#[derive(Clone, Copy, Debug, PartialEq, Eq, Structural)]
pub enum Operator {
    Plus,
    Minus,
    Multiply,
    Divide,
    Equals,
}

/// The delimiter token kinds.
#[derive(Clone, Copy, Debug, PartialEq, Eq, Structural)]
pub enum Delimiter {
    LeftParenthesis,
    RightParenthesis,
    Semicolon,
}

/// A single token of the tiny language. `EndOfInput` is the sentinel that
/// ends every successful scan; it is produced exactly once per full scan and
/// repeats only when the caller keeps asking for tokens past the end.
#[derive(Clone, Debug, PartialEq, Eq)]
pub enum Token {
    Integer(i64),
    Identifier(String),
    Operator(Operator),
    Delimiter(Delimiter),
    EndOfInput,
}

/// A lexical error: either a character that no classification rule matches,
/// together with its offset in the input, or a digit run whose value does not
/// fit in a 64-bit signed integer.
#[derive(Clone, Copy, Debug, PartialEq, Eq, Structural)]
pub enum LexError {
    InvalidCharacter { character: char, offset: usize },
    NumericLiteralOverflow,
}

/// The mathematical image of a token, over unbounded integers and character
/// sequences. Contracts and the scanning model are stated in these terms.
#[verifier::ext_equal]
pub enum SpecToken {
    Integer(int),
    Identifier(Seq<char>),
    Operator(Operator),
    Delimiter(Delimiter),
    EndOfInput,
}

impl View for Token {
    type V = SpecToken;

    open spec fn view(&self) -> SpecToken {
        match self {
            Token::Integer(value) => SpecToken::Integer(*value as int),
            Token::Identifier(text) => SpecToken::Identifier(text@),
            Token::Operator(operator) => SpecToken::Operator(*operator),
            Token::Delimiter(delimiter) => SpecToken::Delimiter(*delimiter),
            Token::EndOfInput => SpecToken::EndOfInput,
        }
    }
}

} // verus!
