//! The scanner.
//!
//! A `Lexer` holds the source text and a cursor, hands out one token per call
//! to `next_token`, and scans the whole input with `scan`. Its contracts are
//! stated against the model in `crate::lexer::model`.

use vstd::prelude::*;
use vstd::string::{StrSliceExecFns, StringExecFns};

use crate::lexer::model::{
    lemma_digit_val_monotone, lemma_digit_val_nonneg, lemma_spec_next_bounds, lexeme_tokens,
    spec_digit_end, spec_digit_val, spec_ident_end, spec_is_digit, spec_is_ident_continue,
    spec_is_ident_start, spec_is_whitespace, spec_next, spec_scan_at, spec_skip_ws, tokens_view,
};
use crate::lexer::token::{Delimiter, LexError, Operator, Token};

verus! {

/// Whether `c` is one of the whitespace characters the scanner skips.
fn is_whitespace_char(c: char) -> (r: bool)
    ensures
        r == spec_is_whitespace(c),
{
    c == ' ' || c == '\t' || c == '\n' || c == '\r'
}

/// Whether `c` is an ASCII decimal digit.
fn is_digit_char(c: char) -> (r: bool)
    ensures
        r == spec_is_digit(c),
{
    let code: u32 = c as u32;
    48 <= code && code <= 57
}

/// Whether `c` may continue an identifier.
fn is_ident_continue_char(c: char) -> (r: bool)
    ensures
        r == spec_is_ident_continue(c),
{
    let code: u32 = c as u32;
    (65 <= code && code <= 90) || (97 <= code && code <= 122) || (48 <= code && code <= 57) || c
        == '_'
}

/// Whether `c` may start an identifier.
fn is_ident_start_char(c: char) -> (r: bool)
    ensures
        r == spec_is_ident_start(c),
{
    let code: u32 = c as u32;
    (65 <= code && code <= 90) || (97 <= code && code <= 122) || c == '_'
}

/// Represents the current state of the lexer: the input program and the
/// cursor, a character offset that starts at zero and never regresses.
pub struct Lexer<'a> {
    /// The input program to tokenize.
    input: &'a str,
    /// The position of the current token.
    position: usize,
}

impl<'a> Lexer<'a> {
    /// The input being scanned, as a character sequence.
    pub closed spec fn src(self) -> Seq<char> {
        self.input@
    }

    /// The cursor.
    pub closed spec fn pos(self) -> int {
        self.position as int
    }

    /// Well-formedness: the cursor stays inside the input.
    pub open spec fn wf(self) -> bool {
        self.pos() <= self.src().len() <= usize::MAX as int
    }

    /// Initialize a new lexer with a program, with the cursor at the start.
    pub fn new(input: &'a str) -> (lexer: Lexer<'a>)
        ensures
            lexer.src() == input@,
            lexer.pos() == 0,
            lexer.wf(),
    {
        let _length: usize = input.unicode_len();
        Lexer { input, position: 0 }
    }

    /// Peek at the current character without advancing.
    fn peek(&self) -> (r: Option<char>)
        requires
            self.wf(),
        ensures
            self.pos() < self.src().len() ==> r == Some(self.src()[self.pos()]),
            self.pos() >= self.src().len() ==> r is None,
    {
        if self.position < self.input.unicode_len() {
            Some(self.input.get_char(self.position))
        } else {
            None
        }
    }

    /// Advance by one character and return it.
    fn advance(&mut self) -> (r: Option<char>)
        requires
            old(self).wf(),
        ensures
            final(self).wf(),
            final(self).src() == old(self).src(),
            old(self).pos() < old(self).src().len() ==> r == Some(
                old(self).src()[old(self).pos()],
            ) && final(self).pos() == old(self).pos() + 1,
            old(self).pos() >= old(self).src().len() ==> r is None && final(self).pos() == old(
                self,
            ).pos(),
    {
        match self.peek() {
            Some(character) => {
                self.position = self.position + 1;
                Some(character)
            },
            None => None,
        }
    }

    /// Move the cursor forward past all whitespace.
    fn skip_whitespace(&mut self)
        requires
            old(self).wf(),
        ensures
            final(self).wf(),
            final(self).src() == old(self).src(),
            final(self).pos() == spec_skip_ws(old(self).src(), old(self).pos()),
    {
        let ghost s = self.src();
        let ghost start = self.pos();
        loop
            invariant
                self.wf(),
                self.src() == s,
                start <= self.pos(),
                spec_skip_ws(s, start) == spec_skip_ws(s, self.pos()),
            ensures
                self.wf(),
                self.src() == s,
                self.pos() == spec_skip_ws(s, start),
            decreases s.len() - self.pos(),
        {
            match self.peek() {
                Some(character) => {
                    if is_whitespace_char(character) {
                        self.advance();
                    } else {
                        break ;
                    }
                },
                None => {
                    break ;
                },
            }
        }
    }

    /// Retrieve the next integer literal. The cursor must stand on a digit;
    /// the maximal run of digits is consumed and parsed, and a run whose
    /// value does not fit in an `i64` is a `NumericLiteralOverflow`.
    fn next_literal(&mut self) -> (r: Result<i64, LexError>)
        requires
            old(self).wf(),
            old(self).pos() < old(self).src().len(),
            spec_is_digit(old(self).src()[old(self).pos()]),
        ensures
            final(self).wf(),
            final(self).src() == old(self).src(),
            final(self).pos() == spec_digit_end(old(self).src(), old(self).pos()),
            ({
                let v = spec_digit_val(
                    old(self).src(),
                    old(self).pos(),
                    spec_digit_end(old(self).src(), old(self).pos()),
                );
                match r {
                    Ok(value) => v <= i64::MAX && value as int == v,
                    Err(e) => v > i64::MAX && e == LexError::NumericLiteralOverflow,
                }
            }),
    {
        let ghost s = self.src();
        let start: usize = self.position;
        loop
            invariant
                self.wf(),
                self.src() == s,
                start <= self.pos(),
                spec_digit_end(s, start as int) == spec_digit_end(s, self.pos()),
                forall|p: int| start <= p < self.pos() ==> spec_is_digit(s[p]),
            ensures
                self.wf(),
                self.src() == s,
                start <= self.pos(),
                self.pos() == spec_digit_end(s, start as int),
                forall|p: int| start <= p < self.pos() ==> spec_is_digit(s[p]),
            decreases s.len() - self.pos(),
        {
            match self.peek() {
                Some(character) => {
                    if is_digit_char(character) {
                        self.advance();
                    } else {
                        break ;
                    }
                },
                None => {
                    break ;
                },
            }
        }
        let end: usize = self.position;
        let mut value: i64 = 0;
        let mut index: usize = start;
        while index < end
            invariant
                self.wf(),
                self.src() == s,
                s == old(self).src(),
                start as int == old(self).pos(),
                start <= index <= end,
                end as int == spec_digit_end(s, start as int),
                end as int <= s.len(),
                self.pos() == end as int,
                forall|p: int| start <= p < end ==> spec_is_digit(s[p]),
                0 <= value,
                value as int == spec_digit_val(s, start as int, index as int),
            decreases end - index,
        {
            let character: char = self.input.get_char(index);
            let digit: i64 = ((character as u32) - 48) as i64;
            proof {
                lemma_digit_val_nonneg(s, start as int, index + 1);
            }
            let scaled: i64 = match value.checked_mul(10) {
                Some(scaled) => scaled,
                None => {
                    proof {
                        lemma_digit_val_monotone(s, start as int, index + 1, end as int);
                    }
                    return Err(LexError::NumericLiteralOverflow);
                },
            };
            value = match scaled.checked_add(digit) {
                Some(next_value) => next_value,
                None => {
                    proof {
                        lemma_digit_val_monotone(s, start as int, index + 1, end as int);
                    }
                    return Err(LexError::NumericLiteralOverflow);
                },
            };
            index = index + 1;
        }
        Ok(value)
    }

    /// Retrieve the next identifier. The cursor must stand on a letter or an
    /// underscore; that character and the maximal following run of letters,
    /// digits and underscores are consumed and returned verbatim.
    fn next_identifier(&mut self) -> (r: String)
        requires
            old(self).wf(),
            old(self).pos() < old(self).src().len(),
            spec_is_ident_start(old(self).src()[old(self).pos()]),
        ensures
            final(self).wf(),
            final(self).src() == old(self).src(),
            final(self).pos() == spec_ident_end(old(self).src(), old(self).pos() + 1),
            r@ == old(self).src().subrange(old(self).pos(), final(self).pos()),
    {
        let ghost s = self.src();
        let start: usize = self.position;
        self.advance();
        loop
            invariant
                self.wf(),
                self.src() == s,
                start < self.pos(),
                spec_ident_end(s, start + 1) == spec_ident_end(s, self.pos()),
            ensures
                self.wf(),
                self.src() == s,
                start < self.pos(),
                self.pos() == spec_ident_end(s, start + 1),
            decreases s.len() - self.pos(),
        {
            match self.peek() {
                Some(character) => {
                    if is_ident_continue_char(character) {
                        self.advance();
                    } else {
                        break ;
                    }
                },
                None => {
                    break ;
                },
            }
        }
        let text: &str = self.input.substring_char(start, self.position);
        String::from_str(text)
    }

    /// Retrieves the next token, advancing the cursor past the consumed
    /// characters, or reports the first lexical error without advancing past
    /// the offending character. The token produced, the error reported and
    /// the new cursor are exactly those of `spec_next`; in particular, at
    /// end-of-text the call returns `EndOfInput` and moves the cursor no
    /// further, however often it is repeated.
    pub fn next_token(&mut self) -> (r: Result<Token, LexError>)
        requires
            old(self).wf(),
        ensures
            final(self).wf(),
            final(self).src() == old(self).src(),
            old(self).pos() <= final(self).pos(),
            final(self).pos() == spec_next(old(self).src(), old(self).pos()).1,
            (match (r, spec_next(old(self).src(), old(self).pos()).0) {
                (Ok(token), Ok(spec_token)) => token@ == spec_token,
                (Err(e), Err(spec_e)) => e == spec_e,
                _ => false,
            }),
    {
        proof {
            lemma_spec_next_bounds(self.src(), self.pos());
        }
        self.skip_whitespace();
        let character: char = match self.peek() {
            Some(c) => c,
            None => {
                return Ok(Token::EndOfInput);
            },
        };
        if is_digit_char(character) {
            return match self.next_literal() {
                Ok(value) => Ok(Token::Integer(value)),
                Err(e) => Err(e),
            };
        }
        if is_ident_start_char(character) {
            let identifier: String = self.next_identifier();
            return Ok(Token::Identifier(identifier));
        }
        let token: Token = match character {
            '+' => Token::Operator(Operator::Plus),
            '-' => Token::Operator(Operator::Minus),
            '*' => Token::Operator(Operator::Multiply),
            '/' => Token::Operator(Operator::Divide),
            '=' => Token::Operator(Operator::Equals),
            '(' => Token::Delimiter(Delimiter::LeftParenthesis),
            ')' => Token::Delimiter(Delimiter::RightParenthesis),
            ';' => Token::Delimiter(Delimiter::Semicolon),
            _ => {
                return Err(
                    LexError::InvalidCharacter { character, offset: self.position },
                );
            },
        };
        self.advance();
        Ok(token)
    }

    /// Scans the entire input: repeatedly retrieves the next token, up to and
    /// including the `EndOfInput` sentinel, and returns the full ordered
    /// token sequence, or the first lexical error with no tokens at all. The
    /// sequence returned carries exactly the tokens of `spec_scan_at`.
    pub fn scan(&mut self) -> (r: Result<Vec<Token>, LexError>)
        requires
            old(self).wf(),
        ensures
            final(self).wf(),
            final(self).src() == old(self).src(),
            old(self).pos() <= final(self).pos(),
            (match (r, spec_scan_at(old(self).src(), old(self).pos())) {
                (Ok(tokens), Ok(lexemes)) => tokens_view(tokens@) == lexeme_tokens(lexemes),
                (Err(e), Err(spec_e)) => e == spec_e,
                _ => false,
            }),
    {
        let ghost s = self.src();
        let ghost initial = self.pos();
        let mut tokens: Vec<Token> = Vec::new();
        proof {
            if let Ok(all) = spec_scan_at(s, initial) {
                assert(lexeme_tokens(all) =~= tokens_view(tokens@) + lexeme_tokens(all));
            }
        }
        loop
            invariant_except_break
                (match (spec_scan_at(s, initial), spec_scan_at(s, self.pos())) {
                    (Ok(all), Ok(rest)) => lexeme_tokens(all) == tokens_view(tokens@)
                        + lexeme_tokens(rest),
                    (Err(e), Err(rest_e)) => e == rest_e,
                    _ => false,
                }),
            invariant
                self.wf(),
                self.src() == s,
                s == old(self).src(),
                initial == old(self).pos(),
                initial <= self.pos(),
            ensures
                self.wf(),
                self.src() == s,
                initial <= self.pos(),
                spec_scan_at(s, initial) is Ok,
                lexeme_tokens(spec_scan_at(s, initial)->Ok_0) == tokens_view(tokens@),
            decreases s.len() - self.pos(),
        {
            let ghost position = self.pos();
            proof {
                lemma_spec_next_bounds(s, position);
            }
            let token: Token = match self.next_token() {
                Ok(token) => token,
                Err(e) => {
                    return Err(e);
                },
            };
            let is_end: bool = matches!(token, Token::EndOfInput);
            let ghost previous = tokens@;
            tokens.push(token);
            proof {
                assert(tokens_view(tokens@) =~= tokens_view(previous).push(token@));
                if let Ok(rest) = spec_scan_at(s, position) {
                    let advanced = spec_next(s, position).1;
                    if !is_end {
                        if let Ok(remaining) = spec_scan_at(s, advanced) {
                            assert(lexeme_tokens(rest) =~= seq![rest[0].token]
                                + lexeme_tokens(remaining));
                            assert(tokens_view(previous) + lexeme_tokens(rest) =~= tokens_view(
                                tokens@,
                            ) + lexeme_tokens(remaining));
                        }
                    } else {
                        assert(lexeme_tokens(rest) =~= seq![rest[0].token]);
                        assert(tokens_view(previous) + lexeme_tokens(rest) =~= tokens_view(
                            tokens@,
                        ));
                    }
                }
            }
            if is_end {
                break ;
            }
        }
        Ok(tokens)
    }
}

} // verus!
