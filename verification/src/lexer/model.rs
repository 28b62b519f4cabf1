//! The mathematical model of scanning.
//!
//! Scanning is described by pure functions over the input character sequence
//! and a cursor: `spec_skip_ws` skips whitespace, `spec_digit_end` and
//! `spec_ident_end` find the maximal runs that make up integer literals and
//! identifiers, `spec_next` classifies the next token, and `spec_scan_at`
//! describes a full scan as the sequence of produced tokens, each paired with
//! the source span it consumed. The scanner's contracts are stated against
//! these functions, and the laws at the end of this file are proved of them.

use vstd::prelude::*;

use crate::lexer::token::{Delimiter, LexError, Operator, SpecToken, Token};

verus! {

/// The whitespace characters that the scanner skips between tokens.
pub open spec fn spec_is_whitespace(c: char) -> bool {
    c == ' ' || c == '\t' || c == '\n' || c == '\r'
}

/// ASCII decimal digits.
pub open spec fn spec_is_digit(c: char) -> bool {
    48 <= c as int && c as int <= 57
}

/// ASCII letters.
pub open spec fn spec_is_alphabetic(c: char) -> bool {
    (65 <= c as int && c as int <= 90) || (97 <= c as int && c as int <= 122)
}

/// Characters that may start an identifier: a letter or an underscore.
pub open spec fn spec_is_ident_start(c: char) -> bool {
    spec_is_alphabetic(c) || c == '_'
}

/// Characters that may continue an identifier: a letter, a digit, or an
/// underscore.
pub open spec fn spec_is_ident_continue(c: char) -> bool {
    spec_is_alphabetic(c) || spec_is_digit(c) || c == '_'
}

/// The numeric value of a digit character.
pub open spec fn spec_digit_of(c: char) -> int {
    c as int - 48
}

/// The single-character operator and delimiter tokens.
pub open spec fn spec_symbol_token(c: char) -> Option<SpecToken> {
    if c == '+' {
        Some(SpecToken::Operator(Operator::Plus))
    } else if c == '-' {
        Some(SpecToken::Operator(Operator::Minus))
    } else if c == '*' {
        Some(SpecToken::Operator(Operator::Multiply))
    } else if c == '/' {
        Some(SpecToken::Operator(Operator::Divide))
    } else if c == '=' {
        Some(SpecToken::Operator(Operator::Equals))
    } else if c == '(' {
        Some(SpecToken::Delimiter(Delimiter::LeftParenthesis))
    } else if c == ')' {
        Some(SpecToken::Delimiter(Delimiter::RightParenthesis))
    } else if c == ';' {
        Some(SpecToken::Delimiter(Delimiter::Semicolon))
    } else {
        None
    }
}

/// The first position at or after `i` that does not hold whitespace.
pub open spec fn spec_skip_ws(s: Seq<char>, i: int) -> int
    decreases s.len() - i
        when 0 <= i <= s.len()
{
    if i < s.len() && spec_is_whitespace(s[i]) {
        spec_skip_ws(s, i + 1)
    } else {
        i
    }
}

/// The end of the maximal run of digits starting at `i`.
pub open spec fn spec_digit_end(s: Seq<char>, i: int) -> int
    decreases s.len() - i
        when 0 <= i <= s.len()
{
    if i < s.len() && spec_is_digit(s[i]) {
        spec_digit_end(s, i + 1)
    } else {
        i
    }
}

/// The end of the maximal run of identifier-continue characters starting at
/// `i`.
pub open spec fn spec_ident_end(s: Seq<char>, i: int) -> int
    decreases s.len() - i
        when 0 <= i <= s.len()
{
    if i < s.len() && spec_is_ident_continue(s[i]) {
        spec_ident_end(s, i + 1)
    } else {
        i
    }
}

/// The numeric value of the digit run `s[i..j)`, read in base ten.
pub open spec fn spec_digit_val(s: Seq<char>, i: int, j: int) -> int
    decreases j - i
        when i <= j
{
    if i >= j {
        0
    } else {
        spec_digit_val(s, i, j - 1) * 10 + spec_digit_of(s[j - 1])
    }
}

/// Classification of the next token from cursor `i`: the token produced (or
/// the lexical error), and the cursor after the call.
pub open spec fn spec_next(s: Seq<char>, i: int) -> (Result<SpecToken, LexError>, int) {
    let j = spec_skip_ws(s, i);
    if j >= s.len() {
        (Ok(SpecToken::EndOfInput), j)
    } else if spec_is_digit(s[j]) {
        let k = spec_digit_end(s, j);
        let v = spec_digit_val(s, j, k);
        if v <= i64::MAX {
            (Ok(SpecToken::Integer(v)), k)
        } else {
            (Err(LexError::NumericLiteralOverflow), k)
        }
    } else if spec_is_ident_start(s[j]) {
        let k = spec_ident_end(s, j + 1);
        (Ok(SpecToken::Identifier(s.subrange(j, k))), k)
    } else if spec_symbol_token(s[j]) is Some {
        (Ok(spec_symbol_token(s[j])->Some_0), j + 1)
    } else {
        (Err(LexError::InvalidCharacter { character: s[j], offset: j as usize }), j)
    }
}

/// One produced token together with the source span `[start, end)` it
/// consumed. The `EndOfInput` sentinel consumes nothing: its span is empty.
#[verifier::ext_equal]
pub struct Lexeme {
    pub token: SpecToken,
    pub start: int,
    pub end: int,
}

/// A full scan from cursor `i`: the sequence of produced lexemes, ending with
/// the `EndOfInput` sentinel, or the first lexical error.
pub open spec fn spec_scan_at(s: Seq<char>, i: int) -> Result<Seq<Lexeme>, LexError>
    decreases s.len() - i
        when 0 <= i <= s.len()
{
    let start = spec_skip_ws(s, i);
    let next = spec_next(s, i);
    match next.0 {
        Err(e) => Err(e),
        Ok(token) => {
            if token is EndOfInput {
                Ok(seq![Lexeme { token, start, end: next.1 }])
            } else {
                proof {
                    lemma_spec_next_bounds(s, i);
                }
                match spec_scan_at(s, next.1) {
                    Ok(rest) => Ok(seq![Lexeme { token, start, end: next.1 }] + rest),
                    Err(e) => Err(e),
                }
            }
        },
    }
}

/// The tokens of a sequence of lexemes, spans forgotten.
pub open spec fn lexeme_tokens(lexemes: Seq<Lexeme>) -> Seq<SpecToken> {
    lexemes.map_values(|lexeme: Lexeme| lexeme.token)
}

/// The mathematical images of a sequence of produced tokens.
pub open spec fn tokens_view(tokens: Seq<Token>) -> Seq<SpecToken> {
    tokens.map_values(|token: Token| token@)
}

/// The token sequence of a full scan of `s` from the beginning.
pub open spec fn spec_tokens(s: Seq<char>) -> Result<Seq<SpecToken>, LexError> {
    match spec_scan_at(s, 0) {
        Ok(lexemes) => Ok(lexeme_tokens(lexemes)),
        Err(e) => Err(e),
    }
}

/// Whitespace skipping never regresses, never leaves the input, skips only
/// whitespace, and stops at the first non-whitespace character.
pub proof fn lemma_skip_ws_props(s: Seq<char>, i: int)
    requires
        0 <= i <= s.len(),
    ensures
        i <= spec_skip_ws(s, i) <= s.len(),
        forall|p: int| i <= p < spec_skip_ws(s, i) ==> spec_is_whitespace(s[p]),
        spec_skip_ws(s, i) < s.len() ==> !spec_is_whitespace(s[spec_skip_ws(s, i)]),
    decreases s.len() - i,
{
    if i < s.len() && spec_is_whitespace(s[i]) {
        lemma_skip_ws_props(s, i + 1);
    }
}

/// The digit run found by `spec_digit_end` stays inside the input, holds only
/// digits, and is maximal.
pub proof fn lemma_digit_end_props(s: Seq<char>, i: int)
    requires
        0 <= i <= s.len(),
    ensures
        i <= spec_digit_end(s, i) <= s.len(),
        forall|p: int| i <= p < spec_digit_end(s, i) ==> spec_is_digit(s[p]),
        spec_digit_end(s, i) < s.len() ==> !spec_is_digit(s[spec_digit_end(s, i)]),
    decreases s.len() - i,
{
    if i < s.len() && spec_is_digit(s[i]) {
        lemma_digit_end_props(s, i + 1);
    }
}

/// The identifier run found by `spec_ident_end` stays inside the input, holds
/// only identifier-continue characters, and is maximal.
pub proof fn lemma_ident_end_props(s: Seq<char>, i: int)
    requires
        0 <= i <= s.len(),
    ensures
        i <= spec_ident_end(s, i) <= s.len(),
        forall|p: int| i <= p < spec_ident_end(s, i) ==> spec_is_ident_continue(s[p]),
        spec_ident_end(s, i) < s.len() ==> !spec_is_ident_continue(s[spec_ident_end(s, i)]),
    decreases s.len() - i,
{
    if i < s.len() && spec_is_ident_continue(s[i]) {
        lemma_ident_end_props(s, i + 1);
    }
}

/// The value of a digit run is never negative.
pub proof fn lemma_digit_val_nonneg(s: Seq<char>, i: int, j: int)
    requires
        i <= j,
        forall|p: int| i <= p < j ==> spec_is_digit(s[p]),
    ensures
        0 <= spec_digit_val(s, i, j),
    decreases j - i,
{
    if i < j {
        lemma_digit_val_nonneg(s, i, j - 1);
    }
}

/// Extending a digit run to the right never shrinks its value.
pub proof fn lemma_digit_val_monotone(s: Seq<char>, i: int, j: int, k: int)
    requires
        i <= j <= k,
        forall|p: int| i <= p < k ==> spec_is_digit(s[p]),
    ensures
        spec_digit_val(s, i, j) <= spec_digit_val(s, i, k),
    decreases k - j,
{
    if j < k {
        lemma_digit_val_monotone(s, i, j, k - 1);
        lemma_digit_val_nonneg(s, i, k - 1);
    }
}

/// The cursor after classifying one token never regresses and never leaves
/// the input, and every token other than `EndOfInput` advances it.
pub proof fn lemma_spec_next_bounds(s: Seq<char>, i: int)
    requires
        0 <= i <= s.len(),
    ensures
        i <= spec_next(s, i).1 <= s.len(),
        spec_skip_ws(s, i) <= spec_next(s, i).1,
        (match spec_next(s, i).0 {
            Ok(token) => !(token is EndOfInput) ==> spec_skip_ws(s, i) < spec_next(s, i).1
                && spec_next(s, i).1 > i,
            Err(_) => true,
        }),
{
    lemma_skip_ws_props(s, i);
    let j = spec_skip_ws(s, i);
    if j < s.len() {
        if spec_is_digit(s[j]) {
            lemma_digit_end_props(s, j);
            assert(spec_digit_end(s, j) == spec_digit_end(s, j + 1));
            lemma_digit_end_props(s, j + 1);
        } else if spec_is_ident_start(s[j]) {
            lemma_ident_end_props(s, j + 1);
        }
    }
}

/// Whether position `p` of the input lies inside the source span of some
/// lexeme of `lexemes`.
pub open spec fn spec_covered(lexemes: Seq<Lexeme>, p: int) -> bool {
    exists|k: int| 0 <= k < lexemes.len() && (#[trigger] lexemes[k]).start <= p < lexemes[k].end
}

/// Law: an input consisting solely of whitespace scans to exactly the
/// `EndOfInput` sentinel and nothing else.
pub proof fn lemma_whitespace_scans_to_end_marker(s: Seq<char>)
    requires
        forall|p: int| 0 <= p < s.len() ==> spec_is_whitespace(s[p]),
    ensures
        spec_tokens(s) == Ok::<Seq<SpecToken>, LexError>(seq![SpecToken::EndOfInput]),
{
    lemma_skip_ws_props(s, 0);
    let lexemes = spec_scan_at(s, 0)->Ok_0;
    assert(lexeme_tokens(lexemes) =~= seq![SpecToken::EndOfInput]);
}

/// Law: the end marker is idempotent. Whenever `EndOfInput` is produced the
/// cursor stands at end-of-text, and from end-of-text every further call
/// produces `EndOfInput` again without moving the cursor.
pub proof fn lemma_end_marker_idempotent(s: Seq<char>, i: int)
    requires
        0 <= i <= s.len(),
    ensures
        spec_next(s, i).0 == Ok::<SpecToken, LexError>(SpecToken::EndOfInput) ==> spec_next(
            s,
            i,
        ).1 == s.len(),
        spec_next(s, s.len() as int) == (
            Ok::<SpecToken, LexError>(SpecToken::EndOfInput),
            s.len() as int,
        ),
{
    lemma_skip_ws_props(s, i);
    lemma_skip_ws_props(s, s.len() as int);
}

/// Law: digit runs are maximal. When the first character after the skipped
/// whitespace is a digit, the produced token spans the whole contiguous run
/// of digits and nothing more, and is the integer value of that run — or the
/// overflow error when the value does not fit in an `i64`.
pub proof fn lemma_digit_run_maximal(s: Seq<char>, i: int)
    requires
        0 <= i <= s.len(),
        spec_skip_ws(s, i) < s.len(),
        spec_is_digit(s[spec_skip_ws(s, i)]),
    ensures
        ({
            let j = spec_skip_ws(s, i);
            let end = spec_next(s, i).1;
            &&& j < end <= s.len()
            &&& forall|p: int| j <= p < end ==> spec_is_digit(s[p])
            &&& end < s.len() ==> !spec_is_digit(s[end])
            &&& spec_digit_val(s, j, end) <= i64::MAX ==> spec_next(s, i).0 == Ok::<
                SpecToken,
                LexError,
            >(SpecToken::Integer(spec_digit_val(s, j, end)))
            &&& spec_digit_val(s, j, end) > i64::MAX ==> spec_next(s, i).0 == Err::<
                SpecToken,
                LexError,
            >(LexError::NumericLiteralOverflow)
        }),
{
    lemma_skip_ws_props(s, i);
    let j = spec_skip_ws(s, i);
    lemma_digit_end_props(s, j);
    assert(spec_digit_end(s, j) == spec_digit_end(s, j + 1));
    lemma_digit_end_props(s, j + 1);
}

/// Law: identifier runs are maximal and underscore-inclusive. When the first
/// character after the skipped whitespace starts an identifier, the produced
/// token is the identifier holding, verbatim, that character and the whole
/// following run of letters, digits and underscores.
pub proof fn lemma_identifier_run_maximal(s: Seq<char>, i: int)
    requires
        0 <= i <= s.len(),
        spec_skip_ws(s, i) < s.len(),
        !spec_is_digit(s[spec_skip_ws(s, i)]),
        spec_is_ident_start(s[spec_skip_ws(s, i)]),
    ensures
        ({
            let j = spec_skip_ws(s, i);
            let end = spec_next(s, i).1;
            &&& j < end <= s.len()
            &&& spec_next(s, i).0 == Ok::<SpecToken, LexError>(
                SpecToken::Identifier(s.subrange(j, end)),
            )
            &&& forall|p: int| j < p < end ==> spec_is_ident_continue(s[p])
            &&& end < s.len() ==> !spec_is_ident_continue(s[end])
        }),
{
    lemma_skip_ws_props(s, i);
    lemma_ident_end_props(s, spec_skip_ws(s, i) + 1);
}

/// Law: the source spans consumed by the tokens of a successful scan tile the
/// input. The spans lie in order, are disjoint and in bounds, every non-
/// `EndOfInput` token consumes at least one character, every character
/// outside all spans is whitespace, and the scan ends with exactly one
/// `EndOfInput` sentinel, whose span is empty. Concatenating the consumed
/// spans and reinserting the skipped whitespace therefore reconstructs the
/// input exactly: no character is lost or duplicated.
pub proof fn lemma_scan_spans_tile_input(s: Seq<char>, i: int)
    requires
        0 <= i <= s.len(),
        spec_scan_at(s, i) is Ok,
    ensures
        ({
            let lexemes = spec_scan_at(s, i)->Ok_0;
            &&& lexemes.len() >= 1
            &&& lexemes.last().token is EndOfInput
            &&& lexemes.last().start == s.len()
            &&& lexemes.last().end == s.len()
            &&& forall|k: int|
                0 <= k < lexemes.len() - 1 ==> !((#[trigger] lexemes[k]).token is EndOfInput)
            &&& forall|k: int|
                0 <= k < lexemes.len() ==> i <= (#[trigger] lexemes[k]).start <= lexemes[k].end
                    <= s.len()
            &&& forall|k: int|
                0 <= k < lexemes.len() - 1 ==> (#[trigger] lexemes[k]).start < lexemes[k].end
            &&& forall|k: int|
                0 <= k < lexemes.len() - 1 ==> (#[trigger] lexemes[k]).end <= lexemes[k + 1].start
            &&& forall|p: int|
                i <= p < s.len() && !spec_is_whitespace(#[trigger] s[p]) ==> spec_covered(
                    lexemes,
                    p,
                )
        }),
    decreases s.len() - i,
{
    lemma_skip_ws_props(s, i);
    lemma_spec_next_bounds(s, i);
    let j = spec_skip_ws(s, i);
    let next = spec_next(s, i);
    let lexemes = spec_scan_at(s, i)->Ok_0;
    let token = next.0->Ok_0;
    if token is EndOfInput {
        assert(lexemes =~= seq![Lexeme { token, start: j, end: j }]);
        assert(j == s.len());
    } else {
        let end = next.1;
        let first = Lexeme { token, start: j, end };
        let rest = spec_scan_at(s, end)->Ok_0;
        lemma_scan_spans_tile_input(s, end);
        assert(lexemes =~= seq![first] + rest);
        assert(lexemes.len() == 1 + rest.len());
        assert(forall|k: int| 1 <= k < lexemes.len() ==> #[trigger] lexemes[k] == rest[k - 1]);
        assert(lexemes.last() == rest.last());
        assert forall|p: int|
            i <= p < s.len() && !spec_is_whitespace(#[trigger] s[p]) implies spec_covered(
            lexemes,
            p,
        ) by {
            if p < j {
                assert(spec_is_whitespace(s[p]));
            } else if p < end {
                assert(lexemes[0].start <= p < lexemes[0].end);
            } else {
                assert(spec_covered(rest, p));
                let k = choose|k: int|
                    0 <= k < rest.len() && (#[trigger] rest[k]).start <= p < rest[k].end;
                assert(lexemes[k + 1].start <= p < lexemes[k + 1].end);
            }
        }
    }
}

} // verus!
