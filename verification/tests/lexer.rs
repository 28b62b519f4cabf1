use toy_compiler::lexer::lexer::Lexer;
use toy_compiler::lexer::token::{Delimiter, LexError, Operator, Token};

#[test]
fn test_simple_expression() {
    let tokens = Lexer::new("1 + 2;").scan().unwrap();
    let expected = vec![
        Token::Integer(1),
        Token::Operator(Operator::Plus),
        Token::Integer(2),
        Token::Delimiter(Delimiter::Semicolon),
        Token::EndOfInput,
    ];
    assert_eq!(tokens, expected);
}

#[test]
fn test_identifiers() {
    let tokens = Lexer::new("abc def _x foo123").scan().unwrap();
    let expected = vec![
        Token::Identifier(String::from("abc")),
        Token::Identifier(String::from("def")),
        Token::Identifier(String::from("_x")),
        Token::Identifier(String::from("foo123")),
        Token::EndOfInput,
    ];
    assert_eq!(tokens, expected);
}

#[test]
fn test_literals() {
    let tokens = Lexer::new("42 003 99").scan().unwrap();
    let expected = vec![
        Token::Integer(42),
        Token::Integer(3),
        Token::Integer(99),
        Token::EndOfInput,
    ];
    assert_eq!(tokens, expected);
}

#[test]
fn test_operators() {
    let tokens = Lexer::new("+ - * / = ( )").scan().unwrap();
    let expected = vec![
        Token::Operator(Operator::Plus),
        Token::Operator(Operator::Minus),
        Token::Operator(Operator::Multiply),
        Token::Operator(Operator::Divide),
        Token::Operator(Operator::Equals),
        Token::Delimiter(Delimiter::LeftParenthesis),
        Token::Delimiter(Delimiter::RightParenthesis),
        Token::EndOfInput,
    ];
    assert_eq!(tokens, expected);
}

#[test]
fn test_weird_spacing() {
    let tokens = Lexer::new("   12   +   34   ").scan().unwrap();
    let expected = vec![
        Token::Integer(12),
        Token::Operator(Operator::Plus),
        Token::Integer(34),
        Token::EndOfInput,
    ];
    assert_eq!(tokens, expected);
}

#[test]
#[should_panic]
fn test_invalid_character() {
    Lexer::new("&").scan().unwrap();
}

#[test]
fn whitespace_only_input_yields_end_of_input_alone() {
    let tokens = Lexer::new(" \t\n\r ").scan().unwrap();
    assert_eq!(tokens, vec![Token::EndOfInput]);
}

#[test]
fn empty_input_yields_end_of_input_alone() {
    let tokens = Lexer::new("").scan().unwrap();
    assert_eq!(tokens, vec![Token::EndOfInput]);
}

#[test]
fn end_marker_is_idempotent() {
    let mut lexer = Lexer::new("x");
    assert_eq!(lexer.next_token().unwrap(), Token::Identifier(String::from("x")));
    assert_eq!(lexer.next_token().unwrap(), Token::EndOfInput);
    assert_eq!(lexer.next_token().unwrap(), Token::EndOfInput);
    assert_eq!(lexer.next_token().unwrap(), Token::EndOfInput);
}

#[test]
fn leading_zeros_make_one_integer_token() {
    let tokens = Lexer::new("003").scan().unwrap();
    assert_eq!(tokens, vec![Token::Integer(3), Token::EndOfInput]);
}

#[test]
fn underscore_starts_an_identifier() {
    let tokens = Lexer::new("_x").scan().unwrap();
    assert_eq!(
        tokens,
        vec![Token::Identifier(String::from("_x")), Token::EndOfInput]
    );
}

#[test]
fn invalid_character_reports_character_and_offset() {
    let error = Lexer::new("&").scan().unwrap_err();
    assert_eq!(
        error,
        LexError::InvalidCharacter { character: '&', offset: 0 }
    );
}

#[test]
fn invalid_character_offset_counts_consumed_characters() {
    let error = Lexer::new("12 @").scan().unwrap_err();
    assert_eq!(
        error,
        LexError::InvalidCharacter { character: '@', offset: 3 }
    );
}

#[test]
fn invalid_character_does_not_advance_the_cursor() {
    let mut lexer = Lexer::new("&");
    let expected = LexError::InvalidCharacter { character: '&', offset: 0 };
    assert_eq!(lexer.next_token().unwrap_err(), expected);
    assert_eq!(lexer.next_token().unwrap_err(), expected);
}

#[test]
fn error_discards_tokens_scanned_before_it() {
    let result = Lexer::new("1 + &").scan();
    assert_eq!(
        result,
        Err(LexError::InvalidCharacter { character: '&', offset: 4 })
    );
}

#[test]
fn largest_integer_literal_is_accepted() {
    let tokens = Lexer::new("9223372036854775807").scan().unwrap();
    assert_eq!(tokens, vec![Token::Integer(i64::MAX), Token::EndOfInput]);
}

#[test]
fn too_large_integer_literal_overflows() {
    let error = Lexer::new("9223372036854775808").scan().unwrap_err();
    assert_eq!(error, LexError::NumericLiteralOverflow);
}

#[test]
fn adjacent_tokens_need_no_whitespace() {
    let tokens = Lexer::new("(a1+2)=b;").scan().unwrap();
    let expected = vec![
        Token::Delimiter(Delimiter::LeftParenthesis),
        Token::Identifier(String::from("a1")),
        Token::Operator(Operator::Plus),
        Token::Integer(2),
        Token::Delimiter(Delimiter::RightParenthesis),
        Token::Operator(Operator::Equals),
        Token::Identifier(String::from("b")),
        Token::Delimiter(Delimiter::Semicolon),
        Token::EndOfInput,
    ];
    assert_eq!(tokens, expected);
}
