use rusty_parens::tokenizer::{Token, Tokenizer, TokenizerError, ValueType};

#[test]
fn tokenizer_should_read_identifier() {
    // given
    let code = "identifier";
    let mut tokenizer = Tokenizer::from_string(code);

    // when
    let token = tokenizer.next().unwrap();

    // then
    assert_eq!(token, Token::Identifier(code.to_owned()));
}

#[test]
fn tokenizer_should_read_string() {
    // given
    let code = "\"some string\"";
    let mut tokenizer = Tokenizer::from_string(code);

    // expect
    assert_eq!(
        Token::Value("some string".to_owned(), ValueType::String),
        tokenizer.next().unwrap()
    )
}

#[test]
fn tokenizer_should_read_integer() {
    // given
    let code = "1234";
    let mut tokenizer = Tokenizer::from_string(code);

    // expect
    assert_eq!(
        Token::Value("1234".to_owned(), ValueType::Number),
        tokenizer.next().unwrap()
    )
}

#[test]
fn tokenizer_should_read_float() {
    // given
    let code = "12.34";
    let mut tokenizer = Tokenizer::from_string(code);

    // expect
    assert_eq!(
        Token::Value("12.34".to_owned(), ValueType::Number),
        tokenizer.next().unwrap()
    )
}

#[test]
fn should_ignore_leading_whitespace() {
    // given
    let code = " \n\t  123";
    let mut tokenizer = Tokenizer::from_string(code);

    // expect
    assert_eq!(
        Token::Value("123".to_owned(), ValueType::Number),
        tokenizer.next().unwrap()
    )
}

#[test]
fn should_ignore_trailing_whitespace_when_reading_numbers() {
    // given
    let code = "123\t\n ";
    let mut tokenizer = Tokenizer::from_string(code);

    // expect
    assert_eq!(
        Token::Value("123".to_owned(), ValueType::Number),
        tokenizer.next().unwrap()
    )
}

#[test]
fn should_escape_string_characters() {
    for (to_escape, escaped) in &[('n', '\n'), ('t', '\t'), ('\\', '\\')] {
        // given
        let code = format!("\"some\\{}string\"", to_escape);
        let mut tokenizer = Tokenizer::from_string(&code);

        // expect
        assert_eq!(
            Token::Value(format!("some{}string", escaped), ValueType::String),
            tokenizer.next().unwrap()
        )
    }
}

#[test]
fn should_read_simple_function_call() {
    // given
    let code = "(some-func)";
    let mut tokenizer = Tokenizer::from_string(code);

    // expect
    assert_eq!(Token::LeftParen, tokenizer.next().unwrap());
    assert_eq!(
        Token::Identifier("some-func".to_owned()),
        tokenizer.next().unwrap()
    );
    assert_eq!(Token::RightParen, tokenizer.next().unwrap());
}

#[test]
fn should_read_function_call_with_arguments() {
    // given
    let code = "(some-func ident \"string\" 10 12.6)";
    let mut tokenizer = Tokenizer::from_string(code);

    // expect
    assert_eq!(Token::LeftParen, tokenizer.next().unwrap());
    assert_eq!(
        Token::Identifier("some-func".to_owned()),
        tokenizer.next().unwrap()
    );
    assert_eq!(
        Token::Identifier("ident".to_owned()),
        tokenizer.next().unwrap()
    );
    assert_eq!(
        Token::Value("string".to_owned(), ValueType::String),
        tokenizer.next().unwrap()
    );
    assert_eq!(
        Token::Value("10".to_owned(), ValueType::Number),
        tokenizer.next().unwrap()
    );
    assert_eq!(
        Token::Value("12.6".to_owned(), ValueType::Number),
        tokenizer.next().unwrap()
    );
    assert_eq!(Token::RightParen, tokenizer.next().unwrap());
}

#[test]
fn should_fail_on_exhausted_input() {
    let mut tokenizer = Tokenizer::from_string("   ");
    assert_eq!(
        Err(TokenizerError::UnexpectedEndOfInput),
        tokenizer.next()
    );
}

#[test]
fn should_fail_on_unterminated_string() {
    let mut tokenizer = Tokenizer::from_string("\"abc");
    assert_eq!(
        Err(TokenizerError::UnexpectedEndOfInput),
        tokenizer.next()
    );
}

#[test]
fn should_fail_on_unknown_escape() {
    let mut tokenizer = Tokenizer::from_string("\"a\\qb\"");
    assert_eq!(
        Err(TokenizerError::NotAnEscapableCharacter('q')),
        tokenizer.next()
    );
}

#[test]
fn should_fail_on_invalid_number_character() {
    let mut tokenizer = Tokenizer::from_string("12x");
    assert_eq!(
        Err(TokenizerError::InvalidNumberCharacter('x')),
        tokenizer.next()
    );
}

#[test]
fn should_fail_on_stray_bracket() {
    let mut tokenizer = Tokenizer::from_string("[");
    assert_eq!(
        Err(TokenizerError::UnexpectedCharacter('[')),
        tokenizer.next()
    );
}

#[test]
fn should_tokenize_addition_call() {
    // the full token sequence of a two-argument addition
    let mut tokenizer = Tokenizer::from_string("(+ 1 2)");
    assert_eq!(Token::LeftParen, tokenizer.next().unwrap());
    assert_eq!(Token::Identifier("+".to_owned()), tokenizer.next().unwrap());
    assert_eq!(
        Token::Value("1".to_owned(), ValueType::Number),
        tokenizer.next().unwrap()
    );
    assert_eq!(
        Token::Value("2".to_owned(), ValueType::Number),
        tokenizer.next().unwrap()
    );
    assert_eq!(Token::RightParen, tokenizer.next().unwrap());
}

#[test]
fn should_treat_newline_and_tab_as_identifier_boundaries() {
    let mut tokenizer = Tokenizer::from_string("abc\ndef");
    assert_eq!(
        Token::Identifier("abc".to_owned()),
        tokenizer.next().unwrap()
    );
    assert_eq!(
        Token::Identifier("def".to_owned()),
        tokenizer.next().unwrap()
    );
}

#[test]
fn should_unescape_newline_inside_string() {
    let mut tokenizer = Tokenizer::from_string("\"a\\nb\"");
    assert_eq!(
        Token::Value("a\nb".to_owned(), ValueType::String),
        tokenizer.next().unwrap()
    );
}
