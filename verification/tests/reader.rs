use rusty_parens::reader::{Expression, Reader, ReaderError};
use rusty_parens::tokenizer::TokenizerError;

#[test]
fn reader_should_read_identifier() {
    // given
    let code = "ident";
    let mut reader = Reader::from_string(code);

    // expect
    assert_eq!(
        Expression::Identifier("ident".to_owned()),
        reader.read().unwrap()
    );
}

#[test]
fn reader_should_read_string() {
    // given
    let code = "\"some string\"";
    let mut reader = Reader::from_string(code);

    // expect
    assert_eq!(
        Expression::String("some string".to_owned()),
        reader.read().unwrap()
    );
}

#[test]
fn reader_should_read_integer() {
    // given
    let code = "231";
    let mut reader = Reader::from_string(code);

    // expect
    assert_eq!(Expression::Integer(231), reader.read().unwrap());
}

#[test]
fn reader_should_read_float() {
    // given
    let code = "3.14";
    let mut reader = Reader::from_string(code);

    // expect
    assert_eq!(Expression::Float("3.14".to_owned()), reader.read().unwrap());
}

#[test]
fn should_rad_list() {
    // given
    let code = "(say-hello \"John\")";
    let mut reader = Reader::from_string(code);

    // expect
    assert_eq!(
        Expression::List(vec![
            Expression::Identifier("say-hello".to_owned()),
            Expression::String("John".to_owned()),
        ]),
        reader.read().unwrap()
    );
}

#[test]
fn should_read_nested_lists() {
    // given
    let code = "(say-hello (str \"John\" surname))";
    let mut reader = Reader::from_string(code);

    // expect
    assert_eq!(
        Expression::List(vec![
            Expression::Identifier("say-hello".to_owned()),
            Expression::List(vec![
                Expression::Identifier("str".to_owned()),
                Expression::String("John".to_owned()),
                Expression::Identifier("surname".to_owned())
            ]),
        ]),
        reader.read().unwrap()
    );
}

#[test]
fn should_read_float_with_two_integer_parts() {
    let mut reader = Reader::from_string("12.34");
    assert_eq!(
        Expression::Float("12.34".to_owned()),
        reader.read().unwrap()
    );
}

#[test]
fn should_reject_numeral_with_two_dots() {
    let mut reader = Reader::from_string("1.2.3");
    assert_eq!(
        Err(ReaderError::MalformedNumber("1.2.3".to_owned())),
        reader.read()
    );
}

#[test]
fn should_reject_integer_out_of_range() {
    let mut reader = Reader::from_string("9999999999");
    assert_eq!(
        Err(ReaderError::MalformedNumber("9999999999".to_owned())),
        reader.read()
    );
}

#[test]
fn should_read_largest_integer() {
    let mut reader = Reader::from_string("2147483647");
    assert_eq!(Expression::Integer(2147483647), reader.read().unwrap());
}

#[test]
fn should_fail_on_unbalanced_closing_paren() {
    let mut reader = Reader::from_string(")");
    assert_eq!(Err(ReaderError::UnbalancedParenthesis), reader.read());
}

#[test]
fn should_pass_lexical_failures_through() {
    let mut reader = Reader::from_string("\"abc");
    assert_eq!(
        Err(ReaderError::Tokenizer(TokenizerError::UnexpectedEndOfInput)),
        reader.read()
    );
}

#[test]
fn should_parse_addition_call() {
    let mut reader = Reader::from_string("(+ 1 2)");
    assert_eq!(
        Expression::List(vec![
            Expression::Identifier("+".to_owned()),
            Expression::Integer(1),
            Expression::Integer(2),
        ]),
        reader.read().unwrap()
    );
}
