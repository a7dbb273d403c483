use rusty_parens::reader::{Expression, Function, NativeFunction, Reader};

#[test]
fn should_print_integer_literals() {
    assert_eq!("231", Expression::Integer(231).to_text());
    assert_eq!("0", Expression::Integer(0).to_text());
    assert_eq!("-5", Expression::Integer(-5).to_text());
    assert_eq!("-2147483648", Expression::Integer(i32::MIN).to_text());
}

#[test]
fn should_print_float_literals_verbatim() {
    assert_eq!("12.34", Expression::Float("12.34".to_owned()).to_text());
}

#[test]
fn should_print_identifiers_and_strings_bare() {
    assert_eq!("abc", Expression::Identifier("abc".to_owned()).to_text());
    assert_eq!("a b", Expression::String("a b".to_owned()).to_text());
}

#[test]
fn should_print_functions_opaquely() {
    assert_eq!(
        "<function>",
        Expression::Fn(Function::Native(NativeFunction::Identity)).to_text()
    );
}

#[test]
fn should_print_lists_between_parentheses() {
    let expr = Expression::List(vec![
        Expression::Identifier("a".to_owned()),
        Expression::Integer(1),
    ]);
    assert_eq!("(a1)", expr.to_text());
}

#[test]
fn should_round_trip_integer_literal_through_text() {
    // read, print, read again: the same structural value comes back
    let first = Reader::from_string("231").read().unwrap();
    let text = first.to_text();
    let second = Reader::from_string(&text).read().unwrap();
    assert_eq!(first, second);
}

#[test]
fn should_round_trip_float_literal_through_text() {
    let first = Reader::from_string("12.34").read().unwrap();
    let text = first.to_text();
    let second = Reader::from_string(&text).read().unwrap();
    assert_eq!(first, second);
}

#[test]
fn should_duplicate_expressions_deeply() {
    let expr = Expression::List(vec![
        Expression::Identifier("say-hello".to_owned()),
        Expression::List(vec![
            Expression::String("John".to_owned()),
            Expression::Integer(3),
        ]),
    ]);
    assert_eq!(expr, expr.duplicate());
}
