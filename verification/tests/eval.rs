use rusty_parens::eval::{eval, EvalError, Scope, ScopeError};
use rusty_parens::reader::{Expression, Function, NativeFunction, Reader};

#[test]
fn eval_should_eval_values_to_themselves() {
    // given
    let mut scope = Scope::new();
    let integer_expr = Expression::Integer(42);
    let float_expr = Expression::Float("3.14".to_owned());
    let string_expr = Expression::String("hello".to_owned());

    // expect
    assert_eq!(integer_expr, eval(&mut scope, &integer_expr).unwrap());
    assert_eq!(float_expr, eval(&mut scope, &float_expr).unwrap());
    assert_eq!(string_expr, eval(&mut scope, &string_expr).unwrap());
}

#[test]
fn eval_should_evaluate_identifiers() {
    // given
    let integer_expr = Expression::Integer(42);
    let float_expr = Expression::Float("3.14".to_owned());
    let string_expr = Expression::String("hello".to_owned());
    let mut scope = Scope::new();
    scope.put("integer", integer_expr.duplicate());
    scope.put("float", float_expr.duplicate());
    scope.put("string", string_expr.duplicate());

    // expect
    assert_eq!(
        integer_expr,
        eval(&mut scope, &Expression::Identifier("integer".to_owned())).unwrap()
    );
    assert_eq!(
        float_expr,
        eval(&mut scope, &Expression::Identifier("float".to_owned())).unwrap()
    );
    assert_eq!(
        string_expr,
        eval(&mut scope, &Expression::Identifier("string".to_owned())).unwrap()
    );
}

#[test]
fn eval_should_evaluate_functions() {
    // given
    let func = Expression::Fn(Function::Native(NativeFunction::Identity));
    let mut scope = Scope::new();
    scope.put("identity", func.duplicate());
    let expr = Reader::from_string("(identity 5)").read().unwrap();

    // when
    let result = eval(&mut scope, &expr).unwrap();

    // then
    assert_eq!(Expression::Integer(5), result);
}

#[test]
fn mod_should_eval_values_to_themselves() {
    // given
    let mut scope = Scope::new();
    let integer_expr = Expression::Integer(42);
    let float_expr = Expression::Float("3.14".to_owned());
    let string_expr = Expression::String("hello".to_owned());

    // expect
    assert_eq!(integer_expr, eval(&mut scope, &integer_expr).unwrap());
    assert_eq!(float_expr, eval(&mut scope, &float_expr).unwrap());
    assert_eq!(string_expr, eval(&mut scope, &string_expr).unwrap());
}

#[test]
fn mod_should_evaluate_identifiers() {
    // given
    let integer_expr = Expression::Integer(42);
    let float_expr = Expression::Float("3.14".to_owned());
    let string_expr = Expression::String("hello".to_owned());
    let mut scope = Scope::new();
    scope.put("integer", integer_expr.duplicate());
    scope.put("float", float_expr.duplicate());
    scope.put("string", string_expr.duplicate());

    // expect
    assert_eq!(
        integer_expr,
        eval(&mut scope, &Expression::Identifier("integer".to_owned())).unwrap()
    );
    assert_eq!(
        float_expr,
        eval(&mut scope, &Expression::Identifier("float".to_owned())).unwrap()
    );
    assert_eq!(
        string_expr,
        eval(&mut scope, &Expression::Identifier("string".to_owned())).unwrap()
    );
}

#[test]
fn should_return_proper_error_when_identifier_is_not_found() {
    // given
    let mut scope = Scope::new();

    // when
    let error = eval(&mut scope, &Expression::Identifier("identifier".to_owned()))
        .err()
        .unwrap();

    // expect
    match error {
        EvalError::ScopeError(ScopeError::IdentifierNotFound(ident)) => {
            assert_eq!(ident, "identifier")
        }
        err => panic!(
            "Invalid error returned: {:?}. Expected Identifier not found error.",
            err
        ),
    }
}

#[test]
fn mod_should_evaluate_functions() {
    // given
    let func = Expression::Fn(Function::Native(NativeFunction::Identity));
    let mut scope = Scope::new();
    scope.put("identity", func.duplicate());
    let expr = Reader::from_string("(identity 5)").read().unwrap();

    // when
    let result = eval(&mut scope, &expr).unwrap();

    // then
    assert_eq!(Expression::Integer(5), result);
}

#[test]
fn should_eval_function_args() {
    // given
    let func = Expression::Fn(Function::Native(NativeFunction::Identity));
    let mut scope = Scope::new();
    scope.put("identity", func.duplicate());
    let expr = Reader::from_string("(identity (identity 5))")
        .read()
        .unwrap();

    // when
    let result = eval(&mut scope, &expr).unwrap();

    // then
    assert_eq!(Expression::Integer(5), result);
}

#[test]
fn should_return_error_when_evaluating_empty_list() {
    // given
    let mut scope = Scope::new();
    let expr = Reader::from_string("()").read().unwrap();

    // when
    let result = eval(&mut scope, &expr).err().unwrap();

    // then
    match result {
        EvalError::EmptyList => (),
        err => panic!("Wrong error returned: {:?}", err),
    };
}

#[test]
fn should_evaluate_integer_addition() {
    // given a native two-argument integer-add binding named "+"
    let mut scope = Scope::new();
    scope.put(
        "+",
        Expression::Fn(Function::Native(NativeFunction::IntegerAdd)),
    );
    let expr = Reader::from_string("(+ 1 2)").read().unwrap();

    // expect
    assert_eq!(Expression::Integer(3), eval(&mut scope, &expr).unwrap());
}

#[test]
fn should_wrap_integer_addition_on_overflow() {
    let mut scope = Scope::new();
    scope.put(
        "+",
        Expression::Fn(Function::Native(NativeFunction::IntegerAdd)),
    );
    let expr = Reader::from_string("(+ 2147483647 1)").read().unwrap();
    assert_eq!(
        Expression::Integer(i32::MIN),
        eval(&mut scope, &expr).unwrap()
    );
}

#[test]
fn should_fail_with_type_mismatch_on_non_integer_addition() {
    let mut scope = Scope::new();
    scope.put(
        "+",
        Expression::Fn(Function::Native(NativeFunction::IntegerAdd)),
    );
    let expr = Reader::from_string("(+ \"a\" 1)").read().unwrap();
    assert_eq!(Err(EvalError::TypeMismatch), eval(&mut scope, &expr));
}

#[test]
fn should_fail_with_not_a_function_on_non_function_head() {
    let mut scope = Scope::new();
    let expr = Reader::from_string("(1 2)").read().unwrap();
    assert_eq!(
        Err(EvalError::NotAFunction(Expression::Integer(1))),
        eval(&mut scope, &expr)
    );
}

#[test]
fn should_call_user_defined_function_positionally() {
    // a one-parameter function returning its parameter
    let func = Function::Regular {
        params: vec!["x".to_owned()],
        body: Box::new(Expression::Identifier("x".to_owned())),
        env: Scope::new(),
    };
    let mut scope = Scope::new();
    scope.put("first", Expression::Fn(func));
    let expr = Reader::from_string("(first 7)").read().unwrap();
    assert_eq!(Expression::Integer(7), eval(&mut scope, &expr).unwrap());
}

#[test]
fn should_resolve_names_from_captured_environment() {
    // the body resolves a name bound only in the defining environment
    let mut captured = Scope::new();
    captured.put("y", Expression::Integer(9));
    let func = Function::Regular {
        params: vec![],
        body: Box::new(Expression::Identifier("y".to_owned())),
        env: captured,
    };
    let mut scope = Scope::new();
    scope.put("nine", Expression::Fn(func));
    let expr = Reader::from_string("(nine)").read().unwrap();
    assert_eq!(Expression::Integer(9), eval(&mut scope, &expr).unwrap());
}

#[test]
fn should_fail_with_arity_mismatch_on_wrong_argument_count() {
    let func = Function::Regular {
        params: vec!["x".to_owned()],
        body: Box::new(Expression::Identifier("x".to_owned())),
        env: Scope::new(),
    };
    let mut scope = Scope::new();
    scope.put("first", Expression::Fn(func));
    let expr = Reader::from_string("(first 1 2)").read().unwrap();
    assert_eq!(
        Err(EvalError::ArityMismatch {
            expected: 1,
            actual: 2
        }),
        eval(&mut scope, &expr)
    );
}

#[test]
fn should_fail_with_arity_mismatch_on_identity_without_arguments() {
    let mut scope = Scope::new();
    scope.put(
        "identity",
        Expression::Fn(Function::Native(NativeFunction::Identity)),
    );
    let expr = Reader::from_string("(identity)").read().unwrap();
    assert_eq!(
        Err(EvalError::ArityMismatch {
            expected: 1,
            actual: 0
        }),
        eval(&mut scope, &expr)
    );
}

#[test]
fn should_fail_at_recursion_limit() {
    // a tower of zero-argument functions deeper than the recursion limit
    let mut func = Function::Regular {
        params: vec![],
        body: Box::new(Expression::Integer(1)),
        env: Scope::new(),
    };
    for _ in 0..100 {
        func = Function::Regular {
            params: vec![],
            body: Box::new(Expression::List(vec![Expression::Fn(func)])),
            env: Scope::new(),
        };
    }
    let mut scope = Scope::new();
    let expr = Expression::List(vec![Expression::Fn(func)]);
    assert_eq!(Err(EvalError::RecursionLimit), eval(&mut scope, &expr));
}

#[test]
fn should_shadow_outer_bindings_in_inner_scope() {
    // the innermost binding of a name wins, and the newest write wins
    let mut outer = Scope::new();
    outer.put("x", Expression::Integer(1));
    outer.put("x", Expression::Integer(2));
    assert_eq!(Expression::Integer(2), outer.get("x").unwrap());

    let mut inner = Scope::new_child(outer);
    assert_eq!(Expression::Integer(2), inner.get("x").unwrap());
    inner.put("x", Expression::Integer(3));
    assert_eq!(Expression::Integer(3), inner.get("x").unwrap());
}

#[test]
fn should_call_function_value_directly() {
    let func = Function::Native(NativeFunction::IntegerAdd);
    let args = vec![Expression::Integer(20), Expression::Integer(22)];
    assert_eq!(Expression::Integer(42), func.call(&args).unwrap());
}
