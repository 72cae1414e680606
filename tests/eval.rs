use lisp::eval::{eval, EvalError, EvalValue};
use lisp::parse::ParseError;

#[test]
fn test_eval() {
    assert_eq!(Ok(EvalValue::Integer(10)), eval("(+ 10)"));
    assert_eq!(Ok(EvalValue::Integer(2)), eval("(- 5 2 1)"));
    assert_eq!(Ok(EvalValue::Integer(20)), eval("(+ 10 (- 5 2 3) 1 9)"));
    assert_eq!(Ok(EvalValue::Integer(1)), eval("1"));
    assert_eq!(Ok(EvalValue::Integer(6)), eval("1 (+ 2) (+ 1 2 3)"));
    assert_eq!(Ok(EvalValue::Integer(0)), eval("(+)"));
    assert_eq!(Ok(EvalValue::Integer(0)), eval("(-)"));
    assert_eq!(
        Ok(EvalValue::String("123go!".to_string())),
        eval("(str 1 2 3 \"go!\")")
    );
}

#[test]
fn test_eval_errors() {
    assert_eq!(
        Err(EvalError::UnknownFunction {
            at: 1,
            name: "not-a-function".to_string()
        }),
        eval("(not-a-function 1 2)")
    );
    assert_eq!(Err(EvalError::IdentifierExpected { at: 1 }), eval("(1 2)"));
    assert_eq!(
        Err(EvalError::FormOrValueExpected { at: 0 }),
        eval("not-a-value")
    );
    assert_eq!(
        Err(EvalError::ParseError {
            err: ParseError::FailedToParseInteger { at: 5 }
        }),
        eval("(+ 1 2x)")
    );
    assert_eq!(
        Err(EvalError::NotAnInteger { at: 5 }),
        eval("(+ 1 (str 1 2 3))")
    );
    assert_eq!(Err(EvalError::EmptyForm), eval("()"));
}

#[test]
fn empty_str_is_the_empty_string() {
    assert_eq!(Ok(EvalValue::String(String::new())), eval("(str)"));
}

#[test]
fn empty_program_is_zero() {
    assert_eq!(Ok(EvalValue::Integer(0)), eval(""));
    assert_eq!(Ok(EvalValue::Integer(0)), eval("  "));
}

#[test]
fn string_literal_evaluates_to_itself() {
    assert_eq!(Ok(EvalValue::String("hi there".to_string())), eval("\"hi there\""));
}

#[test]
fn subtraction_of_one_argument_is_that_argument() {
    assert_eq!(Ok(EvalValue::Integer(7)), eval("(- 7)"));
}

#[test]
fn str_writes_negative_numbers() {
    assert_eq!(Ok(EvalValue::String("-5|0".to_string())), eval("(str (- 0 5) \"|\" 0)"));
    assert_eq!(
        Ok(EvalValue::String("-9223372036854775808".to_string())),
        eval("(str (- 0 9223372036854775807 1))")
    );
}

#[test]
fn arithmetic_wraps() {
    assert_eq!(Ok(EvalValue::Integer(i64::MIN)), eval("(+ 9223372036854775807 1)"));
    assert_eq!(Ok(EvalValue::Integer(i64::MAX)), eval("(- 0 9223372036854775807 1 1)"));
}

#[test]
fn first_type_error_from_the_left_is_reported() {
    assert_eq!(
        Err(EvalError::NotAnInteger { at: 5 }),
        eval("(+ 1 (str 1 2) (nope) \"x\")")
    );
    assert_eq!(
        Err(EvalError::NotAnInteger { at: 3 }),
        eval("(- \"a\" (str))")
    );
    assert_eq!(
        Err(EvalError::UnknownFunction { at: 6, name: "nope".to_string() }),
        eval("(+ 1 (nope) (str))")
    );
}

#[test]
fn errors_inside_arguments_pass_through() {
    assert_eq!(Err(EvalError::FormOrValueExpected { at: 7 }), eval("(str 1 x)"));
    assert_eq!(Err(EvalError::EmptyForm), eval("(+ 1 ())"));
}

#[test]
fn first_failing_top_level_node_ends_evaluation() {
    assert_eq!(
        Err(EvalError::UnknownFunction { at: 1, name: "f".to_string() }),
        eval("(f) 1")
    );
}

#[test]
fn unknown_function_offset_is_the_identifier() {
    assert_eq!(
        Err(EvalError::UnknownFunction { at: 3, name: "g".to_string() }),
        eval("  (g 1)")
    );
}

#[test]
fn unbalanced_input_is_a_parse_error() {
    assert_eq!(
        Err(EvalError::ParseError { err: ParseError::UnbalancedParentheses { at: 0 } }),
        eval(")")
    );
    assert_eq!(
        Err(EvalError::ParseError { err: ParseError::UnexpectedEndOfInput { at: 0 } }),
        eval("(")
    );
}
