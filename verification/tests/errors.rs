use calf::ast::Ast;
use calf::common::Pos;

fn build_err(code: &str) -> calf::common::CalfErr {
    Ast::<i64>::build(code).expect_err("expected a failed build")
}

#[test]
fn bare_at_sign_is_a_lex_error_at_its_own_coordinate() {
    let err = build_err("10 + @");
    assert_eq!(err.pos, Pos::new(0, 5));
    assert_eq!(err.message, "Unrecognized lexeme: '@'");
}

#[test]
fn lex_error_on_a_later_row_keeps_row_and_column() {
    let err = build_err("a\n  @");
    assert_eq!(err.pos, Pos::new(1, 2));
    assert_eq!(err.message, "Unrecognized lexeme: '@'");
}

#[test]
fn doubled_comma_in_call_fails_at_the_stray_comma() {
    let err = build_err("f{1,,2}");
    assert_eq!(err.message, "Not expecting a comma");
    assert_eq!(err.pos, Pos::new(0, 4));
}

#[test]
fn trailing_comma_in_call_fails_at_the_stray_comma() {
    let err = build_err("f{1,2,}");
    assert_eq!(err.message, "Not expecting a comma");
    assert_eq!(err.pos, Pos::new(0, 5));
}

#[test]
fn missing_comma_between_arguments() {
    let err = build_err("f{1 2}");
    assert_eq!(err.message, "Expecting a comma");
    assert_eq!(err.pos, Pos::new(0, 4));
}

#[test]
fn doubled_comma_in_parameters_fails_at_the_stray_comma() {
    let err = build_err("fn(x,,y) 1");
    assert_eq!(err.message, "Not expecting a comma");
    assert_eq!(err.pos, Pos::new(0, 5));
}

#[test]
fn trailing_comma_in_parameters_fails_at_the_stray_comma() {
    let err = build_err("fn(x,) 1");
    assert_eq!(err.message, "Not expecting a comma");
    assert_eq!(err.pos, Pos::new(0, 4));
}

#[test]
fn number_is_no_parameter() {
    let err = build_err("fn(1) x");
    assert_eq!(err.message, "Expecting a parameter");
    assert_eq!(err.pos, Pos::new(0, 3));
}

#[test]
fn ternary_without_colon_fails_at_the_then_branch() {
    let err = build_err("a ? b");
    assert_eq!(err.message, "Expected a colon operator");
    assert_eq!(err.pos, Pos::new(0, 4));
}

#[test]
fn unclosed_group_is_an_error() {
    let err = build_err("(1");
    assert_eq!(err.message, "Expected a closing parenthesis after expression");
}

#[test]
fn group_closed_by_wrong_token_fails_at_that_token() {
    let err = build_err("(1 }");
    assert_eq!(err.message, "Expected a closing parenthesis after expression");
    assert_eq!(err.pos, Pos::new(0, 3));
}

#[test]
fn dangling_operator_cannot_start_an_expression() {
    let err = build_err("10 +");
    assert_eq!(err.message, "Couldn't parse a valid expression");
}

#[test]
fn fractional_literal_has_no_integer_value() {
    let err = build_err("4.87");
    assert_eq!(err.message, "Malformed numeric literal");
    assert_eq!(err.pos, Pos::new(0, 0));
}

#[test]
fn integer_overflow_is_a_lex_error_not_a_panic() {
    let err = build_err("  9223372036854775808");
    assert_eq!(err.message, "Malformed numeric literal");
    assert_eq!(err.pos, Pos::new(0, 2));
}

#[test]
fn error_in_second_statement_aborts_the_build() {
    let err = build_err("x = 1 y = ?");
    assert_eq!(err.message, "Couldn't parse a valid expression");
}

#[test]
fn lex_error_after_valid_statements_is_reported_verbatim() {
    let err = build_err("x = 1 @");
    assert_eq!(err.message, "Unrecognized lexeme: '@'");
    assert_eq!(err.pos, Pos::new(0, 6));
}
