use calf::ast::Ast;
use calf::common::Pos;
use calf::num::{int_to_literal, parse_int_chars, Numeric};
use calf::parser::{Stmt, Syntagma};

fn chars(s: &str) -> Vec<char> {
    s.chars().collect()
}

#[test]
fn parses_plain_and_signed_integers() {
    assert_eq!(parse_int_chars(&chars("0")), Some(0));
    assert_eq!(parse_int_chars(&chars("12")), Some(12));
    assert_eq!(parse_int_chars(&chars("-45")), Some(-45));
    assert_eq!(parse_int_chars(&chars("007")), Some(7));
}

#[test]
fn rejects_text_that_is_no_integer_literal() {
    assert_eq!(parse_int_chars(&chars("")), None);
    assert_eq!(parse_int_chars(&chars("-")), None);
    assert_eq!(parse_int_chars(&chars("1.5")), None);
    assert_eq!(parse_int_chars(&chars("a1")), None);
    assert_eq!(parse_int_chars(&chars("1a")), None);
    assert_eq!(parse_int_chars(&chars("--1")), None);
}

#[test]
fn honours_the_integer_range_exactly() {
    assert_eq!(parse_int_chars(&chars("9223372036854775807")), Some(i64::MAX));
    assert_eq!(parse_int_chars(&chars("9223372036854775808")), None);
    assert_eq!(parse_int_chars(&chars("-9223372036854775808")), Some(i64::MIN));
    assert_eq!(parse_int_chars(&chars("-9223372036854775809")), None);
    assert_eq!(parse_int_chars(&chars("99999999999999999999999999")), None);
}

#[test]
fn formats_integers_as_decimal_text() {
    assert_eq!(int_to_literal(0), "0");
    assert_eq!(int_to_literal(7), "7");
    assert_eq!(int_to_literal(-1), "-1");
    assert_eq!(int_to_literal(12345), "12345");
    assert_eq!(int_to_literal(i64::MAX), "9223372036854775807");
    assert_eq!(int_to_literal(i64::MIN), "-9223372036854775808");
}

#[test]
fn formatting_then_parsing_returns_the_same_value() {
    for v in [0, 1, -1, 9, 10, -10, 4096, -777, i64::MAX, i64::MIN] {
        let text = int_to_literal(v);
        assert_eq!(parse_int_chars(&chars(&text)), Some(v));
    }
}

#[test]
fn tokenizing_then_formatting_keeps_the_value() {
    for text in ["0", "42", "-42", "007", "9223372036854775807"] {
        let v = <i64 as Numeric>::from_literal(&chars(text)).expect("expected a value");
        let again = int_to_literal(v);
        let w = <i64 as Numeric>::from_literal(&chars(&again)).expect("expected a value");
        assert_eq!(v, w);
    }
}

#[test]
fn negative_literal_inside_a_program() {
    let stmts = Ast::<i64>::build("x = -9").expect("expected a build").statements;
    assert_eq!(
        stmts,
        vec![Stmt::Assign {
            name: "x".to_string(),
            value: calf::parser::Expr { syn: Syntagma::Number(-9), pos: Pos::new(0, 4) },
        }]
    );
}
