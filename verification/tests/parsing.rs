use calf::ast::Ast;
use calf::common::Pos;
use calf::lexer::TokenKind;
use calf::parser::{Expr, Parser, Stmt, Syntagma};

fn num(v: i64, row: usize, col: usize) -> Expr<i64> {
    Expr { syn: Syntagma::Number(v), pos: Pos::new(row, col) }
}

fn ident(name: &str, row: usize, col: usize) -> Expr<i64> {
    Expr { syn: Syntagma::Identifier(name.to_string()), pos: Pos::new(row, col) }
}

fn binop(op: TokenKind, left: Expr<i64>, right: Expr<i64>) -> Expr<i64> {
    let pos = left.pos;
    Expr {
        syn: Syntagma::BinaryOp { op, left_child: Box::new(left), right_child: Box::new(right) },
        pos,
    }
}

fn build(code: &str) -> Vec<Stmt<i64>> {
    Ast::<i64>::build(code).expect("expected a successful build").statements
}

#[test]
fn subtraction_nests_to_the_left() {
    let stmts = build("1 - 2 - 3");
    let expected = binop(
        TokenKind::Minus,
        binop(TokenKind::Minus, num(1, 0, 0), num(2, 0, 4)),
        num(3, 0, 8),
    );
    assert_eq!(stmts, vec![Stmt::Expr(expected)]);
}

#[test]
fn ternary_nests_to_the_right() {
    let stmts = build("a ? b : c ? d : e");
    let inner = Expr {
        syn: Syntagma::TernaryOp {
            left_child: Box::new(ident("c", 0, 8)),
            mid_child: Box::new(ident("d", 0, 12)),
            right_child: Box::new(ident("e", 0, 16)),
        },
        pos: Pos::new(0, 8),
    };
    let outer = Expr {
        syn: Syntagma::TernaryOp {
            left_child: Box::new(ident("a", 0, 0)),
            mid_child: Box::new(ident("b", 0, 4)),
            right_child: Box::new(inner),
        },
        pos: Pos::new(0, 0),
    };
    assert_eq!(stmts, vec![Stmt::Expr(outer)]);
}

#[test]
fn two_assignments_with_a_grouped_sum() {
    let stmts = build("x = 10   y = (var + num) - 7");
    let sum = binop(TokenKind::Plus, ident("var", 0, 14), ident("num", 0, 20));
    let group = Expr { syn: Syntagma::Group { expr: Box::new(sum) }, pos: Pos::new(0, 14) };
    let value = binop(TokenKind::Minus, group, num(7, 0, 27));
    let expected = vec![
        Stmt::Assign { name: "x".to_string(), value: num(10, 0, 4) },
        Stmt::Assign { name: "y".to_string(), value },
    ];
    assert_eq!(stmts, expected);
}

#[test]
fn full_precedence_ladder_parses_as_one_statement() {
    let stmts = build("num / 4 + 10 * (!!var - 2) % 3 == -num + 9 != 8 * num > !19");
    assert_eq!(stmts.len(), 1);
    match &stmts[0] {
        Stmt::Expr(e) => match &e.syn {
            Syntagma::BinaryOp { op, .. } => assert_eq!(*op, TokenKind::NotEqual),
            other => panic!("expected a binary root, got {:?}", other),
        },
        other => panic!("expected an expression statement, got {:?}", other),
    }
}

#[test]
fn blank_input_yields_zero_statements() {
    assert_eq!(build(""), vec![]);
    assert_eq!(build("   \t  "), vec![]);
    assert_eq!(build(" \n \n"), vec![]);
    assert_eq!(build("// only a comment"), vec![]);
    assert_eq!(build("  // one\n\t// two\n"), vec![]);
}

#[test]
fn multiplication_binds_tighter_than_addition() {
    let stmts = build("1 + 2 * 3");
    let expected = binop(
        TokenKind::Plus,
        num(1, 0, 0),
        binop(TokenKind::Star, num(2, 0, 4), num(3, 0, 8)),
    );
    assert_eq!(stmts, vec![Stmt::Expr(expected)]);
}

#[test]
fn prefix_operators_nest_and_anchor_at_the_operand() {
    let stmts = build("!!var");
    let inner = Expr {
        syn: Syntagma::UnaryOp { op: TokenKind::Not, child: Box::new(ident("var", 0, 2)) },
        pos: Pos::new(0, 2),
    };
    let outer = Expr {
        syn: Syntagma::UnaryOp { op: TokenKind::Not, child: Box::new(inner) },
        pos: Pos::new(0, 2),
    };
    assert_eq!(stmts, vec![Stmt::Expr(outer)]);
}

#[test]
fn unary_minus_binds_tighter_than_multiplication() {
    let stmts = build("- x * 2");
    let neg = Expr {
        syn: Syntagma::UnaryOp { op: TokenKind::Minus, child: Box::new(ident("x", 0, 2)) },
        pos: Pos::new(0, 2),
    };
    let expected = Expr {
        syn: Syntagma::BinaryOp {
            op: TokenKind::Star,
            left_child: Box::new(neg),
            right_child: Box::new(num(2, 0, 6)),
        },
        pos: Pos::new(0, 2),
    };
    assert_eq!(stmts, vec![Stmt::Expr(expected)]);
}

#[test]
fn call_with_no_arguments() {
    let stmts = build("foo{}");
    let expected = Expr {
        syn: Syntagma::Call { func: "foo".to_string(), args: vec![] },
        pos: Pos::new(0, 0),
    };
    assert_eq!(stmts, vec![Stmt::Expr(expected)]);
}

#[test]
fn call_with_two_arguments() {
    let stmts = build("foo{1, 2 + 3}");
    let second = binop(TokenKind::Plus, num(2, 0, 7), num(3, 0, 11));
    let expected = Expr {
        syn: Syntagma::Call { func: "foo".to_string(), args: vec![num(1, 0, 4), second] },
        pos: Pos::new(0, 0),
    };
    assert_eq!(stmts, vec![Stmt::Expr(expected)]);
}

#[test]
fn lambda_with_parameters_and_body() {
    let stmts = build("fn(x, y) x * y");
    let body = binop(TokenKind::Star, ident("x", 0, 9), ident("y", 0, 13));
    let expected = Expr {
        syn: Syntagma::Lambda {
            params: vec!["x".to_string(), "y".to_string()],
            body: Box::new(body),
        },
        pos: Pos::new(0, 0),
    };
    assert_eq!(stmts, vec![Stmt::Expr(expected)]);
}

#[test]
fn lambda_with_no_parameters() {
    let stmts = build("fn() 1");
    let expected = Expr {
        syn: Syntagma::Lambda { params: vec![], body: Box::new(num(1, 0, 5)) },
        pos: Pos::new(0, 0),
    };
    assert_eq!(stmts, vec![Stmt::Expr(expected)]);
}

#[test]
fn fn_without_parenthesis_is_a_plain_identifier() {
    let stmts = build("fn + 1");
    let expected = binop(TokenKind::Plus, ident("fn", 0, 0), num(1, 0, 5));
    assert_eq!(stmts, vec![Stmt::Expr(expected)]);
}

#[test]
fn statements_split_where_the_grammar_stops_consuming() {
    let stmts = build("10   5 + var\nnum");
    let expected = vec![
        Stmt::Expr(num(10, 0, 0)),
        Stmt::Expr(binop(TokenKind::Plus, num(5, 0, 5), ident("var", 0, 9))),
        Stmt::Expr(ident("num", 1, 0)),
    ];
    assert_eq!(stmts, expected);
}

#[test]
fn parser_reports_the_end_of_its_buffer() {
    let mut p = Parser::<i64>::new("x");
    assert!(p.is_end());
    assert!(!p.ended().unwrap());
    let _ = p.scan_stmt().unwrap();
    assert!(p.ended().unwrap());
    assert!(p.is_end());
}

#[test]
fn comparison_and_logic_tiers_sit_between_equality_and_term() {
    let stmts = build("a & b > c == d");
    let logic = binop(TokenKind::And, ident("a", 0, 0), ident("b", 0, 4));
    let cmp = binop(TokenKind::GreaterThan, logic, ident("c", 0, 8));
    let expected = binop(TokenKind::TwoEquals, cmp, ident("d", 0, 13));
    assert_eq!(stmts, vec![Stmt::Expr(expected)]);
}

#[test]
fn expression_continues_past_a_comment_and_a_line_break() {
    let stmts = build("10 +// his is a comment ¿\n    num");
    let expected = binop(TokenKind::Plus, num(10, 0, 0), ident("num", 1, 4));
    assert_eq!(stmts, vec![Stmt::Expr(expected)]);
}

#[test]
fn nested_calls_spanning_lines() {
    let stmts = build("foo{\n    (x + 10) / y,\n    bar{x + y}\n}");
    assert_eq!(stmts.len(), 1);
    match &stmts[0] {
        Stmt::Expr(e) => match &e.syn {
            Syntagma::Call { func, args } => {
                assert_eq!(func, "foo");
                assert_eq!(args.len(), 2);
                assert!(matches!(args[0].syn, Syntagma::BinaryOp { op: TokenKind::Slash, .. }));
                assert!(matches!(&args[1].syn, Syntagma::Call { .. }));
            },
            other => panic!("expected a call, got {:?}", other),
        },
        other => panic!("expected an expression statement, got {:?}", other),
    }
}

#[test]
fn ternary_condition_spanning_lines() {
    let stmts = build("num = x >= 0 && y >= 0 ?\n    x * y\n    : 0");
    assert_eq!(stmts.len(), 1);
    match &stmts[0] {
        Stmt::Assign { name, value } => {
            assert_eq!(name, "num");
            assert!(matches!(value.syn, Syntagma::TernaryOp { .. }));
        },
        other => panic!("expected an assignment, got {:?}", other),
    }
}

#[test]
fn grouped_expression_spanning_lines() {
    let stmts = build("10 + 9 -\n    (\n        12 + 67 - num\n    )");
    assert_eq!(stmts.len(), 1);
    match &stmts[0] {
        Stmt::Expr(e) => match &e.syn {
            Syntagma::BinaryOp { op, right_child, .. } => {
                assert_eq!(*op, TokenKind::Minus);
                assert!(matches!(right_child.syn, Syntagma::Group { .. }));
                assert_eq!(right_child.pos, Pos::new(2, 8));
            },
            other => panic!("expected a binary root, got {:?}", other),
        },
        other => panic!("expected an expression statement, got {:?}", other),
    }
}
