use calf::ast::Ast;
use calf::num::Numeric;
use calf::parser::{Stmt, Syntagma};

/// A numeric type of the caller's choice: fractional literals parsed into
/// a machine float, as the command-line driver does.
#[derive(Debug, Clone, Copy, PartialEq)]
struct Value(f32);

impl Numeric for Value {
    fn spec_parse(_text: vstd::seq::Seq<char>) -> Option<Value> {
        unreachable!()
    }

    fn from_literal(text: &[char]) -> Option<Value> {
        let s: String = text.iter().collect();
        s.parse::<f32>().ok().map(Value)
    }
}

#[test]
fn fractional_literals_parse_into_the_chosen_type() {
    let stmts = Ast::<Value>::build("4.87").expect("expected a build").statements;
    assert_eq!(stmts.len(), 1);
    match &stmts[0] {
        Stmt::Expr(e) => match &e.syn {
            Syntagma::Number(v) => assert_eq!(*v, Value(4.87)),
            other => panic!("expected a number, got {:?}", other),
        },
        other => panic!("expected an expression statement, got {:?}", other),
    }
}

#[test]
fn float_round_trip_keeps_the_value_within_precision() {
    for text in ["0.5", "4.87", "-2.25", "10.0"] {
        let cs: Vec<char> = text.chars().collect();
        let v = Value::from_literal(&cs).expect("expected a value");
        let again = format!("{}", v.0);
        let cs2: Vec<char> = again.chars().collect();
        let w = Value::from_literal(&cs2).expect("expected a value");
        assert_eq!(v, w);
    }
}

#[test]
fn mixed_integer_and_float_literals_in_one_buffer() {
    let stmts = Ast::<Value>::build("1 + 2.5").expect("expected a build").statements;
    assert_eq!(stmts.len(), 1);
}
