use calf::common::Pos;
use calf::lexer::{Lexeme, Lexer, Token, TokenKind};

fn scan(lexer: &mut Lexer) -> Token<i64> {
    lexer.scan_token::<i64>().expect("expected a token")
}

#[test]
fn scans_assignment_tokens() {
    let mut lx = Lexer::new("x = 10");
    let t = scan(&mut lx);
    assert_eq!(t.lexeme, Lexeme::Ident("x".to_string()));
    assert_eq!(t.pos, Pos::new(0, 0));
    let t = scan(&mut lx);
    assert_eq!(t.lexeme, Lexeme::Particle(TokenKind::Assign));
    assert_eq!(t.pos, Pos::new(0, 2));
    let t = scan(&mut lx);
    assert_eq!(t.lexeme, Lexeme::Number(10));
    assert_eq!(t.pos, Pos::new(0, 4));
    let t = scan(&mut lx);
    assert_eq!(t.lexeme, Lexeme::EOF);
}

#[test]
fn scans_two_char_operators_with_longest_match() {
    let mut lx = Lexer::new(">= <= && || == != ..");
    let expected = [
        TokenKind::GtEqual,
        TokenKind::LtEqual,
        TokenKind::TwoAnds,
        TokenKind::TwoOrs,
        TokenKind::TwoEquals,
        TokenKind::NotEqual,
        TokenKind::TwoDots,
    ];
    for kind in expected {
        let t = scan(&mut lx);
        assert_eq!(t.lexeme, Lexeme::Particle(kind));
    }
    assert_eq!(scan(&mut lx).lexeme, Lexeme::EOF);
}

#[test]
fn scans_single_char_operators() {
    let mut lx = Lexer::new("( ) [ ] { } , ? : ; + * / % < > & | ! . #");
    let expected = [
        TokenKind::OpenParenth,
        TokenKind::ClosingParenth,
        TokenKind::OpenClause,
        TokenKind::ClosingClause,
        TokenKind::OpenCurly,
        TokenKind::ClosingCurly,
        TokenKind::Comma,
        TokenKind::Question,
        TokenKind::Colon,
        TokenKind::Semicolon,
        TokenKind::Plus,
        TokenKind::Star,
        TokenKind::Slash,
        TokenKind::Percent,
        TokenKind::LesserThan,
        TokenKind::GreaterThan,
        TokenKind::And,
        TokenKind::Or,
        TokenKind::Not,
        TokenKind::Dot,
        TokenKind::Sharp,
    ];
    for kind in expected {
        let t = scan(&mut lx);
        assert_eq!(t.lexeme, Lexeme::Particle(kind));
    }
    assert_eq!(scan(&mut lx).lexeme, Lexeme::EOF);
}

#[test]
fn minus_glued_to_digits_is_a_negative_literal() {
    let mut lx = Lexer::new("1 -2");
    assert_eq!(scan(&mut lx).lexeme, Lexeme::Number(1));
    let t = scan(&mut lx);
    assert_eq!(t.lexeme, Lexeme::Number(-2));
    assert_eq!(t.pos, Pos::new(0, 2));
    assert_eq!(scan(&mut lx).lexeme, Lexeme::EOF);
}

#[test]
fn minus_before_space_is_an_operator() {
    let mut lx = Lexer::new("1 - 2");
    assert_eq!(scan(&mut lx).lexeme, Lexeme::Number(1));
    assert_eq!(scan(&mut lx).lexeme, Lexeme::Particle(TokenKind::Minus));
    assert_eq!(scan(&mut lx).lexeme, Lexeme::Number(2));
}

#[test]
fn minus_before_identifier_is_an_operator() {
    let mut lx = Lexer::new("-num");
    let t = scan(&mut lx);
    assert_eq!(t.lexeme, Lexeme::Particle(TokenKind::Minus));
    let t = scan(&mut lx);
    assert_eq!(t.lexeme, Lexeme::Ident("num".to_string()));
    assert_eq!(t.pos, Pos::new(0, 1));
}

#[test]
fn integer_followed_by_range_is_not_a_float() {
    let mut lx = Lexer::new("1..5");
    assert_eq!(scan(&mut lx).lexeme, Lexeme::Number(1));
    assert_eq!(scan(&mut lx).lexeme, Lexeme::Particle(TokenKind::TwoDots));
    assert_eq!(scan(&mut lx).lexeme, Lexeme::Number(5));
}

#[test]
fn comments_and_newlines_are_skip_tokens() {
    let mut lx = Lexer::new("a // hi\nb");
    let t = scan(&mut lx);
    assert_eq!(t.lexeme, Lexeme::Ident("a".to_string()));
    assert_eq!(t.pos, Pos::new(0, 0));
    let t = scan(&mut lx);
    assert_eq!(t.lexeme, Lexeme::Skip);
    assert_eq!(t.pos, Pos::new(0, 2));
    let t = scan(&mut lx);
    assert_eq!(t.lexeme, Lexeme::Skip);
    assert_eq!(t.pos, Pos::new(0, 7));
    let t = scan(&mut lx);
    assert_eq!(t.lexeme, Lexeme::Ident("b".to_string()));
    assert_eq!(t.pos, Pos::new(1, 0));
}

#[test]
fn unicode_letters_open_identifiers() {
    let mut lx = Lexer::new("héllo");
    let t = scan(&mut lx);
    assert_eq!(t.lexeme, Lexeme::Ident("héllo".to_string()));
    assert_eq!(scan(&mut lx).lexeme, Lexeme::EOF);
}

#[test]
fn underscore_opens_identifiers_and_digits_continue_them() {
    let mut lx = Lexer::new("_a1 b_2");
    assert_eq!(scan(&mut lx).lexeme, Lexeme::Ident("_a1".to_string()));
    assert_eq!(scan(&mut lx).lexeme, Lexeme::Ident("b_2".to_string()));
}

#[test]
fn digits_do_not_open_identifiers() {
    let mut lx = Lexer::new("10abc");
    assert_eq!(scan(&mut lx).lexeme, Lexeme::Number(10));
    assert_eq!(scan(&mut lx).lexeme, Lexeme::Ident("abc".to_string()));
}

#[test]
fn end_of_input_repeats_without_consuming() {
    let mut lx = Lexer::new("   ");
    let t = scan(&mut lx);
    assert_eq!(t.lexeme, Lexeme::EOF);
    assert_eq!(t.pos, Pos::new(0, 0));
    let t = scan(&mut lx);
    assert_eq!(t.lexeme, Lexeme::EOF);
}

#[test]
fn rows_never_decrease_and_columns_grow_within_a_row() {
    let mut lx = Lexer::new("a b\nc + 1 // x\n  d e");
    let mut prev: Option<Pos> = None;
    loop {
        let t = lx.scan_token::<i64>().expect("expected a token");
        if t.lexeme == Lexeme::EOF {
            break;
        }
        if t.lexeme == Lexeme::Skip {
            continue;
        }
        if let Some(p) = prev {
            assert!(t.pos.row > p.row || (t.pos.row == p.row && t.pos.col > p.col));
        }
        prev = Some(t.pos);
    }
}

#[test]
fn particle_accessor_distinguishes_operators_from_values() {
    let tok: Token<i64> = Token::new(Lexeme::Particle(TokenKind::Plus), Pos::new(3, 4));
    assert_eq!(tok.particle().unwrap(), TokenKind::Plus);
    let tok: Token<i64> = Token::new(Lexeme::Number(7), Pos::new(3, 4));
    let err = tok.particle().unwrap_err();
    assert_eq!(err.message, "Expected a particle");
    assert_eq!(err.pos, Pos::new(3, 4));
}

#[test]
fn lexer_pos_tracks_consumed_fragments() {
    let mut lx = Lexer::new("ab cd");
    assert_eq!(lx.pos(), Pos::new(0, 0));
    let _ = scan(&mut lx);
    assert_eq!(lx.pos(), Pos::new(0, 2));
    let _ = scan(&mut lx);
    assert_eq!(lx.pos(), Pos::new(0, 5));
}
