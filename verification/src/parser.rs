//! The recursive-descent parser.
//!
//! The parser reads the token stream through a FIFO lookahead buffer that
//! is filled lazily from the tokenizer, skipping `Skip` tokens, and builds
//! statements and expressions by precedence climbing. Its contracts tie
//! every tree it returns to the tokens it consumed: the consumed prefix of
//! the stream is exactly the tree's own spelling (`unparse`), the tree is
//! shaped by the precedence ladder (`wf_at`), and every node carries the
//! coordinate of the fragment its value starts at (`anchored`).

use vstd::prelude::*;
use std::collections::VecDeque;
use crate::common::{CalfErr, Pos, SpecPos};
use crate::lexer::{
    Lexer, Lexeme, SpecLexeme, SpecToken, StreamEnd, Token, TokenKind, spec_stream,
};
use crate::num::Numeric;

verus! {

/// One syntactic unit of the expression tree.
#[derive(Debug, PartialEq)]
pub enum Syntagma<T> {
    Number(T),
    Identifier(String),
    /// A parenthesized sub-expression, kept distinct from its inner
    /// expression so coordinate and precedence context are preserved.
    Group { expr: Box<Expr<T>> },
    UnaryOp { op: TokenKind, child: Box<Expr<T>> },
    BinaryOp { op: TokenKind, left_child: Box<Expr<T>>, right_child: Box<Expr<T>> },
    TernaryOp { left_child: Box<Expr<T>>, mid_child: Box<Expr<T>>, right_child: Box<Expr<T>> },
    Call { func: String, args: Vec<Expr<T>> },
    Lambda { params: Vec<String>, body: Box<Expr<T>> },
}

/// An expression: a syntactic unit with the coordinate its value starts at.
#[derive(Debug, PartialEq)]
pub struct Expr<T> {
    pub syn: Syntagma<T>,
    pub pos: Pos,
}

impl<T> Expr<T> {
    pub fn new(unit: Syntagma<T>, pos: Pos) -> (e: Expr<T>)
        ensures
            e.syn == unit,
            e.pos == pos,
    {
        Expr { syn: unit, pos }
    }
}

/// A statement: an assignment or a bare expression.
#[derive(Debug, PartialEq)]
pub enum Stmt<T> {
    Assign { name: String, value: Expr<T> },
    Expr(Expr<T>),
}

/// The spelling of an expression: the lexemes its tree linearizes back to,
/// in source order. A parse is proved to consume exactly the spelling of
/// the tree it returns.
pub open spec fn unparse<T>(e: Expr<T>) -> Seq<SpecLexeme<T>>
    decreases e, 0int,
{
    match e.syn {
        Syntagma::Number(n) => seq![SpecLexeme::Num(n)],
        Syntagma::Identifier(s) => seq![SpecLexeme::Id(s@)],
        Syntagma::Group { expr } => seq![SpecLexeme::Part(TokenKind::OpenParenth)] + unparse(*expr)
            + seq![SpecLexeme::Part(TokenKind::ClosingParenth)],
        Syntagma::UnaryOp { op, child } => seq![SpecLexeme::Part(op)] + unparse(*child),
        Syntagma::BinaryOp { op, left_child, right_child } => unparse(*left_child) + seq![
            SpecLexeme::Part(op),
        ] + unparse(*right_child),
        Syntagma::TernaryOp { left_child, mid_child, right_child } => unparse(*left_child) + seq![
            SpecLexeme::Part(TokenKind::Question),
        ] + unparse(*mid_child) + seq![SpecLexeme::Part(TokenKind::Colon)] + unparse(*right_child),
        Syntagma::Call { func, args } => seq![
            SpecLexeme::Id(func@),
            SpecLexeme::Part(TokenKind::OpenCurly),
        ] + unparse_args(args@) + seq![SpecLexeme::Part(TokenKind::ClosingCurly)],
        Syntagma::Lambda { params, body } => seq![
            SpecLexeme::Id("fn"@),
            SpecLexeme::Part(TokenKind::OpenParenth),
        ] + unparse_params(params@) + seq![SpecLexeme::Part(TokenKind::ClosingParenth)] + unparse(
            *body,
        ),
    }
}

/// The spelling of a call's arguments: comma-separated expressions.
pub open spec fn unparse_args<T>(args: Seq<Expr<T>>) -> Seq<SpecLexeme<T>>
    decreases args, 1int,
{
    if args.len() == 0 {
        Seq::empty()
    } else if args.len() == 1 {
        unparse(args[0])
    } else {
        unparse(args[0]) + seq![SpecLexeme::Part(TokenKind::Comma)] + unparse_args(args.subrange(
            1,
            args.len() as int,
        ))
    }
}

/// The spelling of a lambda's parameter list: comma-separated identifiers.
pub open spec fn unparse_params<T>(params: Seq<String>) -> Seq<SpecLexeme<T>>
    decreases params.len(),
{
    if params.len() == 0 {
        Seq::empty()
    } else if params.len() == 1 {
        seq![SpecLexeme::Id(params[0]@)]
    } else {
        seq![SpecLexeme::Id(params[0]@), SpecLexeme::Part(TokenKind::Comma)] + unparse_params(
            params.subrange(1, params.len() as int),
        )
    }
}

/// The operators of the equality tier.
pub open spec fn is_eq_op(k: TokenKind) -> bool {
    k == TokenKind::TwoEquals || k == TokenKind::NotEqual
}

/// The operators of the comparison tier.
pub open spec fn is_cmp_op(k: TokenKind) -> bool {
    ||| k == TokenKind::GreaterThan
    ||| k == TokenKind::LesserThan
    ||| k == TokenKind::GtEqual
    ||| k == TokenKind::LtEqual
    ||| k == TokenKind::TwoAnds
    ||| k == TokenKind::TwoOrs
}

/// The operators of the logic tier.
pub open spec fn is_logic_op(k: TokenKind) -> bool {
    k == TokenKind::And || k == TokenKind::Or
}

/// The operators of the term tier.
pub open spec fn is_term_op(k: TokenKind) -> bool {
    k == TokenKind::Plus || k == TokenKind::Minus
}

/// The operators of the factor tier.
pub open spec fn is_factor_op(k: TokenKind) -> bool {
    k == TokenKind::Star || k == TokenKind::Slash || k == TokenKind::Percent
}

/// The prefix operators.
pub open spec fn is_unary_op(k: TokenKind) -> bool {
    k == TokenKind::Not || k == TokenKind::Minus
}

/// The tier a binary operator belongs to: factors bind tightest of the
/// binary tiers, equality loosest. Zero marks a kind that is no binary
/// operator of the grammar.
pub open spec fn op_level(k: TokenKind) -> int {
    if is_factor_op(k) {
        4
    } else if is_term_op(k) {
        5
    } else if is_logic_op(k) {
        6
    } else if is_cmp_op(k) {
        7
    } else if is_eq_op(k) {
        8
    } else {
        0
    }
}

/// Whether a tree is well formed at a precedence tier (primary 0, lambda 1,
/// call 2, unary 3, the binary tiers 4 to 8, ternary 9): the root could
/// have been produced at that tier or a tighter one. A binary node's left
/// child sits at the node's own tier and its right child one tier tighter,
/// so every binary tier is left-nested; the ternary tier right-nests
/// through its branches; a group resets its inside to the loosest tier.
pub open spec fn wf_at<T>(e: Expr<T>, lvl: int) -> bool
    decreases e, 0int,
{
    match e.syn {
        Syntagma::Number(_) => true,
        Syntagma::Identifier(_) => true,
        Syntagma::Group { expr } => wf_at(*expr, 9),
        Syntagma::Lambda { params, body } => lvl >= 1 && wf_at(*body, 9),
        Syntagma::Call { func, args } => lvl >= 2 && wf_args(args@),
        Syntagma::UnaryOp { op, child } => lvl >= 3 && is_unary_op(op) && wf_at(*child, 3),
        Syntagma::BinaryOp { op, left_child, right_child } => op_level(op) >= 4 && op_level(op)
            <= lvl && wf_at(*left_child, op_level(op)) && wf_at(*right_child, op_level(op) - 1),
        Syntagma::TernaryOp { left_child, mid_child, right_child } => lvl >= 9 && wf_at(
            *left_child,
            8,
        ) && wf_at(*mid_child, 9) && wf_at(*right_child, 9),
    }
}

/// Every argument of a call is a full expression.
pub open spec fn wf_args<T>(args: Seq<Expr<T>>) -> bool
    decreases args, 1int,
{
    if args.len() == 0 {
        true
    } else {
        wf_at(args[0], 9) && wf_args(args.subrange(1, args.len() as int))
    }
}

/// A tree well formed at a tier is well formed at every looser tier.
pub proof fn lemma_wf_lift<T>(e: Expr<T>, lo: int, hi: int)
    requires
        wf_at(e, lo),
        lo <= hi,
    ensures
        wf_at(e, hi),
{
}

/// Every node's coordinate is where its value starts: a binary or ternary
/// node sits at its left operand, a prefix node at its operand, a group at
/// its inner expression.
pub open spec fn anchored<T>(e: Expr<T>) -> bool
    decreases e, 0int,
{
    match e.syn {
        Syntagma::Number(_) => true,
        Syntagma::Identifier(_) => true,
        Syntagma::Group { expr } => e.pos == expr.pos && anchored(*expr),
        Syntagma::UnaryOp { op, child } => e.pos == child.pos && anchored(*child),
        Syntagma::BinaryOp { op, left_child, right_child } => e.pos == left_child.pos && anchored(
            *left_child,
        ) && anchored(*right_child),
        Syntagma::TernaryOp { left_child, mid_child, right_child } => e.pos == left_child.pos
            && anchored(*left_child) && anchored(*mid_child) && anchored(*right_child),
        Syntagma::Call { func, args } => anchored_args(args@),
        Syntagma::Lambda { params, body } => anchored(*body),
    }
}

/// Every argument of a call is anchored.
pub open spec fn anchored_args<T>(args: Seq<Expr<T>>) -> bool
    decreases args, 1int,
{
    if args.len() == 0 {
        true
    } else {
        anchored(args[0]) && anchored_args(args.subrange(1, args.len() as int))
    }
}

/// The spelling of a statement.
pub open spec fn stmt_lexemes<T>(st: Stmt<T>) -> Seq<SpecLexeme<T>> {
    match st {
        Stmt::Assign { name, value } => seq![
            SpecLexeme::Id(name@),
            SpecLexeme::Part(TokenKind::Assign),
        ] + unparse(value),
        Stmt::Expr(e) => unparse(e),
    }
}

/// A statement's expression is a full, anchored expression.
pub open spec fn wf_stmt<T>(st: Stmt<T>) -> bool {
    match st {
        Stmt::Assign { name, value } => wf_at(value, 9) && anchored(value),
        Stmt::Expr(e) => wf_at(e, 9) && anchored(e),
    }
}

/// The lexemes of a token sequence.
pub open spec fn lexemes_of<T>(toks: Seq<SpecToken<T>>) -> Seq<SpecLexeme<T>> {
    toks.map_values(|t: SpecToken<T>| t.lex)
}

/// Whether a lexeme answers a lookahead query for `k`: a number matches
/// either numeric kind, an identifier matches only the identifier kind, an
/// operator matches exactly its own kind.
pub open spec fn lex_matches<T>(l: SpecLexeme<T>, k: TokenKind) -> bool {
    match l {
        SpecLexeme::Num(_) => k == TokenKind::Int || k == TokenKind::Float,
        SpecLexeme::Id(_) => k == TokenKind::Ident,
        SpecLexeme::Part(p) => k == p,
        _ => false,
    }
}

/// Whether `k` is an operator that a tier up to `lvl` keeps consuming: a
/// greedy parse at `lvl` cannot stop in front of such a token.
pub open spec fn op_at_or_below(k: TokenKind, lvl: int) -> bool {
    (op_level(k) >= 4 && op_level(k) <= lvl) || (lvl >= 9 && k == TokenKind::Question)
}

/// The parser: a FIFO buffer of tokens already fetched but not consumed,
/// in front of the tokenizer they came from.
pub struct Parser<T> {
    tokens: VecDeque<Token<T>>,
    lexer: Lexer,
}

impl<T: Numeric> Parser<T> {
    /// The tokens sitting in the lookahead buffer.
    pub closed spec fn buffered(self) -> Seq<SpecToken<T>> {
        self.tokens@.map_values(|t: Token<T>| t@)
    }

    /// The tokens the tokenizer has yet to produce, and how that stream
    /// ends.
    pub closed spec fn upcoming(self) -> (Seq<SpecToken<T>>, StreamEnd) {
        spec_stream::<T>(self.lexer.text(), self.lexer.cursor(), self.lexer.position())
    }

    /// Every token still ahead of the parser, buffered or not.
    pub open spec fn toks(self) -> Seq<SpecToken<T>> {
        self.buffered() + self.upcoming().0
    }

    /// How the token stream ends: cleanly, or at a lexical error.
    pub open spec fn tail(self) -> StreamEnd {
        self.upcoming().1
    }

    /// The tokenizer state is sound and the buffer holds real tokens only.
    pub closed spec fn wf(self) -> bool {
        &&& self.lexer.wf()
        &&& forall|i: int|
            0 <= i < self.buffered().len() ==> !((#[trigger] self.buffered()[i]).lex is Skip)
                && !(self.buffered()[i].lex is End)
    }

    /// The tokenizer's current coordinate.
    pub closed spec fn lexer_position(self) -> SpecPos {
        self.lexer.position()
    }

    /// A parser over the token stream of `code`, with an empty buffer.
    pub fn new(code: &str) -> (p: Parser<T>)
        ensures
            p.wf(),
            p.buffered().len() == 0,
            p.toks() == spec_stream::<T>(code@, 0, SpecPos { row: 0, col: 0 }).0,
            p.tail() == spec_stream::<T>(code@, 0, SpecPos { row: 0, col: 0 }).1,
    {
        let tokens: VecDeque<Token<T>> = VecDeque::new();
        let lexer = Lexer::new(code);
        let p = Parser { tokens, lexer };
        proof {
            assert(p.buffered() =~= Seq::<SpecToken<T>>::empty());
            assert(p.toks() =~= p.upcoming().0);
        }
        p
    }

    /// Fetches real tokens from the tokenizer until the buffer holds at
    /// least `want`, the stream ends, or a lexical error surfaces. The
    /// tokens ahead of the parser do not change; the buffer boundary moves.
    fn fill(&mut self, want: usize) -> (r: Result<(), CalfErr>)
        requires
            old(self).wf(),
        ensures
            final(self).wf(),
            final(self).toks() == old(self).toks(),
            final(self).tail() == old(self).tail(),
            r is Ok <==> (old(self).toks().len() >= want || old(self).tail() is AtEof),
            r is Ok ==> final(self).buffered().len() >= want || final(self).buffered()
                =~= old(self).toks(),
            r is Err ==> old(self).tail() is AtErr && r->Err_0.pos@ == old(self).tail()->AtErr_pos
                && r->Err_0.message@ == old(self).tail()->AtErr_msg,
    {
        let ghost orig = *self;
        loop
            invariant
                orig == *old(self),
                self.wf(),
                self.toks() == orig.toks(),
                self.tail() == orig.tail(),
                self.buffered().len() >= orig.buffered().len(),
            ensures
                self.wf(),
                self.toks() == orig.toks(),
                self.tail() == orig.tail(),
                self.buffered().len() >= want || (self.buffered() =~= orig.toks() && self.tail()
                    is AtEof),
            decreases (if self.buffered().len() >= want {
                0int
            } else {
                want - self.buffered().len()
            }), self.lexer.text().len() - self.lexer.cursor(),
        {
            if self.tokens.len() >= want {
                break;
            }
            let ghost pre = *self;
            proof {
                crate::lexer::lemma_scan_step::<T>(
                    self.lexer.text(),
                    self.lexer.cursor(),
                    self.lexer.position(),
                );
            }
            match self.lexer.scan_token::<T>() {
                Err(e) => {
                    proof {
                        assert(pre.upcoming().0 =~= Seq::<SpecToken<T>>::empty());
                        assert(pre.toks() =~= pre.buffered());
                    }
                    return Err(e);
                },
                Ok(t) => {
                    match &t.lexeme {
                        Lexeme::Skip => {
                            proof {
                                assert(self.buffered() =~= pre.buffered());
                            }
                        },
                        Lexeme::EOF => {
                            proof {
                                assert(pre.upcoming().0 =~= Seq::<SpecToken<T>>::empty());
                                assert(self.buffered() =~= pre.buffered());
                                assert(self.buffered() =~= orig.toks());
                            }
                            return Ok(());
                        },
                        _ => {
                            let ghost tv = t@;
                            self.tokens.push_back(t);
                            proof {
                                assert(self.buffered() =~= pre.buffered().push(tv));
                                assert(pre.upcoming().0 =~= seq![tv] + self.upcoming().0);
                                assert(self.toks() =~= pre.toks());
                            }
                        },
                    }
                },
            }
        }
        Ok(())
    }

    /// Whether the token at `offset` ahead of the read point matches the
    /// kind, fetching as far as needed: false past the end of the stream,
    /// and the stream's own lexical error when one sits in the way.
    fn is_token(&mut self, ttype: TokenKind, offset: usize) -> (r: Result<bool, CalfErr>)
        requires
            old(self).wf(),
            offset < usize::MAX,
        ensures
            final(self).wf(),
            final(self).toks() == old(self).toks(),
            final(self).tail() == old(self).tail(),
            r is Ok <==> (offset < old(self).toks().len() || old(self).tail() is AtEof),
            r is Ok ==> r->Ok_0 == (offset < old(self).toks().len() && lex_matches(
                old(self).toks()[offset as int].lex,
                ttype,
            )),
            r is Ok && offset < old(self).toks().len() ==> final(self).buffered().len() > offset,
            r is Err ==> old(self).tail() is AtErr && r->Err_0.pos@ == old(self).tail()->AtErr_pos
                && r->Err_0.message@ == old(self).tail()->AtErr_msg,
    {
        match self.fill(offset + 1) {
            Err(e) => Err(e),
            Ok(()) => {
                if offset < self.tokens.len() {
                    let t = &self.tokens[offset];
                    proof {
                        assert(t@ == self.toks()[offset as int]);
                    }
                    match &t.lexeme {
                        Lexeme::Number(_) => Ok(
                            ttype == TokenKind::Int || ttype == TokenKind::Float,
                        ),
                        Lexeme::Ident(_) => Ok(ttype == TokenKind::Ident),
                        Lexeme::Particle(p) => Ok(ttype == *p),
                        _ => Ok(false),
                    }
                } else {
                    Ok(false)
                }
            },
        }
    }

    /// Whether the token at `offset` is exactly the identifier `ident`.
    fn is_ident(&mut self, ident: &str, offset: usize) -> (r: Result<bool, CalfErr>)
        requires
            old(self).wf(),
            offset < usize::MAX,
        ensures
            final(self).wf(),
            final(self).toks() == old(self).toks(),
            final(self).tail() == old(self).tail(),
            r is Ok <==> (offset < old(self).toks().len() || old(self).tail() is AtEof),
            r is Ok ==> r->Ok_0 == (offset < old(self).toks().len()
                && old(self).toks()[offset as int].lex is Id
                && old(self).toks()[offset as int].lex->Id_0 == ident@),
            r is Ok && offset < old(self).toks().len() ==> final(self).buffered().len() > offset,
            r is Err ==> old(self).tail() is AtErr && r->Err_0.pos@ == old(self).tail()->AtErr_pos
                && r->Err_0.message@ == old(self).tail()->AtErr_msg,
    {
        match self.is_token(TokenKind::Ident, offset) {
            Err(e) => Err(e),
            Ok(false) => Ok(false),
            Ok(true) => {
                let t = &self.tokens[offset];
                proof {
                    assert(t@ == self.toks()[offset as int]);
                }
                if let Lexeme::Ident(name) = &t.lexeme {
                    let want = ident.to_owned();
                    Ok(*name == want)
                } else {
                    // a kind match alone does not make the token an identifier
                    Ok(false)
                }
            },
        }
    }

    /// Removes and returns the front buffered token, if one is there.
    fn token(&mut self) -> (r: Option<Token<T>>)
        requires
            old(self).wf(),
        ensures
            final(self).wf(),
            final(self).tail() == old(self).tail(),
            match r {
                Some(t) => old(self).buffered().len() > 0 && t@ == old(self).toks()[0]
                    && final(self).toks() == old(self).toks().skip(1) && final(self).buffered()
                    == old(self).buffered().skip(1),
                None => old(self).buffered().len() == 0 && final(self).toks() == old(self).toks()
                    && final(self).buffered() == old(self).buffered(),
            },
    {
        let ghost pre = *self;
        let r = self.tokens.pop_front();
        proof {
            if pre.buffered().len() > 0 {
                assert(self.buffered() =~= pre.buffered().skip(1));
                assert(self.toks() =~= pre.toks().skip(1));
            } else {
                assert(self.buffered() =~= pre.buffered());
                assert(self.toks() =~= pre.toks());
            }
        }
        r
    }

    /// Removes the front token, known to be an operator, and returns its
    /// kind and coordinate.
    fn take_particle(&mut self) -> (r: (TokenKind, Pos))
        requires
            old(self).wf(),
            old(self).buffered().len() > 0,
            old(self).toks()[0].lex is Part,
        ensures
            final(self).wf(),
            final(self).tail() == old(self).tail(),
            final(self).toks() == old(self).toks().skip(1),
            final(self).buffered() == old(self).buffered().skip(1),
            SpecLexeme::Part::<T>(r.0) == old(self).toks()[0].lex,
            r.1@ == old(self).toks()[0].pos,
    {
        let t = match self.token() {
            Some(t) => t,
            None => {
                proof {
                    assert(false);
                }
                Token::new(Lexeme::Particle(TokenKind::Comment), Pos::new(0, 0))
            },
        };
        let pos = t.pos;
        match t.particle() {
            Ok(k) => (k, pos),
            Err(_) => {
                proof {
                    assert(false);
                }
                (TokenKind::Comment, pos)
            },
        }
    }

    /// Removes the front token, known to be an identifier, and returns its
    /// text and coordinate.
    fn take_ident(&mut self) -> (r: (String, Pos))
        requires
            old(self).wf(),
            old(self).buffered().len() > 0,
            old(self).toks()[0].lex is Id,
        ensures
            final(self).wf(),
            final(self).tail() == old(self).tail(),
            final(self).toks() == old(self).toks().skip(1),
            final(self).buffered() == old(self).buffered().skip(1),
            SpecLexeme::Id::<T>(r.0@) == old(self).toks()[0].lex,
            r.1@ == old(self).toks()[0].pos,
    {
        let t = match self.token() {
            Some(t) => t,
            None => {
                proof {
                    assert(false);
                }
                Token::new(Lexeme::Particle(TokenKind::Comment), Pos::new(0, 0))
            },
        };
        let pos = t.pos;
        match t.lexeme {
            Lexeme::Ident(name) => (name, pos),
            _ => {
                proof {
                    assert(false);
                }
                (String::new(), pos)
            },
        }
    }

    /// Removes the front token and returns its coordinate, for an error
    /// anchored at the offending token.
    fn take_pos(&mut self) -> (p: Pos)
        requires
            old(self).wf(),
            old(self).buffered().len() > 0,
        ensures
            final(self).wf(),
            final(self).tail() == old(self).tail(),
            final(self).toks() == old(self).toks().skip(1),
            final(self).buffered() == old(self).buffered().skip(1),
            p@ == old(self).toks()[0].pos,
    {
        let t = match self.token() {
            Some(t) => t,
            None => {
                proof {
                    assert(false);
                }
                Token::new(Lexeme::Particle(TokenKind::Comment), Pos::new(0, 0))
            },
        };
        t.pos
    }

    /// Whether the stream is exhausted, fetching one token ahead to see:
    /// true exactly when no real token is left, and the stream's lexical
    /// error when one sits at the read point.
    pub fn ended(&mut self) -> (r: Result<bool, CalfErr>)
        requires
            old(self).wf(),
        ensures
            final(self).wf(),
            final(self).toks() == old(self).toks(),
            final(self).tail() == old(self).tail(),
            r is Ok <==> (old(self).toks().len() > 0 || old(self).tail() is AtEof),
            r is Ok ==> r->Ok_0 == (old(self).toks().len() == 0),
            r is Ok && old(self).toks().len() > 0 ==> final(self).buffered().len() > 0,
            r is Err ==> old(self).tail() is AtErr && r->Err_0.pos@ == old(self).tail()->AtErr_pos
                && r->Err_0.message@ == old(self).tail()->AtErr_msg,
    {
        match self.fill(1) {
            Err(e) => Err(e),
            Ok(()) => Ok(self.tokens.len() == 0),
        }
    }

    /// Whether the lookahead buffer is empty — not whether the input is
    /// exhausted: real tokens may remain unfetched behind an empty buffer
    /// after a parse that looked no further ahead (`fn f{}` leaves `5` of
    /// `f{} 5` unfetched). [`Parser::ended`] answers the end-of-input
    /// question.
    pub fn is_end(&self) -> (r: bool)
        ensures
            r == (self.buffered().len() == 0),
    {
        self.tokens.len() == 0
    }

    /// One statement: an assignment when the next two tokens are an
    /// identifier and `=`, a bare expression statement otherwise. On
    /// success the consumed tokens spell exactly the returned statement.
    pub fn scan_stmt(&mut self) -> (r: Result<Stmt<T>, CalfErr>)
        requires
            old(self).wf(),
        ensures
            final(self).wf(),
            final(self).tail() == old(self).tail(),
            r is Ok ==> parsed_stmt(*old(self), *final(self), r->Ok_0),
            simple_start(*old(self)) ==> r is Ok,
            r is Ok ==> stopped_below(*final(self), 9),
            r is Ok ==> (r->Ok_0 is Assign <==> (old(self).toks().len() >= 2
                && old(self).toks()[0].lex is Id
                && old(self).toks()[1].lex == SpecLexeme::Part::<T>(TokenKind::Assign))),
            r is Err ==> err_from(*old(self), *final(self), r->Err_0),
            sp_stmt::<T>(old(self).toks()) is Some && r is Ok ==> final(self).toks()
                == old(self).toks().skip(sp_stmt::<T>(old(self).toks())->Some_0 as int),
            sp_stmt::<T>(old(self).toks()) is Some && r is Err ==> lex_err_verbatim(
                old(self).tail(),
                r->Err_0,
            ),
        decreases self.toks().len(), 13int,
    {
        self.statement()
    }

    #[verifier::rlimit(60)]
    fn statement(&mut self) -> (r: Result<Stmt<T>, CalfErr>)
        requires
            old(self).wf(),
        ensures
            final(self).wf(),
            final(self).tail() == old(self).tail(),
            r is Ok ==> parsed_stmt(*old(self), *final(self), r->Ok_0),
            simple_start(*old(self)) ==> r is Ok,
            r is Ok ==> stopped_below(*final(self), 9),
            r is Ok ==> (r->Ok_0 is Assign <==> (old(self).toks().len() >= 2
                && old(self).toks()[0].lex is Id
                && old(self).toks()[1].lex == SpecLexeme::Part::<T>(TokenKind::Assign))),
            r is Err ==> err_from(*old(self), *final(self), r->Err_0),
            sp_stmt::<T>(old(self).toks()) is Some && r is Ok ==> final(self).toks()
                == old(self).toks().skip(sp_stmt::<T>(old(self).toks())->Some_0 as int),
            sp_stmt::<T>(old(self).toks()) is Some && r is Err ==> lex_err_verbatim(
                old(self).tail(),
                r->Err_0,
            ),
        decreases self.toks().len(), 12int,
    {
        let id0 = match self.is_token(TokenKind::Ident, 0) {
            Ok(b) => b,
            Err(e) => return Err(e),
        };
        let asg1 = match self.is_token(TokenKind::Assign, 1) {
            Ok(b) => b,
            Err(e) => return Err(e),
        };
        if id0 && asg1 {
            proof {
                if sp_stmt::<T>(self.toks()) is Some && !(self.toks()[0].lex is Id) {
                    lemma_sp_tern_head::<T>(self.toks());
                }
            }
            self.assign_statement()
        } else {
            self.expression_statement()
        }
    }

    #[verifier::rlimit(60)]
    fn assign_statement(&mut self) -> (r: Result<Stmt<T>, CalfErr>)
        requires
            old(self).wf(),
            old(self).toks().len() >= 2,
            old(self).buffered().len() >= 2,
            lex_matches(old(self).toks()[0].lex, TokenKind::Ident),
            old(self).toks()[1].lex == SpecLexeme::Part::<T>(TokenKind::Assign),
        ensures
            final(self).wf(),
            final(self).tail() == old(self).tail(),
            r is Ok ==> parsed_stmt(*old(self), *final(self), r->Ok_0),
            r is Ok ==> r->Ok_0 is Assign,
            r is Ok ==> old(self).toks()[0].lex is Id,
            r is Ok ==> stopped_below(*final(self), 9),
            r is Err ==> err_from(*old(self), *final(self), r->Err_0),
            sp_tern::<T>(old(self).toks().skip(2)) is Some && r is Ok ==> final(self).toks()
                == old(self).toks().skip(2 + sp_tern::<T>(old(self).toks().skip(2))->Some_0 as int),
            old(self).toks()[0].lex is Id && sp_tern::<T>(old(self).toks().skip(2)) is Some
                && r is Err ==> lex_err_verbatim(old(self).tail(), r->Err_0),
        decreases self.toks().len(), 11int,
    {
        let ghost orig = *self;
        let ident_tok = match self.token() {
            Some(t) => t,
            None => {
                proof {
                    assert(false);
                }
                return Err(CalfErr::at("Expected an identifier", Pos::new(0, 0)));
            },
        };
        let ipos = ident_tok.pos;
        let ghost a = *self;
        let _ = self.take_particle();  // consume "="
        let ghost b = *self;
        proof {
            lemma_skip_skip(orig.toks(), 1, 1);
            assert(b.toks() =~= orig.toks().skip(2));
        }
        let value = match self.expression() {
            Ok(e) => e,
            Err(e) => {
                proof {
                    lemma_err_lift(orig, b, *self, e, 2);
                }
                return Err(e);
            },
        };
        proof {
            if orig.toks()[0].lex is Id {
                assert(ident_tok.lexeme is Ident);
            }
        }
        match ident_tok.lexeme {
            Lexeme::Ident(name) => {
                let ghost name_view = name@;
                let st = Stmt::Assign { name, value };
                proof {
                    lemma_advances_one(orig, a);
                    lemma_advances_one(a, b);
                    lemma_advances_trans(
                        orig,
                        a,
                        b,
                        seq![orig.toks()[0].lex],
                        seq![a.toks()[0].lex],
                    );
                    lemma_advances_trans(
                        orig,
                        b,
                        *self,
                        seq![orig.toks()[0].lex] + seq![a.toks()[0].lex],
                        unparse(st->Assign_value),
                    );
                    assert(orig.toks()[0].lex == SpecLexeme::Id::<T>(name_view));
                    assert(stmt_lexemes(st) =~= seq![orig.toks()[0].lex] + seq![a.toks()[0].lex]
                        + unparse(st->Assign_value));
                    assert(consumed_toks(orig, *self).skip(2) =~= consumed_toks(b, *self));
                    if sp_tern::<T>(orig.toks().skip(2)) is Some {
                        let n = sp_tern::<T>(orig.toks().skip(2))->Some_0;
                        lemma_skip_skip(orig.toks(), 2, n as int);
                        assert(self.toks() =~= orig.toks().skip(2 + n as int));
                    }
                }
                Ok(st)
            },
            _ => {
                let e = CalfErr::at("Invalid identifier for var definition", ipos);
                proof {
                    assert(e.pos@ == orig.toks()[0].pos);
                }
                Err(e)
            },
        }
    }

    fn expression_statement(&mut self) -> (r: Result<Stmt<T>, CalfErr>)
        requires
            old(self).wf(),
        ensures
            final(self).wf(),
            final(self).tail() == old(self).tail(),
            r is Ok ==> parsed_stmt(*old(self), *final(self), r->Ok_0),
            simple_start(*old(self)) ==> r is Ok,
            r is Ok ==> r->Ok_0 is Expr,
            r is Ok ==> stopped_below(*final(self), 9),
            r is Err ==> err_from(*old(self), *final(self), r->Err_0),
            sp_tern::<T>(old(self).toks()) is Some && r is Ok ==> final(self).toks()
                == old(self).toks().skip(sp_tern::<T>(old(self).toks())->Some_0 as int),
            sp_tern::<T>(old(self).toks()) is Some && r is Err ==> lex_err_verbatim(
                old(self).tail(),
                r->Err_0,
            ),
        decreases self.toks().len(), 11int,
    {
        let expr = match self.expression() {
            Ok(e) => e,
            Err(e) => return Err(e),
        };
        let st = Stmt::Expr(expr);
        proof {
            assert(stmt_lexemes(st) == unparse(st->Expr_0));
        }
        Ok(st)
    }

    fn expression(&mut self) -> (r: Result<Expr<T>, CalfErr>)
        requires
            old(self).wf(),
        ensures
            final(self).wf(),
            final(self).tail() == old(self).tail(),
            r is Ok ==> parsed_expr(*old(self), *final(self), r->Ok_0, 9),
            simple_start(*old(self)) ==> r is Ok,
            r is Err ==> err_from(*old(self), *final(self), r->Err_0),
            sp_tern::<T>(old(self).toks()) is Some && r is Ok ==> final(self).toks()
                == old(self).toks().skip(sp_tern::<T>(old(self).toks())->Some_0 as int),
            sp_tern::<T>(old(self).toks()) is Some && r is Err ==> lex_err_verbatim(
                old(self).tail(),
                r->Err_0,
            ),
        decreases self.toks().len(), 10int,
    {
        self.ternay()
    }

    /// A conditional expression `cond ? then : else`: the condition binds
    /// at the equality tier, and both branches recurse into this tier, so
    /// the operator nests to the right.
    #[verifier::rlimit(100)]
    fn ternay(&mut self) -> (r: Result<Expr<T>, CalfErr>)
        requires
            old(self).wf(),
        ensures
            final(self).wf(),
            final(self).tail() == old(self).tail(),
            r is Ok ==> parsed_expr(*old(self), *final(self), r->Ok_0, 9),
            simple_start(*old(self)) ==> r is Ok,
            r is Err ==> err_from(*old(self), *final(self), r->Err_0),
            sp_tern::<T>(old(self).toks()) is Some && r is Ok ==> final(self).toks()
                == old(self).toks().skip(sp_tern::<T>(old(self).toks())->Some_0 as int),
            sp_tern::<T>(old(self).toks()) is Some && r is Err ==> lex_err_verbatim(
                old(self).tail(),
                r->Err_0,
            ),
            old(self).tail() is AtEof && colon_missing::<T>(old(self).toks()) ==> r is Err
                && r->Err_0.message@ == "Expected a colon operator"@ && r->Err_0.pos@
                == then_anchor::<T>(old(self).toks()),
        decreases self.toks().len(), 9int,
    {
        let ghost orig = *self;
        let cond = match self.equality() {
            Ok(e) => e,
            Err(e) => return Err(e),
        };
        let q = match self.is_token(TokenKind::Question, 0) {
            Ok(b) => b,
            Err(e) => return Err(e),
        };
        if q {
            let ghost a = *self;
            let _ = self.take_particle();  // consume "?"
            let ghost b = *self;
            proof {
                let da = orig.toks().len() - a.toks().len();
                lemma_skip_skip(orig.toks(), da, 1);
                assert(b.toks() =~= orig.toks().skip(da + 1));
            }
            let then_e = match self.ternay() {
                Ok(e) => e,
                Err(e) => {
                    proof {
                        lemma_err_lift(orig, b, *self, e, orig.toks().len() - b.toks().len());
                    }
                    return Err(e);
                },
            };
            let ghost mid = *self;
            let colon = match self.is_token(TokenKind::Colon, 0) {
                Ok(b) => b,
                Err(e) => return Err(e),
            };
            if !colon {
                let e = CalfErr::at("Expected a colon operator", then_e.pos);
                proof {
                    let db = orig.toks().len() - b.toks().len();
                    let cb = consumed_toks(b, mid);
                    let vs = value_start(cb);
                    lemma_value_start_bounds(cb);
                    assert(cb[vs] == b.toks()[vs]);
                    assert(orig.toks()[db + vs] == b.toks()[vs]);
                    assert(e.pos@ == orig.toks()[db + vs].pos);
                    if orig.tail() is AtEof && colon_missing::<T>(orig.toks()) {
                        let n = sp_level::<T>(orig.toks(), 8)->Some_0 as int;
                        let m = sp_tern::<T>(orig.toks().skip(n + 1))->Some_0 as int;
                        assert(b.toks() == orig.toks().skip(n + 1));
                        assert(cb =~= orig.toks().subrange(n + 1, n + 1 + m));
                        assert(orig.toks().subrange(n + 1, n + 1 + m)[vs] == orig.toks()[n + 1
                            + vs]);
                        assert(e.pos@ == then_anchor::<T>(orig.toks()));
                    }
                }
                return Err(e);
            }
            let ghost c = *self;
            let _ = self.take_particle();  // consume ":"
            let ghost d = *self;
            proof {
                let db = orig.toks().len() - b.toks().len();
                let dbc = b.toks().len() - c.toks().len();
                lemma_skip_skip(orig.toks(), db, dbc as int);
                assert(c.toks() =~= orig.toks().skip(db + dbc));
                lemma_skip_skip(orig.toks(), db + dbc, 1);
                assert(d.toks() =~= orig.toks().skip(db + dbc + 1));
            }
            let else_e = match self.ternay() {
                Ok(e) => e,
                Err(e) => {
                    proof {
                        lemma_err_lift(orig, d, *self, e, orig.toks().len() - d.toks().len());
                    }
                    return Err(e);
                },
            };
            let pos = cond.pos;
            let ghost cond_g = cond;
            let ghost then_g = then_e;
            let ghost else_g = else_e;
            let folded = Expr::new(
                Syntagma::TernaryOp {
                    left_child: Box::new(cond),
                    mid_child: Box::new(then_e),
                    right_child: Box::new(else_e),
                },
                pos,
            );
            proof {
                lemma_advances_one(a, b);
                lemma_advances_one(c, d);
                lemma_advances_trans(orig, a, b, unparse(cond_g), seq![a.toks()[0].lex]);
                lemma_advances_trans(
                    orig,
                    b,
                    c,
                    unparse(cond_g) + seq![a.toks()[0].lex],
                    unparse(then_g),
                );
                lemma_advances_trans(
                    orig,
                    c,
                    d,
                    unparse(cond_g) + seq![a.toks()[0].lex] + unparse(then_g),
                    seq![c.toks()[0].lex],
                );
                lemma_advances_trans(
                    orig,
                    d,
                    *self,
                    unparse(cond_g) + seq![a.toks()[0].lex] + unparse(then_g) + seq![
                        c.toks()[0].lex,
                    ],
                    unparse(else_g),
                );
                assert(unparse(folded) =~= unparse(cond_g) + seq![a.toks()[0].lex] + unparse(
                    then_g,
                ) + seq![c.toks()[0].lex] + unparse(else_g));
                lemma_value_start_prefix(orig, a, *self);
                if sp_tern::<T>(orig.toks()) is Some {
                    let n = sp_level::<T>(orig.toks(), 8)->Some_0;
                    let m = sp_tern::<T>(orig.toks().skip(n as int + 1))->Some_0;
                    let k = sp_tern::<T>(orig.toks().skip(n as int + 2 + m as int))->Some_0;
                    lemma_skip_skip(orig.toks(), n as int + 2 + m as int, k as int);
                    assert(self.toks() =~= orig.toks().skip(n as int + 2 + m as int + k as int));
                }
            }
            Ok(folded)
        } else {
            proof {
                lemma_wf_lift(cond, 8, 9);
            }
            Ok(cond)
        }
    }

    fn equality(&mut self) -> (r: Result<Expr<T>, CalfErr>)
        requires
            old(self).wf(),
        ensures
            final(self).wf(),
            final(self).tail() == old(self).tail(),
            r is Ok ==> parsed_expr(*old(self), *final(self), r->Ok_0, 8),
            simple_start(*old(self)) ==> r is Ok,
            r is Err ==> err_from(*old(self), *final(self), r->Err_0),
            sp_level::<T>(old(self).toks(), 8) is Some && r is Ok ==> final(self).toks()
                == old(self).toks().skip(sp_level::<T>(old(self).toks(), 8)->Some_0 as int),
            sp_level::<T>(old(self).toks(), 8) is Some && r is Err ==> lex_err_verbatim(
                old(self).tail(),
                r->Err_0,
            ),
        decreases self.toks().len(), 8int,
    {
        let ghost orig = *self;
        let mut expr = match self.comparison() {
            Ok(e) => e,
            Err(e) => return Err(e),
        };
        proof {
            if sp_level::<T>(orig.toks(), 8) is Some {
                let n0 = sp_level::<T>(orig.toks(), 7)->Some_0;
                let m0 = sp_tail::<T>(orig.toks().skip(n0 as int), 8)->Some_0;
                lemma_skip_skip(orig.toks(), n0 as int, m0 as int);
            }
        }
        loop
            invariant
                orig == *old(self),
                self.wf(),
                self.tail() == orig.tail(),
                advances(orig, *self, unparse(expr)),
                value_start(consumed_toks(orig, *self)) >= 0,
                expr.pos@ == consumed_toks(orig, *self)[value_start(consumed_toks(orig, *self))].pos,
                self.toks().len() < orig.toks().len(),
                wf_at(expr, 8),
                anchored(expr),
                stopped_below(*self, 7),
                sp_level::<T>(orig.toks(), 8) is Some ==> {
                    &&& sp_tail::<T>(self.toks(), 8) is Some
                    &&& sp_tail::<T>(self.toks(), 8)->Some_0 <= self.toks().len()
                    &&& self.toks().skip(sp_tail::<T>(self.toks(), 8)->Some_0 as int)
                        == orig.toks().skip(sp_level::<T>(orig.toks(), 8)->Some_0 as int)
                },
            ensures
                orig == *old(self),
                self.wf(),
                self.tail() == orig.tail(),
                advances(orig, *self, unparse(expr)),
                value_start(consumed_toks(orig, *self)) >= 0,
                expr.pos@ == consumed_toks(orig, *self)[value_start(consumed_toks(orig, *self))].pos,
                self.toks().len() < orig.toks().len(),
                wf_at(expr, 8),
                anchored(expr),
                stopped_below(*self, 8),
                sp_level::<T>(orig.toks(), 8) is Some ==> self.toks() == orig.toks().skip(
                    sp_level::<T>(orig.toks(), 8)->Some_0 as int,
                ),
            decreases self.toks().len(),
        {
            let o1 = match self.is_token(TokenKind::TwoEquals, 0) {
                Ok(b) => b,
                Err(e) => return Err(e),
            };
            let o2 = match self.is_token(TokenKind::NotEqual, 0) {
                Ok(b) => b,
                Err(e) => return Err(e),
            };
            if !(o1 || o2) {
                proof {
                    assert(self.toks().skip(0) =~= self.toks());
                }
                break;
            }
            let ghost a = *self;
            let (op, _) = self.take_particle();
            let ghost b = *self;
            let right = match self.comparison() {
                Ok(e) => e,
                Err(e) => {
                    proof {
                        let da = orig.toks().len() - a.toks().len();
                        lemma_skip_skip(orig.toks(), da, 1);
                        assert(b.toks() =~= orig.toks().skip(da + 1));
                        lemma_err_lift(orig, b, *self, e, da + 1);
                    }
                    return Err(e);
                },
            };
            let pos = expr.pos;
            let ghost left_g = expr;
            let ghost right_g = right;
            expr = Expr::new(
                Syntagma::BinaryOp {
                    op,
                    left_child: Box::new(expr),
                    right_child: Box::new(right),
                },
                pos,
            );
            proof {
                lemma_advances_one(a, b);
                lemma_advances_trans(orig, a, b, unparse(left_g), seq![a.toks()[0].lex]);
                lemma_advances_trans(
                    orig,
                    b,
                    *self,
                    unparse(left_g) + seq![a.toks()[0].lex],
                    unparse(right_g),
                );
                lemma_value_start_prefix(orig, a, *self);
                assert(unparse(expr) =~= unparse(left_g) + seq![a.toks()[0].lex] + unparse(
                    right_g,
                ));
                if sp_level::<T>(orig.toks(), 8) is Some {
                    let n = sp_level::<T>(b.toks(), 7)->Some_0;
                    lemma_skip_skip(a.toks(), 1, n as int);
                    assert(self.toks() =~= a.toks().skip(1 + n as int));
                    let m = sp_tail::<T>(a.toks().skip(1 + n as int), 8)->Some_0;
                    lemma_skip_skip(a.toks(), 1 + n as int, m as int);
                }
            }
        }
        Ok(expr)
    }

    fn comparison(&mut self) -> (r: Result<Expr<T>, CalfErr>)
        requires
            old(self).wf(),
        ensures
            final(self).wf(),
            final(self).tail() == old(self).tail(),
            r is Ok ==> parsed_expr(*old(self), *final(self), r->Ok_0, 7),
            simple_start(*old(self)) ==> r is Ok,
            r is Err ==> err_from(*old(self), *final(self), r->Err_0),
            sp_level::<T>(old(self).toks(), 7) is Some && r is Ok ==> final(self).toks()
                == old(self).toks().skip(sp_level::<T>(old(self).toks(), 7)->Some_0 as int),
            sp_level::<T>(old(self).toks(), 7) is Some && r is Err ==> lex_err_verbatim(
                old(self).tail(),
                r->Err_0,
            ),
        decreases self.toks().len(), 7int,
    {
        let ghost orig = *self;
        let mut expr = match self.logic() {
            Ok(e) => e,
            Err(e) => return Err(e),
        };
        proof {
            if sp_level::<T>(orig.toks(), 7) is Some {
                let n0 = sp_level::<T>(orig.toks(), 6)->Some_0;
                let m0 = sp_tail::<T>(orig.toks().skip(n0 as int), 7)->Some_0;
                lemma_skip_skip(orig.toks(), n0 as int, m0 as int);
            }
        }
        loop
            invariant
                orig == *old(self),
                self.wf(),
                self.tail() == orig.tail(),
                advances(orig, *self, unparse(expr)),
                value_start(consumed_toks(orig, *self)) >= 0,
                expr.pos@ == consumed_toks(orig, *self)[value_start(consumed_toks(orig, *self))].pos,
                self.toks().len() < orig.toks().len(),
                wf_at(expr, 7),
                anchored(expr),
                stopped_below(*self, 6),
                sp_level::<T>(orig.toks(), 7) is Some ==> {
                    &&& sp_tail::<T>(self.toks(), 7) is Some
                    &&& sp_tail::<T>(self.toks(), 7)->Some_0 <= self.toks().len()
                    &&& self.toks().skip(sp_tail::<T>(self.toks(), 7)->Some_0 as int)
                        == orig.toks().skip(sp_level::<T>(orig.toks(), 7)->Some_0 as int)
                },
            ensures
                orig == *old(self),
                self.wf(),
                self.tail() == orig.tail(),
                advances(orig, *self, unparse(expr)),
                value_start(consumed_toks(orig, *self)) >= 0,
                expr.pos@ == consumed_toks(orig, *self)[value_start(consumed_toks(orig, *self))].pos,
                self.toks().len() < orig.toks().len(),
                wf_at(expr, 7),
                anchored(expr),
                stopped_below(*self, 7),
                sp_level::<T>(orig.toks(), 7) is Some ==> self.toks() == orig.toks().skip(
                    sp_level::<T>(orig.toks(), 7)->Some_0 as int,
                ),
            decreases self.toks().len(),
        {
            let o1 = match self.is_token(TokenKind::GreaterThan, 0) {
                Ok(b) => b,
                Err(e) => return Err(e),
            };
            let o2 = match self.is_token(TokenKind::LesserThan, 0) {
                Ok(b) => b,
                Err(e) => return Err(e),
            };
            let o3 = match self.is_token(TokenKind::GtEqual, 0) {
                Ok(b) => b,
                Err(e) => return Err(e),
            };
            let o4 = match self.is_token(TokenKind::LtEqual, 0) {
                Ok(b) => b,
                Err(e) => return Err(e),
            };
            let o5 = match self.is_token(TokenKind::TwoAnds, 0) {
                Ok(b) => b,
                Err(e) => return Err(e),
            };
            let o6 = match self.is_token(TokenKind::TwoOrs, 0) {
                Ok(b) => b,
                Err(e) => return Err(e),
            };
            if !(o1 || o2 || o3 || o4 || o5 || o6) {
                proof {
                    assert(self.toks().skip(0) =~= self.toks());
                }
                break;
            }
            let ghost a = *self;
            let (op, _) = self.take_particle();
            let ghost b = *self;
            let right = match self.logic() {
                Ok(e) => e,
                Err(e) => {
                    proof {
                        let da = orig.toks().len() - a.toks().len();
                        lemma_skip_skip(orig.toks(), da, 1);
                        assert(b.toks() =~= orig.toks().skip(da + 1));
                        lemma_err_lift(orig, b, *self, e, da + 1);
                    }
                    return Err(e);
                },
            };
            let pos = expr.pos;
            let ghost left_g = expr;
            let ghost right_g = right;
            expr = Expr::new(
                Syntagma::BinaryOp {
                    op,
                    left_child: Box::new(expr),
                    right_child: Box::new(right),
                },
                pos,
            );
            proof {
                lemma_advances_one(a, b);
                lemma_advances_trans(orig, a, b, unparse(left_g), seq![a.toks()[0].lex]);
                lemma_advances_trans(
                    orig,
                    b,
                    *self,
                    unparse(left_g) + seq![a.toks()[0].lex],
                    unparse(right_g),
                );
                lemma_value_start_prefix(orig, a, *self);
                assert(unparse(expr) =~= unparse(left_g) + seq![a.toks()[0].lex] + unparse(
                    right_g,
                ));
                if sp_level::<T>(orig.toks(), 7) is Some {
                    let n = sp_level::<T>(b.toks(), 6)->Some_0;
                    lemma_skip_skip(a.toks(), 1, n as int);
                    assert(self.toks() =~= a.toks().skip(1 + n as int));
                    let m = sp_tail::<T>(a.toks().skip(1 + n as int), 7)->Some_0;
                    lemma_skip_skip(a.toks(), 1 + n as int, m as int);
                }
            }
        }
        Ok(expr)
    }

    fn logic(&mut self) -> (r: Result<Expr<T>, CalfErr>)
        requires
            old(self).wf(),
        ensures
            final(self).wf(),
            final(self).tail() == old(self).tail(),
            r is Ok ==> parsed_expr(*old(self), *final(self), r->Ok_0, 6),
            simple_start(*old(self)) ==> r is Ok,
            r is Err ==> err_from(*old(self), *final(self), r->Err_0),
            sp_level::<T>(old(self).toks(), 6) is Some && r is Ok ==> final(self).toks()
                == old(self).toks().skip(sp_level::<T>(old(self).toks(), 6)->Some_0 as int),
            sp_level::<T>(old(self).toks(), 6) is Some && r is Err ==> lex_err_verbatim(
                old(self).tail(),
                r->Err_0,
            ),
        decreases self.toks().len(), 6int,
    {
        let ghost orig = *self;
        let mut expr = match self.term() {
            Ok(e) => e,
            Err(e) => return Err(e),
        };
        proof {
            if sp_level::<T>(orig.toks(), 6) is Some {
                let n0 = sp_level::<T>(orig.toks(), 5)->Some_0;
                let m0 = sp_tail::<T>(orig.toks().skip(n0 as int), 6)->Some_0;
                lemma_skip_skip(orig.toks(), n0 as int, m0 as int);
            }
        }
        loop
            invariant
                orig == *old(self),
                self.wf(),
                self.tail() == orig.tail(),
                advances(orig, *self, unparse(expr)),
                value_start(consumed_toks(orig, *self)) >= 0,
                expr.pos@ == consumed_toks(orig, *self)[value_start(consumed_toks(orig, *self))].pos,
                self.toks().len() < orig.toks().len(),
                wf_at(expr, 6),
                anchored(expr),
                stopped_below(*self, 5),
                sp_level::<T>(orig.toks(), 6) is Some ==> {
                    &&& sp_tail::<T>(self.toks(), 6) is Some
                    &&& sp_tail::<T>(self.toks(), 6)->Some_0 <= self.toks().len()
                    &&& self.toks().skip(sp_tail::<T>(self.toks(), 6)->Some_0 as int)
                        == orig.toks().skip(sp_level::<T>(orig.toks(), 6)->Some_0 as int)
                },
            ensures
                orig == *old(self),
                self.wf(),
                self.tail() == orig.tail(),
                advances(orig, *self, unparse(expr)),
                value_start(consumed_toks(orig, *self)) >= 0,
                expr.pos@ == consumed_toks(orig, *self)[value_start(consumed_toks(orig, *self))].pos,
                self.toks().len() < orig.toks().len(),
                wf_at(expr, 6),
                anchored(expr),
                stopped_below(*self, 6),
                sp_level::<T>(orig.toks(), 6) is Some ==> self.toks() == orig.toks().skip(
                    sp_level::<T>(orig.toks(), 6)->Some_0 as int,
                ),
            decreases self.toks().len(),
        {
            let o1 = match self.is_token(TokenKind::And, 0) {
                Ok(b) => b,
                Err(e) => return Err(e),
            };
            let o2 = match self.is_token(TokenKind::Or, 0) {
                Ok(b) => b,
                Err(e) => return Err(e),
            };
            if !(o1 || o2) {
                proof {
                    assert(self.toks().skip(0) =~= self.toks());
                }
                break;
            }
            let ghost a = *self;
            let (op, _) = self.take_particle();
            let ghost b = *self;
            let right = match self.term() {
                Ok(e) => e,
                Err(e) => {
                    proof {
                        let da = orig.toks().len() - a.toks().len();
                        lemma_skip_skip(orig.toks(), da, 1);
                        assert(b.toks() =~= orig.toks().skip(da + 1));
                        lemma_err_lift(orig, b, *self, e, da + 1);
                    }
                    return Err(e);
                },
            };
            let pos = expr.pos;
            let ghost left_g = expr;
            let ghost right_g = right;
            expr = Expr::new(
                Syntagma::BinaryOp {
                    op,
                    left_child: Box::new(expr),
                    right_child: Box::new(right),
                },
                pos,
            );
            proof {
                lemma_advances_one(a, b);
                lemma_advances_trans(orig, a, b, unparse(left_g), seq![a.toks()[0].lex]);
                lemma_advances_trans(
                    orig,
                    b,
                    *self,
                    unparse(left_g) + seq![a.toks()[0].lex],
                    unparse(right_g),
                );
                lemma_value_start_prefix(orig, a, *self);
                assert(unparse(expr) =~= unparse(left_g) + seq![a.toks()[0].lex] + unparse(
                    right_g,
                ));
                if sp_level::<T>(orig.toks(), 6) is Some {
                    let n = sp_level::<T>(b.toks(), 5)->Some_0;
                    lemma_skip_skip(a.toks(), 1, n as int);
                    assert(self.toks() =~= a.toks().skip(1 + n as int));
                    let m = sp_tail::<T>(a.toks().skip(1 + n as int), 6)->Some_0;
                    lemma_skip_skip(a.toks(), 1 + n as int, m as int);
                }
            }
        }
        Ok(expr)
    }

    fn term(&mut self) -> (r: Result<Expr<T>, CalfErr>)
        requires
            old(self).wf(),
        ensures
            final(self).wf(),
            final(self).tail() == old(self).tail(),
            r is Ok ==> parsed_expr(*old(self), *final(self), r->Ok_0, 5),
            simple_start(*old(self)) ==> r is Ok,
            r is Err ==> err_from(*old(self), *final(self), r->Err_0),
            sp_level::<T>(old(self).toks(), 5) is Some && r is Ok ==> final(self).toks()
                == old(self).toks().skip(sp_level::<T>(old(self).toks(), 5)->Some_0 as int),
            sp_level::<T>(old(self).toks(), 5) is Some && r is Err ==> lex_err_verbatim(
                old(self).tail(),
                r->Err_0,
            ),
        decreases self.toks().len(), 5int,
    {
        let ghost orig = *self;
        let mut expr = match self.factor() {
            Ok(e) => e,
            Err(e) => return Err(e),
        };
        proof {
            if sp_level::<T>(orig.toks(), 5) is Some {
                let n0 = sp_level::<T>(orig.toks(), 4)->Some_0;
                let m0 = sp_tail::<T>(orig.toks().skip(n0 as int), 5)->Some_0;
                lemma_skip_skip(orig.toks(), n0 as int, m0 as int);
            }
        }
        loop
            invariant
                orig == *old(self),
                self.wf(),
                self.tail() == orig.tail(),
                advances(orig, *self, unparse(expr)),
                value_start(consumed_toks(orig, *self)) >= 0,
                expr.pos@ == consumed_toks(orig, *self)[value_start(consumed_toks(orig, *self))].pos,
                self.toks().len() < orig.toks().len(),
                wf_at(expr, 5),
                anchored(expr),
                stopped_below(*self, 4),
                sp_level::<T>(orig.toks(), 5) is Some ==> {
                    &&& sp_tail::<T>(self.toks(), 5) is Some
                    &&& sp_tail::<T>(self.toks(), 5)->Some_0 <= self.toks().len()
                    &&& self.toks().skip(sp_tail::<T>(self.toks(), 5)->Some_0 as int)
                        == orig.toks().skip(sp_level::<T>(orig.toks(), 5)->Some_0 as int)
                },
            ensures
                orig == *old(self),
                self.wf(),
                self.tail() == orig.tail(),
                advances(orig, *self, unparse(expr)),
                value_start(consumed_toks(orig, *self)) >= 0,
                expr.pos@ == consumed_toks(orig, *self)[value_start(consumed_toks(orig, *self))].pos,
                self.toks().len() < orig.toks().len(),
                wf_at(expr, 5),
                anchored(expr),
                stopped_below(*self, 5),
                sp_level::<T>(orig.toks(), 5) is Some ==> self.toks() == orig.toks().skip(
                    sp_level::<T>(orig.toks(), 5)->Some_0 as int,
                ),
            decreases self.toks().len(),
        {
            let o1 = match self.is_token(TokenKind::Plus, 0) {
                Ok(b) => b,
                Err(e) => return Err(e),
            };
            let o2 = match self.is_token(TokenKind::Minus, 0) {
                Ok(b) => b,
                Err(e) => return Err(e),
            };
            if !(o1 || o2) {
                proof {
                    assert(self.toks().skip(0) =~= self.toks());
                }
                break;
            }
            let ghost a = *self;
            let (op, _) = self.take_particle();
            let ghost b = *self;
            let right = match self.factor() {
                Ok(e) => e,
                Err(e) => {
                    proof {
                        let da = orig.toks().len() - a.toks().len();
                        lemma_skip_skip(orig.toks(), da, 1);
                        assert(b.toks() =~= orig.toks().skip(da + 1));
                        lemma_err_lift(orig, b, *self, e, da + 1);
                    }
                    return Err(e);
                },
            };
            let pos = expr.pos;
            let ghost left_g = expr;
            let ghost right_g = right;
            expr = Expr::new(
                Syntagma::BinaryOp {
                    op,
                    left_child: Box::new(expr),
                    right_child: Box::new(right),
                },
                pos,
            );
            proof {
                lemma_advances_one(a, b);
                lemma_advances_trans(orig, a, b, unparse(left_g), seq![a.toks()[0].lex]);
                lemma_advances_trans(
                    orig,
                    b,
                    *self,
                    unparse(left_g) + seq![a.toks()[0].lex],
                    unparse(right_g),
                );
                lemma_value_start_prefix(orig, a, *self);
                assert(unparse(expr) =~= unparse(left_g) + seq![a.toks()[0].lex] + unparse(
                    right_g,
                ));
                if sp_level::<T>(orig.toks(), 5) is Some {
                    let n = sp_level::<T>(b.toks(), 4)->Some_0;
                    lemma_skip_skip(a.toks(), 1, n as int);
                    assert(self.toks() =~= a.toks().skip(1 + n as int));
                    let m = sp_tail::<T>(a.toks().skip(1 + n as int), 5)->Some_0;
                    lemma_skip_skip(a.toks(), 1 + n as int, m as int);
                }
            }
        }
        Ok(expr)
    }

    fn factor(&mut self) -> (r: Result<Expr<T>, CalfErr>)
        requires
            old(self).wf(),
        ensures
            final(self).wf(),
            final(self).tail() == old(self).tail(),
            r is Ok ==> parsed_expr(*old(self), *final(self), r->Ok_0, 4),
            simple_start(*old(self)) ==> r is Ok,
            r is Err ==> err_from(*old(self), *final(self), r->Err_0),
            sp_level::<T>(old(self).toks(), 4) is Some && r is Ok ==> final(self).toks()
                == old(self).toks().skip(sp_level::<T>(old(self).toks(), 4)->Some_0 as int),
            sp_level::<T>(old(self).toks(), 4) is Some && r is Err ==> lex_err_verbatim(
                old(self).tail(),
                r->Err_0,
            ),
        decreases self.toks().len(), 4int,
    {
        let ghost orig = *self;
        let mut expr = match self.unary() {
            Ok(e) => e,
            Err(e) => return Err(e),
        };
        proof {
            if sp_level::<T>(orig.toks(), 4) is Some {
                let n0 = sp_unary::<T>(orig.toks())->Some_0;
                let m0 = sp_tail::<T>(orig.toks().skip(n0 as int), 4)->Some_0;
                lemma_skip_skip(orig.toks(), n0 as int, m0 as int);
            }
        }
        loop
            invariant
                orig == *old(self),
                self.wf(),
                self.tail() == orig.tail(),
                advances(orig, *self, unparse(expr)),
                value_start(consumed_toks(orig, *self)) >= 0,
                expr.pos@ == consumed_toks(orig, *self)[value_start(consumed_toks(orig, *self))].pos,
                self.toks().len() < orig.toks().len(),
                wf_at(expr, 4),
                anchored(expr),
                sp_level::<T>(orig.toks(), 4) is Some ==> {
                    &&& sp_tail::<T>(self.toks(), 4) is Some
                    &&& sp_tail::<T>(self.toks(), 4)->Some_0 <= self.toks().len()
                    &&& self.toks().skip(sp_tail::<T>(self.toks(), 4)->Some_0 as int)
                        == orig.toks().skip(sp_level::<T>(orig.toks(), 4)->Some_0 as int)
                },
            ensures
                orig == *old(self),
                self.wf(),
                self.tail() == orig.tail(),
                advances(orig, *self, unparse(expr)),
                value_start(consumed_toks(orig, *self)) >= 0,
                expr.pos@ == consumed_toks(orig, *self)[value_start(consumed_toks(orig, *self))].pos,
                self.toks().len() < orig.toks().len(),
                wf_at(expr, 4),
                anchored(expr),
                stopped_below(*self, 4),
                sp_level::<T>(orig.toks(), 4) is Some ==> self.toks() == orig.toks().skip(
                    sp_level::<T>(orig.toks(), 4)->Some_0 as int,
                ),
            decreases self.toks().len(),
        {
            let o1 = match self.is_token(TokenKind::Star, 0) {
                Ok(b) => b,
                Err(e) => return Err(e),
            };
            let o2 = match self.is_token(TokenKind::Slash, 0) {
                Ok(b) => b,
                Err(e) => return Err(e),
            };
            let o3 = match self.is_token(TokenKind::Percent, 0) {
                Ok(b) => b,
                Err(e) => return Err(e),
            };
            if !(o1 || o2 || o3) {
                proof {
                    assert(self.toks().skip(0) =~= self.toks());
                }
                break;
            }
            let ghost a = *self;
            let (op, _) = self.take_particle();
            let ghost b = *self;
            let right = match self.unary() {
                Ok(e) => e,
                Err(e) => {
                    proof {
                        let da = orig.toks().len() - a.toks().len();
                        lemma_skip_skip(orig.toks(), da, 1);
                        assert(b.toks() =~= orig.toks().skip(da + 1));
                        lemma_err_lift(orig, b, *self, e, da + 1);
                    }
                    return Err(e);
                },
            };
            let pos = expr.pos;
            let ghost left_g = expr;
            let ghost right_g = right;
            expr = Expr::new(
                Syntagma::BinaryOp {
                    op,
                    left_child: Box::new(expr),
                    right_child: Box::new(right),
                },
                pos,
            );
            proof {
                lemma_advances_one(a, b);
                lemma_advances_trans(orig, a, b, unparse(left_g), seq![a.toks()[0].lex]);
                lemma_advances_trans(
                    orig,
                    b,
                    *self,
                    unparse(left_g) + seq![a.toks()[0].lex],
                    unparse(right_g),
                );
                lemma_value_start_prefix(orig, a, *self);
                assert(unparse(expr) =~= unparse(left_g) + seq![a.toks()[0].lex] + unparse(
                    right_g,
                ));
                if sp_level::<T>(orig.toks(), 4) is Some {
                    let n = sp_unary::<T>(b.toks())->Some_0;
                    lemma_skip_skip(a.toks(), 1, n as int);
                    assert(self.toks() =~= a.toks().skip(1 + n as int));
                    let m = sp_tail::<T>(a.toks().skip(1 + n as int), 4)->Some_0;
                    lemma_skip_skip(a.toks(), 1 + n as int, m as int);
                }
            }
        }
        Ok(expr)
    }

    /// A prefix expression: `!` or `-` applied to another prefix
    /// expression, or anything tighter. The node carries the operand's
    /// coordinate, where the value starts.
    fn unary(&mut self) -> (r: Result<Expr<T>, CalfErr>)
        requires
            old(self).wf(),
        ensures
            final(self).wf(),
            final(self).tail() == old(self).tail(),
            r is Ok ==> parsed_expr(*old(self), *final(self), r->Ok_0, 3),
            simple_start(*old(self)) ==> r is Ok,
            r is Err ==> err_from(*old(self), *final(self), r->Err_0),
            sp_unary::<T>(old(self).toks()) is Some && r is Ok ==> final(self).toks()
                == old(self).toks().skip(sp_unary::<T>(old(self).toks())->Some_0 as int),
            sp_unary::<T>(old(self).toks()) is Some && r is Err ==> lex_err_verbatim(
                old(self).tail(),
                r->Err_0,
            ),
        decreases self.toks().len(), 3int,
    {
        let ghost orig = *self;
        let o1 = match self.is_token(TokenKind::Not, 0) {
            Ok(b) => b,
            Err(e) => return Err(e),
        };
        let o2 = match self.is_token(TokenKind::Minus, 0) {
            Ok(b) => b,
            Err(e) => return Err(e),
        };
        if o1 || o2 {
            let (op, _) = self.take_particle();
            let ghost b = *self;
            let right = match self.unary() {
                Ok(e) => e,
                Err(e) => {
                    proof {
                        lemma_err_lift(orig, b, *self, e, 1);
                    }
                    return Err(e);
                },
            };
            let pos = right.pos;
            let ghost right_g = right;
            let e = Expr::new(Syntagma::UnaryOp { op, child: Box::new(right) }, pos);
            proof {
                lemma_advances_one(orig, b);
                lemma_advances_trans(orig, b, *self, seq![orig.toks()[0].lex], unparse(right_g));
                assert(unparse(e) =~= seq![orig.toks()[0].lex] + unparse(right_g));
                let c_child = consumed_toks(b, *self);
                assert(consumed_toks(orig, *self) =~= seq![orig.toks()[0]] + c_child);
                lemma_value_start_bounds(c_child);
                lemma_value_start_prepend(orig.toks()[0], c_child);
                assert((seq![orig.toks()[0]] + c_child)[1 + value_start(c_child)] == c_child[
                    value_start(c_child)
                ]);
                if sp_unary::<T>(orig.toks()) is Some {
                    let n = sp_unary::<T>(orig.toks().skip(1))->Some_0;
                    lemma_skip_skip(orig.toks(), 1, n as int);
                    assert(self.toks() =~= orig.toks().skip(1 + n as int));
                }
            }
            return Ok(e);
        }
        self.call()
    }

    /// A call `name{...}` when the next two tokens are an identifier and an
    /// opening brace: zero or more comma-separated arguments in strict
    /// alternation — a doubled comma, a trailing comma and a missing comma
    /// are each errors at the offending token.
    #[verifier::rlimit(100)]
    #[verifier::spinoff_prover]
    fn call(&mut self) -> (r: Result<Expr<T>, CalfErr>)
        requires
            old(self).wf(),
        ensures
            final(self).wf(),
            final(self).tail() == old(self).tail(),
            r is Ok ==> parsed_expr(*old(self), *final(self), r->Ok_0, 2),
            simple_start(*old(self)) ==> r is Ok,
            r is Err ==> err_from(*old(self), *final(self), r->Err_0),
            sp_call::<T>(old(self).toks()) is Some && r is Ok ==> final(self).toks()
                == old(self).toks().skip(sp_call::<T>(old(self).toks())->Some_0 as int),
            sp_call::<T>(old(self).toks()) is Some && r is Err ==> lex_err_verbatim(
                old(self).tail(),
                r->Err_0,
            ),
            old(self).tail() is AtEof && first_arg_stray::<T>(old(self).toks()) ==> r is Err
                && r->Err_0.message@ == "Not expecting a comma"@ && r->Err_0.pos@
                == first_arg_stray_pos::<T>(old(self).toks()),
            old(self).tail() is AtEof && first_arg_no_comma::<T>(old(self).toks()) ==> r is Err
                && r->Err_0.message@ == "Expecting a comma"@ && r->Err_0.pos@ == old(self).toks()[
                2 + sp_tern::<T>(old(self).toks().skip(2))->Some_0 as int].pos,
        decreases self.toks().len(), 2int,
    {
        let ghost orig = *self;
        let id0 = match self.is_token(TokenKind::Ident, 0) {
            Ok(b) => b,
            Err(e) => return Err(e),
        };
        let curly1 = match self.is_token(TokenKind::OpenCurly, 1) {
            Ok(b) => b,
            Err(e) => return Err(e),
        };
        if !(id0 && curly1) {
            let ghost m = *self;
            let r = self.lambda();
            proof {
                assert(orig.toks().skip(0) =~= orig.toks());
                if r is Err {
                    lemma_err_lift(orig, m, *self, r->Err_0, 0);
                }
            }
            return r;
        }
        let t0 = match self.token() {
            Some(t) => t,
            None => {
                proof {
                    assert(false);
                }
                return Err(CalfErr::at("Expected an identifier", Pos::new(0, 0)));
            },
        };
        let fpos = t0.pos;
        proof {
            if orig.toks()[0].lex is Id {
                assert(t0.lexeme is Ident);
            }
        }
        let func = match t0.lexeme {
            Lexeme::Ident(name) => name,
            _ => {
                let e = CalfErr::at("Expected an identifier", fpos);
                proof {
                    assert(e.pos@ == orig.toks()[0].pos);
                }
                return Err(e);
            },
        };
        let ghost a = *self;
        let _ = self.take_particle();  // consume "{"
        let ghost b = *self;
        let ghost pre = seq![
            SpecLexeme::Id::<T>(func@),
            SpecLexeme::Part::<T>(TokenKind::OpenCurly),
        ];
        proof {
            lemma_advances_one(orig, a);
            lemma_advances_one(a, b);
            lemma_advances_trans(orig, a, b, seq![orig.toks()[0].lex], seq![a.toks()[0].lex]);
            assert(seq![orig.toks()[0].lex] + seq![a.toks()[0].lex] =~= pre);
        }
        let mut args: Vec<Expr<T>> = Vec::new();
        let closing0 = match self.is_token(TokenKind::ClosingCurly, 0) {
            Ok(c) => c,
            Err(e) => return Err(e),
        };
        if closing0 {
            let ghost c = *self;
            let _ = self.take_particle();  // consume "}"
            let e = Expr::new(Syntagma::Call { func, args }, fpos);
            proof {
                lemma_advances_one(c, *self);
                lemma_advances_trans(orig, c, *self, pre, seq![c.toks()[0].lex]);
                assert(unparse_args(e.syn->Call_args@) =~= Seq::<SpecLexeme<T>>::empty());
                assert(unparse(e) =~= pre + seq![c.toks()[0].lex]);
                assert(wf_args(e.syn->Call_args@));
                assert(anchored_args(e.syn->Call_args@));
                assert(consumed_toks(orig, *self)[0] == orig.toks()[0]);
                assert(value_start(consumed_toks(orig, *self)) == 0);
                if orig.tail() is AtEof && (first_arg_stray::<T>(orig.toks())
                    || first_arg_no_comma::<T>(orig.toks())) {
                    lemma_sp_tern_head::<T>(orig.toks().skip(2));
                    assert(false);
                }
            }
            return Ok(e);
        }
        let ghost mut in_first: bool = true;
        proof {
            assert(pre + unparse_args(args@) + Seq::<SpecLexeme<T>>::empty() =~= pre);
            if sp_call::<T>(orig.toks()) is Some {
                let m = sp_args::<T>(orig.toks().skip(2))->Some_0;
                lemma_skip_skip(orig.toks(), 2, m as int);
            }
        }
        loop
            invariant_except_break
                advances(
                    orig,
                    *self,
                    pre + unparse_args(args@) + (if args@.len() > 0 {
                        seq![SpecLexeme::Part::<T>(TokenKind::Comma)]
                    } else {
                        Seq::<SpecLexeme<T>>::empty()
                    }),
                ),
                sp_call::<T>(orig.toks()) is Some ==> {
                    &&& sp_args::<T>(self.toks()) is Some
                    &&& sp_args::<T>(self.toks())->Some_0 <= self.toks().len()
                    &&& self.toks().skip(sp_args::<T>(self.toks())->Some_0 as int)
                        == orig.toks().skip(sp_call::<T>(orig.toks())->Some_0 as int)
                },
                in_first ==> self.toks() == orig.toks().skip(2),
                !in_first && orig.tail() is AtEof ==> !first_arg_stray::<T>(orig.toks())
                    && !first_arg_no_comma::<T>(orig.toks()),
            invariant
                orig == *old(self),
                orig.toks().len() >= 2,
                self.wf(),
                self.tail() == orig.tail(),
                self.toks().len() < orig.toks().len(),
                wf_args(args@),
                anchored_args(args@),
            ensures
                orig == *old(self),
                self.wf(),
                self.tail() == orig.tail(),
                advances(
                    orig,
                    *self,
                    pre + unparse_args(args@) + seq![
                        SpecLexeme::Part::<T>(TokenKind::ClosingCurly),
                    ],
                ),
                self.toks().len() < orig.toks().len(),
                wf_args(args@),
                anchored_args(args@),
                sp_call::<T>(orig.toks()) is Some ==> self.toks() == orig.toks().skip(
                    sp_call::<T>(orig.toks())->Some_0 as int,
                ),
                orig.tail() is AtEof ==> !first_arg_stray::<T>(orig.toks())
                    && !first_arg_no_comma::<T>(orig.toks()),
            decreases self.toks().len(),
        {
            let ghost c = *self;
            let ghost args_before = args@;
            let arg = match self.expression() {
                Ok(e) => e,
                Err(e) => {
                    proof {
                        lemma_err_lift(orig, c, *self, e, orig.toks().len() - c.toks().len());
                        if orig.tail() is AtEof && (first_arg_stray::<T>(orig.toks())
                            || first_arg_no_comma::<T>(orig.toks())) {
                            assert(in_first);
                            assert(sp_tern::<T>(c.toks()) is Some);
                            assert(false);
                        }
                    }
                    return Err(e);
                },
            };
            let ghost arg_g = arg;
            args.push(arg);
            proof {
                lemma_args_push(args_before, arg_g);
                lemma_advances_trans(
                    orig,
                    c,
                    *self,
                    pre + unparse_args(args_before) + (if args_before.len() > 0 {
                        seq![SpecLexeme::Part::<T>(TokenKind::Comma)]
                    } else {
                        Seq::<SpecLexeme<T>>::empty()
                    }),
                    unparse(arg_g),
                );
                assert(pre + unparse_args(args_before) + (if args_before.len() > 0 {
                    seq![SpecLexeme::Part::<T>(TokenKind::Comma)]
                } else {
                    Seq::<SpecLexeme<T>>::empty()
                }) + unparse(arg_g) =~= pre + unparse_args(args@) + Seq::<SpecLexeme<T>>::empty());
            }
            let comma = match self.is_token(TokenKind::Comma, 0) {
                Ok(b) => b,
                Err(e) => return Err(e),
            };
            if comma {
                let ghost d = *self;
                let (_, cpos) = self.take_particle();  // consume ","
                proof {
                    lemma_advances_one(d, *self);
                    lemma_advances_trans(
                        orig,
                        d,
                        *self,
                        pre + unparse_args(args@) + Seq::<SpecLexeme<T>>::empty(),
                        seq![d.toks()[0].lex],
                    );
                    assert(pre + unparse_args(args@) + Seq::<SpecLexeme<T>>::empty() + seq![
                        d.toks()[0].lex,
                    ] =~= pre + unparse_args(args@) + seq![SpecLexeme::Part::<T>(TokenKind::Comma)]);
                }
                let closing = match self.is_token(TokenKind::ClosingCurly, 0) {
                    Ok(b) => b,
                    Err(e) => return Err(e),
                };
                if closing {
                    // a trailing comma: the argument it announces is missing
                    let e = CalfErr::at("Not expecting a comma", cpos);
                    proof {
                        let dd = orig.toks().len() - d.toks().len();
                        assert(e.pos@ == orig.toks()[dd].pos);
                        if orig.tail() is AtEof && (first_arg_stray::<T>(orig.toks())
                            || first_arg_no_comma::<T>(orig.toks())) {
                            assert(in_first);
                            assert(sp_tern::<T>(c.toks()) is Some);
                            let n0 = sp_tern::<T>(orig.toks().skip(2))->Some_0 as int;
                            assert(d.toks() == c.toks().skip(n0));
                            assert(e.pos@ == orig.toks()[2 + n0].pos);
                            assert(orig.toks()[2 + n0].lex == SpecLexeme::Part::<T>(
                                TokenKind::Comma,
                            ));
                            assert(orig.toks()[2 + n0 + 1].lex == SpecLexeme::Part::<T>(
                                TokenKind::ClosingCurly,
                            ));
                        }
                    }
                    return Err(e);
                }
                let comma2 = match self.is_token(TokenKind::Comma, 0) {
                    Ok(b) => b,
                    Err(e) => return Err(e),
                };
                if comma2 {
                    let ghost cur = *self;
                    let p2 = self.take_pos();
                    let e = CalfErr::at("Not expecting a comma", p2);
                    proof {
                        let dd = orig.toks().len() - cur.toks().len();
                        assert(e.pos@ == orig.toks()[dd].pos);
                        if orig.tail() is AtEof && (first_arg_stray::<T>(orig.toks())
                            || first_arg_no_comma::<T>(orig.toks())) {
                            assert(in_first);
                            assert(sp_tern::<T>(c.toks()) is Some);
                            let n0 = sp_tern::<T>(orig.toks().skip(2))->Some_0 as int;
                            assert(cur.toks() == c.toks().skip(n0 + 1));
                            assert(e.pos@ == orig.toks()[2 + n0 + 1].pos);
                            assert(orig.toks()[2 + n0 + 1].lex == SpecLexeme::Part::<T>(
                                TokenKind::Comma,
                            ));
                        }
                    }
                    return Err(e);
                }
                proof {
                    if sp_call::<T>(orig.toks()) is Some {
                        let n = sp_tern::<T>(c.toks())->Some_0;
                        lemma_skip_skip(c.toks(), n as int, 1);
                        assert(self.toks() =~= c.toks().skip(n as int + 1));
                        let m2 = sp_args::<T>(c.toks().skip(n + 1 as int))->Some_0;
                        lemma_skip_skip(c.toks(), n + 1 as int, m2 as int);
                    }
                    if orig.tail() is AtEof && (first_arg_stray::<T>(orig.toks())
                        || first_arg_no_comma::<T>(orig.toks())) {
                        assert(in_first);
                        assert(sp_tern::<T>(c.toks()) is Some);
                        let n0 = sp_tern::<T>(orig.toks().skip(2))->Some_0 as int;
                        assert(self.toks() == c.toks().skip(n0 + 1));
                        assert(orig.toks()[2 + n0].lex == SpecLexeme::Part::<T>(TokenKind::Comma));
                        if first_arg_stray::<T>(orig.toks()) {
                            assert(c.toks().skip(n0 + 1)[0] == orig.toks()[2 + n0 + 1]);
                        }
                        assert(false);
                    }
                    in_first = false;
                }
            } else {
                let closing = match self.is_token(TokenKind::ClosingCurly, 0) {
                    Ok(b) => b,
                    Err(e) => return Err(e),
                };
                if closing {
                    let ghost d = *self;
                    let _ = self.take_particle();  // consume "}"
                    proof {
                        lemma_advances_one(d, *self);
                        lemma_advances_trans(
                            orig,
                            d,
                            *self,
                            pre + unparse_args(args@) + Seq::<SpecLexeme<T>>::empty(),
                            seq![d.toks()[0].lex],
                        );
                        assert(pre + unparse_args(args@) + Seq::<SpecLexeme<T>>::empty() + seq![
                            d.toks()[0].lex,
                        ] =~= pre + unparse_args(args@) + seq![
                            SpecLexeme::Part::<T>(TokenKind::ClosingCurly),
                        ]);
                        if sp_call::<T>(orig.toks()) is Some {
                            let n = sp_tern::<T>(c.toks())->Some_0;
                            lemma_skip_skip(c.toks(), n as int, 1);
                            assert(self.toks() =~= c.toks().skip(n as int + 1));
                        }
                        if orig.tail() is AtEof && (first_arg_stray::<T>(orig.toks())
                            || first_arg_no_comma::<T>(orig.toks())) {
                            assert(in_first);
                            assert(sp_tern::<T>(c.toks()) is Some);
                            let n0 = sp_tern::<T>(orig.toks().skip(2))->Some_0 as int;
                            assert(d.toks() == c.toks().skip(n0));
                            assert(d.toks()[0] == orig.toks()[2 + n0]);
                            assert(false);
                        }
                    }
                    break;
                }
                if !self.is_end() {
                    let ghost cur = *self;
                    let p = self.take_pos();
                    let e = CalfErr::at("Expecting a comma", p);
                    proof {
                        let dd = orig.toks().len() - cur.toks().len();
                        assert(e.pos@ == orig.toks()[dd].pos);
                        if orig.tail() is AtEof && (first_arg_stray::<T>(orig.toks())
                            || first_arg_no_comma::<T>(orig.toks())) {
                            assert(in_first);
                            assert(sp_tern::<T>(c.toks()) is Some);
                            let n0 = sp_tern::<T>(orig.toks().skip(2))->Some_0 as int;
                            assert(cur.toks() == c.toks().skip(n0));
                            assert(e.pos@ == orig.toks()[2 + n0].pos);
                        }
                    }
                    return Err(e);
                }
                proof {
                    if orig.tail() is AtEof && (first_arg_stray::<T>(orig.toks())
                        || first_arg_no_comma::<T>(orig.toks())) {
                        assert(in_first);
                        assert(sp_tern::<T>(c.toks()) is Some);
                        let n0 = sp_tern::<T>(orig.toks().skip(2))->Some_0 as int;
                        assert(c.toks().skip(n0).len() > 0);
                        assert(false);
                    }
                }
                return Err(CalfErr::at("Expecting a comma", self.lexer.pos()));
            }
        }
        let e = Expr::new(Syntagma::Call { func, args }, fpos);
        proof {
            assert(unparse(e) =~= pre + unparse_args(e.syn->Call_args@) + seq![
                SpecLexeme::Part::<T>(TokenKind::ClosingCurly),
            ]);
            assert(consumed_toks(orig, *self)[0] == orig.toks()[0]);
            assert(value_start(consumed_toks(orig, *self)) == 0);
        }
        Ok(e)
    }

    /// A lambda `fn(params) body` when the next two tokens are the
    /// identifier `fn` and an opening parenthesis: bare identifiers as
    /// parameters under the same strict alternation as call arguments, then
    /// exactly one expression as the body.
    #[verifier::rlimit(100)]
    #[verifier::spinoff_prover]
    fn lambda(&mut self) -> (r: Result<Expr<T>, CalfErr>)
        requires
            old(self).wf(),
        ensures
            final(self).wf(),
            final(self).tail() == old(self).tail(),
            r is Ok ==> parsed_expr(*old(self), *final(self), r->Ok_0, 1),
            simple_start(*old(self)) ==> r is Ok,
            r is Err ==> err_from(*old(self), *final(self), r->Err_0),
            sp_lambda::<T>(old(self).toks()) is Some && r is Ok ==> final(self).toks()
                == old(self).toks().skip(sp_lambda::<T>(old(self).toks())->Some_0 as int),
            sp_lambda::<T>(old(self).toks()) is Some && r is Err ==> lex_err_verbatim(
                old(self).tail(),
                r->Err_0,
            ),
            old(self).tail() is AtEof && first_param_bad::<T>(old(self).toks()) ==> r is Err
                && r->Err_0.message@ == "Expecting a parameter"@ && r->Err_0.pos@
                == old(self).toks()[2].pos,
            old(self).tail() is AtEof && first_param_stray::<T>(old(self).toks()) ==> r is Err
                && r->Err_0.message@ == "Not expecting a comma"@ && r->Err_0.pos@ == (
            if old(self).toks()[4].lex == SpecLexeme::Part::<T>(TokenKind::ClosingParenth) {
                old(self).toks()[3].pos
            } else {
                old(self).toks()[4].pos
            }),
            old(self).tail() is AtEof && first_param_no_comma::<T>(old(self).toks()) ==> r is Err
                && r->Err_0.message@ == "Expecting a comma"@ && r->Err_0.pos@
                == old(self).toks()[3].pos,
        decreases self.toks().len(), 1int,
    {
        let ghost orig = *self;
        let fn0 = match self.is_ident("fn", 0) {
            Ok(b) => b,
            Err(e) => return Err(e),
        };
        let paren1 = match self.is_token(TokenKind::OpenParenth, 1) {
            Ok(b) => b,
            Err(e) => return Err(e),
        };
        if !(fn0 && paren1) {
            let ghost m = *self;
            let r = self.primary();
            proof {
                assert(orig.toks().skip(0) =~= orig.toks());
                if r is Err {
                    lemma_err_lift(orig, m, *self, r->Err_0, 0);
                }
            }
            return r;
        }
        let (_, fpos) = self.take_ident();  // consume "fn"
        let ghost a = *self;
        let _ = self.take_particle();  // consume "("
        let ghost b = *self;
        let ghost pre = seq![
            SpecLexeme::Id::<T>("fn"@),
            SpecLexeme::Part::<T>(TokenKind::OpenParenth),
        ];
        proof {
            lemma_advances_one(orig, a);
            lemma_advances_one(a, b);
            lemma_advances_trans(orig, a, b, seq![orig.toks()[0].lex], seq![a.toks()[0].lex]);
            assert(seq![orig.toks()[0].lex] + seq![a.toks()[0].lex] =~= pre);
        }
        let mut params: Vec<String> = Vec::new();
        let closing0 = match self.is_token(TokenKind::ClosingParenth, 0) {
            Ok(c) => c,
            Err(e) => return Err(e),
        };
        let ghost mut after_params = *self;
        if closing0 {
            let ghost c = *self;
            let _ = self.take_particle();  // consume ")"
            proof {
                lemma_advances_one(c, *self);
                lemma_advances_trans(orig, c, *self, pre, seq![c.toks()[0].lex]);
                assert(unparse_params::<T>(params@) =~= Seq::<SpecLexeme<T>>::empty());
                assert(pre + seq![c.toks()[0].lex] =~= pre + unparse_params::<T>(params@) + seq![
                    SpecLexeme::Part::<T>(TokenKind::ClosingParenth),
                ]);
                after_params = *self;
            }
        } else {
            let ghost mut in_first: bool = true;
            proof {
                assert(pre + unparse_params::<T>(params@) + Seq::<SpecLexeme<T>>::empty() =~= pre);
                if sp_lambda::<T>(orig.toks()) is Some {
                    let m = sp_params::<T>(orig.toks().skip(2))->Some_0;
                    lemma_skip_skip(orig.toks(), 2, m as int);
                }
            }
            loop
                invariant_except_break
                    advances(
                        orig,
                        *self,
                        pre + unparse_params::<T>(params@) + (if params@.len() > 0 {
                            seq![SpecLexeme::Part::<T>(TokenKind::Comma)]
                        } else {
                            Seq::<SpecLexeme<T>>::empty()
                        }),
                    ),
                    sp_lambda::<T>(orig.toks()) is Some ==> {
                        &&& sp_params::<T>(self.toks()) is Some
                        &&& sp_params::<T>(self.toks())->Some_0 <= self.toks().len()
                        &&& self.toks().skip(sp_params::<T>(self.toks())->Some_0 as int)
                            == orig.toks().skip(
                            2 + sp_params::<T>(orig.toks().skip(2))->Some_0 as int,
                        )
                    },
                    in_first ==> self.toks() == orig.toks().skip(2),
                    !in_first && orig.tail() is AtEof ==> !first_param_bad::<T>(orig.toks())
                        && !first_param_stray::<T>(orig.toks()) && !first_param_no_comma::<T>(
                        orig.toks(),
                    ),
                invariant
                    orig == *old(self),
                    orig.toks().len() >= 2,
                    self.wf(),
                    self.tail() == orig.tail(),
                    self.toks().len() < orig.toks().len(),
                ensures
                    orig == *old(self),
                    self.wf(),
                    self.tail() == orig.tail(),
                    advances(
                        orig,
                        *self,
                        pre + unparse_params::<T>(params@) + seq![
                            SpecLexeme::Part::<T>(TokenKind::ClosingParenth),
                        ],
                    ),
                    self.toks().len() < orig.toks().len(),
                    sp_lambda::<T>(orig.toks()) is Some ==> self.toks() == orig.toks().skip(
                        2 + sp_params::<T>(orig.toks().skip(2))->Some_0 as int,
                    ),
                    orig.tail() is AtEof ==> !first_param_bad::<T>(orig.toks())
                        && !first_param_stray::<T>(orig.toks()) && !first_param_no_comma::<T>(
                        orig.toks(),
                    ),
                decreases self.toks().len(),
            {
                let ghost c = *self;
                let ghost params_before = params@;
                let id_here = match self.is_token(TokenKind::Ident, 0) {
                    Ok(b) => b,
                    Err(e) => return Err(e),
                };
                if !id_here {
                    if !self.is_end() {
                        let ghost cur = *self;
                        let p = self.take_pos();
                        let e = CalfErr::at("Expecting a parameter", p);
                        proof {
                            let dd = orig.toks().len() - cur.toks().len();
                            assert(e.pos@ == orig.toks()[dd].pos);
                            if orig.tail() is AtEof && (first_param_bad::<T>(orig.toks())
                                || first_param_stray::<T>(orig.toks())
                                || first_param_no_comma::<T>(orig.toks())) {
                                assert(in_first);
                                assert(e.pos@ == orig.toks()[2].pos);
                            }
                        }
                        return Err(e);
                    }
                    proof {
                        if orig.tail() is AtEof && (first_param_bad::<T>(orig.toks())
                                || first_param_stray::<T>(orig.toks())
                                || first_param_no_comma::<T>(orig.toks())) {
                            assert(in_first);
                            assert(self.toks().len() > 0);
                            assert(false);
                        }
                    }
                    return Err(CalfErr::at("Expecting a parameter", self.lexer.pos()));
                }
                let t = match self.token() {
                    Some(t) => t,
                    None => {
                        proof {
                            assert(false);
                        }
                        return Err(CalfErr::at("Expecting a parameter", Pos::new(0, 0)));
                    },
                };
                let tpos = t.pos;
                proof {
                    if c.toks()[0].lex is Id {
                        assert(t.lexeme is Ident);
                    }
                }
                let param = match t.lexeme {
                    Lexeme::Ident(name) => name,
                    _ => {
                        let e = CalfErr::at("Expecting a parameter", tpos);
                        proof {
                            let dd = orig.toks().len() - c.toks().len();
                            assert(e.pos@ == orig.toks()[dd].pos);
                            if orig.tail() is AtEof && (first_param_bad::<T>(orig.toks())
                                || first_param_stray::<T>(orig.toks())
                                || first_param_no_comma::<T>(orig.toks())) {
                                assert(in_first);
                                assert(e.pos@ == orig.toks()[2].pos);
                            }
                        }
                        return Err(e);
                    },
                };
                let ghost param_snap = param;
                params.push(param);
                proof {
                    lemma_advances_one(c, *self);
                    lemma_advances_trans(
                        orig,
                        c,
                        *self,
                        pre + unparse_params::<T>(params_before) + (if params_before.len() > 0 {
                            seq![SpecLexeme::Part::<T>(TokenKind::Comma)]
                        } else {
                            Seq::<SpecLexeme<T>>::empty()
                        }),
                        seq![c.toks()[0].lex],
                    );
                    lemma_params_push::<T>(params_before, param_snap);
                    assert(c.toks()[0].lex == SpecLexeme::Id::<T>(param_snap@));
                    assert(pre + unparse_params::<T>(params_before) + (if params_before.len() > 0 {
                        seq![SpecLexeme::Part::<T>(TokenKind::Comma)]
                    } else {
                        Seq::<SpecLexeme<T>>::empty()
                    }) + seq![c.toks()[0].lex] =~= pre + unparse_params::<T>(params@) + Seq::<
                        SpecLexeme<T>,
                    >::empty());
                }
                let comma = match self.is_token(TokenKind::Comma, 0) {
                    Ok(b) => b,
                    Err(e) => return Err(e),
                };
                if comma {
                    let ghost d = *self;
                    let (_, cpos) = self.take_particle();  // consume ","
                    proof {
                        lemma_advances_one(d, *self);
                        lemma_advances_trans(
                            orig,
                            d,
                            *self,
                            pre + unparse_params::<T>(params@) + Seq::<SpecLexeme<T>>::empty(),
                            seq![d.toks()[0].lex],
                        );
                        assert(pre + unparse_params::<T>(params@) + Seq::<SpecLexeme<T>>::empty()
                            + seq![d.toks()[0].lex] =~= pre + unparse_params::<T>(params@) + seq![
                            SpecLexeme::Part::<T>(TokenKind::Comma),
                        ]);
                    }
                    let closing = match self.is_token(TokenKind::ClosingParenth, 0) {
                        Ok(b) => b,
                        Err(e) => return Err(e),
                    };
                    if closing {
                        // a trailing comma: the parameter it announces is missing
                        let e = CalfErr::at("Not expecting a comma", cpos);
                        proof {
                            let dd = orig.toks().len() - d.toks().len();
                            assert(e.pos@ == orig.toks()[dd].pos);
                            if orig.tail() is AtEof && (first_param_bad::<T>(orig.toks())
                                || first_param_stray::<T>(orig.toks())
                                || first_param_no_comma::<T>(orig.toks())) {
                                assert(in_first);
                                assert(d.toks() == c.toks().skip(1));
                                assert(e.pos@ == orig.toks()[3].pos);
                                assert(orig.toks()[4].lex == SpecLexeme::Part::<T>(
                                    TokenKind::ClosingParenth,
                                ));
                            }
                        }
                        return Err(e);
                    }
                    let comma2 = match self.is_token(TokenKind::Comma, 0) {
                        Ok(b) => b,
                        Err(e) => return Err(e),
                    };
                    if comma2 {
                        let ghost cur = *self;
                        let p2 = self.take_pos();
                        let e = CalfErr::at("Not expecting a comma", p2);
                        proof {
                            let dd = orig.toks().len() - cur.toks().len();
                            assert(e.pos@ == orig.toks()[dd].pos);
                            if orig.tail() is AtEof && (first_param_bad::<T>(orig.toks())
                                || first_param_stray::<T>(orig.toks())
                                || first_param_no_comma::<T>(orig.toks())) {
                                assert(in_first);
                                lemma_skip_skip(c.toks(), 1, 1);
                                assert(cur.toks() =~= c.toks().skip(2));
                                assert(e.pos@ == orig.toks()[4].pos);
                                assert(orig.toks()[4].lex == SpecLexeme::Part::<T>(
                                    TokenKind::Comma,
                                ));
                            }
                        }
                        return Err(e);
                    }
                    proof {
                        if sp_lambda::<T>(orig.toks()) is Some {
                            lemma_skip_skip(c.toks(), 1, 1);
                            assert(self.toks() =~= c.toks().skip(2));
                            let m2 = sp_params::<T>(c.toks().skip(2))->Some_0;
                            lemma_skip_skip(c.toks(), 2, m2 as int);
                        }
                        if orig.tail() is AtEof && (first_param_bad::<T>(orig.toks())
                            || first_param_stray::<T>(orig.toks())
                            || first_param_no_comma::<T>(orig.toks())) {
                            assert(in_first);
                            lemma_skip_skip(c.toks(), 1, 1);
                            assert(self.toks() =~= c.toks().skip(2));
                            assert(orig.toks()[3].lex == SpecLexeme::Part::<T>(TokenKind::Comma));
                            if first_param_stray::<T>(orig.toks()) {
                                assert(self.toks()[0] == orig.toks()[4]);
                            }
                            assert(false);
                        }
                        in_first = false;
                    }
                } else {
                    let closing = match self.is_token(TokenKind::ClosingParenth, 0) {
                        Ok(b) => b,
                        Err(e) => return Err(e),
                    };
                    if closing {
                        let ghost d = *self;
                        let _ = self.take_particle();  // consume ")"
                        proof {
                            lemma_advances_one(d, *self);
                            lemma_advances_trans(
                                orig,
                                d,
                                *self,
                                pre + unparse_params::<T>(params@) + Seq::<SpecLexeme<T>>::empty(),
                                seq![d.toks()[0].lex],
                            );
                            assert(pre + unparse_params::<T>(params@) + Seq::<
                                SpecLexeme<T>,
                            >::empty() + seq![d.toks()[0].lex] =~= pre + unparse_params::<T>(
                                params@,
                            ) + seq![SpecLexeme::Part::<T>(TokenKind::ClosingParenth)]);
                            if sp_lambda::<T>(orig.toks()) is Some {
                                lemma_skip_skip(c.toks(), 1, 1);
                                assert(self.toks() =~= c.toks().skip(2));
                            }
                            if orig.tail() is AtEof && (first_param_bad::<T>(orig.toks())
                                || first_param_stray::<T>(orig.toks())
                                || first_param_no_comma::<T>(orig.toks())) {
                                assert(in_first);
                                if first_param_stray::<T>(orig.toks())
                                    || first_param_no_comma::<T>(orig.toks()) {
                                    assert(d.toks() == c.toks().skip(1));
                                    assert(d.toks()[0] == orig.toks()[3]);
                                }
                                assert(false);
                            }
                        }
                        break;
                    }
                    if !self.is_end() {
                        let ghost cur = *self;
                        let p = self.take_pos();
                        let e = CalfErr::at("Expecting a comma", p);
                        proof {
                            let dd = orig.toks().len() - cur.toks().len();
                            assert(e.pos@ == orig.toks()[dd].pos);
                            if orig.tail() is AtEof && (first_param_bad::<T>(orig.toks())
                                || first_param_stray::<T>(orig.toks())
                                || first_param_no_comma::<T>(orig.toks())) {
                                assert(in_first);
                                assert(cur.toks() == c.toks().skip(1));
                                assert(e.pos@ == orig.toks()[3].pos);
                            }
                        }
                        return Err(e);
                    }
                    proof {
                        if orig.tail() is AtEof && (first_param_bad::<T>(orig.toks())
                            || first_param_stray::<T>(orig.toks())
                            || first_param_no_comma::<T>(orig.toks())) {
                            assert(in_first);
                            assert(self.toks() == c.toks().skip(1));
                            assert(self.toks().len() > 0);
                            assert(false);
                        }
                    }
                    return Err(CalfErr::at("Expecting a comma", self.lexer.pos()));
                }
            }
            proof {
                after_params = *self;
            }
        }
        let body = match self.expression() {
            Ok(e) => e,
            Err(e) => {
                proof {
                    lemma_err_lift(
                        orig,
                        after_params,
                        *self,
                        e,
                        orig.toks().len() - after_params.toks().len(),
                    );
                }
                return Err(e);
            },
        };
        let ghost body_g = body;
        let e = Expr::new(Syntagma::Lambda { params, body: Box::new(body) }, fpos);
        proof {
            lemma_advances_trans(
                orig,
                after_params,
                *self,
                pre + unparse_params::<T>(e.syn->Lambda_params@) + seq![
                    SpecLexeme::Part::<T>(TokenKind::ClosingParenth),
                ],
                unparse(body_g),
            );
            assert(unparse(e) =~= pre + unparse_params::<T>(e.syn->Lambda_params@) + seq![
                SpecLexeme::Part::<T>(TokenKind::ClosingParenth),
            ] + unparse(body_g));
            assert(consumed_toks(orig, *self)[0] == orig.toks()[0]);
            assert(value_start(consumed_toks(orig, *self)) == 0);
            if sp_lambda::<T>(orig.toks()) is Some {
                if 2 < orig.toks().len() && orig.toks()[2].lex == SpecLexeme::Part::<T>(
                    TokenKind::ClosingParenth,
                ) {
                    let n = sp_tern::<T>(orig.toks().skip(3))->Some_0;
                    lemma_skip_skip(orig.toks(), 3, n as int);
                    assert(self.toks() =~= orig.toks().skip(3 + n as int));
                } else {
                    let m = sp_params::<T>(orig.toks().skip(2))->Some_0;
                    let n = sp_tern::<T>(orig.toks().skip(2 + m as int))->Some_0;
                    lemma_skip_skip(orig.toks(), 2 + m as int, n as int);
                    assert(self.toks() =~= orig.toks().skip(2 + m as int + n as int));
                }
            }
        }
        Ok(e)
    }

    /// A primary expression: a numeric literal, an identifier, or a
    /// parenthesized expression kept as a group node. Anything else is a
    /// terminal parse failure at the tokenizer's current coordinate. Where
    /// the primary production accepts the stream, the parse succeeds and
    /// consumes exactly the production's tokens, or surfaces the stream's
    /// lexical error verbatim.
    #[verifier::rlimit(60)]
    fn primary(&mut self) -> (r: Result<Expr<T>, CalfErr>)
        requires
            old(self).wf(),
        ensures
            final(self).wf(),
            final(self).tail() == old(self).tail(),
            r is Ok ==> parsed_expr(*old(self), *final(self), r->Ok_0, 0),
            old(self).toks().len() > 0 && (old(self).toks()[0].lex is Num
                || old(self).toks()[0].lex is Id) ==> r is Ok,
            simple_start(*old(self)) ==> r is Ok,
            r is Err ==> err_from(*old(self), *final(self), r->Err_0),
            sp_primary::<T>(old(self).toks()) is Some && r is Ok ==> final(self).toks()
                == old(self).toks().skip(sp_primary::<T>(old(self).toks())->Some_0 as int),
            sp_primary::<T>(old(self).toks()) is Some && r is Err ==> lex_err_verbatim(
                old(self).tail(),
                r->Err_0,
            ),
            old(self).tail() is AtEof && paren_missing::<T>(old(self).toks()) ==> r is Err
                && r->Err_0.message@ == "Expected a closing parenthesis after expression"@ && (1
                + sp_tern::<T>(old(self).toks().skip(1))->Some_0 < old(self).toks().len()
                ==> r->Err_0.pos@ == old(self).toks()[1 + sp_tern::<T>(
                old(self).toks().skip(1),
            )->Some_0 as int].pos) && (1 + sp_tern::<T>(old(self).toks().skip(1))->Some_0
                == old(self).toks().len() ==> r->Err_0.pos@ == final(self).lexer_position()),
            old(self).tail() is AtEof && no_expr_head::<T>(old(self).toks()) ==> r is Err
                && r->Err_0.message@ == "Couldn't parse a valid expression"@ && r->Err_0.pos@
                == final(self).lexer_position() && final(self).toks() == old(self).toks(),
        decreases self.toks().len(), 0int,
    {
        let ghost orig = *self;
        let n0 = match self.is_token(TokenKind::Int, 0) {
            Ok(b) => b,
            Err(e) => return Err(e),
        };
        let f0 = match self.is_token(TokenKind::Float, 0) {
            Ok(b) => b,
            Err(e) => return Err(e),
        };
        if n0 || f0 {
            let t = match self.token() {
                Some(t) => t,
                None => {
                    proof {
                        assert(false);
                    }
                    return Err(CalfErr::at("Expected a number", Pos::new(0, 0)));
                },
            };
            let tpos = t.pos;
            match t.lexeme {
                Lexeme::Number(n) => {
                    let e = Expr::new(Syntagma::Number(n), tpos);
                    proof {
                        lemma_advances_one(orig, *self);
                        assert(unparse(e) =~= seq![orig.toks()[0].lex]);
                        assert(value_start(consumed_toks(orig, *self)) == 0);
                    }
                    return Ok(e);
                },
                _ => {
                    return Err(CalfErr::at("Expected a number", tpos));
                },
            }
        }
        let i0 = match self.is_token(TokenKind::Ident, 0) {
            Ok(b) => b,
            Err(e) => return Err(e),
        };
        if i0 {
            let t = match self.token() {
                Some(t) => t,
                None => {
                    proof {
                        assert(false);
                    }
                    return Err(CalfErr::at("Expected an identifier", Pos::new(0, 0)));
                },
            };
            let tpos = t.pos;
            match t.lexeme {
                Lexeme::Ident(id) => {
                    let e = Expr::new(Syntagma::Identifier(id), tpos);
                    proof {
                        lemma_advances_one(orig, *self);
                        assert(unparse(e) =~= seq![orig.toks()[0].lex]);
                        assert(value_start(consumed_toks(orig, *self)) == 0);
                    }
                    return Ok(e);
                },
                _ => {
                    return Err(CalfErr::at("Expected an identifier", tpos));
                },
            }
        }
        let p0 = match self.is_token(TokenKind::OpenParenth, 0) {
            Ok(b) => b,
            Err(e) => return Err(e),
        };
        if p0 {
            let _ = self.take_particle();  // consume "("
            let ghost b = *self;
            let inner = match self.expression() {
                Ok(e) => e,
                Err(e) => {
                    proof {
                        lemma_err_lift(orig, b, *self, e, 1);
                    }
                    return Err(e);
                },
            };
            proof {
                if sp_primary::<T>(orig.toks()) is Some {
                    let n = sp_tern::<T>(orig.toks().skip(1))->Some_0;
                    lemma_skip_skip(orig.toks(), 1, n as int);
                    assert(self.toks() =~= orig.toks().skip(1 + n as int));
                }
            }
            let closing = match self.is_token(TokenKind::ClosingParenth, 0) {
                Ok(b) => b,
                Err(e) => return Err(e),
            };
            if !closing {
                if !self.is_end() {
                    let ghost cur = *self;
                    let p = self.take_pos();
                    let e = CalfErr::at("Expected a closing parenthesis after expression", p);
                    proof {
                        let db = b.toks().len() - cur.toks().len();
                        lemma_skip_skip(orig.toks(), 1, db);
                        assert(cur.toks() =~= orig.toks().skip(1 + db));
                        assert(e.pos@ == orig.toks()[1 + db].pos);
                    }
                    return Err(e);
                }
                return Err(
                    CalfErr::at(
                        "Expected a closing parenthesis after expression",
                        self.lexer.pos(),
                    ),
                );
            }
            let ghost c = *self;
            let _ = self.take_particle();  // consume ")"
            let pos = inner.pos;
            let ghost inner_g = inner;
            let e = Expr::new(Syntagma::Group { expr: Box::new(inner) }, pos);
            proof {
                lemma_advances_one(orig, b);
                lemma_advances_trans(orig, b, c, seq![orig.toks()[0].lex], unparse(inner_g));
                lemma_advances_one(c, *self);
                lemma_advances_trans(
                    orig,
                    c,
                    *self,
                    seq![orig.toks()[0].lex] + unparse(inner_g),
                    seq![c.toks()[0].lex],
                );
                assert(unparse(e) =~= seq![orig.toks()[0].lex] + unparse(inner_g) + seq![
                    c.toks()[0].lex,
                ]);
                let ci = consumed_toks(b, c);
                lemma_value_start_bounds(ci);
                lemma_value_start_append(ci, seq![c.toks()[0]]);
                lemma_value_start_prepend(orig.toks()[0], ci + seq![c.toks()[0]]);
                assert(consumed_toks(orig, *self) =~= seq![orig.toks()[0]] + (ci + seq![
                    c.toks()[0],
                ]));
                assert((seq![orig.toks()[0]] + (ci + seq![c.toks()[0]]))[1 + value_start(ci)] == (
                ci + seq![c.toks()[0]])[value_start(ci)]);
                assert((ci + seq![c.toks()[0]])[value_start(ci)] == ci[value_start(ci)]);
                if sp_primary::<T>(orig.toks()) is Some {
                    let n = sp_tern::<T>(orig.toks().skip(1))->Some_0;
                    lemma_skip_skip(orig.toks(), 1 + n as int, 1);
                    assert(self.toks() =~= orig.toks().skip(n as int + 2));
                }
            }
            return Ok(e);
        }
        Err(CalfErr::at("Couldn't parse a valid expression", self.lexer.pos()))
    }
}

proof fn lemma_args_push<T>(args: Seq<Expr<T>>, a: Expr<T>)
    ensures
        args.len() == 0 ==> unparse_args(args.push(a)) == unparse(a),
        args.len() > 0 ==> unparse_args(args.push(a)) =~= unparse_args(args) + seq![
            SpecLexeme::Part::<T>(TokenKind::Comma),
        ] + unparse(a),
        wf_at(a, 9) && wf_args(args) ==> wf_args(args.push(a)),
        anchored(a) && anchored_args(args) ==> anchored_args(args.push(a)),
    decreases args.len(),
{
    let p = args.push(a);
    if args.len() == 0 {
        assert(p =~= seq![a]);
        assert(p.subrange(1, 1) =~= Seq::<Expr<T>>::empty());
        assert(p[0] == a);
        assert(wf_args(p.subrange(1, 1)));
        assert(anchored_args(p.subrange(1, 1)));
    } else {
        let rest = args.subrange(1, args.len() as int);
        lemma_args_push(rest, a);
        assert(p.subrange(1, args.len() as int + 1) =~= rest.push(a));
        assert(p[0] == args[0]);
        if args.len() == 1 {
            assert(rest.len() == 0);
            assert(unparse_args(args) == unparse(args[0]));
            assert(unparse_args(p) =~= unparse(args[0]) + seq![
                SpecLexeme::Part::<T>(TokenKind::Comma),
            ] + unparse_args(rest.push(a)));
            assert(unparse_args(p) =~= unparse_args(args) + seq![
                SpecLexeme::Part::<T>(TokenKind::Comma),
            ] + unparse(a));
        } else {
            assert(unparse_args(p) =~= unparse(args[0]) + seq![
                SpecLexeme::Part::<T>(TokenKind::Comma),
            ] + unparse_args(rest.push(a)));
            assert(unparse_args(args) =~= unparse(args[0]) + seq![
                SpecLexeme::Part::<T>(TokenKind::Comma),
            ] + unparse_args(rest));
            assert(unparse_args(p) =~= unparse_args(args) + seq![
                SpecLexeme::Part::<T>(TokenKind::Comma),
            ] + unparse(a));
        }
        if wf_at(a, 9) && wf_args(args) {
            assert(wf_at(args[0], 9) && wf_args(rest));
            assert(wf_args(p));
        }
        if anchored(a) && anchored_args(args) {
            assert(anchored(args[0]) && anchored_args(rest));
            assert(anchored_args(p));
        }
    }
}

proof fn lemma_params_push<T>(params: Seq<String>, s: String)
    ensures
        params.len() == 0 ==> unparse_params::<T>(params.push(s)) =~= seq![
            SpecLexeme::Id::<T>(s@),
        ],
        params.len() > 0 ==> unparse_params::<T>(params.push(s)) =~= unparse_params::<T>(params)
            + seq![SpecLexeme::Part::<T>(TokenKind::Comma), SpecLexeme::Id::<T>(s@)],
    decreases params.len(),
{
    let p = params.push(s);
    if params.len() == 0 {
        assert(p =~= seq![s]);
        assert(p[0] == s);
    } else {
        let rest = params.subrange(1, params.len() as int);
        lemma_params_push::<T>(rest, s);
        assert(p.subrange(1, params.len() as int + 1) =~= rest.push(s));
        assert(p[0] == params[0]);
        if params.len() == 1 {
            assert(rest.len() == 0);
            assert(unparse_params::<T>(params) =~= seq![SpecLexeme::Id::<T>(params[0]@)]);
            assert(unparse_params::<T>(p) =~= seq![
                SpecLexeme::Id::<T>(params[0]@),
                SpecLexeme::Part::<T>(TokenKind::Comma),
            ] + unparse_params::<T>(rest.push(s)));
            assert(unparse_params::<T>(p) =~= unparse_params::<T>(params) + seq![
                SpecLexeme::Part::<T>(TokenKind::Comma),
                SpecLexeme::Id::<T>(s@),
            ]);
        } else {
            assert(unparse_params::<T>(p) =~= seq![
                SpecLexeme::Id::<T>(params[0]@),
                SpecLexeme::Part::<T>(TokenKind::Comma),
            ] + unparse_params::<T>(rest.push(s)));
            assert(unparse_params::<T>(params) =~= seq![
                SpecLexeme::Id::<T>(params[0]@),
                SpecLexeme::Part::<T>(TokenKind::Comma),
            ] + unparse_params::<T>(rest));
            assert(unparse_params::<T>(p) =~= unparse_params::<T>(params) + seq![
                SpecLexeme::Part::<T>(TokenKind::Comma),
                SpecLexeme::Id::<T>(s@),
            ]);
        }
    }
}

/// How one parsing step relates two parser states: the tokens after are a
/// suffix of the tokens before, the way the stream ends is untouched, and
/// the consumed prefix spells exactly `consumed`.
pub open spec fn advances<T: Numeric>(
    a: Parser<T>,
    b: Parser<T>,
    consumed: Seq<SpecLexeme<T>>,
) -> bool {
    &&& b.tail() == a.tail()
    &&& b.toks().len() <= a.toks().len()
    &&& b.toks() == a.toks().skip(a.toks().len() - b.toks().len())
    &&& lexemes_of(a.toks().take(a.toks().len() - b.toks().len())) == consumed
}

/// Nothing consumed: a state advances to itself with an empty spelling.
pub proof fn lemma_advances_refl<T: Numeric>(a: Parser<T>)
    ensures
        advances(a, a, Seq::empty()),
{
    assert(a.toks().skip(0) =~= a.toks());
    assert(lexemes_of(a.toks().take(0)) =~= Seq::<SpecLexeme<T>>::empty());
}

proof fn lemma_advances_one<T: Numeric>(a: Parser<T>, b: Parser<T>)
    requires
        a.toks().len() > 0,
        b.toks() == a.toks().skip(1),
        b.tail() == a.tail(),
    ensures
        advances(a, b, seq![a.toks()[0].lex]),
        consumed_toks(a, b) =~= seq![a.toks()[0]],
{
    assert(a.toks().skip(1).len() == a.toks().len() - 1);
    assert(lexemes_of(a.toks().take(1)) =~= seq![a.toks()[0].lex]);
}

/// Two parsing steps compose: their consumed spellings concatenate.
pub proof fn lemma_advances_trans<T: Numeric>(
    a: Parser<T>,
    b: Parser<T>,
    c: Parser<T>,
    l1: Seq<SpecLexeme<T>>,
    l2: Seq<SpecLexeme<T>>,
)
    requires
        advances(a, b, l1),
        advances(b, c, l2),
    ensures
        advances(a, c, l1 + l2),
        consumed_toks(a, c) =~= consumed_toks(a, b) + consumed_toks(b, c),
{
    let n1 = a.toks().len() - b.toks().len();
    let n2 = b.toks().len() - c.toks().len();
    assert(c.toks() =~= a.toks().skip(n1 + n2));
    assert(l1.len() == n1 && l2.len() == n2);
    assert forall|i: int| 0 <= i < n1 + n2 implies a.toks().take(n1 + n2)[i] == (consumed_toks(
        a,
        b,
    ) + consumed_toks(b, c))[i] by {
        if i >= n1 {
            assert(b.toks()[i - n1] == a.toks().skip(n1)[i - n1]);
        }
    }
    assert forall|i: int| 0 <= i < n1 + n2 implies lexemes_of(a.toks().take(n1 + n2))[i] == (l1
        + l2)[i] by {
        if i < n1 {
            assert(l1[i] == lexemes_of(a.toks().take(n1))[i]);
            assert(a.toks().take(n1)[i] == a.toks()[i]);
            assert(a.toks().take(n1 + n2)[i] == a.toks()[i]);
        } else {
            assert((l1 + l2)[i] == l2[i - n1]);
            assert(l2[i - n1] == lexemes_of(b.toks().take(n2))[i - n1]);
            assert(b.toks().take(n2)[i - n1] == b.toks()[i - n1]);
            assert(b.toks()[i - n1] == a.toks().skip(n1)[i - n1]);
            assert(a.toks().skip(n1)[i - n1] == a.toks()[i]);
            assert(a.toks().take(n1 + n2)[i] == a.toks()[i]);
        }
    }
    assert(lexemes_of(a.toks().take(n1 + n2)) =~= l1 + l2);
}

/// The tokens one parsing step consumed.
pub open spec fn consumed_toks<T: Numeric>(a: Parser<T>, b: Parser<T>) -> Seq<SpecToken<T>> {
    a.toks().take(a.toks().len() - b.toks().len())
}

/// Whether a token may stand before the fragment an expression's value
/// starts at: a prefix operator or an opening parenthesis.
pub open spec fn leading_lex<T>(l: SpecLexeme<T>) -> bool {
    ||| l == SpecLexeme::Part::<T>(TokenKind::Not)
    ||| l == SpecLexeme::Part::<T>(TokenKind::Minus)
    ||| l == SpecLexeme::Part::<T>(TokenKind::OpenParenth)
}

/// The index of the first consumed token that opens a value — the first
/// one that is no prefix operator and no opening parenthesis — or a
/// negative number when every token is such a lead.
pub open spec fn value_start<T>(toks: Seq<SpecToken<T>>) -> int
    decreases toks.len(),
{
    if toks.len() == 0 {
        -1
    } else if leading_lex(toks[0].lex) {
        let r = value_start(toks.skip(1));
        if r < 0 {
            -1
        } else {
            1 + r
        }
    } else {
        0
    }
}

proof fn lemma_value_start_bounds<T>(toks: Seq<SpecToken<T>>)
    requires
        value_start(toks) >= 0,
    ensures
        value_start(toks) < toks.len(),
        !leading_lex(toks[value_start(toks)].lex),
    decreases toks.len(),
{
    if toks.len() > 0 && leading_lex(toks[0].lex) {
        lemma_value_start_bounds(toks.skip(1));
    }
}

proof fn lemma_value_start_append<T>(s: Seq<SpecToken<T>>, t: Seq<SpecToken<T>>)
    requires
        value_start(s) >= 0,
    ensures
        value_start(s + t) == value_start(s),
    decreases s.len(),
{
    lemma_value_start_bounds(s);
    if leading_lex(s[0].lex) {
        lemma_value_start_append(s.skip(1), t);
        assert((s + t).skip(1) =~= s.skip(1) + t);
    }
}

proof fn lemma_value_start_prepend<T>(x: SpecToken<T>, s: Seq<SpecToken<T>>)
    requires
        leading_lex(x.lex),
        value_start(s) >= 0,
    ensures
        value_start(seq![x] + s) == 1 + value_start(s),
{
    assert((seq![x] + s)[0] == x);
    assert((seq![x] + s).skip(1) =~= s);
}

/// Consuming further tokens moves neither the index nor the token that a
/// parse's value starts at.
proof fn lemma_value_start_prefix<T: Numeric>(a: Parser<T>, b: Parser<T>, c: Parser<T>)
    requires
        c.toks().len() <= b.toks().len() <= a.toks().len(),
        value_start(consumed_toks(a, b)) >= 0,
    ensures
        value_start(consumed_toks(a, c)) == value_start(consumed_toks(a, b)),
        consumed_toks(a, c)[value_start(consumed_toks(a, b))] == consumed_toks(a, b)[value_start(
            consumed_toks(a, b),
        )],
{
    let n1 = a.toks().len() - b.toks().len();
    let n2 = a.toks().len() - c.toks().len();
    lemma_value_start_bounds(consumed_toks(a, b));
    assert(consumed_toks(a, c) =~= consumed_toks(a, b) + a.toks().subrange(n1 as int, n2 as int));
    lemma_value_start_append(consumed_toks(a, b), a.toks().subrange(n1 as int, n2 as int));
}

/// The head token, if there is one, is not an operator that the tiers up
/// to `lvl` keep consuming: the parse stopped at this state greedily.
pub open spec fn stopped_below<T: Numeric>(p: Parser<T>, lvl: int) -> bool {
    (p.toks().len() > 0 && p.toks()[0].lex is Part) ==> !op_at_or_below(
        p.toks()[0].lex->Part_0,
        lvl,
    )
}

/// What a successful expression parse at tier `lvl` guarantees: the
/// consumed prefix of the token stream is non-empty and spells exactly the
/// returned tree, the tree fits the tier, every node carries the
/// coordinate its value starts at, and the parse stopped greedily.
pub open spec fn parsed_expr<T: Numeric>(
    a: Parser<T>,
    b: Parser<T>,
    e: Expr<T>,
    lvl: int,
) -> bool {
    &&& advances(a, b, unparse(e))
    &&& b.toks().len() < a.toks().len()
    &&& wf_at(e, lvl)
    &&& anchored(e)
    &&& stopped_below(b, lvl)
    &&& value_start(consumed_toks(a, b)) >= 0
    &&& e.pos@ == consumed_toks(a, b)[value_start(consumed_toks(a, b))].pos
}

/// What a successful statement parse guarantees: the consumed prefix of
/// the token stream is non-empty and spells exactly the statement, the
/// statement is well formed, and its expression carries the coordinate of
/// the fragment its value starts at.
pub open spec fn parsed_stmt<T: Numeric>(a: Parser<T>, b: Parser<T>, st: Stmt<T>) -> bool {
    &&& advances(a, b, stmt_lexemes(st))
    &&& b.toks().len() < a.toks().len()
    &&& wf_stmt(st)
    &&& match st {
        Stmt::Assign { name, value } => {
            let c = consumed_toks(a, b).skip(2);
            &&& consumed_toks(a, b).len() >= 2
            &&& value_start(c) >= 0
            &&& value.pos@ == c[value_start(c)].pos
        },
        Stmt::Expr(e) => {
            let c = consumed_toks(a, b);
            &&& value_start(c) >= 0
            &&& e.pos@ == c[value_start(c)].pos
        },
    }
}

/// A stream holding exactly one number or identifier token: every grammar
/// tier is bound to succeed on it.
pub open spec fn simple_start<T: Numeric>(p: Parser<T>) -> bool {
    &&& p.toks().len() == 1
    &&& (p.toks()[0].lex is Num || p.toks()[0].lex is Id)
    &&& p.tail() is AtEof
}

// The grammar itself, as a function of the token stream: each `sp_` function
// says how many tokens one production consumes on a stream it accepts, and
// `None` where the production rejects the stream. The parser's contracts owe
// an `Ok` wherever the grammar accepts, consuming exactly that many tokens.

/// The primary production: one number, one identifier, or a parenthesized
/// full expression.
pub open spec fn sp_primary<T: Numeric>(toks: Seq<SpecToken<T>>) -> Option<nat>
    decreases toks.len(), 0int,
{
    if toks.len() > 0 && (toks[0].lex is Num || toks[0].lex is Id) {
        Some(1nat)
    } else if toks.len() > 0 && toks[0].lex == SpecLexeme::Part::<T>(TokenKind::OpenParenth) {
        match sp_tern(toks.skip(1)) {
            Some(n) => if 1 + n < toks.len() && toks[1 + n as int].lex == SpecLexeme::Part::<T>(
                TokenKind::ClosingParenth,
            ) {
                Some((n + 2) as nat)
            } else {
                None
            },
            None => None,
        }
    } else {
        None
    }
}

/// The lambda production: the identifier `fn`, a parenthesized parameter
/// list, and one expression as the body; anything else falls through to the
/// primary production.
pub open spec fn sp_lambda<T: Numeric>(toks: Seq<SpecToken<T>>) -> Option<nat>
    decreases toks.len(), 1int,
{
    if toks.len() >= 2 && toks[0].lex == SpecLexeme::Id::<T>("fn"@) && toks[1].lex
        == SpecLexeme::Part::<T>(TokenKind::OpenParenth) {
        if toks.len() > 2 && toks[2].lex == SpecLexeme::Part::<T>(TokenKind::ClosingParenth) {
            match sp_tern(toks.skip(3)) {
                Some(n) => if 3 + n <= toks.len() {
                    Some((3 + n) as nat)
                } else {
                    None
                },
                None => None,
            }
        } else {
            match sp_params(toks.skip(2)) {
                Some(m) => if 1 <= m && m <= toks.len() - 2 {
                    match sp_tern(toks.skip(2 + m as int)) {
                        Some(n) => if 2 + m + n <= toks.len() {
                            Some((2 + m + n) as nat)
                        } else {
                            None
                        },
                        None => None,
                    }
                } else {
                    None
                },
                None => None,
            }
        }
    } else {
        sp_primary(toks)
    }
}

/// A non-empty lambda parameter list with its closing parenthesis: bare
/// identifiers in strict comma alternation — a doubled comma, a trailing
/// comma and a missing comma each reject the stream.
pub open spec fn sp_params<T: Numeric>(toks: Seq<SpecToken<T>>) -> Option<nat>
    decreases toks.len(), 19int,
{
    if toks.len() > 0 && toks[0].lex is Id {
        if toks.len() > 1 && toks[1].lex == SpecLexeme::Part::<T>(TokenKind::Comma) {
            if toks.len() > 2 && !(toks[2].lex == SpecLexeme::Part::<T>(TokenKind::ClosingParenth))
                && !(toks[2].lex == SpecLexeme::Part::<T>(TokenKind::Comma)) {
                match sp_params(toks.skip(2)) {
                    Some(m) => if 2 + m <= toks.len() {
                        Some((2 + m) as nat)
                    } else {
                        None
                    },
                    None => None,
                }
            } else {
                None
            }
        } else if toks.len() > 1 && toks[1].lex == SpecLexeme::Part::<T>(
            TokenKind::ClosingParenth,
        ) {
            Some(2nat)
        } else {
            None
        }
    } else {
        None
    }
}

/// The call production: an identifier followed by a braced argument list;
/// anything else falls through to the lambda production.
pub open spec fn sp_call<T: Numeric>(toks: Seq<SpecToken<T>>) -> Option<nat>
    decreases toks.len(), 2int,
{
    if toks.len() >= 2 && toks[0].lex is Id && toks[1].lex == SpecLexeme::Part::<T>(
        TokenKind::OpenCurly,
    ) {
        if toks.len() > 2 && toks[2].lex == SpecLexeme::Part::<T>(TokenKind::ClosingCurly) {
            Some(3nat)
        } else {
            match sp_args(toks.skip(2)) {
                Some(m) => if 2 + m <= toks.len() {
                    Some((2 + m) as nat)
                } else {
                    None
                },
                None => None,
            }
        }
    } else {
        sp_lambda(toks)
    }
}

/// A non-empty call argument list with its closing brace: full expressions
/// in strict comma alternation — a doubled comma, a trailing comma and a
/// missing comma each reject the stream.
pub open spec fn sp_args<T: Numeric>(toks: Seq<SpecToken<T>>) -> Option<nat>
    decreases toks.len(), 19int,
{
    match sp_tern(toks) {
        None => None,
        Some(n) => if n < toks.len() && toks[n as int].lex == SpecLexeme::Part::<T>(
            TokenKind::Comma,
        ) {
            if n + 1 < toks.len() && !(toks[n + 1 as int].lex == SpecLexeme::Part::<T>(
                TokenKind::ClosingCurly,
            )) && !(toks[n + 1 as int].lex == SpecLexeme::Part::<T>(TokenKind::Comma)) {
                match sp_args(toks.skip(n + 1 as int)) {
                    Some(m) => if n + 1 + m <= toks.len() {
                        Some((n + 1 + m) as nat)
                    } else {
                        None
                    },
                    None => None,
                }
            } else {
                None
            }
        } else if n < toks.len() && toks[n as int].lex == SpecLexeme::Part::<T>(
            TokenKind::ClosingCurly,
        ) {
            Some((n + 1) as nat)
        } else {
            None
        },
    }
}

/// The prefix production: `!` or `-` before another prefix expression, or
/// anything tighter.
pub open spec fn sp_unary<T: Numeric>(toks: Seq<SpecToken<T>>) -> Option<nat>
    decreases toks.len(), 3int,
{
    if toks.len() > 0 && (toks[0].lex == SpecLexeme::Part::<T>(TokenKind::Not) || toks[0].lex
        == SpecLexeme::Part::<T>(TokenKind::Minus)) {
        match sp_unary(toks.skip(1)) {
            Some(n) => if 1 + n <= toks.len() {
                Some((1 + n) as nat)
            } else {
                None
            },
            None => None,
        }
    } else {
        sp_call(toks)
    }
}

/// One binary tier: an operand one tier tighter, then zero or more of the
/// tier's operators each followed by another such operand.
pub open spec fn sp_level<T: Numeric>(toks: Seq<SpecToken<T>>, lvl: int) -> Option<nat>
    decreases toks.len(), 2 * lvl when 4 <= lvl <= 8
{
    match (if lvl <= 4 {
        sp_unary(toks)
    } else {
        sp_level(toks, lvl - 1)
    }) {
        None => None,
        Some(n) => if 1 <= n && n <= toks.len() {
            match sp_tail(toks.skip(n as int), lvl) {
                Some(m) => if n + m <= toks.len() {
                    Some((n + m) as nat)
                } else {
                    None
                },
                None => None,
            }
        } else {
            None
        },
    }
}

/// The continuation of one binary tier after its first operand: while the
/// head token is one of the tier's operators, consume it and one more
/// operand one tier tighter.
pub open spec fn sp_tail<T: Numeric>(toks: Seq<SpecToken<T>>, lvl: int) -> Option<nat>
    decreases toks.len(), 2 * lvl + 1 when 4 <= lvl <= 8
{
    if toks.len() > 0 && toks[0].lex is Part && op_level(toks[0].lex->Part_0) == lvl {
        match (if lvl <= 4 {
            sp_unary(toks.skip(1))
        } else {
            sp_level(toks.skip(1), lvl - 1)
        }) {
            None => None,
            Some(n) => if 1 + n <= toks.len() {
                match sp_tail(toks.skip(1 + n as int), lvl) {
                    Some(m) => if 1 + n + m <= toks.len() {
                        Some((1 + n + m) as nat)
                    } else {
                        None
                    },
                    None => None,
                }
            } else {
                None
            },
        }
    } else {
        Some(0nat)
    }
}

/// The full expression production: a condition at the equality tier, and —
/// when a `?` follows — a then-branch, a required `:`, and an else-branch,
/// both branches full expressions again, so the operator nests to the right.
pub open spec fn sp_tern<T: Numeric>(toks: Seq<SpecToken<T>>) -> Option<nat>
    decreases toks.len(), 18int,
{
    match sp_level(toks, 8) {
        None => None,
        Some(n) => if n < toks.len() && toks[n as int].lex == SpecLexeme::Part::<T>(
            TokenKind::Question,
        ) {
            match sp_tern(toks.skip(n + 1 as int)) {
                None => None,
                Some(m) => if n + 1 + m < toks.len() && toks[n + 1 + m as int].lex
                    == SpecLexeme::Part::<T>(TokenKind::Colon) {
                    match sp_tern(toks.skip(n + 2 + m as int)) {
                        None => None,
                        Some(k) => if n + 2 + m + k <= toks.len() {
                            Some((n + 2 + m + k) as nat)
                        } else {
                            None
                        },
                    }
                } else {
                    None
                },
            }
        } else if n <= toks.len() {
            Some(n)
        } else {
            None
        },
    }
}

/// The statement production: an assignment when the stream opens with an
/// identifier and `=`, one bare full expression otherwise.
pub open spec fn sp_stmt<T: Numeric>(toks: Seq<SpecToken<T>>) -> Option<nat>
    decreases toks.len(), 20int,
{
    if toks.len() >= 2 && toks[0].lex is Id && toks[1].lex == SpecLexeme::Part::<T>(
        TokenKind::Assign,
    ) {
        match sp_tern(toks.skip(2)) {
            Some(n) => if 2 + n <= toks.len() {
                Some((2 + n) as nat)
            } else {
                None
            },
            None => None,
        }
    } else {
        sp_tern(toks)
    }
}

/// A stream that some expression production accepts opens with a token
/// that can start a value: a number, an identifier, an opening parenthesis,
/// or a prefix operator.
proof fn lemma_sp_tern_head<T: Numeric>(toks: Seq<SpecToken<T>>)
    requires
        sp_tern::<T>(toks) is Some,
    ensures
        toks.len() > 0,
        toks[0].lex is Num || toks[0].lex is Id || toks[0].lex == SpecLexeme::Part::<T>(
            TokenKind::OpenParenth,
        ) || toks[0].lex == SpecLexeme::Part::<T>(TokenKind::Not) || toks[0].lex
            == SpecLexeme::Part::<T>(TokenKind::Minus),
{
    lemma_sp_level_head::<T>(toks, 8);
    if !(toks.len() > 0 && (toks[0].lex == SpecLexeme::Part::<T>(TokenKind::Not) || toks[0].lex
        == SpecLexeme::Part::<T>(TokenKind::Minus))) {
        assert(sp_call::<T>(toks) is Some);
        if !(toks.len() >= 2 && toks[0].lex is Id && toks[1].lex == SpecLexeme::Part::<T>(
            TokenKind::OpenCurly,
        )) {
            assert(sp_lambda::<T>(toks) is Some);
            if !(toks.len() >= 2 && toks[0].lex == SpecLexeme::Id::<T>("fn"@) && toks[1].lex
                == SpecLexeme::Part::<T>(TokenKind::OpenParenth)) {
                assert(sp_primary::<T>(toks) is Some);
            }
        }
    }
}

/// A binary tier accepts a stream only where its tightest operand — the
/// prefix production — accepts it.
proof fn lemma_sp_level_head<T: Numeric>(toks: Seq<SpecToken<T>>, lvl: int)
    requires
        4 <= lvl <= 8,
        sp_level::<T>(toks, lvl) is Some,
    ensures
        sp_unary::<T>(toks) is Some,
    decreases lvl,
{
    if lvl > 4 {
        lemma_sp_level_head::<T>(toks, lvl - 1);
    }
}

/// The stray-comma scenario in a call's argument list: the stream opens a
/// call, its first argument parses, a comma follows, and that comma
/// announces another comma or the closing brace.
pub open spec fn first_arg_stray<T: Numeric>(toks: Seq<SpecToken<T>>) -> bool {
    let n = 2 + sp_tern::<T>(toks.skip(2))->Some_0 as int;
    &&& toks.len() >= 2
    &&& toks[0].lex is Id
    &&& toks[1].lex == SpecLexeme::Part::<T>(TokenKind::OpenCurly)
    &&& sp_tern::<T>(toks.skip(2)) is Some
    &&& n < toks.len()
    &&& toks[n].lex == SpecLexeme::Part::<T>(TokenKind::Comma)
    &&& n + 1 < toks.len()
    &&& (toks[n + 1].lex == SpecLexeme::Part::<T>(TokenKind::Comma) || toks[n + 1].lex
        == SpecLexeme::Part::<T>(TokenKind::ClosingCurly))
}

/// The coordinate a stray comma is reported at: a trailing comma at its own
/// coordinate, a doubled comma at the second comma's.
pub open spec fn first_arg_stray_pos<T: Numeric>(toks: Seq<SpecToken<T>>) -> SpecPos {
    let n = 2 + sp_tern::<T>(toks.skip(2))->Some_0 as int;
    if toks[n + 1].lex == SpecLexeme::Part::<T>(TokenKind::ClosingCurly) {
        toks[n].pos
    } else {
        toks[n + 1].pos
    }
}

/// The missing-comma scenario in a call's argument list: the stream opens a
/// call, its first argument parses, and the token after it is neither a
/// comma nor the closing brace.
pub open spec fn first_arg_no_comma<T: Numeric>(toks: Seq<SpecToken<T>>) -> bool {
    let n = 2 + sp_tern::<T>(toks.skip(2))->Some_0 as int;
    &&& toks.len() >= 2
    &&& toks[0].lex is Id
    &&& toks[1].lex == SpecLexeme::Part::<T>(TokenKind::OpenCurly)
    &&& sp_tern::<T>(toks.skip(2)) is Some
    &&& n < toks.len()
    &&& !(toks[n].lex == SpecLexeme::Part::<T>(TokenKind::Comma))
    &&& !(toks[n].lex == SpecLexeme::Part::<T>(TokenKind::ClosingCurly))
}

/// The bad-parameter scenario in a lambda: the stream opens `fn (` and the
/// first parameter is no bare identifier, nor the `)` of an empty list.
pub open spec fn first_param_bad<T: Numeric>(toks: Seq<SpecToken<T>>) -> bool {
    &&& toks.len() > 2
    &&& toks[0].lex == SpecLexeme::Id::<T>("fn"@)
    &&& toks[1].lex == SpecLexeme::Part::<T>(TokenKind::OpenParenth)
    &&& !(toks[2].lex is Id)
    &&& !(toks[2].lex == SpecLexeme::Part::<T>(TokenKind::ClosingParenth))
}

/// The stray-comma scenario in a lambda's parameter list: a comma follows
/// the first parameter and announces another comma or the closing
/// parenthesis.
pub open spec fn first_param_stray<T: Numeric>(toks: Seq<SpecToken<T>>) -> bool {
    &&& toks.len() > 4
    &&& toks[0].lex == SpecLexeme::Id::<T>("fn"@)
    &&& toks[1].lex == SpecLexeme::Part::<T>(TokenKind::OpenParenth)
    &&& toks[2].lex is Id
    &&& toks[3].lex == SpecLexeme::Part::<T>(TokenKind::Comma)
    &&& (toks[4].lex == SpecLexeme::Part::<T>(TokenKind::Comma) || toks[4].lex
        == SpecLexeme::Part::<T>(TokenKind::ClosingParenth))
}

/// The missing-comma scenario in a lambda's parameter list: the token after
/// the first parameter is neither a comma nor the closing parenthesis.
pub open spec fn first_param_no_comma<T: Numeric>(toks: Seq<SpecToken<T>>) -> bool {
    &&& toks.len() > 3
    &&& toks[0].lex == SpecLexeme::Id::<T>("fn"@)
    &&& toks[1].lex == SpecLexeme::Part::<T>(TokenKind::OpenParenth)
    &&& toks[2].lex is Id
    &&& !(toks[3].lex == SpecLexeme::Part::<T>(TokenKind::Comma))
    &&& !(toks[3].lex == SpecLexeme::Part::<T>(TokenKind::ClosingParenth))
}

/// The missing-colon scenario: the stream opens with a condition at the
/// equality tier, then `?` and a then-branch, but no `:` follows the
/// branch — whether a different token sits there or the stream ends.
pub open spec fn colon_missing<T: Numeric>(toks: Seq<SpecToken<T>>) -> bool {
    let n = sp_level::<T>(toks, 8)->Some_0 as int;
    let m = sp_tern::<T>(toks.skip(n + 1))->Some_0 as int;
    &&& sp_level::<T>(toks, 8) is Some
    &&& n < toks.len()
    &&& toks[n].lex == SpecLexeme::Part::<T>(TokenKind::Question)
    &&& sp_tern::<T>(toks.skip(n + 1)) is Some
    &&& !(n + 1 + m < toks.len() && toks[n + 1 + m].lex == SpecLexeme::Part::<T>(
        TokenKind::Colon,
    ))
}

/// The coordinate the missing-colon error is anchored at: where the
/// then-branch's value starts.
pub open spec fn then_anchor<T: Numeric>(toks: Seq<SpecToken<T>>) -> SpecPos {
    let n = sp_level::<T>(toks, 8)->Some_0 as int;
    let m = sp_tern::<T>(toks.skip(n + 1))->Some_0 as int;
    toks[n + 1 + value_start(toks.subrange(n + 1, n + 1 + m))].pos
}

/// The missing-closing-parenthesis scenario: the stream opens with `(` and
/// a full expression, but no `)` follows it — whether a different token
/// sits there or the stream ends.
pub open spec fn paren_missing<T: Numeric>(toks: Seq<SpecToken<T>>) -> bool {
    let n = sp_tern::<T>(toks.skip(1))->Some_0 as int;
    &&& toks.len() > 0
    &&& toks[0].lex == SpecLexeme::Part::<T>(TokenKind::OpenParenth)
    &&& sp_tern::<T>(toks.skip(1)) is Some
    &&& !(1 + n < toks.len() && toks[1 + n].lex == SpecLexeme::Part::<T>(
        TokenKind::ClosingParenth,
    ))
}

/// Whether the stream's head token opens no expression at all: the stream
/// is empty, or its head is an operator other than `(` — and none of the
/// classifying kinds `Int`, `Float` and `Ident`, which the tokenizer never
/// emits as particles.
pub open spec fn no_expr_head<T: Numeric>(toks: Seq<SpecToken<T>>) -> bool {
    ||| toks.len() == 0
    ||| (toks[0].lex is Part && (toks[0].lex->Part_0 != TokenKind::Int && toks[0].lex->Part_0
        != TokenKind::Float && toks[0].lex->Part_0 != TokenKind::Ident && toks[0].lex->Part_0
        != TokenKind::OpenParenth))
}

/// Whether a failed stream end is reported verbatim: the error carries the
/// lexical error's own coordinate and message.
pub open spec fn lex_err_verbatim(t: StreamEnd, e: CalfErr) -> bool {
    &&& t is AtErr
    &&& e.pos@ == t->AtErr_pos
    &&& e.message@ == t->AtErr_msg
}

/// The messages of the grammar failures that are reported at the
/// tokenizer's coordinate — an unparseable fragment, or an input that ended
/// before the production was complete — rather than at a token of the
/// stream.
pub open spec fn at_cursor_message(m: Seq<char>) -> bool {
    ||| m == "Couldn't parse a valid expression"@
    ||| m == "Expecting a comma"@
    ||| m == "Expecting a parameter"@
    ||| m == "Expected a closing parenthesis after expression"@
}

/// Where a failed parse's error comes from, `a` the state the parse started
/// at and `b` the state it failed at: the token stream's own lexical error,
/// verbatim; a grammar error anchored at an offending token of the stream;
/// or a grammar error at the tokenizer's coordinate, named by its message.
pub open spec fn err_from<T: Numeric>(a: Parser<T>, b: Parser<T>, e: CalfErr) -> bool {
    ||| lex_err_verbatim(a.tail(), e)
    ||| (exists|i: int| 0 <= i < a.toks().len() && e.pos@ == (#[trigger] a.toks()[i]).pos)
    ||| (e.pos@ == b.lexer_position() && at_cursor_message(e.message@))
}

/// An error whose source is a suffix of the stream has the same source seen
/// from the whole stream.
proof fn lemma_err_lift<T: Numeric>(a: Parser<T>, mid: Parser<T>, b: Parser<T>, e: CalfErr, k: int)
    requires
        0 <= k <= a.toks().len(),
        mid.toks() == a.toks().skip(k),
        mid.tail() == a.tail(),
        err_from(mid, b, e),
    ensures
        err_from(a, b, e),
{
    if exists|i: int| 0 <= i < mid.toks().len() && e.pos@ == (#[trigger] mid.toks()[i]).pos {
        let i = choose|i: int| 0 <= i < mid.toks().len() && e.pos@ == (#[trigger] mid.toks()[i]).pos;
        assert(a.toks()[k + i] == mid.toks()[i]);
    }
}

/// Dropping a prefix of a prefix-free stream composes: skipping `x` then
/// `y` tokens is skipping `x + y`.
proof fn lemma_skip_skip<A>(s: Seq<A>, x: int, y: int)
    requires
        0 <= x,
        0 <= y,
        x + y <= s.len(),
    ensures
        s.skip(x).skip(y) =~= s.skip(x + y),
{
}

} // verus!
