//! The abstract syntax tree and its builder.
//!
//! `Ast::build` drives the parser over one source buffer: statements are
//! parsed until the token stream is exhausted, and the first lexical or
//! grammatical error aborts the whole build. On success the statements'
//! spelling is exactly the buffer's token stream, and a buffer holding
//! nothing but blanks, line terminators and comments yields zero statements.

use vstd::prelude::*;
use crate::common::{CalfErr, SpecPos};
use crate::lexer::{
    ScanStep, SpecLexeme, SpecToken, StreamEnd, TokenKind, comment_end, lemma_comment_end,
    lemma_scan_step, lemma_ws_end, spec_scan, spec_stream, ws_end,
};
use crate::num::Numeric;
use crate::parser::{
    Parser, Stmt, advances, at_cursor_message, lemma_advances_refl, lemma_advances_trans,
    lex_err_verbatim, lexemes_of, op_at_or_below, sp_stmt, stmt_lexemes, wf_stmt,
};

verus! {

/// Whether the buffer from `i` on consists solely of blanks, line
/// terminators and comments — text the tokenizer skips without producing a
/// real token.
pub open spec fn skip_only(s: Seq<char>, i: int) -> bool
    decreases s.len() - i when 0 <= i <= s.len()
{
    if i >= s.len() {
        true
    } else if s[i] == ' ' || s[i] == '\t' || s[i] == '\n' {
        skip_only(s, i + 1)
    } else if s[i] == '/' && i + 1 < s.len() && s[i + 1] == '/' {
        if i < comment_end(s, i + 2) <= s.len() {
            skip_only(s, comment_end(s, i + 2))
        } else {
            false
        }
    } else {
        false
    }
}

proof fn lemma_skip_only_ws(s: Seq<char>, i: int)
    requires
        0 <= i <= s.len(),
        skip_only(s, i),
    ensures
        skip_only(s, ws_end(s, i)),
        i <= ws_end(s, i) <= s.len(),
    decreases s.len() - i,
{
    lemma_ws_end(s, i);
    if i < s.len() && (s[i] == ' ' || s[i] == '\t') {
        lemma_skip_only_ws(s, i + 1);
    }
}

/// A buffer of blanks, line terminators and comments only scans to the
/// empty token stream, ending cleanly.
proof fn lemma_skip_only_stream<T: Numeric>(s: Seq<char>, i: int, p: SpecPos)
    requires
        0 <= i <= s.len(),
        skip_only(s, i),
        0 <= p.col <= i,
        0 <= p.row <= i,
    ensures
        spec_stream::<T>(s, i, p).0 =~= Seq::<SpecToken<T>>::empty(),
        spec_stream::<T>(s, i, p).1 is AtEof,
    decreases s.len() - i,
{
    lemma_scan_step::<T>(s, i, p);
    lemma_skip_only_ws(s, i);
    lemma_ws_end(s, i);
    let j = ws_end(s, i);
    if j < s.len() {
        let c = s[j];
        assert(!(c == ' ' || c == '\t'));
        if c == '\n' {
            match spec_scan::<T>(s, i, p) {
                ScanStep::Next { tok, end, next } => {
                    lemma_skip_only_stream::<T>(s, end, next);
                },
                _ => {
                    assert(false);
                },
            }
        } else {
            assert(c == '/' && j + 1 < s.len() && s[j + 1] == '/');
            lemma_comment_end(s, j + 2);
            match spec_scan::<T>(s, i, p) {
                ScanStep::Next { tok, end, next } => {
                    assert(skip_only(s, end));
                    lemma_skip_only_stream::<T>(s, end, next);
                },
                _ => {
                    assert(false);
                },
            }
        }
    }
}

/// The spelling of a statement sequence, in order.
pub open spec fn stmts_lexemes<T>(sts: Seq<Stmt<T>>) -> Seq<SpecLexeme<T>>
    decreases sts.len(),
{
    if sts.len() == 0 {
        Seq::empty()
    } else {
        stmts_lexemes(sts.drop_last()) + stmt_lexemes(sts.last())
    }
}

/// Every statement of the sequence is well formed.
pub open spec fn all_stmts_wf<T>(sts: Seq<Stmt<T>>) -> bool {
    forall|i: int| 0 <= i < sts.len() ==> wf_stmt(#[trigger] sts[i])
}

/// Whether the statement production accepts the whole stream: statement by
/// statement, each consuming at least one token, until nothing remains.
pub open spec fn valid_stmts<T: Numeric>(toks: Seq<SpecToken<T>>) -> bool
    decreases toks.len(),
{
    if toks.len() == 0 {
        true
    } else {
        match sp_stmt::<T>(toks) {
            Some(n) => if 1 <= n <= toks.len() {
                valid_stmts::<T>(toks.skip(n as int))
            } else {
                false
            },
            None => false,
        }
    }
}

/// How a built tree segments the token stream down to `rest`: each
/// statement spells a non-empty prefix of what remains at its turn, it is
/// an assignment exactly when that prefix opens with an identifier and `=`,
/// and the parse is greedy — the token after a statement is never an
/// operator or `?` that the statement's expression could have consumed.
pub open spec fn stmts_split<T: Numeric>(
    toks: Seq<SpecToken<T>>,
    sts: Seq<Stmt<T>>,
    rest: Seq<SpecToken<T>>,
) -> bool
    decreases sts.len(),
{
    if sts.len() == 0 {
        toks == rest
    } else {
        let st = sts[0];
        let n = stmt_lexemes(st).len();
        &&& 1 <= n <= toks.len()
        &&& lexemes_of(toks.take(n as int)) == stmt_lexemes(st)
        &&& (st is Assign <==> (toks.len() >= 2 && toks[0].lex is Id && toks[1].lex
            == SpecLexeme::Part::<T>(TokenKind::Assign)))
        &&& (n < toks.len() && toks[n as int].lex is Part ==> !op_at_or_below(
            toks[n as int].lex->Part_0,
            9,
        ))
        &&& stmts_split(toks.skip(n as int), sts.skip(1), rest)
    }
}

/// Segmenting one more statement off the remainder extends a segmentation.
proof fn lemma_split_push<T: Numeric>(
    toks: Seq<SpecToken<T>>,
    sts: Seq<Stmt<T>>,
    rest1: Seq<SpecToken<T>>,
    st: Stmt<T>,
    rest2: Seq<SpecToken<T>>,
)
    requires
        stmts_split(toks, sts, rest1),
        1 <= stmt_lexemes(st).len() <= rest1.len(),
        lexemes_of(rest1.take(stmt_lexemes(st).len() as int)) == stmt_lexemes(st),
        st is Assign <==> (rest1.len() >= 2 && rest1[0].lex is Id && rest1[1].lex
            == SpecLexeme::Part::<T>(TokenKind::Assign)),
        rest2 == rest1.skip(stmt_lexemes(st).len() as int),
        rest2.len() > 0 && rest2[0].lex is Part ==> !op_at_or_below(rest2[0].lex->Part_0, 9),
    ensures
        stmts_split(toks, sts.push(st), rest2),
    decreases sts.len(),
{
    let n = stmt_lexemes(st).len();
    if sts.len() == 0 {
        assert(sts.push(st)[0] == st);
        assert(sts.push(st).skip(1) =~= Seq::<Stmt<T>>::empty());
        assert(toks.skip(n as int) == rest2);
        assert(stmts_split(toks.skip(n as int), sts.push(st).skip(1), rest2));
    } else {
        let n0 = stmt_lexemes(sts[0]).len();
        lemma_split_push(toks.skip(n0 as int), sts.skip(1), rest1, st, rest2);
        assert(sts.push(st)[0] == sts[0]);
        assert(sts.push(st).skip(1) =~= sts.skip(1).push(st));
    }
}

/// Where a failed build's error comes from: the stream's own lexical error,
/// verbatim; a grammar error anchored at an offending token of the stream;
/// or — for the failures `at_cursor_message` names, an unparseable fragment
/// or an input that ended before the grammar was complete — a grammar error
/// at the tokenizer's coordinate.
pub open spec fn build_err<T>(toks: Seq<SpecToken<T>>, tail: StreamEnd, e: CalfErr) -> bool {
    ||| lex_err_verbatim(tail, e)
    ||| (exists|i: int| 0 <= i < toks.len() && e.pos@ == (#[trigger] toks[i]).pos)
    ||| at_cursor_message(e.message@)
}

/// Abstract syntax tree: the ordered statements of one source buffer.
#[derive(Debug, PartialEq)]
pub struct Ast<T> {
    pub statements: Vec<Stmt<T>>,
}

impl<T: Numeric> Ast<T> {
    /// Builds the complete tree of `code`: statements are parsed until the
    /// token stream is exhausted, and the first error aborts the build. On
    /// success the stream ended cleanly, every statement is well formed and
    /// anchored, and the statements segment the buffer's token stream
    /// greedily (`stmts_split`) — so their spelling is exactly that stream;
    /// a buffer of blanks, line terminators and comments alone yields zero
    /// statements and no error. Wherever the grammar accepts the whole
    /// stream, the build is owed: it returns the tree on a cleanly ended
    /// stream, and the stream's lexical error verbatim otherwise; and every
    /// error it reports comes from the stream (`build_err`).
    pub fn build(code: &str) -> (r: Result<Ast<T>, CalfErr>)
        ensures
            r is Ok ==> spec_stream::<T>(code@, 0, SpecPos { row: 0, col: 0 }).1 is AtEof,
            r is Ok ==> all_stmts_wf(r->Ok_0.statements@),
            r is Ok ==> stmts_lexemes(r->Ok_0.statements@) == lexemes_of(
                spec_stream::<T>(code@, 0, SpecPos { row: 0, col: 0 }).0,
            ),
            skip_only(code@, 0) ==> r is Ok && r->Ok_0.statements@.len() == 0,
            r is Ok ==> stmts_split::<T>(
                spec_stream::<T>(code@, 0, SpecPos { row: 0, col: 0 }).0,
                r->Ok_0.statements@,
                Seq::empty(),
            ),
            valid_stmts::<T>(spec_stream::<T>(code@, 0, SpecPos { row: 0, col: 0 }).0)
                && spec_stream::<T>(code@, 0, SpecPos { row: 0, col: 0 }).1 is AtEof ==> r is Ok,
            valid_stmts::<T>(spec_stream::<T>(code@, 0, SpecPos { row: 0, col: 0 }).0)
                && spec_stream::<T>(code@, 0, SpecPos { row: 0, col: 0 }).1 is AtErr ==> r is Err
                && lex_err_verbatim(
                spec_stream::<T>(code@, 0, SpecPos { row: 0, col: 0 }).1,
                r->Err_0,
            ),
            r is Err ==> build_err::<T>(
                spec_stream::<T>(code@, 0, SpecPos { row: 0, col: 0 }).0,
                spec_stream::<T>(code@, 0, SpecPos { row: 0, col: 0 }).1,
                r->Err_0,
            ),
    {
        let mut parser = Parser::<T>::new(code);
        let ghost orig = parser;
        let mut statements: Vec<Stmt<T>> = Vec::new();
        proof {
            lemma_advances_refl(orig);
            if skip_only(code@, 0) {
                lemma_skip_only_stream::<T>(code@, 0, SpecPos { row: 0, col: 0 });
            }
        }
        loop
            invariant
                skip_only(code@, 0) ==> orig.toks().len() == 0 && orig.tail() is AtEof,
                orig.toks() == spec_stream::<T>(code@, 0, SpecPos { row: 0, col: 0 }).0,
                orig.tail() == spec_stream::<T>(code@, 0, SpecPos { row: 0, col: 0 }).1,
                parser.wf(),
                advances(orig, parser, stmts_lexemes(statements@)),
                all_stmts_wf(statements@),
                statements@.len() + parser.toks().len() <= orig.toks().len(),
                stmts_split::<T>(orig.toks(), statements@, parser.toks()),
                valid_stmts::<T>(orig.toks()) ==> valid_stmts::<T>(parser.toks()),
            ensures
                parser.toks().len() == 0,
                parser.tail() is AtEof,
                advances(orig, parser, stmts_lexemes(statements@)),
                all_stmts_wf(statements@),
                statements@.len() <= orig.toks().len(),
                stmts_split::<T>(orig.toks(), statements@, parser.toks()),
            decreases parser.toks().len(),
        {
            let done = match parser.ended() {
                Ok(b) => b,
                Err(e) => return Err(e),
            };
            if done {
                break;
            }
            let ghost mid = parser;
            let ghost sts_before = statements@;
            let stmt = match parser.scan_stmt() {
                Ok(s) => s,
                Err(e) => {
                    proof {
                        let k = orig.toks().len() - mid.toks().len();
                        if exists|i: int|
                            0 <= i < mid.toks().len() && e.pos@ == (#[trigger] mid.toks()[i]).pos {
                            let i = choose|i: int|
                                0 <= i < mid.toks().len() && e.pos@
                                    == (#[trigger] mid.toks()[i]).pos;
                            assert(orig.toks()[k + i] == mid.toks()[i]);
                        }
                    }
                    return Err(e);
                },
            };
            let ghost stmt_g = stmt;
            statements.push(stmt);
            proof {
                lemma_advances_trans(orig, mid, parser, stmts_lexemes(sts_before), stmt_lexemes(
                    stmt_g,
                ));
                assert(statements@.drop_last() =~= sts_before);
                assert(statements@.last() == stmt_g);
                assert(stmts_lexemes(statements@) == stmts_lexemes(sts_before) + stmt_lexemes(
                    stmt_g,
                ));
                assert forall|i: int| 0 <= i < statements@.len() implies wf_stmt(
                    #[trigger] statements@[i],
                ) by {
                    if i < sts_before.len() {
                        assert(statements@[i] == sts_before[i]);
                    }
                }
                lemma_split_push(orig.toks(), sts_before, mid.toks(), stmt_g, parser.toks());
                assert(statements@ =~= sts_before.push(stmt_g));
            }
        }
        proof {
            assert(orig.toks().skip(orig.toks().len() - 0) =~= Seq::<SpecToken<T>>::empty());
            assert(orig.toks().take(orig.toks().len() as int) =~= orig.toks());
            assert(parser.toks() =~= Seq::<SpecToken<T>>::empty());
        }
        Ok(Ast { statements })
    }
}

} // verus!
