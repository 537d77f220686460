//! The position-tracking tokenizer.
//!
//! `spec_scan` is the mathematical model of one scanning step: it skips
//! blanks, classifies the longest matching fragment at the cursor, and
//! yields the token together with the next cursor and coordinate.
//! `Lexer::scan_token` is proved to follow that model exactly, and
//! `spec_stream` iterates it to describe every real token a buffer holds.

use vstd::prelude::*;
use vstd::string::StrSliceExecFns;
use vstd::string::StringExecFns;
use crate::common::{CalfErr, Pos, SpecPos, pos_le, pos_lt};
use crate::num::{Numeric, is_digit_char};

verus! {

/// The closed set of operator and punctuation kinds, also reused as the
/// operator tag inside unary and binary tree nodes.
#[derive(Debug, Clone, Copy, PartialEq, Eq, Structural)]
pub enum TokenKind {
    Comment,
    EOL,
    OpenParenth,
    ClosingParenth,
    OpenClause,
    ClosingClause,
    OpenCurly,
    ClosingCurly,
    Comma,
    Question,
    Colon,
    Semicolon,
    Plus,
    Minus,
    Star,
    Slash,
    Percent,
    LesserThan,
    GreaterThan,
    GtEqual,
    LtEqual,
    And,
    TwoAnds,
    Or,
    TwoOrs,
    Not,
    TwoEquals,
    NotEqual,
    Assign,
    Dot,
    TwoDots,
    Sharp,
    Int,
    Float,
    Ident,
}

/// The classified payload of one scanned token.
#[derive(Debug, PartialEq)]
pub enum Lexeme<T> {
    Number(T),
    Ident(String),
    Particle(TokenKind),
    /// A comment or a line terminator: consumed to advance the coordinate,
    /// never handed to the grammar.
    Skip,
    EOF,
}

/// The mathematical value of a lexeme: identifier text as a character
/// sequence.
pub enum SpecLexeme<T> {
    Num(T),
    Id(Seq<char>),
    Part(TokenKind),
    Skip,
    End,
}

impl<T> View for Lexeme<T> {
    type V = SpecLexeme<T>;

    open spec fn view(&self) -> SpecLexeme<T> {
        match self {
            Lexeme::Number(n) => SpecLexeme::Num(*n),
            Lexeme::Ident(s) => SpecLexeme::Id(s@),
            Lexeme::Particle(k) => SpecLexeme::Part(*k),
            Lexeme::Skip => SpecLexeme::Skip,
            Lexeme::EOF => SpecLexeme::End,
        }
    }
}

/// One classified lexical unit with the coordinate of its first character.
#[derive(Debug)]
pub struct Token<T> {
    pub lexeme: Lexeme<T>,
    pub pos: Pos,
}

/// The mathematical value of a token.
pub struct SpecToken<T> {
    pub lex: SpecLexeme<T>,
    pub pos: SpecPos,
}

impl<T> View for Token<T> {
    type V = SpecToken<T>;

    open spec fn view(&self) -> SpecToken<T> {
        SpecToken { lex: self.lexeme@, pos: self.pos@ }
    }
}

impl<T> Token<T> {
    pub fn new(lexeme: Lexeme<T>, pos: Pos) -> (t: Token<T>)
        ensures
            t.lexeme == lexeme,
            t.pos == pos,
    {
        Token { lexeme, pos }
    }

    /// The operator kind of this token, or an error at the token's own
    /// coordinate when it carries no operator.
    pub fn particle(&self) -> (r: Result<TokenKind, CalfErr>)
        ensures
            match self.lexeme {
                Lexeme::Particle(k) => r == Ok::<TokenKind, CalfErr>(k),
                _ => r is Err && r->Err_0.pos == self.pos && r->Err_0.message@
                    == "Expected a particle"@,
            },
    {
        if let Lexeme::Particle(t) = &self.lexeme {
            Ok(*t)
        } else {
            Err(CalfErr::at("Expected a particle", self.pos))
        }
    }
}

/// Whether the character has the Unicode `Alphabetic` property. Identifier
/// classification is stated with this name; the tokenizer consults the
/// character table through `is_alphabetic_char`.
pub uninterp spec fn unicode_alphabetic(c: char) -> bool;

/// Relies on `char::is_alphabetic`: whether the character has the Unicode
/// `Alphabetic` property, a function of the character alone. Within ASCII
/// that property holds of exactly the letters.
#[verifier::external_body]
fn is_alphabetic_char(c: char) -> (r: bool)
    ensures
        r == unicode_alphabetic(c),
        (c as u32) < 128 ==> (r <==> (97 <= c as u32 <= 122 || 65 <= c as u32 <= 90)),
{
    c.is_alphabetic()
}

/// Whether `c` is a blank skipped before classification.
pub open spec fn is_ws_char(c: char) -> bool {
    c == ' ' || c == '\t'
}

/// Whether `c` may open an identifier: a letter or an underscore. Below 128
/// the Unicode `Alphabetic` property holds of exactly the ASCII letters, so
/// on ASCII text this predicate is fully explicit.
pub open spec fn is_ident_start(c: char) -> bool {
    if (c as u32) < 128 {
        (97 <= c as u32 <= 122) || (65 <= c as u32 <= 90) || c == '_'
    } else {
        unicode_alphabetic(c)
    }
}

/// Whether `c` may continue an identifier.
pub open spec fn is_ident_char(c: char) -> bool {
    is_ident_start(c) || is_digit_char(c)
}

/// The end of the run of blanks starting at `i`.
pub open spec fn ws_end(s: Seq<char>, i: int) -> int
    decreases s.len() - i when 0 <= i <= s.len()
{
    if i < s.len() && is_ws_char(s[i]) {
        ws_end(s, i + 1)
    } else {
        i
    }
}

/// The end of the run of decimal digits starting at `i`.
pub open spec fn digits_end(s: Seq<char>, i: int) -> int
    decreases s.len() - i when 0 <= i <= s.len()
{
    if i < s.len() && is_digit_char(s[i]) {
        digits_end(s, i + 1)
    } else {
        i
    }
}

/// The end of the run of identifier characters starting at `i`.
pub open spec fn ident_end(s: Seq<char>, i: int) -> int
    decreases s.len() - i when 0 <= i <= s.len()
{
    if i < s.len() && is_ident_char(s[i]) {
        ident_end(s, i + 1)
    } else {
        i
    }
}

/// The end of a comment body starting at `i`: everything up to the next
/// line terminator or the end of the buffer.
pub open spec fn comment_end(s: Seq<char>, i: int) -> int
    decreases s.len() - i when 0 <= i <= s.len()
{
    if i < s.len() && s[i] != '\n' {
        comment_end(s, i + 1)
    } else {
        i
    }
}

/// Bounds and content of the blank run: every character before its end is
/// a blank, and the end sits on a non-blank or the end of the buffer.
pub proof fn lemma_ws_end(s: Seq<char>, i: int)
    requires
        0 <= i <= s.len(),
    ensures
        i <= ws_end(s, i) <= s.len(),
        forall|k: int| i <= k < ws_end(s, i) ==> is_ws_char(#[trigger] s[k]),
        ws_end(s, i) < s.len() ==> !is_ws_char(s[ws_end(s, i)]),
    decreases s.len() - i,
{
    if i < s.len() && is_ws_char(s[i]) {
        lemma_ws_end(s, i + 1);
    }
}

proof fn lemma_digits_end(s: Seq<char>, i: int)
    requires
        0 <= i <= s.len(),
    ensures
        i <= digits_end(s, i) <= s.len(),
    decreases s.len() - i,
{
    if i < s.len() && is_digit_char(s[i]) {
        lemma_digits_end(s, i + 1);
    }
}

proof fn lemma_ident_end(s: Seq<char>, i: int)
    requires
        0 <= i <= s.len(),
    ensures
        i <= ident_end(s, i) <= s.len(),
    decreases s.len() - i,
{
    if i < s.len() && is_ident_char(s[i]) {
        lemma_ident_end(s, i + 1);
    }
}

/// Bounds of a comment body: it reaches the next line terminator or the
/// end of the buffer.
pub proof fn lemma_comment_end(s: Seq<char>, i: int)
    requires
        0 <= i <= s.len(),
    ensures
        i <= comment_end(s, i) <= s.len(),
        comment_end(s, i) < s.len() ==> s[comment_end(s, i)] == '\n',
    decreases s.len() - i,
{
    if i < s.len() && s[i] != '\n' {
        lemma_comment_end(s, i + 1);
    }
}

/// The operator kind of a two-character fragment, when one exists. Checked
/// before the single-character kinds: the longest match wins.
pub open spec fn two_char_op(a: char, b: char) -> Option<TokenKind> {
    if a == '>' && b == '=' {
        Some(TokenKind::GtEqual)
    } else if a == '<' && b == '=' {
        Some(TokenKind::LtEqual)
    } else if a == '&' && b == '&' {
        Some(TokenKind::TwoAnds)
    } else if a == '|' && b == '|' {
        Some(TokenKind::TwoOrs)
    } else if a == '=' && b == '=' {
        Some(TokenKind::TwoEquals)
    } else if a == '!' && b == '=' {
        Some(TokenKind::NotEqual)
    } else if a == '.' && b == '.' {
        Some(TokenKind::TwoDots)
    } else {
        None
    }
}

/// The operator kind of a single character, when one exists.
pub open spec fn one_char_op(c: char) -> Option<TokenKind> {
    if c == '(' {
        Some(TokenKind::OpenParenth)
    } else if c == ')' {
        Some(TokenKind::ClosingParenth)
    } else if c == '[' {
        Some(TokenKind::OpenClause)
    } else if c == ']' {
        Some(TokenKind::ClosingClause)
    } else if c == '{' {
        Some(TokenKind::OpenCurly)
    } else if c == '}' {
        Some(TokenKind::ClosingCurly)
    } else if c == ',' {
        Some(TokenKind::Comma)
    } else if c == '?' {
        Some(TokenKind::Question)
    } else if c == ':' {
        Some(TokenKind::Colon)
    } else if c == ';' {
        Some(TokenKind::Semicolon)
    } else if c == '+' {
        Some(TokenKind::Plus)
    } else if c == '-' {
        Some(TokenKind::Minus)
    } else if c == '*' {
        Some(TokenKind::Star)
    } else if c == '/' {
        Some(TokenKind::Slash)
    } else if c == '%' {
        Some(TokenKind::Percent)
    } else if c == '<' {
        Some(TokenKind::LesserThan)
    } else if c == '>' {
        Some(TokenKind::GreaterThan)
    } else if c == '&' {
        Some(TokenKind::And)
    } else if c == '|' {
        Some(TokenKind::Or)
    } else if c == '!' {
        Some(TokenKind::Not)
    } else if c == '=' {
        Some(TokenKind::Assign)
    } else if c == '.' {
        Some(TokenKind::Dot)
    } else if c == '#' {
        Some(TokenKind::Sharp)
    } else {
        None
    }
}

/// The outcome of one scanning step.
pub enum ScanStep<T> {
    /// The buffer past the cursor holds blanks only: an end-of-input token
    /// is produced and the state does not move.
    End,
    /// The leading fragment matches no lexical rule, or a numeric literal
    /// has no value in the chosen type: a lexical error at the fragment's
    /// coordinate.
    Bad { pos: SpecPos, msg: Seq<char> },
    /// A token, the cursor after its fragment, and the coordinate that
    /// scanning continues from.
    Next { tok: SpecToken<T>, end: int, next: SpecPos },
}

/// One scanning step from cursor `i` at coordinate `p`: skip blanks, then
/// classify the longest matching fragment. Comments and line terminators
/// yield `Skip` tokens; a line terminator starts the next row at column
/// zero, every other fragment advances the column by its character count.
pub open spec fn spec_scan<T: Numeric>(s: Seq<char>, i: int, p: SpecPos) -> ScanStep<T> {
    let j = ws_end(s, i);
    if j >= s.len() {
        ScanStep::End
    } else {
        let c = s[j];
        let pj = SpecPos { row: p.row, col: p.col + (j - i) };
        if c == '/' && j + 1 < s.len() && s[j + 1] == '/' {
            let e = comment_end(s, j + 2);
            ScanStep::Next {
                tok: SpecToken { lex: SpecLexeme::Skip, pos: pj },
                end: e,
                next: SpecPos { row: pj.row, col: pj.col + (e - j) },
            }
        } else if c == '\n' {
            ScanStep::Next {
                tok: SpecToken { lex: SpecLexeme::Skip, pos: pj },
                end: j + 1,
                next: SpecPos { row: pj.row + 1, col: 0 },
            }
        } else if is_digit_char(c) || (c == '-' && j + 1 < s.len() && is_digit_char(s[j + 1])) {
            let d0 = if c == '-' {
                j + 1
            } else {
                j
            };
            let d1 = digits_end(s, d0);
            let e = if d1 + 1 < s.len() && s[d1] == '.' && is_digit_char(s[d1 + 1]) {
                digits_end(s, d1 + 1)
            } else {
                d1
            };
            match T::spec_parse(s.subrange(j, e)) {
                Some(n) => ScanStep::Next {
                    tok: SpecToken { lex: SpecLexeme::Num(n), pos: pj },
                    end: e,
                    next: SpecPos { row: pj.row, col: pj.col + (e - j) },
                },
                None => ScanStep::Bad { pos: pj, msg: "Malformed numeric literal"@ },
            }
        } else if is_ident_start(c) {
            let e = ident_end(s, j + 1);
            ScanStep::Next {
                tok: SpecToken { lex: SpecLexeme::Id(s.subrange(j, e)), pos: pj },
                end: e,
                next: SpecPos { row: pj.row, col: pj.col + (e - j) },
            }
        } else if j + 1 < s.len() && two_char_op(c, s[j + 1]) is Some {
            ScanStep::Next {
                tok: SpecToken { lex: SpecLexeme::Part(two_char_op(c, s[j + 1])->Some_0), pos: pj },
                end: j + 2,
                next: SpecPos { row: pj.row, col: pj.col + 2 },
            }
        } else if one_char_op(c) is Some {
            ScanStep::Next {
                tok: SpecToken { lex: SpecLexeme::Part(one_char_op(c)->Some_0), pos: pj },
                end: j + 1,
                next: SpecPos { row: pj.row, col: pj.col + 1 },
            }
        } else {
            ScanStep::Bad { pos: pj, msg: "Unrecognized lexeme: '"@ + seq![c] + "'"@ }
        }
    }
}

/// Bounds of one scanning step: a found fragment is non-empty and stays in
/// the buffer, its token does not sit before the starting coordinate, and
/// the following coordinate lies strictly after the token's.
pub proof fn lemma_scan_step<T: Numeric>(s: Seq<char>, i: int, p: SpecPos)
    requires
        0 <= i <= s.len(),
        0 <= p.col <= i,
        0 <= p.row <= i,
    ensures
        match spec_scan::<T>(s, i, p) {
            ScanStep::Next { tok, end, next } => {
                &&& i < end <= s.len()
                &&& pos_le(p, tok.pos)
                &&& pos_lt(tok.pos, next)
                &&& 0 <= next.col <= end
                &&& 0 <= next.row <= end
            },
            _ => true,
        },
{
    lemma_ws_end(s, i);
    let j = ws_end(s, i);
    if j < s.len() {
        let c = s[j];
        if c == '/' && j + 1 < s.len() && s[j + 1] == '/' {
            lemma_comment_end(s, j + 2);
        } else if c == '\n' {
        } else if is_digit_char(c) || (c == '-' && j + 1 < s.len() && is_digit_char(s[j + 1])) {
            let d0 = if c == '-' {
                j + 1
            } else {
                j
            };
            lemma_digits_end(s, d0);
            let d1 = digits_end(s, d0);
            assert(c == '-' ==> d1 >= j + 1) by {
                if c == '-' {
                    assert(digits_end(s, j + 1) >= j + 1);
                }
            }
            assert(c != '-' && is_digit_char(c) ==> d1 >= j + 1) by {
                if c != '-' {
                    assert(digits_end(s, j) == digits_end(s, j + 1));
                    lemma_digits_end(s, j + 1);
                }
            }
            if d1 + 1 < s.len() && s[d1] == '.' && is_digit_char(s[d1 + 1]) {
                lemma_digits_end(s, d1 + 1);
                assert(digits_end(s, d1 + 1) == digits_end(s, d1 + 2));
                lemma_digits_end(s, d1 + 2);
            }
        } else if is_ident_start(c) {
            lemma_ident_end(s, j + 1);
        }
    }
}

/// The stream end: either the buffer was exhausted cleanly or a lexical
/// error stops it.
pub enum StreamEnd {
    AtEof,
    AtErr { pos: SpecPos, msg: Seq<char> },
}

/// Every real token that scanning yields from cursor `i` at coordinate `p`,
/// with the way the stream ends. `Skip` tokens advance the state but are
/// not part of the stream.
pub open spec fn spec_stream<T: Numeric>(s: Seq<char>, i: int, p: SpecPos) -> (Seq<SpecToken<T>>,
    StreamEnd)
    decreases s.len() - i,
{
    if !(0 <= i <= s.len()) {
        (Seq::empty(), StreamEnd::AtEof)
    } else {
        match spec_scan::<T>(s, i, p) {
            ScanStep::End => (Seq::empty(), StreamEnd::AtEof),
            ScanStep::Bad { pos, msg } => (Seq::empty(), StreamEnd::AtErr { pos, msg }),
            ScanStep::Next { tok, end, next } => {
                if i < end <= s.len() {
                    let rest = spec_stream::<T>(s, end, next);
                    if tok.lex is Skip {
                        rest
                    } else {
                        (seq![tok] + rest.0, rest.1)
                    }
                } else {
                    (Seq::empty(), StreamEnd::AtEof)
                }
            },
        }
    }
}

/// Law: the tokens scanned from one buffer come in strictly increasing
/// source order — the row never decreases across the stream, and within a
/// row each successive token starts at a strictly larger column.
pub proof fn lemma_stream_positions<T: Numeric>(s: Seq<char>, i: int, p: SpecPos)
    requires
        0 <= i <= s.len(),
        0 <= p.col <= i,
        0 <= p.row <= i,
    ensures
        ({
            let toks = spec_stream::<T>(s, i, p).0;
            &&& forall|k: int| 0 <= k < toks.len() ==> pos_le(p, #[trigger] toks[k].pos)
            &&& forall|a: int, b: int|
                0 <= a < b < toks.len() ==> pos_lt(toks[a].pos, toks[b].pos)
        }),
    decreases s.len() - i,
{
    lemma_scan_step::<T>(s, i, p);
    match spec_scan::<T>(s, i, p) {
        ScanStep::Next { tok, end, next } => {
            lemma_stream_positions::<T>(s, end, next);
            let toks = spec_stream::<T>(s, i, p).0;
            let rest = spec_stream::<T>(s, end, next).0;
            if tok.lex is Skip {
                assert(toks =~= rest);
                assert forall|k: int| 0 <= k < toks.len() implies pos_le(
                    p,
                    #[trigger] toks[k].pos,
                ) by {
                    assert(pos_le(next, toks[k].pos));
                }
            } else {
                assert(toks =~= seq![tok] + rest);
                assert forall|k: int| 0 <= k < toks.len() implies pos_le(
                    p,
                    #[trigger] toks[k].pos,
                ) by {
                    if k > 0 {
                        assert(toks[k] == rest[k - 1]);
                        assert(pos_le(next, rest[k - 1].pos));
                    }
                }
                assert forall|a: int, b: int| 0 <= a < b < toks.len() implies pos_lt(
                    toks[a].pos,
                    toks[b].pos,
                ) by {
                    assert(toks[b] == rest[b - 1]);
                    assert(pos_le(next, rest[b - 1].pos));
                    if a > 0 {
                        assert(toks[a] == rest[a - 1]);
                    }
                }
            }
        },
        _ => {},
    }
}

/// Law: the token stream of one source buffer is strictly ordered by
/// source coordinate — across the stream the row never decreases, and
/// within one row each successive token starts at a strictly larger column.
pub proof fn lemma_buffer_positions<T: Numeric>(code: Seq<char>)
    ensures
        ({
            let toks = spec_stream::<T>(code, 0, SpecPos { row: 0, col: 0 }).0;
            forall|a: int, b: int| 0 <= a < b < toks.len() ==> pos_lt(toks[a].pos, toks[b].pos)
        }),
{
    lemma_stream_positions::<T>(code, 0, SpecPos { row: 0, col: 0 });
}

/// The tokenizer: an owned copy of the source characters, a cursor, and
/// the coordinate reached so far.
pub struct Lexer {
    chars: Vec<char>,
    idx: usize,
    last_pos: Pos,
}

impl Lexer {
    /// The source characters.
    pub closed spec fn text(self) -> Seq<char> {
        self.chars@
    }

    /// The cursor: how many characters have been consumed.
    pub closed spec fn cursor(self) -> int {
        self.idx as int
    }

    /// The coordinate scanning continues from.
    pub closed spec fn position(self) -> SpecPos {
        self.last_pos@
    }

    /// The cursor stays within the buffer, and the coordinate cannot have
    /// passed it: at most one row per consumed line terminator, at most one
    /// column per consumed character.
    pub open spec fn wf(self) -> bool {
        &&& self.cursor() <= self.text().len()
        &&& 0 <= self.position().col <= self.cursor()
        &&& 0 <= self.position().row <= self.cursor()
    }

    /// A tokenizer over an owned copy of `code`, at its first character.
    pub fn new(code: &str) -> (l: Lexer)
        ensures
            l.wf(),
            l.text() == code@,
            l.cursor() == 0,
            l.position() == (SpecPos { row: 0, col: 0 }),
    {
        let n = code.unicode_len();
        let mut chars: Vec<char> = Vec::new();
        let mut i: usize = 0;
        while i < n
            invariant
                n == code@.len(),
                i <= n,
                chars@ =~= code@.take(i as int),
            decreases n - i,
        {
            let c = code.get_char(i);
            proof {
                assert(code@.take(i + 1) =~= code@.take(i as int).push(code@[i as int]));
            }
            chars.push(c);
            i = i + 1;
        }
        proof {
            assert(code@.take(n as int) =~= code@);
        }
        Lexer { chars, idx: 0, last_pos: Pos::new(0, 0) }
    }

    /// The coordinate scanning continues from.
    pub fn pos(&self) -> (p: Pos)
        ensures
            p@ == self.position(),
    {
        self.last_pos
    }

    /// Scans one token, exactly as `spec_scan` describes: on `End` an
    /// end-of-input token at the unchanged coordinate, on `Next` the found
    /// token with the state advanced past its fragment, on `Bad` a lexical
    /// error carrying the fragment's coordinate.
    pub fn scan_token<T: Numeric>(&mut self) -> (r: Result<Token<T>, CalfErr>)
        requires
            old(self).wf(),
        ensures
            final(self).wf(),
            final(self).text() == old(self).text(),
            match spec_scan::<T>(old(self).text(), old(self).cursor(), old(self).position()) {
                ScanStep::End => {
                    &&& r is Ok
                    &&& r->Ok_0@.lex is End
                    &&& r->Ok_0@.pos == old(self).position()
                    &&& final(self).cursor() == old(self).cursor()
                    &&& final(self).position() == old(self).position()
                },
                ScanStep::Bad { pos, msg } => {
                    &&& r is Err
                    &&& r->Err_0.pos@ == pos
                    &&& r->Err_0.message@ == msg
                    &&& final(self).cursor() == old(self).cursor()
                    &&& final(self).position() == old(self).position()
                },
                ScanStep::Next { tok, end, next } => {
                    &&& r is Ok
                    &&& r->Ok_0@ == tok
                    &&& final(self).cursor() == end
                    &&& final(self).position() == next
                },
            },
    {
        let ghost s = self.chars@;
        let ghost i0 = self.idx as int;
        let n = self.chars.len();
        proof {
            lemma_scan_step::<T>(s, i0, self.last_pos@);
        }
        // skip blanks
        let mut j = self.idx;
        loop
            invariant
                self.idx <= j <= n,
                n == s.len(),
                s == self.chars@,
                ws_end(s, i0) == ws_end(s, j as int),
            ensures
                self.idx <= j <= n,
                j as int == ws_end(s, i0),
            decreases n - j,
        {
            if j >= n {
                break;
            }
            let c = self.chars[j];
            if !(c == ' ' || c == '\t') {
                break;
            }
            j = j + 1;
        }
        if j == n {
            return Ok(Token::new(Lexeme::EOF, self.last_pos));
        }
        let c = self.chars[j];
        let col0 = self.last_pos.col + (j - self.idx);
        let pj = Pos::new(self.last_pos.row, col0);
        // comment
        if c == '/' && j + 1 < n && self.chars[j + 1] == '/' {
            let mut e = j + 2;
            loop
                invariant
                    j + 2 <= e <= n,
                    n == s.len(),
                    s == self.chars@,
                    comment_end(s, j + 2) == comment_end(s, e as int),
                ensures
                    j + 2 <= e <= n,
                    e as int == comment_end(s, j + 2),
                decreases n - e,
            {
                if e >= n {
                    break;
                }
                if self.chars[e] == '\n' {
                    break;
                }
                e = e + 1;
            }
            let tok = Token::new(Lexeme::Skip, pj);
            self.last_pos = Pos::new(pj.row, pj.col + (e - j));
            self.idx = e;
            return Ok(tok);
        }
        // line terminator
        if c == '\n' {
            let tok = Token::new(Lexeme::Skip, pj);
            self.last_pos = Pos::new(pj.row + 1, 0);
            self.idx = j + 1;
            return Ok(tok);
        }
        // numeric literal
        let lead_digit = digit_exec(c);
        let neg_digit = c == '-' && j + 1 < n && digit_exec(self.chars[j + 1]);
        if lead_digit || neg_digit {
            let d0 = if c == '-' {
                j + 1
            } else {
                j
            };
            let d1 = self.digit_run(d0);
            let mut e = d1;
            if d1 < n {
                if self.chars[d1] == '.' && d1 + 1 < n && digit_exec(self.chars[d1 + 1]) {
                    e = self.digit_run(d1 + 1);
                }
            }
            let frag = vstd::slice::slice_subrange(self.chars.as_slice(), j, e);
            match T::from_literal(frag) {
                Some(num) => {
                    let tok = Token::new(Lexeme::Number(num), pj);
                    self.last_pos = Pos::new(pj.row, pj.col + (e - j));
                    self.idx = e;
                    return Ok(tok);
                },
                None => {
                    return Err(CalfErr::at("Malformed numeric literal", pj));
                },
            }
        }
        // identifier
        if is_alphabetic_char(c) || c == '_' {
            let mut e = j + 1;
            loop
                invariant
                    j + 1 <= e <= n,
                    n == s.len(),
                    s == self.chars@,
                    ident_end(s, j + 1) == ident_end(s, e as int),
                ensures
                    j + 1 <= e <= n,
                    e as int == ident_end(s, j + 1),
                decreases n - e,
            {
                if e >= n {
                    break;
                }
                let ce = self.chars[e];
                if !(is_alphabetic_char(ce) || ce == '_' || digit_exec(ce)) {
                    break;
                }
                e = e + 1;
            }
            let mut name = String::new();
            let mut k = j;
            while k < e
                invariant
                    j <= k <= e <= n,
                    n == s.len(),
                    s == self.chars@,
                    name@ =~= s.subrange(j as int, k as int),
                decreases e - k,
            {
                proof {
                    assert(s.subrange(j as int, k + 1) =~= s.subrange(j as int, k as int).push(
                        s[k as int],
                    ));
                }
                crate::common::push_char(&mut name, self.chars[k]);
                k = k + 1;
            }
            let tok = Token::new(Lexeme::Ident(name), pj);
            self.last_pos = Pos::new(pj.row, pj.col + (e - j));
            self.idx = e;
            return Ok(tok);
        }
        // operators and punctuation, longest first
        if j + 1 < n {
            if let Some(k) = two_char_exec(c, self.chars[j + 1]) {
                let tok = Token::new(Lexeme::Particle(k), pj);
                self.last_pos = Pos::new(pj.row, pj.col + 2);
                self.idx = j + 2;
                return Ok(tok);
            }
        }
        if let Some(k) = one_char_exec(c) {
            let tok = Token::new(Lexeme::Particle(k), pj);
            self.last_pos = Pos::new(pj.row, pj.col + 1);
            self.idx = j + 1;
            return Ok(tok);
        }
        // unrecognized fragment
        let mut msg = ("Unrecognized lexeme: '").to_owned();
        crate::common::push_char(&mut msg, c);
        msg.append("'");
        Err(CalfErr { message: msg, pos: pj })
    }

    /// The end of the digit run starting at `from`.
    fn digit_run(&self, from: usize) -> (e: usize)
        requires
            from <= self.text().len(),
        ensures
            from <= e <= self.text().len(),
            e as int == digits_end(self.text(), from as int),
    {
        let ghost s = self.chars@;
        let n = self.chars.len();
        let mut e = from;
        loop
            invariant
                from <= e <= n,
                n == s.len(),
                s == self.chars@,
                digits_end(s, from as int) == digits_end(s, e as int),
            ensures
                from <= e <= n,
                e as int == digits_end(s, from as int),
            decreases n - e,
        {
            if e >= n {
                break;
            }
            if !digit_exec(self.chars[e]) {
                break;
            }
            e = e + 1;
        }
        e
    }
}

/// Whether `c` is a decimal digit.
fn digit_exec(c: char) -> (r: bool)
    ensures
        r == is_digit_char(c),
{
    let u = c as u32;
    48 <= u && u <= 57
}

fn two_char_exec(a: char, b: char) -> (r: Option<TokenKind>)
    ensures
        r == two_char_op(a, b),
{
    if a == '>' && b == '=' {
        Some(TokenKind::GtEqual)
    } else if a == '<' && b == '=' {
        Some(TokenKind::LtEqual)
    } else if a == '&' && b == '&' {
        Some(TokenKind::TwoAnds)
    } else if a == '|' && b == '|' {
        Some(TokenKind::TwoOrs)
    } else if a == '=' && b == '=' {
        Some(TokenKind::TwoEquals)
    } else if a == '!' && b == '=' {
        Some(TokenKind::NotEqual)
    } else if a == '.' && b == '.' {
        Some(TokenKind::TwoDots)
    } else {
        None
    }
}

fn one_char_exec(c: char) -> (r: Option<TokenKind>)
    ensures
        r == one_char_op(c),
{
    if c == '(' {
        Some(TokenKind::OpenParenth)
    } else if c == ')' {
        Some(TokenKind::ClosingParenth)
    } else if c == '[' {
        Some(TokenKind::OpenClause)
    } else if c == ']' {
        Some(TokenKind::ClosingClause)
    } else if c == '{' {
        Some(TokenKind::OpenCurly)
    } else if c == '}' {
        Some(TokenKind::ClosingCurly)
    } else if c == ',' {
        Some(TokenKind::Comma)
    } else if c == '?' {
        Some(TokenKind::Question)
    } else if c == ':' {
        Some(TokenKind::Colon)
    } else if c == ';' {
        Some(TokenKind::Semicolon)
    } else if c == '+' {
        Some(TokenKind::Plus)
    } else if c == '-' {
        Some(TokenKind::Minus)
    } else if c == '*' {
        Some(TokenKind::Star)
    } else if c == '/' {
        Some(TokenKind::Slash)
    } else if c == '%' {
        Some(TokenKind::Percent)
    } else if c == '<' {
        Some(TokenKind::LesserThan)
    } else if c == '>' {
        Some(TokenKind::GreaterThan)
    } else if c == '&' {
        Some(TokenKind::And)
    } else if c == '|' {
        Some(TokenKind::Or)
    } else if c == '!' {
        Some(TokenKind::Not)
    } else if c == '=' {
        Some(TokenKind::Assign)
    } else if c == '.' {
        Some(TokenKind::Dot)
    } else if c == '#' {
        Some(TokenKind::Sharp)
    } else {
        None
    }
}

} // verus!
