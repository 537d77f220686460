//! Source coordinates and the error type shared by the tokenizer and the
//! parser.

use vstd::prelude::*;

verus! {

/// A source coordinate: `row` counts line terminators seen so far, `col`
/// counts characters consumed on the current row.
#[derive(Debug, Clone, Copy, PartialEq, Eq, Structural)]
pub struct Pos {
    pub row: usize,
    pub col: usize,
}

/// The mathematical value of a source coordinate, free of machine widths.
pub struct SpecPos {
    pub row: int,
    pub col: int,
}

impl View for Pos {
    type V = SpecPos;

    open spec fn view(&self) -> SpecPos {
        SpecPos { row: self.row as int, col: self.col as int }
    }
}

impl Pos {
    pub fn new(row: usize, col: usize) -> (p: Pos)
        ensures
            p.row == row && p.col == col,
    {
        Pos { row, col }
    }
}

/// Strict lexicographic order on coordinates: earlier row, or the same row
/// and an earlier column.
pub open spec fn pos_lt(a: SpecPos, b: SpecPos) -> bool {
    a.row < b.row || (a.row == b.row && a.col < b.col)
}

/// Non-strict lexicographic order on coordinates.
pub open spec fn pos_le(a: SpecPos, b: SpecPos) -> bool {
    a.row < b.row || (a.row == b.row && a.col <= b.col)
}

/// An error of the front end: a human-readable message anchored to the
/// source coordinate of the offending fragment. Lexical and grammatical
/// failures both use this shape, and the first one aborts the whole build.
#[derive(Debug)]
pub struct CalfErr {
    pub message: String,
    pub pos: Pos,
}

impl CalfErr {
    /// An error with a fixed message at the given coordinate.
    pub fn at(message: &str, pos: Pos) -> (e: CalfErr)
        ensures
            e.message@ == message@,
            e.pos == pos,
    {
        CalfErr { message: message.to_owned(), pos }
    }
}

/// Relies on `String::push`: appends exactly the one character to the end
/// of the string.
#[verifier::external_body]
pub(crate) fn push_char(s: &mut String, c: char)
    ensures
        final(s)@ == old(s)@ + seq![c],
{
    s.push(c);
}

} // verus!
