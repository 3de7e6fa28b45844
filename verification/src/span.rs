//! Places in a source text.

use vstd::prelude::*;

verus! {

/// A place: the line, from 1, and the byte in the line, from 0.
#[derive(Clone, Copy, Debug, PartialEq, Eq, Structural)]
pub struct Pos {
    pub line: u32,
    pub col: u32,
}

impl Pos {
    /// The place in a line.
    pub fn new(line: u32, col: u32) -> (r: Pos)
        ensures
            r == (Pos { line, col }),
    {
        Pos { line, col }
    }
}

/// A stretch of the text.
#[derive(Clone, Copy, Debug, PartialEq, Eq, Structural)]
pub struct Span {
    pub start: Pos,
    pub end: Pos,
}

impl Span {
    /// The stretch from one place to another.
    pub fn new(start: Pos, end: Pos) -> (r: Span)
        ensures
            r == (Span { start, end }),
    {
        Span { start, end }
    }

    /// A stretch for what is not written anywhere.
    pub fn dummy() -> (r: Span)
        ensures
            r == (Span { start: Pos { line: 0, col: 0 }, end: Pos { line: 0, col: 0 } }),
    {
        Span { start: Pos { line: 0, col: 0 }, end: Pos { line: 0, col: 0 } }
    }
}

} // verus!
