//! Source positions as diagnostics and editors report them: 1-based lines
//! and 1-based character-counted columns, and half-open spans of them.

use vstd::prelude::*;

verus! {

/// A 1-based (line, character-column) position.
#[derive(Debug, Clone, Copy, PartialEq, Eq, Structural, Hash, PartialOrd, Ord)]
pub struct Pos {
    pub line: u32,
    pub col: u32,
}

/// A half-open span between two positions.
#[derive(Debug, Clone, Copy, PartialEq, Eq, Structural, Hash)]
pub struct Span {
    pub start: Pos,
    pub end: Pos,
}

impl Span {
    /// The span from (`start_line`, `start_col`) to (`end_line`, `end_col`).
    pub fn new(start_line: u32, start_col: u32, end_line: u32, end_col: u32) -> (r: Span)
        ensures
            r.start == (Pos { line: start_line, col: start_col }),
            r.end == (Pos { line: end_line, col: end_col }),
    {
        Span { start: Pos { line: start_line, col: start_col }, end: Pos { line: end_line, col: end_col } }
    }
}

} // verus!
