//! Positions and ranges in a text document, and locations across documents.
use vstd::prelude::*;

verus! {

/// A zero-based line and column (the column unit depends on the negotiated encoding).
#[derive(Clone, Copy, Debug, Default, PartialEq, Eq, Structural, PartialOrd, Ord, Hash)]
pub struct Position {
    pub line: u32,
    pub character: u32,
}

impl Position {
    pub fn new(line: u32, character: u32) -> (r: Position)
        ensures
            r == (Position { line, character }),
    {
        Position { line, character }
    }
}

/// A half-open range between two positions.
#[derive(Clone, Copy, Debug, Default, PartialEq, Eq, Structural, Hash)]
pub struct Range {
    pub start: Position,
    pub end: Position,
}

/// A range in a document identified by its URI.
#[derive(Clone, Debug)]
pub struct Location {
    pub uri: String,
    pub range: Range,
}

/// `a` is not after `b` (by line, then column).
pub open spec fn pos_le(a: Position, b: Position) -> bool {
    a.line < b.line || (a.line == b.line && a.character <= b.character)
}

/// `a` is before `b` (by line, then column).
pub open spec fn pos_lt(a: Position, b: Position) -> bool {
    a.line < b.line || (a.line == b.line && a.character < b.character)
}

/// `pos` lies in the range from `start` (included) to `end` (excluded).
pub open spec fn in_range(pos: Position, start: Position, end: Position) -> bool {
    pos_le(start, pos) && pos_lt(pos, end)
}

/// Whether `pos` lies in the range from `start` (included) to `end` (excluded).
pub fn position_in_range(pos: Position, start: Position, end: Position) -> (r: bool)
    ensures
        r == in_range(pos, start, end),
{
    (start.line < pos.line || (start.line == pos.line && start.character <= pos.character))
        && (pos.line < end.line || (pos.line == end.line && pos.character < end.character))
}

} // verus!
