//! The protocol's own records for positions, ranges and edits.
use vstd::prelude::*;

verus! {

/// A position on the wire: a zero-based line and a column counted in the
/// connection's offset encoding.
#[derive(Clone, Copy, Debug, PartialEq, Eq, Structural, Default)]
pub struct Position {
    pub line: u32,
    pub character: u32,
}

impl View for Position {
    type V = (nat, nat);

    open spec fn view(&self) -> (nat, nat) {
        (self.line as nat, self.character as nat)
    }
}

impl Position {
    pub fn new(line: u32, character: u32) -> (r: Position)
        ensures
            r.line == line,
            r.character == character,
    {
        Position { line, character }
    }
}

/// A range between two wire positions, start inclusive, end exclusive.
#[derive(Clone, Copy, Debug, PartialEq, Eq, Structural, Default)]
pub struct Range {
    pub start: Position,
    pub end: Position,
}

impl Range {
    pub fn new(start: Position, end: Position) -> (r: Range)
        ensures
            r.start == start,
            r.end == end,
    {
        Range { start, end }
    }
}

/// A replacement of the text in `range` by `new_text`, as servers send them.
#[derive(Clone, Debug)]
pub struct TextEdit {
    pub range: Range,
    pub new_text: String,
}

/// One change in a document-change notification: the text in `range` is
/// replaced by `text`; without a range, `text` is the whole new document.
#[derive(Clone, Debug)]
pub struct TextDocumentContentChangeEvent {
    pub range: Option<Range>,
    pub text: String,
}

} // verus!
