//! Errors that stop parsing.
use vstd::prelude::*;

verus! {

/// What kind of invalid instruction was attempted to be parsed
#[derive(Copy, Clone, Debug, PartialEq, Eq, Structural)]
pub enum InstType {
    Stack,
    Heap,
    Io,
    ControlFlow,
    Arithmetic,
    Unknown,
}

/// What kind of parse error was found
#[derive(Copy, Clone, Debug, PartialEq, Eq, Structural)]
pub enum ErrorKind {
    /// The literal is too large to fit in an `i64`
    LiteralOverflow,
    /// The literal could not be parsed
    InvalidLiteral,
    /// An invalid sequence of spaces, tabs, and LFs was encountered
    InvalidInstruction(InstType),
    /// The program attempted to jump to a label that does not exist
    InvalidLabel,
    /// A label does not fit in a `usize`
    TooManyLabels,
    /// The source file ended before the program could be fully parsed
    UnexpectedEof,
}

/// A parse error and the source line on which it was detected.
#[derive(Copy, Clone, Debug, PartialEq, Eq, Structural)]
pub struct ParseError {
    pub line_no: usize,
    pub kind: ErrorKind,
}

impl ParseError {
    pub fn new(kind: ErrorKind, line_no: usize) -> (r: Self)
        ensures
            r == (ParseError { line_no, kind }),
    {
        Self { kind, line_no }
    }
}

} // verus!
