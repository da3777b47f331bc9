//! Runtime failures and the tracebacks that report them.
use vstd::prelude::*;

verus! {

/// Why a run stopped with an error
#[derive(Copy, Clone, Debug, PartialEq, Eq, Structural)]
pub enum RuntimeError {
    /// The program tried to divide by zero
    ZeroDivision,
    /// The program tried to access an invalid heap location
    InvalidHeapEntry,
    /// The program had some unspecified IO error
    IoError,
    /// The program could not parse the user's input as a valid number
    NumParseError,
    /// The program tried to use more values than the stack held
    StackUnderflow,
}

/// One live call frame at the moment of a failure.
#[derive(Copy, Clone, Debug, PartialEq, Eq, Structural)]
pub struct TraceEntry {
    pub line_no: usize,
    /// The subroutine's label; `None` for the top level
    pub label: Option<usize>,
}

impl TraceEntry {
    pub fn new(line_no: usize, label: Option<usize>) -> (r: Self)
        ensures
            r == (TraceEntry { line_no, label }),
    {
        Self { line_no, label }
    }
}

/// A failure with the call stack at that moment, outermost frame first.
#[derive(Debug)]
pub struct Traceback {
    pub stack: Vec<TraceEntry>,
    pub reason: RuntimeError,
}

} // verus!
