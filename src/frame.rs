//! Activation records of subroutine calls.
use vstd::prelude::*;

verus! {

/// One subroutine invocation: where it is and which label it was called by.
#[derive(Copy, Clone, Debug, PartialEq, Eq, Structural)]
pub struct CallFrame {
    /// The program counter for the given subroutine
    pub pc: usize,
    /// The current subroutine's label. If the current subroutine
    /// is at the top level (i.e. main), the label is `None`
    pub label: Option<usize>,
}

impl CallFrame {
    /// Constructs a new `CallFrame`
    pub fn new(pc: usize, label: usize) -> (r: Self)
        ensures
            r == (CallFrame { pc, label: Some(label) }),
    {
        Self { pc, label: Some(label) }
    }

    /// Constructs new `CallFrame` for holding the main function
    pub fn new_main() -> (r: Self)
        ensures
            r == (CallFrame { pc: 0, label: None }),
    {
        Self { pc: 0, label: None }
    }
}

} // verus!
