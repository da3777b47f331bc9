//! An interpreter for the Whitespace language.
//!
//! Source text is tokenized, decoded into a linear bytecode [`program::Program`]
//! whose jump targets are resolved ahead of time, and then executed on a stack
//! machine ([`vm::Vm`]) that reports failures with a full call-stack traceback.
use vstd::prelude::*;

pub mod decimal;
pub mod frame;
pub mod label_map;
pub mod parse_error;
pub mod parser;
pub mod program;
pub mod token;
pub mod vm;
pub mod vm_error;

verus! {

} // verus!
