//! Errors raised while analyzing bytecode.
use vstd::prelude::*;

verus! {

/// Why an analysis could not complete.
#[derive(Clone, Debug, PartialEq, Eq)]
pub enum AnalysisError {
    /// A method descriptor that does not parse.
    InvalidDescriptor(String),
    /// The worklist exhausted its step budget.
    StepLimitExceeded,
    /// The bytes at this offset do not form a whole instruction.
    InvalidBytecode(usize),
}

} // verus!
