use vstd::prelude::*;

verus! {

/// Why an operator refuses its input.
#[derive(Clone, Copy, Debug, PartialEq, Eq)]
pub enum OperatorError {
    /// A parameter is out of range.
    InvalidArgument,
    /// The data handed to the operator cannot be worked on.
    InvalidInput,
}

} // verus!
