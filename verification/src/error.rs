//! The failures that the operations of the library report.

use vstd::prelude::*;

verus! {

/// Why an operation of this library gave no result.
#[derive(Debug, Clone, Copy, PartialEq, Eq, Structural)]
pub enum CombinatorError {
    /// The text is not a declaration or an expression of the grammar.
    Parse,
    /// A definition uses a symbol outside the set that the registration allows.
    Rejected,
    /// An abstraction marker stands where none may stand, or marks a body that no rule covers.
    InvariantViolation,
    /// The rewrite budget ran out before the term was in normal form.
    OutOfFuel,
    /// A definition that still has parameters was applied to arguments.
    UnboundParameters,
}

} // verus!
