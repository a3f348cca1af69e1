//! The ways in which a call into the solver can fail.

use vstd::prelude::*;

verus! {

/// Why the solver rejected a call.
#[derive(Debug, Clone, Copy, PartialEq, Eq, Structural)]
pub enum SolverError {
    /// A domain or a variable of this name exists already.
    DuplicateName,
    /// A domain must have at least one element.
    EmptyDomain,
    /// The handle does not belong to a domain or a variable of this solver.
    UnknownHandle,
    /// The number of indices differs from the arity of the variable.
    ArityMismatch,
    /// Two literals of a clause disagree on the domain of a clause variable,
    /// or a variable of the clause is used by no literal.
    DomainMismatch,
    /// A coordinate is not below the size of its domain.
    OutOfRange,
    /// The atom has a value already.
    AlreadyAssigned,
    /// The table does not fit into the address space.
    TooLarge,
    /// A cell that stands as a unit has two literals without a value.
    UnitInvariantBroken,
}

} // verus!
