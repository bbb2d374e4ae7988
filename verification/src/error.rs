//! The errors of the solver.
use vstd::prelude::*;

verus! {

/// The solver entered an invalid state.
#[derive(Clone, Copy, Debug, PartialEq, Eq, Structural)]
pub enum InternalSolverError {
    /// The objective is unbounded.
    ObjectiveUnbounded,
    /// Dual optimize failed.
    DualOptimizeFailed,
    /// Failed to find leaving row.
    FailedToFindLeavingRow,
    /// Edit constraint not in system.
    EditConstraintNotInSystem,
}

/// Why a constraint could not be added.
#[derive(Clone, Copy, Debug, PartialEq, Eq, Structural)]
pub enum AddConstraintError {
    /// The constraint is in the solver already.
    DuplicateConstraint,
    /// The constraint is required, and no solution meets it.
    UnsatisfiableConstraint,
    /// The solver entered an invalid state.
    InternalSolverError(InternalSolverError),
}

/// Why a constraint could not be removed.
#[derive(Clone, Copy, Debug, PartialEq, Eq, Structural)]
pub enum RemoveConstraintError {
    /// The constraint is not in the solver.
    UnknownConstraint,
    /// The solver entered an invalid state.
    InternalSolverError(InternalSolverError),
}

/// Why an edit variable could not be added.
#[derive(Clone, Copy, Debug, PartialEq, Eq, Structural)]
pub enum AddEditVariableError {
    /// The variable is an edit variable already.
    DuplicateEditVariable,
    /// An edit variable cannot be required.
    BadRequiredStrength,
    /// No solution meets the constraint of the edit variable.
    UnsatisfiableConstraint,
    /// The solver entered an invalid state.
    InternalSolverError(InternalSolverError),
}

/// Why an edit variable could not be removed.
#[derive(Clone, Copy, Debug, PartialEq, Eq, Structural)]
pub enum RemoveEditVariableError {
    /// The variable is no edit variable.
    UnknownEditVariable,
    /// The solver entered an invalid state.
    InternalSolverError(InternalSolverError),
}

/// Why a value could not be suggested.
#[derive(Clone, Copy, Debug, PartialEq, Eq, Structural)]
pub enum SuggestValueError {
    /// The variable is no edit variable.
    UnknownEditVariable,
    /// The solver entered an invalid state.
    InternalSolverError(InternalSolverError),
}

} // verus!
