//! A constraint solver using the Cassowary algorithm.
//!
//! Constraints are linear equations and inequalities with strengths. The solver keeps values for
//! their variables that meet the required constraints and miss the others as little as it can.
//! Its choices depend on what it was told and never on the order in which a table is walked, so
//! the same calls give the same values.
pub mod batch;
pub mod batch_laws;
pub mod catalog;
pub mod choice;
pub mod conduct;
pub mod constraint;
pub mod count;
pub mod counting;
pub mod editing;
pub mod edits;
pub mod equations;
pub mod error;
pub mod exact;
pub mod expression;
pub mod faith;
pub mod fetch_laws;
pub mod fingerprint;
pub mod fingerprint_laws;
pub mod history;
pub mod identity_laws;
pub mod index;
pub mod idle;
pub mod intake;
pub mod meaning;
pub mod number;
pub mod optimum;
pub mod order;
pub mod reconcile;
pub mod reconcile_laws;
pub mod purpose;
pub mod reach;
pub mod removal;
pub mod row;
pub mod semantic;
pub mod simplex;
pub mod solutions;
pub mod solver;
pub mod solver_laws;
pub mod soundness;
pub mod symbol;
pub mod system;
pub mod table;
pub mod tableau;
pub mod witness;
pub mod worklist;

pub use batch::{ConstraintBatchApplyError, ConstraintBatchOp, ConstraintBatchResult};
pub use catalog::FingerprintMap;
pub use constraint::{Constraint, RelationalOperator, Strength};
pub use error::{
    AddConstraintError, AddEditVariableError, InternalSolverError, RemoveConstraintError,
    RemoveEditVariableError, SuggestValueError,
};
pub use expression::{Expression, Term, Variable};
pub use fingerprint::ConstraintFingerprint;
pub use number::Number;
pub use reconcile::SemanticReconcileResult;
pub use semantic::{
    merge_semantic_constraints, semantic_constraints, semantic_constraints_with_mode,
    DuplicateFingerprintError, DuplicateFingerprintMode, SemanticConstraints,
};
pub use solver::Solver;
pub use system::ConstraintId;
