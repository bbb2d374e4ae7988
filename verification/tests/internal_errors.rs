use kasuari::{
    AddConstraintError, AddEditVariableError, Constraint, ConstraintBatchApplyError,
    ConstraintBatchOp, Expression, InternalSolverError, Number, RelationalOperator,
    RemoveConstraintError, RemoveEditVariableError, Solver, Strength, SuggestValueError, Term,
    Variable,
};

fn num(x: f64) -> Number {
    Number::from_bits(x.to_bits())
}

fn relation(
    identity: u64,
    terms: &[(Variable, f64)],
    constant: f64,
    op: RelationalOperator,
    strength: Strength,
) -> Constraint {
    let terms: Vec<Term> = terms.iter().map(|t| Term::new(t.0, num(t.1))).collect();
    Constraint::new(identity, Expression::new(terms, num(constant)), op, strength)
}

const EQ: RelationalOperator = RelationalOperator::Equal;
const GE: RelationalOperator = RelationalOperator::GreaterOrEqual;

#[test]
fn a_reward_for_missing_a_constraint_has_no_bound() {
    let x = Variable::from_id(0);
    let reward = Strength { value: num(-1.0) };
    let unbounded = InternalSolverError::ObjectiveUnbounded;

    let mut solver = Solver::new();
    assert_eq!(
        solver.add_constraint(relation(1, &[(x, 1.0)], 0.0, EQ, reward)),
        Err(AddConstraintError::InternalSolverError(unbounded))
    );

    let mut solver = Solver::new();
    assert_eq!(
        solver.add_edit_variable(x, reward),
        Err(AddEditVariableError::InternalSolverError(unbounded))
    );
    assert!(!solver.has_edit_variable(&x));

    let mut solver = Solver::new();
    let ops = [
        ConstraintBatchOp::Add(relation(1, &[(x, 1.0)], 0.0, GE, Strength::required())),
        ConstraintBatchOp::Add(relation(2, &[(x, 1.0)], 0.0, EQ, reward)),
    ];
    assert_eq!(
        solver.apply_constraint_batch(&ops).unwrap_err(),
        ConstraintBatchApplyError::Add {
            index: 1,
            source: AddConstraintError::InternalSolverError(unbounded)
        }
    );
}

#[test]
fn the_constraint_of_an_edit_variable_can_be_lost() {
    let x = Variable::from_id(0);
    let mut other = Solver::new();
    let first = other
        .add_constraint(relation(1, &[(x, 1.0)], 0.0, EQ, Strength::required()))
        .unwrap();

    // The first handle of this solver is that of the edit constraint.
    let mut solver = Solver::new();
    solver.add_edit_variable(x, Strength::strong()).unwrap();
    solver.remove_constraint(first).unwrap();
    assert_eq!(
        solver.remove_edit_variable(x),
        Err(RemoveEditVariableError::InternalSolverError(
            InternalSolverError::EditConstraintNotInSystem
        ))
    );
    assert!(!solver.has_edit_variable(&x));
}

#[test]
fn a_refused_constraint_can_spoil_a_suggestion() {
    let x = Variable::from_id(1);
    let required = Strength::required();
    let mut solver = Solver::new();
    solver.add_constraint(relation(1, &[(x, 1e-3)], 1.0, EQ, required)).unwrap();
    assert_eq!(
        solver.add_constraint(relation(2, &[(x, 1e300)], 0.0, GE, required)),
        Err(AddConstraintError::UnsatisfiableConstraint)
    );
    solver.add_edit_variable(x, Strength::weak()).unwrap();
    assert_eq!(
        solver.suggest_value(x, num(-7.0)),
        Err(SuggestValueError::InternalSolverError(InternalSolverError::DualOptimizeFailed))
    );
}

#[test]
fn a_marker_can_vanish_beside_huge_coefficients() {
    let (x, y, z) = (Variable::from_id(0), Variable::from_id(1), Variable::from_id(2));
    let mut solver = Solver::new();
    solver
        .add_constraint(relation(1, &[(z, 1e-7), (x, 1e300)], 1e308, GE, Strength::required()))
        .unwrap();
    let id = solver
        .add_constraint(relation(2, &[(y, 2.0), (z, 1e300)], 1.0, GE, Strength::weak()))
        .unwrap();
    assert_eq!(
        solver.remove_constraint(id),
        Err(RemoveConstraintError::InternalSolverError(
            InternalSolverError::FailedToFindLeavingRow
        ))
    );
    assert!(!solver.has_constraint(id));
}
