use kasuari::{
    AddEditVariableError, Constraint, Expression, Number, RelationalOperator,
    RemoveEditVariableError, Solver, Strength, SuggestValueError, Term, Variable,
};

fn num(x: f64) -> Number {
    Number::from_bits(x.to_bits())
}

fn float(x: Number) -> f64 {
    f64::from_bits(x.to_bits())
}

fn relation(
    identity: u64,
    terms: &[(Variable, f64)],
    constant: f64,
    op: RelationalOperator,
    strength: Strength,
) -> Constraint {
    let terms: Vec<Term> = terms.iter().map(|t| Term::new(t.0, num(t.1))).collect();
    Constraint::new(identity, Expression::new(terms, num(constant)), op, strength)
}

const EQ: RelationalOperator = RelationalOperator::Equal;
const GE: RelationalOperator = RelationalOperator::GreaterOrEqual;

#[test]
fn suggest_values_should_match_sequential_suggest_value() {
    let x = Variable::from_id(0);
    let y = Variable::from_id(1);

    let build_solver = || {
        let mut solver = Solver::new();
        let required = Strength::required();
        solver
            .add_constraints(vec![
                relation(1, &[(x, 1.0), (y, 1.0)], -10.0, EQ, required),
                relation(2, &[(x, 1.0)], 0.0, GE, required),
                relation(3, &[(y, 1.0)], 0.0, GE, required),
            ])
            .unwrap();
        solver.add_edit_variable(x, Strength::strong()).unwrap();
        solver.add_edit_variable(y, Strength::strong()).unwrap();
        solver
    };

    let mut solver_seq = build_solver();
    solver_seq.suggest_value(x, num(3.0)).unwrap();
    solver_seq.suggest_value(y, num(7.0)).unwrap();
    let seq_1 = (float(solver_seq.get_value(x)), float(solver_seq.get_value(y)));

    let mut solver_batch = build_solver();
    solver_batch.suggest_values(&[(x, num(3.0)), (y, num(7.0))]).unwrap();
    let batch_1 = (float(solver_batch.get_value(x)), float(solver_batch.get_value(y)));

    assert!(
        (seq_1.0 - batch_1.0).abs() < 1e-9 && (seq_1.1 - batch_1.1).abs() < 1e-9,
        "batch suggest should match sequential: seq={seq_1:?} batch={batch_1:?}"
    );
    assert_eq!(batch_1, (3.0, 7.0));

    solver_seq.suggest_value(x, num(4.0)).unwrap();
    solver_seq.suggest_value(y, num(6.0)).unwrap();
    let seq_2 = (float(solver_seq.get_value(x)), float(solver_seq.get_value(y)));

    solver_batch.suggest_values(&[(x, num(4.0)), (y, num(6.0))]).unwrap();
    let batch_2 = (float(solver_batch.get_value(x)), float(solver_batch.get_value(y)));

    assert!(
        (seq_2.0 - batch_2.0).abs() < 1e-9 && (seq_2.1 - batch_2.1).abs() < 1e-9,
        "batch suggest should match sequential: seq={seq_2:?} batch={batch_2:?}"
    );
    assert_eq!(batch_2, (4.0, 6.0));
}

#[test]
fn suggest_values_should_be_atomic_on_unknown_edit_variable() {
    let x = Variable::from_id(0);
    let y = Variable::from_id(1);

    let mut solver = Solver::new();
    solver
        .add_constraints(vec![relation(1, &[(x, 1.0)], 0.0, GE, Strength::required())])
        .unwrap();
    solver.add_edit_variable(x, Strength::strong()).unwrap();

    let before = float(solver.get_value(x));

    let err = solver
        .suggest_values(&[(x, num(10.0)), (y, num(5.0))])
        .expect_err("y is not an edit variable, so suggest_values should fail");
    assert!(
        matches!(err, SuggestValueError::UnknownEditVariable),
        "unexpected error: {err:?}"
    );

    let after = float(solver.get_value(x));
    assert!(
        (before - after).abs() < 1e-9,
        "solver should not be mutated on error: before={before} after={after}"
    );
}

#[test]
fn edit_variable_follows_the_suggestion() {
    let x = Variable::from_id(7);
    let y = Variable::from_id(8);
    let mut solver = Solver::new();
    solver
        .add_constraint(relation(1, &[(y, 1.0), (x, -2.0)], -1.0, EQ, Strength::required()))
        .unwrap();
    solver.add_edit_variable(x, Strength::strong()).unwrap();
    assert!(solver.has_edit_variable(&x));
    assert!(!solver.has_edit_variable(&y));
    for i in -20..20 {
        let value = f64::from(i) * 1.75;
        solver.suggest_value(x, num(value)).unwrap();
        assert_eq!(float(solver.get_value(x)), value);
        assert_eq!(float(solver.get_value(y)), 2.0 * value + 1.0);
    }
}

#[test]
fn suggesting_one_value_is_suggesting_it_alone() {
    let x = Variable::from_id(1);
    let build = || {
        let mut solver = Solver::new();
        solver
            .add_constraint(relation(1, &[(x, 1.0)], -100.0, GE, Strength::weak()))
            .unwrap();
        solver.add_edit_variable(x, Strength::medium()).unwrap();
        solver
    };
    let mut a = build();
    let mut b = build();
    a.suggest_value(x, num(12.5)).unwrap();
    b.suggest_values(&[(x, num(12.5))]).unwrap();
    assert_eq!(float(a.get_value(x)), 12.5);
    assert_eq!(float(b.get_value(x)), 12.5);
    b.suggest_values(&[]).unwrap();
    assert_eq!(float(b.get_value(x)), 12.5);
}

#[test]
fn edit_variable_errors() {
    let x = Variable::from_id(1);
    let mut solver = Solver::new();
    assert_eq!(
        solver.suggest_value(x, num(1.0)),
        Err(SuggestValueError::UnknownEditVariable)
    );
    assert_eq!(
        solver.remove_edit_variable(x),
        Err(RemoveEditVariableError::UnknownEditVariable)
    );
    assert_eq!(
        solver.add_edit_variable(x, Strength::required()),
        Err(AddEditVariableError::BadRequiredStrength)
    );
    assert_eq!(solver.add_edit_variable(x, Strength::strong()), Ok(()));
    assert_eq!(
        solver.add_edit_variable(x, Strength::strong()),
        Err(AddEditVariableError::DuplicateEditVariable)
    );
    assert_eq!(solver.remove_edit_variable(x), Ok(()));
    assert!(!solver.has_edit_variable(&x));
    assert_eq!(solver.add_edit_variable(x, Strength::weak()), Ok(()));
    solver.suggest_value(x, num(3.0)).unwrap();
    assert_eq!(float(solver.get_value(x)), 3.0);
}
