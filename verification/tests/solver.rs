use kasuari::{
    AddConstraintError, AddEditVariableError, Constraint, ConstraintId, Expression, Number,
    RelationalOperator, RemoveConstraintError, Solver, Strength, Term, Variable,
};

fn num(x: f64) -> Number {
    Number::from_bits(x.to_bits())
}

fn float(x: Number) -> f64 {
    f64::from_bits(x.to_bits())
}

fn relation(
    identity: u64,
    terms: &[(Variable, f64)],
    constant: f64,
    op: RelationalOperator,
    strength: Strength,
) -> Constraint {
    let terms: Vec<Term> = terms.iter().map(|t| Term::new(t.0, num(t.1))).collect();
    Constraint::new(identity, Expression::new(terms, num(constant)), op, strength)
}

const LE: RelationalOperator = RelationalOperator::LessOrEqual;
const EQ: RelationalOperator = RelationalOperator::Equal;
const GE: RelationalOperator = RelationalOperator::GreaterOrEqual;

fn changes(solver: &mut Solver) -> Vec<(u64, f64)> {
    let mut list: Vec<(u64, f64)> =
        solver.fetch_changes().iter().map(|c| (c.0.id, float(c.1))).collect();
    list.sort_by(|a, b| a.0.cmp(&b.0));
    list
}

#[test]
fn quadrilateral_keeps_its_midpoints() {
    let v: Vec<Variable> = (0..6).map(Variable::from_id).collect();
    let required = Strength::required();
    let mut solver = Solver::new();
    // v[4] and v[5] are the midpoints of v[0], v[1] and of v[2], v[3].
    solver
        .add_constraints(vec![
            relation(1, &[(v[4], 2.0), (v[0], -1.0), (v[1], -1.0)], 0.0, EQ, required),
            relation(2, &[(v[5], 2.0), (v[2], -1.0), (v[3], -1.0)], 0.0, EQ, required),
            relation(3, &[(v[0], 1.0), (v[1], -1.0)], 20.0, LE, required),
            relation(4, &[(v[0], 1.0)], -10.0, EQ, Strength::weak()),
            relation(5, &[(v[1], 1.0)], -200.0, EQ, Strength::weak()),
            relation(6, &[(v[2], 1.0)], -50.0, EQ, Strength::weak()),
            relation(7, &[(v[3], 1.0)], -70.0, EQ, Strength::weak()),
        ])
        .unwrap();
    assert_eq!(float(solver.get_value(v[4])), 105.0);
    assert_eq!(float(solver.get_value(v[5])), 60.0);
    solver.add_edit_variable(v[4], Strength::strong()).unwrap();
    solver.suggest_value(v[4], num(90.0)).unwrap();
    assert_eq!(float(solver.get_value(v[4])), 90.0);
    assert_eq!(
        float(solver.get_value(v[0])) + float(solver.get_value(v[1])),
        180.0
    );
}

#[test]
fn inequalities_bound_a_preference() {
    let x = Variable::from_id(0);
    let mut solver = Solver::new();
    solver.add_constraint(relation(1, &[(x, 1.0)], -100.0, EQ, Strength::weak())).unwrap();
    assert_eq!(float(solver.get_value(x)), 100.0);
    let ten = solver
        .add_constraint(relation(2, &[(x, 1.0)], -10.0, LE, Strength::required()))
        .unwrap();
    assert_eq!(float(solver.get_value(x)), 10.0);
    let twenty = solver
        .add_constraint(relation(3, &[(x, 1.0)], -20.0, LE, Strength::required()))
        .unwrap();
    assert_eq!(float(solver.get_value(x)), 10.0);
    solver.remove_constraint(ten).unwrap();
    assert_eq!(float(solver.get_value(x)), 20.0);
    solver.remove_constraint(twenty).unwrap();
    assert_eq!(float(solver.get_value(x)), 100.0);
    let ten = solver
        .add_constraint(relation(4, &[(x, 1.0)], -10.0, LE, Strength::required()))
        .unwrap();
    assert_eq!(float(solver.get_value(x)), 10.0);
    solver.remove_constraint(ten).unwrap();
    assert_eq!(float(solver.get_value(x)), 100.0);
}

#[test]
fn stronger_preferences_win() {
    let (x, y) = (Variable::from_id(0), Variable::from_id(1));
    let mut solver = Solver::new();
    solver
        .add_constraints(vec![
            relation(1, &[(x, 1.0), (y, -1.0)], 0.0, LE, Strength::required()),
            relation(2, &[(y, 1.0), (x, -1.0)], -3.0, EQ, Strength::required()),
            relation(3, &[(x, 1.0)], -10.0, EQ, Strength::weak()),
            relation(4, &[(y, 1.0)], -10.0, EQ, Strength::medium()),
        ])
        .unwrap();
    assert_eq!(float(solver.get_value(y)), 10.0);
    assert_eq!(float(solver.get_value(x)), 7.0);
}

#[test]
fn a_constraint_is_added_once() {
    let x = Variable::from_id(0);
    let mut solver = Solver::new();
    let c = relation(1, &[(x, 1.0)], -4.0, EQ, Strength::required());
    let id = solver.add_constraint(c.clone()).unwrap();
    assert_eq!(
        solver.add_constraint(c.clone()),
        Err(AddConstraintError::DuplicateConstraint)
    );
    assert!(solver.has_constraint(id));
    solver.remove_constraint(id).unwrap();
    assert!(!solver.has_constraint(id));
    let again = solver.add_constraint(c).unwrap();
    assert_ne!(again, id);
    assert!(again.get() > id.get());
}

#[test]
fn contradictions_are_refused() {
    let x = Variable::from_id(0);
    let mut solver = Solver::new();
    let first = solver
        .add_constraint(relation(1, &[(x, 1.0)], -1.0, EQ, Strength::required()))
        .unwrap();
    assert_eq!(
        solver.add_constraint(relation(2, &[(x, 1.0)], -2.0, EQ, Strength::required())),
        Err(AddConstraintError::UnsatisfiableConstraint)
    );
    assert_eq!(
        solver.add_constraint(relation(3, &[(x, 1.0)], -2.0, GE, Strength::required())),
        Err(AddConstraintError::UnsatisfiableConstraint)
    );
    assert!(solver.has_constraint(first));
    assert_eq!(float(solver.get_value(x)), 1.0);
    // The same as a preference is no contradiction.
    assert!(solver
        .add_constraint(relation(4, &[(x, 1.0)], -2.0, GE, Strength::strong()))
        .is_ok());
    assert_eq!(float(solver.get_value(x)), 1.0);
    // A redundant equation is fine.
    assert!(solver
        .add_constraint(relation(5, &[(x, 2.0)], -2.0, EQ, Strength::required()))
        .is_ok());
}

#[test]
fn constraints_after_a_refusal_are_not_added() {
    let x = Variable::from_id(0);
    let mut solver = Solver::new();
    let c = relation(3, &[(x, 1.0)], 0.0, GE, Strength::required());
    assert_eq!(
        solver.add_constraints(vec![
            relation(1, &[(x, 1.0)], -1.0, EQ, Strength::required()),
            relation(2, &[(x, 1.0)], -2.0, EQ, Strength::required()),
            c.clone(),
        ]),
        Err(AddConstraintError::UnsatisfiableConstraint)
    );
    assert!(solver.add_constraint(c).is_ok());
}

#[test]
fn unknown_handles_are_refused() {
    let x = Variable::from_id(0);
    let mut solver = Solver::new();
    let id: ConstraintId = solver
        .add_constraint(relation(1, &[(x, 1.0)], 0.0, GE, Strength::required()))
        .unwrap();
    assert_eq!(id.get(), 1);
    assert_eq!(solver.remove_constraint(id), Ok(()));
    assert_eq!(
        solver.remove_constraint(id),
        Err(RemoveConstraintError::UnknownConstraint)
    );
}

#[test]
fn fetching_reports_each_change_once() {
    let (x, y) = (Variable::from_id(3), Variable::from_id(5));
    let mut solver = Solver::new();
    assert_eq!(changes(&mut solver), vec![]);
    solver.add_constraint(relation(1, &[(x, 1.0)], -6.0, EQ, Strength::required())).unwrap();
    solver
        .add_constraint(relation(2, &[(y, 1.0), (x, -2.0)], 0.0, EQ, Strength::weak()))
        .unwrap();
    assert_eq!(changes(&mut solver), vec![(3, 6.0), (5, 12.0)]);
    assert_eq!(changes(&mut solver), vec![]);
    assert_eq!(changes(&mut solver), vec![]);
    solver.add_edit_variable(y, Strength::strong()).unwrap();
    solver.suggest_value(y, num(1.5)).unwrap();
    assert_eq!(changes(&mut solver), vec![(5, 1.5)]);
    assert_eq!(changes(&mut solver), vec![]);
    solver.suggest_value(y, num(2.5)).unwrap();
    solver.suggest_value(y, num(1.5)).unwrap();
    assert_eq!(changes(&mut solver), vec![]);
}

#[test]
fn values_of_unknown_variables_are_zero() {
    let x = Variable::from_id(0);
    let mut solver = Solver::default();
    assert_eq!(float(solver.get_value(x)), 0.0);
    let id = solver
        .add_constraint(relation(1, &[(x, 1.0)], -9.0, EQ, Strength::required()))
        .unwrap();
    assert_eq!(float(solver.get_value(x)), 9.0);
    solver.remove_constraint(id).unwrap();
    assert_eq!(float(solver.get_value(x)), 0.0);
}

#[test]
fn resetting_starts_over() {
    let x = Variable::from_id(0);
    let c = relation(1, &[(x, 1.0)], -9.0, EQ, Strength::required());
    let mut solver = Solver::new();
    let id = solver.add_constraint(c.clone()).unwrap();
    solver.add_edit_variable(Variable::from_id(1), Strength::weak()).unwrap();
    solver.reset();
    assert!(!solver.has_constraint(id));
    assert!(!solver.has_edit_variable(&Variable::from_id(1)));
    assert_eq!(float(solver.get_value(x)), 0.0);
    assert_eq!(changes(&mut solver), vec![]);
    assert_eq!(solver.add_constraint(c), Ok(id));
}

#[test]
fn an_edit_beyond_required_can_be_unsatisfiable() {
    let x = Variable::from_id(0);
    let mut solver = Solver::new();
    solver.add_constraint(relation(1, &[(x, 1.0)], -9.0, EQ, Strength::required())).unwrap();
    let beyond = Strength { value: num(1e12) };
    assert_eq!(
        solver.add_edit_variable(x, beyond),
        Err(AddEditVariableError::UnsatisfiableConstraint)
    );
    assert!(!solver.has_edit_variable(&x));
}

#[test]
fn terms_near_zero_are_passed_over() {
    let (x, y) = (Variable::from_id(0), Variable::from_id(1));
    let mut solver = Solver::new();
    let id = solver
        .add_constraint(relation(
            1,
            &[(x, 1.0), (y, 1e-9), (x, 1.0), (y, -0.0)],
            -8.0,
            EQ,
            Strength::required(),
        ))
        .unwrap();
    assert_eq!(float(solver.get_value(x)), 4.0);
    assert_eq!(changes(&mut solver), vec![(0, 4.0)]);
    solver.remove_constraint(id).unwrap();
    assert_eq!(float(solver.get_value(x)), 0.0);
}

#[test]
fn many_constraints_come_and_go() {
    let n: u64 = 60;
    let mut solver = Solver::new();
    let mut ids = Vec::new();
    for i in 0..n {
        let (a, b) = (Variable::from_id(i), Variable::from_id(i + 1));
        ids.push(
            solver
                .add_constraint(relation(i, &[(b, 1.0), (a, -1.0)], -1.0, EQ, Strength::required()))
                .unwrap(),
        );
    }
    let start = solver
        .add_constraint(relation(1000, &[(Variable::from_id(0), 1.0)], 0.0, EQ, Strength::medium()))
        .unwrap();
    for i in 0..=n {
        assert_eq!(float(solver.get_value(Variable::from_id(i))), i as f64);
    }
    solver.remove_constraint(start).unwrap();
    for id in ids {
        solver.remove_constraint(id).unwrap();
    }
    for i in 0..=n {
        assert_eq!(float(solver.get_value(Variable::from_id(i))), 0.0);
    }
}
