use kasuari::{
    semantic_constraints, Constraint, ConstraintBatchOp, ConstraintFingerprint, ConstraintId,
    Expression, FingerprintMap, Number, RelationalOperator, Solver, Strength, Term, Variable,
};

fn num(x: f64) -> Number {
    Number::from_bits(x.to_bits())
}

fn float(x: Number) -> f64 {
    f64::from_bits(x.to_bits())
}

fn relation(
    identity: u64,
    terms: &[(Variable, f64)],
    constant: f64,
    op: RelationalOperator,
    strength: Strength,
) -> Constraint {
    let terms: Vec<Term> = terms.iter().map(|t| Term::new(t.0, num(t.1))).collect();
    Constraint::new(identity, Expression::new(terms, num(constant)), op, strength)
}

/// `variable == value`.
fn fixed(identity: u64, x: Variable, value: f64, strength: Strength) -> Constraint {
    relation(identity, &[(x, 1.0)], -value, RelationalOperator::Equal, strength)
}

fn changes(solver: &mut Solver) -> Vec<(u64, f64)> {
    let mut list: Vec<(u64, f64)> =
        solver.fetch_changes().iter().map(|c| (c.0.id, float(c.1))).collect();
    list.sort_by(|a, b| a.0.cmp(&b.0));
    list
}

#[test]
fn handles_increase_over_all_calls() {
    let (x, y, z) = (Variable::from_id(0), Variable::from_id(1), Variable::from_id(2));
    let weak = Strength::weak();
    let mut solver = Solver::new();
    let first = solver.add_constraint(fixed(1, x, 1.0, weak)).unwrap();
    let second = solver.add_constraint(fixed(2, y, 2.0, weak)).unwrap();
    solver.remove_constraint(second).unwrap();
    solver.remove_constraint(first).unwrap();
    let third = solver.add_constraint(fixed(1, x, 1.0, weak)).unwrap();
    solver.add_edit_variable(x, Strength::strong()).unwrap();
    solver.suggest_value(x, num(4.0)).unwrap();
    let ops = [
        ConstraintBatchOp::Add(fixed(3, z, 3.0, weak)),
        ConstraintBatchOp::Add(fixed(4, y, 4.0, weak)),
        ConstraintBatchOp::Remove(third),
    ];
    let result = solver.apply_constraint_batch(&ops).unwrap();
    let batch: Vec<ConstraintId> = result.added.iter().map(|a| a.1).collect();
    solver.remove_edit_variable(x).unwrap();
    let last = solver.add_constraint(fixed(5, x, 9.0, weak)).unwrap();
    let order = [first, second, third, batch[0], batch[1], last];
    assert!(order.windows(2).all(|p| p[0] < p[1] && p[0].get() < p[1].get()));
    assert!(first.get() >= 1);
}

#[test]
fn a_fetch_lists_what_changed_since_the_last() {
    let (x, y, z) = (Variable::from_id(0), Variable::from_id(1), Variable::from_id(2));
    let mut solver = Solver::new();
    solver
        .add_constraints(vec![
            fixed(1, x, 1.0, Strength::weak()),
            fixed(2, y, 2.0, Strength::weak()),
            fixed(3, z, 3.0, Strength::weak()),
        ])
        .unwrap();
    assert_eq!(changes(&mut solver), vec![(0, 1.0), (1, 2.0), (2, 3.0)]);
    // x moves there and back, y moves over several calls, z stays.
    let up = solver.add_constraint(fixed(4, x, 10.0, Strength::strong())).unwrap();
    solver.add_edit_variable(y, Strength::strong()).unwrap();
    solver.suggest_value(y, num(20.0)).unwrap();
    solver.remove_constraint(up).unwrap();
    solver.suggest_value(y, num(30.0)).unwrap();
    solver.add_constraint(fixed(5, z, 3.0, Strength::medium())).unwrap();
    assert_eq!(changes(&mut solver), vec![(1, 30.0)]);
}

#[test]
fn a_variable_taken_up_again_is_listed_anew() {
    let x = Variable::from_id(0);
    let mut solver = Solver::new();
    let id = solver.add_constraint(fixed(1, x, 5.0, Strength::required())).unwrap();
    assert_eq!(changes(&mut solver), vec![(0, 5.0)]);
    solver.remove_constraint(id).unwrap();
    assert_eq!(float(solver.get_value(x)), 0.0);
    solver.add_constraint(fixed(2, x, 5.0, Strength::required())).unwrap();
    assert_eq!(float(solver.get_value(x)), 5.0);
    assert_eq!(changes(&mut solver), vec![(0, 5.0)]);
    assert_eq!(changes(&mut solver), vec![]);
}

#[test]
fn a_batch_that_forgets_a_variable_notes_it() {
    let (x, y) = (Variable::from_id(0), Variable::from_id(1));
    let required = Strength::required();
    let mut solver = Solver::new();
    let id = solver.add_constraint(fixed(1, x, 5.0, required)).unwrap();
    assert_eq!(changes(&mut solver), vec![(0, 5.0)]);
    // The removal comes first, so x is forgotten and then taken up again with value zero.
    let ops = [
        ConstraintBatchOp::Add(relation(
            2,
            &[(x, 1.0), (y, -1.0)],
            0.0,
            RelationalOperator::Equal,
            required,
        )),
        ConstraintBatchOp::Remove(id),
    ];
    solver.apply_constraint_batch(&ops).unwrap();
    assert_eq!(float(solver.get_value(x)), 0.0);
    assert_eq!(changes(&mut solver), vec![(0, 0.0)]);
    assert_eq!(changes(&mut solver), vec![]);
}

#[test]
fn a_reconciliation_that_forgets_a_variable_notes_it() {
    let x = Variable::from_id(0);
    let mut solver = Solver::new();
    let mut seen = FingerprintMap::new();
    let five = fixed(1, x, 5.0, Strength::required());
    let none = fixed(2, x, 0.0, Strength::required());
    solver.reconcile_semantic_constraints(&mut seen, &semantic_constraints(&[&five])).unwrap();
    assert_eq!(changes(&mut solver), vec![(0, 5.0)]);
    solver.reconcile_semantic_constraints(&mut seen, &semantic_constraints(&[&none])).unwrap();
    assert_eq!(float(solver.get_value(x)), 0.0);
    assert_eq!(changes(&mut solver), vec![(0, 0.0)]);
}

#[test]
fn the_first_fetch_lists_values_other_than_zero() {
    let (x, y) = (Variable::from_id(0), Variable::from_id(1));
    let mut solver = Solver::new();
    solver.add_constraint(fixed(1, x, 7.0, Strength::weak())).unwrap();
    solver.add_constraint(fixed(2, y, 8.0, Strength::weak())).unwrap();
    solver.add_constraint(fixed(3, x, 9.0, Strength::medium())).unwrap();
    assert_eq!(changes(&mut solver), vec![(0, 9.0), (1, 8.0)]);
}

/// The values that a solver ends up with when its constraints have identities that start at
/// `base` and go up by `step`.
fn values(base: u64, step: u64) -> Vec<f64> {
    let v: Vec<Variable> = (0..4).map(Variable::from_id).collect();
    let required = Strength::required();
    let mut solver = Solver::new();
    solver
        .add_constraints(vec![
            relation(
                base,
                &[(v[0], 1.0), (v[1], 1.0), (v[2], -1.0)],
                0.0,
                RelationalOperator::Equal,
                required,
            ),
            relation(
                base + step,
                &[(v[2], 1.0)],
                -100.0,
                RelationalOperator::LessOrEqual,
                required,
            ),
            fixed(base + 2 * step, v[0], 60.0, Strength::weak()),
            fixed(base + 3 * step, v[1], 70.0, Strength::weak()),
        ])
        .unwrap();
    solver.add_edit_variable(v[2], Strength::strong()).unwrap();
    solver.suggest_value(v[2], num(90.0)).unwrap();
    let a = fixed(base + 4 * step, v[3], 4.0, Strength::medium());
    let b = fixed(base + 5 * step, v[1], 50.0, Strength::medium());
    let mut seen = FingerprintMap::new();
    let wishes = semantic_constraints(&[&a, &b]);
    solver.reconcile_semantic_constraints(&mut seen, &wishes).unwrap();
    solver
        .apply_constraint_batch(&[ConstraintBatchOp::Add(fixed(
            base + 6 * step,
            v[0],
            10.0,
            Strength::strong(),
        ))])
        .unwrap();
    v.iter().map(|&x| float(solver.get_value(x))).collect()
}

#[test]
fn rebuilt_constraints_give_the_same_values() {
    let baseline = values(1, 1);
    assert_eq!(baseline[3], 4.0);
    assert_eq!(baseline[0] + baseline[1], baseline[2]);
    assert_eq!(values(1000, 7), baseline);
}

#[test]
fn a_handle_updated_twice_is_kept() {
    let (x, y) = (Variable::from_id(0), Variable::from_id(1));
    let required = Strength::required();
    let mut solver = Solver::new();
    let id = solver.add_constraint(fixed(1, x, 1.0, required)).unwrap();
    let ops = [
        ConstraintBatchOp::Update { id, constraint: fixed(2, x, 2.0, required) },
        ConstraintBatchOp::Update { id, constraint: fixed(3, y, 3.0, required) },
    ];
    let result = solver.apply_constraint_batch(&ops).unwrap();
    assert!(result.added.is_empty() && result.skipped_adds.is_empty());
    assert!(solver.has_constraint(id));
    assert_eq!(float(solver.get_value(x)), 0.0);
    assert_eq!(float(solver.get_value(y)), 3.0);
}

#[test]
fn both_lists_of_a_batch_go_by_what_the_additions_say() {
    let (x, y) = (Variable::from_id(0), Variable::from_id(1));
    let weak = Strength::weak();
    let mut solver = Solver::new();
    let known = fixed(1, x, 1.0, weak);
    solver.add_constraint(known.clone()).unwrap();
    let other = fixed(2, y, 1.0, weak);
    solver.add_constraint(other.clone()).unwrap();
    let ops = [
        ConstraintBatchOp::Add(other),
        ConstraintBatchOp::Add(fixed(3, y, 2.0, weak)),
        ConstraintBatchOp::Add(known.clone()),
        ConstraintBatchOp::Add(fixed(4, x, 2.0, weak)),
        ConstraintBatchOp::Add(known),
        ConstraintBatchOp::Add(fixed(5, x, 2.0, weak)),
    ];
    let result = solver.apply_constraint_batch(&ops).unwrap();
    let added: Vec<usize> = result.added.iter().map(|a| a.0).collect();
    let skipped: Vec<usize> = result.skipped_adds.iter().map(|s| s.0).collect();
    assert_eq!(added, vec![3, 5, 1]);
    assert_eq!(skipped, vec![2, 4, 0]);
    assert!(result.added.windows(2).all(|p| p[0].1 < p[1].1));
    let mut places: Vec<usize> = added;
    places.extend(skipped);
    places.sort();
    assert_eq!(places, vec![0, 1, 2, 3, 4, 5]);
    let copy = result.clone();
    assert_eq!(copy.added, result.added);
    assert_eq!(copy.skipped_adds, result.skipped_adds);
}

#[test]
fn strengths_of_one_size_have_one_fingerprint() {
    let x = Variable::from_id(0);
    let print = |strength: f64| {
        ConstraintFingerprint::new(&fixed(1, x, 1.0, Strength::new(num(strength))))
    };
    assert_eq!(print(0.0), print(-0.0));
    assert_eq!(print(5.0), print(5.0));
    assert_ne!(print(5.0), print(6.0));
}
