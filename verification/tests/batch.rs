use kasuari::{
    AddConstraintError, Constraint, ConstraintBatchApplyError, ConstraintBatchOp, Expression,
    Number, RelationalOperator, RemoveConstraintError, Solver, Strength, Term, Variable,
};

fn num(x: f64) -> Number {
    Number::from_bits(x.to_bits())
}

fn float(x: Number) -> f64 {
    f64::from_bits(x.to_bits())
}

/// `variable == value`.
fn fixed(identity: u64, x: Variable, value: f64, strength: Strength) -> Constraint {
    Constraint::new(
        identity,
        Expression::new(vec![Term::new(x, num(1.0))], num(-value)),
        RelationalOperator::Equal,
        strength,
    )
}

#[test]
fn an_empty_batch_does_nothing() {
    let mut solver = Solver::new();
    let result = solver.apply_constraint_batch(&[]).unwrap();
    assert!(result.added.is_empty());
    assert!(result.skipped_adds.is_empty());
}

#[test]
fn additions_go_by_what_they_say() {
    let (x, y, z) = (Variable::from_id(0), Variable::from_id(1), Variable::from_id(2));
    let mut solver = Solver::new();
    let weak = Strength::weak();
    let ops = [
        ConstraintBatchOp::Add(fixed(1, z, 0.0, weak)),
        ConstraintBatchOp::Add(fixed(2, x, 0.0, weak)),
        ConstraintBatchOp::Add(fixed(3, y, 0.0, weak)),
    ];
    let result = solver.apply_constraint_batch(&ops).unwrap();
    let places: Vec<usize> = result.added.iter().map(|a| a.0).collect();
    assert_eq!(places, vec![1, 2, 0]);
    let handles: Vec<u64> = result.added.iter().map(|a| a.1.get()).collect();
    assert_eq!(handles, vec![1, 2, 3]);
}

#[test]
fn removals_come_before_additions_and_updates_keep_handles() {
    let x = Variable::from_id(0);
    let required = Strength::required();
    let mut solver = Solver::new();
    let old = solver.add_constraint(fixed(1, x, 5.0, required)).unwrap();
    let ops = [
        ConstraintBatchOp::Add(fixed(2, x, 6.0, required)),
        ConstraintBatchOp::Remove(old),
    ];
    let result = solver.apply_constraint_batch(&ops).unwrap();
    assert_eq!(result.added.len(), 1);
    assert_eq!(float(solver.get_value(x)), 6.0);
    assert!(!solver.has_constraint(old));

    let id = result.added[0].1;
    let ops = [ConstraintBatchOp::Update { id, constraint: fixed(3, x, 7.0, required) }];
    let result = solver.apply_constraint_batch(&ops).unwrap();
    assert!(result.added.is_empty());
    assert!(solver.has_constraint(id));
    assert_eq!(float(solver.get_value(x)), 7.0);
}

#[test]
fn the_order_of_a_batch_does_not_matter() {
    let v: Vec<Variable> = (0..5).map(Variable::from_id).collect();
    let build = |order: &[usize]| {
        let mut solver = Solver::new();
        let a = solver.add_constraint(fixed(10, v[0], 1.0, Strength::medium())).unwrap();
        let b = solver.add_constraint(fixed(11, v[1], 2.0, Strength::medium())).unwrap();
        let ops = [
            ConstraintBatchOp::Add(fixed(1, v[2], 3.0, Strength::weak())),
            ConstraintBatchOp::Add(fixed(2, v[3], 4.0, Strength::strong())),
            ConstraintBatchOp::Remove(a),
            ConstraintBatchOp::Update { id: b, constraint: fixed(3, v[1], 9.0, Strength::weak()) },
            ConstraintBatchOp::Add(fixed(4, v[4], 5.0, Strength::required())),
        ];
        let batch: Vec<ConstraintBatchOp> = order.iter().map(|&i| ops[i].clone()).collect();
        let result = solver.apply_constraint_batch(&batch).unwrap();
        let added: Vec<(usize, u64)> =
            result.added.iter().map(|e| (order[e.0], e.1.get())).collect();
        let values: Vec<f64> = v.iter().map(|&x| float(solver.get_value(x))).collect();
        (added, values)
    };
    let baseline = build(&[0, 1, 2, 3, 4]);
    assert_eq!(baseline.1, vec![0.0, 9.0, 3.0, 4.0, 5.0]);
    assert_eq!(build(&[4, 3, 2, 1, 0]), baseline);
    assert_eq!(build(&[2, 0, 4, 1, 3]), baseline);
}

#[test]
fn refused_additions_are_passed_over() {
    let x = Variable::from_id(0);
    let required = Strength::required();
    let mut solver = Solver::new();
    let c = fixed(1, x, 5.0, required);
    solver.add_constraint(c.clone()).unwrap();
    let ops = [
        ConstraintBatchOp::Add(c),
        ConstraintBatchOp::Add(fixed(2, x, 6.0, required)),
        ConstraintBatchOp::Add(fixed(3, x, 7.0, Strength::weak())),
    ];
    let mut result = solver.apply_constraint_batch(&ops).unwrap();
    result.skipped_adds.sort_by_key(|e| e.0);
    assert_eq!(
        result.skipped_adds,
        vec![
            (0, AddConstraintError::DuplicateConstraint),
            (1, AddConstraintError::UnsatisfiableConstraint),
        ]
    );
    assert_eq!(result.added.len(), 1);
    assert_eq!(result.added[0].0, 2);
}

#[test]
fn failures_name_the_change() {
    let (x, y) = (Variable::from_id(0), Variable::from_id(1));
    let required = Strength::required();
    let mut solver = Solver::new();
    let gone = solver.add_constraint(fixed(1, x, 5.0, required)).unwrap();
    solver.remove_constraint(gone).unwrap();
    assert_eq!(
        solver
            .apply_constraint_batch(&[
                ConstraintBatchOp::Add(fixed(2, y, 1.0, required)),
                ConstraintBatchOp::Remove(gone),
            ])
            .unwrap_err(),
        ConstraintBatchApplyError::Remove {
            index: 1,
            source: RemoveConstraintError::UnknownConstraint
        }
    );
    assert_eq!(
        solver
            .apply_constraint_batch(&[ConstraintBatchOp::Update {
                id: gone,
                constraint: fixed(3, y, 1.0, required)
            }])
            .unwrap_err(),
        ConstraintBatchApplyError::UpdateRemove {
            index: 0,
            source: RemoveConstraintError::UnknownConstraint
        }
    );
    let c = fixed(4, y, 1.0, required);
    let kept = solver.add_constraint(c.clone()).unwrap();
    let other = solver.add_constraint(fixed(5, x, 1.0, required)).unwrap();
    assert_eq!(
        solver
            .apply_constraint_batch(&[ConstraintBatchOp::Update { id: other, constraint: c }])
            .unwrap_err(),
        ConstraintBatchApplyError::UpdateAdd {
            index: 0,
            source: AddConstraintError::DuplicateConstraint
        }
    );
    assert!(solver.has_constraint(kept));
    assert!(!solver.has_constraint(other));
}
