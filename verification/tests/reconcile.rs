use kasuari::{
    semantic_constraints, AddConstraintError, Constraint, ConstraintBatchApplyError,
    ConstraintFingerprint, ConstraintId, Expression, FingerprintMap, Number, RelationalOperator,
    RemoveConstraintError, SemanticReconcileResult, Solver, Strength, Term, Variable,
};

fn num(x: f64) -> Number {
    Number::from_bits(x.to_bits())
}

/// `variable == value`.
fn fixed(identity: u64, x: Variable, value: f64, strength: Strength) -> Constraint {
    Constraint::new(
        identity,
        Expression::new(vec![Term::new(x, num(1.0))], num(-value)),
        RelationalOperator::Equal,
        strength,
    )
}

/// `variable == 0`, of medium strength.
fn zeroed(identity: u64, x: Variable) -> Constraint {
    Constraint::new(
        identity,
        Expression::new(vec![Term::new(x, num(1.0))], num(0.0)),
        RelationalOperator::Equal,
        Strength::medium(),
    )
}

#[test]
fn reconcile_should_keep_constraint_id_when_semantics_same_but_object_rebuilt() {
    let x = Variable::from_id(0);

    let old = zeroed(1, x);
    let rebuilt = zeroed(2, x);
    assert_ne!(old, rebuilt, "Constraint Eq should be pointer identity");

    let fp = ConstraintFingerprint::new(&old);

    let mut solver = Solver::new();
    let old_id = solver.add_constraint(old.clone()).unwrap();

    let mut last_observation: FingerprintMap<ConstraintId> = FingerprintMap::new();
    last_observation.insert(fp.clone(), old_id);

    let newest = semantic_constraints(&[&rebuilt]);

    let report: SemanticReconcileResult = solver
        .reconcile_semantic_constraints(&mut last_observation, &newest)
        .expect("reconcile should succeed");

    assert!(!report.did_update);
    assert_eq!(last_observation.get(&fp), Some(&old_id));
    assert!(solver.has_constraint(old_id));
}

#[test]
fn reconcile_should_remove_constraints_not_in_newest() {
    let x = Variable::from_id(0);
    let y = Variable::from_id(1);

    let c1 = zeroed(1, x);
    let c2 = zeroed(2, y);

    let fp1 = ConstraintFingerprint::new(&c1);
    let fp2 = ConstraintFingerprint::new(&c2);

    let mut solver = Solver::new();
    let c1_id = solver.add_constraint(c1.clone()).unwrap();
    let c2_id = solver.add_constraint(c2.clone()).unwrap();

    let mut last_observation: FingerprintMap<ConstraintId> = FingerprintMap::new();
    last_observation.insert(fp1.clone(), c1_id);
    last_observation.insert(fp2.clone(), c2_id);

    let newest = semantic_constraints(&[&c1]);
    let report = solver
        .reconcile_semantic_constraints(&mut last_observation, &newest)
        .expect("reconcile should succeed");

    assert!(report.did_update);
    assert!(solver.has_constraint(c1_id));
    assert!(!solver.has_constraint(c2_id));
    assert!(last_observation.contains_key(&fp1));
    assert!(!last_observation.contains_key(&fp2));
}

#[test]
fn reconcile_should_add_new_constraints_and_update_mapping() {
    let x = Variable::from_id(0);
    let y = Variable::from_id(1);

    let c1 = zeroed(1, x);
    let c2 = zeroed(2, y);

    let fp1 = ConstraintFingerprint::new(&c1);
    let fp2 = ConstraintFingerprint::new(&c2);

    let mut solver = Solver::new();
    let c1_id = solver.add_constraint(c1.clone()).unwrap();

    let mut last_observation: FingerprintMap<ConstraintId> = FingerprintMap::new();
    last_observation.insert(fp1.clone(), c1_id);

    let newest = semantic_constraints(&[&c1, &c2]);
    let report = solver
        .reconcile_semantic_constraints(&mut last_observation, &newest)
        .expect("reconcile should succeed");

    assert!(report.did_update);
    assert_eq!(last_observation.get(&fp1), Some(&c1_id));

    let c2_id = *last_observation.get(&fp2).expect("should insert new id");
    assert!(solver.has_constraint(c2_id));
    assert_ne!(c1_id, c2_id);
}

#[test]
fn reconcile_repairs_what_the_solver_has_lost() {
    let x = Variable::from_id(0);
    let c = zeroed(1, x);
    let fp = ConstraintFingerprint::new(&c);
    let mut solver = Solver::new();
    let id = solver.add_constraint(c.clone()).unwrap();
    solver.remove_constraint(id).unwrap();

    let mut last: FingerprintMap<ConstraintId> = FingerprintMap::new();
    last.insert(fp.clone(), id);
    let newest = semantic_constraints(&[&c]);
    let report = solver.reconcile_semantic_constraints(&mut last, &newest).unwrap();
    let new_id = *last.get(&fp).unwrap();
    assert!(report.did_update);
    assert_ne!(new_id, id);
    assert!(solver.has_constraint(new_id));
    assert!(report.added_fingerprints.is_empty());
    assert_eq!(report.repaired_fingerprints, vec![(fp.clone(), new_id)]);

    // Once more: nothing is left to do.
    let report = solver.reconcile_semantic_constraints(&mut last, &newest).unwrap();
    assert!(!report.did_update);
    assert!(report.repaired_fingerprints.is_empty());
    assert_eq!(last.get(&fp), Some(&new_id));
}

#[test]
fn reconcile_reports_what_the_solver_passes_over() {
    let x = Variable::from_id(0);
    let one = fixed(1, x, 1.0, Strength::required());
    let two = fixed(2, x, 2.0, Strength::required());
    let mut solver = Solver::new();
    let mut last: FingerprintMap<ConstraintId> = FingerprintMap::new();
    let newest = semantic_constraints(&[&one, &two]);
    let report = solver.reconcile_semantic_constraints(&mut last, &newest).unwrap();
    assert!(report.did_update);
    assert_eq!(last.len(), 1);
    assert_eq!(report.added_fingerprints.len(), 1);
    assert_eq!(report.skipped_adds.len(), 1);
    assert_eq!(report.skipped_adds[0].1, AddConstraintError::UnsatisfiableConstraint);
    assert!(!last.contains_key(&report.skipped_adds[0].0));
    assert!(report.removed_fingerprints.is_empty());
    let copy = report.clone();
    assert!(copy.did_update);
    assert_eq!(copy.removed_fingerprints, report.removed_fingerprints);
    assert_eq!(copy.added_fingerprints, report.added_fingerprints);
    assert_eq!(copy.repaired_fingerprints, report.repaired_fingerprints);
    assert_eq!(copy.skipped_adds, report.skipped_adds);
}

#[test]
fn reconcile_forgets_stale_handles() {
    let x = Variable::from_id(0);
    let c = zeroed(1, x);
    let fp = ConstraintFingerprint::new(&c);
    let mut solver = Solver::new();
    let id = solver.add_constraint(c).unwrap();
    solver.remove_constraint(id).unwrap();
    let mut last: FingerprintMap<ConstraintId> = FingerprintMap::new();
    last.insert(fp.clone(), id);
    let report = solver
        .reconcile_semantic_constraints(&mut last, &semantic_constraints(&[]))
        .unwrap();
    assert!(report.did_update);
    assert_eq!(report.removed_fingerprints, vec![fp]);
    assert!(last.is_empty());
}

#[test]
fn reconcile_leaves_the_observation_alone_where_it_fails() {
    let (x, y) = (Variable::from_id(0), Variable::from_id(1));
    let (c, d) = (zeroed(1, x), zeroed(2, y));
    let mut solver = Solver::new();
    let id = solver.add_constraint(c.clone()).unwrap();
    // Two fingerprints with one handle: its second removal fails.
    let mut last: FingerprintMap<ConstraintId> = FingerprintMap::new();
    last.insert(ConstraintFingerprint::new(&c), id);
    last.insert(ConstraintFingerprint::new(&d), id);
    let err = solver
        .reconcile_semantic_constraints(&mut last, &semantic_constraints(&[]))
        .unwrap_err();
    assert_eq!(
        err,
        ConstraintBatchApplyError::Remove {
            index: 1,
            source: RemoveConstraintError::UnknownConstraint
        }
    );
    assert_eq!(last.len(), 2);
    assert!(!solver.has_constraint(id));
}
