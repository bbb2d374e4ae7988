use kasuari::{
    merge_semantic_constraints, semantic_constraints, semantic_constraints_with_mode, Constraint,
    ConstraintFingerprint, DuplicateFingerprintMode, Expression, FingerprintMap, Number,
    RelationalOperator, Strength, Term, Variable,
};

fn num(x: f64) -> Number {
    Number::from_bits(x.to_bits())
}

/// `variable == 0`, of medium strength.
fn zeroed(identity: u64, x: Variable) -> Constraint {
    equation(identity, &[(x, 1.0)], 0.0)
}

/// The sum of some terms and a constant is zero, with medium strength.
fn equation(identity: u64, terms: &[(Variable, f64)], constant: f64) -> Constraint {
    let terms: Vec<Term> = terms.iter().map(|t| Term::new(t.0, num(t.1))).collect();
    Constraint::new(
        identity,
        Expression::new(terms, num(constant)),
        RelationalOperator::Equal,
        Strength::medium(),
    )
}

#[test]
fn constraint_fingerprint_should_be_semantic_only() {
    let x = Variable::from_id(0);

    let c0_a = zeroed(1, x);
    let c0_b = zeroed(2, x);
    assert_ne!(c0_a, c0_b, "Constraint Eq should be pointer identity");

    assert_eq!(
        ConstraintFingerprint::new(&c0_a),
        ConstraintFingerprint::new(&c0_b),
        "ConstraintFingerprint should ignore pointer identity"
    );
}

#[test]
fn semantic_constraints_should_dedup_by_fingerprint_keep_first() {
    let x = Variable::from_id(0);

    let first = zeroed(1, x);
    let second = zeroed(2, x);
    assert_ne!(first, second);

    let set = semantic_constraints(&[&first, &second]);
    assert_eq!(set.len(), 1);

    let fp = ConstraintFingerprint::new(&first);
    let kept = set.get(&fp).expect("should keep the fingerprint entry");
    assert_eq!(kept, &first, "should keep first constraint object");
    assert_ne!(kept, &second, "should not replace with later duplicate");
}

#[test]
fn semantic_constraints_error_mode_should_report_duplicate() {
    let x = Variable::from_id(0);

    let c0_a = zeroed(1, x);
    let c0_b = zeroed(2, x);
    let fp = ConstraintFingerprint::new(&c0_a);

    let err = semantic_constraints_with_mode(&[&c0_a, &c0_b], DuplicateFingerprintMode::Error)
        .expect_err("should error on duplicate fingerprints");

    assert_eq!(err.fingerprint, fp);
    assert_eq!(err.count, 2);
}

#[test]
fn merge_semantic_constraints_should_reuse_previous_object() {
    let x = Variable::from_id(0);

    let old = zeroed(1, x);
    let new = zeroed(2, x);
    assert_ne!(old, new);

    let previous = semantic_constraints(&[&old]);
    let newest = semantic_constraints(&[&new]);

    let merged = merge_semantic_constraints(&previous, &newest);

    let fp = ConstraintFingerprint::new(&old);
    let merged_c = merged.get(&fp).expect("merged should contain fingerprint");

    assert_eq!(
        merged_c, &old,
        "merged should reuse previous constraint object"
    );
    assert_ne!(merged_c, &new, "merged should not use newly created object");
}

#[test]
fn constraint_fingerprint_should_normalize_zero_and_near_zero_terms() {
    let x = Variable::from_id(0);
    let y = Variable::from_id(1);

    let baseline = equation(1, &[(x, 1.0)], 0.0);
    let with_negative_zero = equation(2, &[(x, 1.0), (y, -0.0)], -0.0);
    let with_near_zero = equation(3, &[(x, 1.0), (y, 1e-9)], 0.0);

    let fp_baseline = ConstraintFingerprint::new(&baseline);
    assert_eq!(
        fp_baseline,
        ConstraintFingerprint::new(&with_negative_zero),
        "negative zero term/constant should be normalized"
    );
    assert_eq!(
        fp_baseline,
        ConstraintFingerprint::new(&with_near_zero),
        "near-zero coefficient term should be dropped"
    );
}

#[test]
fn constraint_fingerprint_should_merge_duplicate_terms_and_drop_near_zero_sum() {
    let x = Variable::from_id(0);
    let y = Variable::from_id(1);

    let c_dup = equation(1, &[(x, 1.0), (x, 1.0)], 0.0);
    let c_merged = equation(2, &[(x, 2.0)], 0.0);
    assert_eq!(
        ConstraintFingerprint::new(&c_dup),
        ConstraintFingerprint::new(&c_merged),
        "duplicate terms should be merged by summing coefficients"
    );

    let c_cancel = equation(3, &[(x, 1.0), (x, -1.0), (y, 1.0)], 0.0);
    let c_y_only = equation(4, &[(y, 1.0)], 0.0);
    assert_eq!(
        ConstraintFingerprint::new(&c_cancel),
        ConstraintFingerprint::new(&c_y_only),
        "merged coefficient should drop near-zero sum"
    );
}

#[test]
fn constraint_fingerprint_should_canonicalize_nan_bits() {
    let x = Variable::from_id(0);

    let nan_a = f64::from_bits(0x7ff8_0000_0000_0001);
    let nan_b = f64::from_bits(0x7ff8_0000_0000_0002);
    assert!(nan_a.is_nan());
    assert!(nan_b.is_nan());

    let c1 = equation(1, &[(x, 1.0)], nan_a);
    let c2 = equation(2, &[(x, 1.0)], nan_b);
    assert_eq!(
        ConstraintFingerprint::new(&c1),
        ConstraintFingerprint::new(&c2),
        "NaN constant bits should be canonicalized"
    );

    let c3 = equation(3, &[(x, nan_a)], 0.0);
    let c4 = equation(4, &[(x, nan_b)], 0.0);
    assert_eq!(
        ConstraintFingerprint::new(&c3),
        ConstraintFingerprint::new(&c4),
        "NaN coefficient bits should be canonicalized"
    );
}

#[test]
fn fingerprint_ignores_the_order_of_terms() {
    let (x, y, z) = (Variable::from_id(3), Variable::from_id(9), Variable::from_id(1));
    let a = equation(1, &[(x, 0.1), (y, -2.5), (x, 0.2), (z, 4.0), (x, 0.3)], 7.0);
    let b = equation(2, &[(z, 4.0), (x, 0.3), (x, 0.2), (y, -2.5), (x, 0.1)], 7.0);
    assert_eq!(ConstraintFingerprint::new(&a), ConstraintFingerprint::new(&b));
}

#[test]
fn fingerprint_tells_different_constraints_apart() {
    let (x, y) = (Variable::from_id(0), Variable::from_id(1));
    let base = ConstraintFingerprint::new(&equation(1, &[(x, 1.0)], 0.0));
    assert_ne!(base, ConstraintFingerprint::new(&equation(2, &[(y, 1.0)], 0.0)));
    assert_ne!(base, ConstraintFingerprint::new(&equation(3, &[(x, 2.0)], 0.0)));
    assert_ne!(base, ConstraintFingerprint::new(&equation(4, &[(x, 1.0)], 1.0)));
    let terms = || vec![Term::new(x, num(1.0))];
    assert_ne!(
        base,
        ConstraintFingerprint::new(&Constraint::new(
            5,
            Expression::new(terms(), num(0.0)),
            RelationalOperator::LessOrEqual,
            Strength::medium(),
        ))
    );
    assert_ne!(
        base,
        ConstraintFingerprint::new(&Constraint::new(
            6,
            Expression::new(terms(), num(0.0)),
            RelationalOperator::Equal,
            Strength::strong(),
        ))
    );
    assert_eq!(base, base.clone());
}

#[test]
fn ignoring_duplicates_never_fails() {
    let x = Variable::from_id(0);
    let y = Variable::from_id(1);
    let cs = [zeroed(1, x), zeroed(2, y), zeroed(3, x), zeroed(4, x)];
    let refs: Vec<&Constraint> = cs.iter().collect();
    let set = semantic_constraints_with_mode(&refs, DuplicateFingerprintMode::Ignore).unwrap();
    assert_eq!(set.len(), 2);
    assert_eq!(set.get(&ConstraintFingerprint::new(&cs[3])), Some(&cs[0]));
    let err = semantic_constraints_with_mode(&refs, DuplicateFingerprintMode::Error).unwrap_err();
    assert_eq!(err.count, 3);
    assert_eq!(err.fingerprint, ConstraintFingerprint::new(&cs[0]));
    let set = semantic_constraints_with_mode(&refs[..2], DuplicateFingerprintMode::Error).unwrap();
    assert_eq!(set.len(), 2);
    assert!(semantic_constraints(&[]).is_empty());
}

#[test]
fn smallest_repeated_fingerprint_is_reported() {
    let x = Variable::from_id(0);
    let y = Variable::from_id(1);
    let cs = [zeroed(1, y), zeroed(2, y), zeroed(3, x), zeroed(4, x), zeroed(5, x)];
    let refs: Vec<&Constraint> = cs.iter().collect();
    let err = semantic_constraints_with_mode(&refs, DuplicateFingerprintMode::Error).unwrap_err();
    assert_eq!(err.fingerprint, ConstraintFingerprint::new(&cs[2]));
    assert_eq!(err.count, 3);
}

#[test]
fn merge_takes_the_keys_of_the_newest() {
    let (x, y, z) = (Variable::from_id(0), Variable::from_id(1), Variable::from_id(2));
    let (old_x, old_y) = (zeroed(1, x), zeroed(2, y));
    let (new_y, new_z) = (zeroed(3, y), zeroed(4, z));
    let merged = merge_semantic_constraints(
        &semantic_constraints(&[&old_x, &old_y]),
        &semantic_constraints(&[&new_y, &new_z]),
    );
    assert_eq!(merged.len(), 2);
    assert_eq!(merged.get(&ConstraintFingerprint::new(&old_x)), None);
    assert_eq!(merged.get(&ConstraintFingerprint::new(&new_y)), Some(&old_y));
    assert_eq!(merged.get(&ConstraintFingerprint::new(&new_z)), Some(&new_z));
}

#[test]
fn maps_are_equal_if_they_hold_the_same() {
    let (x, y) = (Variable::from_id(0), Variable::from_id(1));
    let (a, b) = (zeroed(1, x), zeroed(2, y));
    let both = semantic_constraints(&[&a, &b]);
    assert_eq!(both.clone(), both);
    assert_eq!(semantic_constraints(&[&b, &a]), both);
    assert_ne!(semantic_constraints(&[&a]), both);
    // The same fingerprints, with another object under one of them.
    assert_ne!(semantic_constraints(&[&a, &zeroed(3, y)]), both);
    assert_eq!(FingerprintMap::<u64>::default(), FingerprintMap::new());
}
