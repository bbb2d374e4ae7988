use kasuari::{Constraint, Expression, Number, RelationalOperator, Solver, Strength, Term, Variable};

fn num(x: f64) -> Number {
    Number::from_bits(x.to_bits())
}

fn float(x: Number) -> f64 {
    f64::from_bits(x.to_bits())
}

/// A constraint between the sum of some terms, plus a constant, and zero.
fn relation(
    identity: u64,
    terms: &[(Variable, f64)],
    constant: f64,
    op: RelationalOperator,
    strength: Strength,
) -> Constraint {
    let terms: Vec<Term> = terms.iter().map(|t| Term::new(t.0, num(t.1))).collect();
    Constraint::new(identity, Expression::new(terms, num(constant)), op, strength)
}

const LE: RelationalOperator = RelationalOperator::LessOrEqual;
const EQ: RelationalOperator = RelationalOperator::Equal;
const GE: RelationalOperator = RelationalOperator::GreaterOrEqual;

#[test]
fn ambiguous_weak_constraints_should_be_deterministic_across_solver_instances() {
    let window_width = Variable::from_id(0);
    let box1_left = Variable::from_id(1);
    let box1_right = Variable::from_id(2);
    let box2_left = Variable::from_id(3);
    let box2_right = Variable::from_id(4);

    let solve = || -> (f64, f64, f64, f64) {
        let mut solver = Solver::new();
        let required = Strength::required();
        let weak = Strength::weak();
        solver
            .add_constraints(vec![
                relation(1, &[(window_width, 1.0)], 0.0, GE, required),
                relation(2, &[(box1_left, 1.0)], 0.0, EQ, required),
                relation(3, &[(box2_right, 1.0), (window_width, -1.0)], 0.0, EQ, required),
                relation(4, &[(box2_left, 1.0), (box1_right, -1.0)], 0.0, GE, required),
                relation(5, &[(box1_left, 1.0), (box1_right, -1.0)], 0.0, LE, required),
                relation(6, &[(box2_left, 1.0), (box2_right, -1.0)], 0.0, LE, required),
                relation(7, &[(box1_right, 1.0), (box1_left, -1.0)], -50.0, EQ, weak),
                relation(8, &[(box2_right, 1.0), (box2_left, -1.0)], -100.0, EQ, weak),
            ])
            .unwrap();

        solver.add_edit_variable(window_width, Strength::strong()).unwrap();
        solver.suggest_value(window_width, num(75.0)).unwrap();

        let _ = solver.fetch_changes();

        (
            float(solver.get_value(box1_right)),
            float(solver.get_value(box2_left)),
            float(solver.get_value(box2_right)),
            float(solver.get_value(window_width)),
        )
    };

    let baseline = solve();

    for _ in 0..64 {
        let got = solve();
        assert_eq!(
            got, baseline,
            "solver should be deterministic: baseline={baseline:?} got={got:?}"
        );
    }

    // The window is as wide as suggested, and the boxes fill it without overlap.
    assert_eq!(baseline.3, 75.0);
    assert_eq!(baseline.2, 75.0);
    assert!(baseline.0 <= baseline.1 && baseline.1 <= baseline.2);
}

#[test]
fn underconstrained_chain_should_be_deterministic_across_solver_instances() {
    let a = Variable::from_id(0);
    let b = Variable::from_id(1);
    let c = Variable::from_id(2);

    let solve = || -> (f64, f64, f64) {
        let mut solver = Solver::new();
        let required = Strength::required();
        solver
            .add_constraints(vec![
                relation(1, &[(b, 1.0), (a, -1.0)], -8.0, EQ, required),
                relation(2, &[(c, 1.0), (b, -1.0)], -8.0, EQ, required),
            ])
            .unwrap();

        let _ = solver.fetch_changes();

        (
            float(solver.get_value(a)),
            float(solver.get_value(b)),
            float(solver.get_value(c)),
        )
    };

    let baseline = solve();

    for _ in 0..64 {
        let got = solve();
        assert_eq!(
            got, baseline,
            "solver should be deterministic: baseline={baseline:?} got={got:?}"
        );

        assert!(((got.1 - got.0) - 8.0).abs() < 1e-9);
        assert!(((got.2 - got.1) - 8.0).abs() < 1e-9);
    }
}
