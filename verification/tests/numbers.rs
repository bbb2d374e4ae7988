use kasuari::number::{minus_one, not_a_number, one, zero};
use kasuari::{Number, Strength};

fn num(x: f64) -> Number {
    Number::from_bits(x.to_bits())
}

fn float(x: Number) -> f64 {
    f64::from_bits(x.to_bits())
}

/// Equal bits, or both not a number.
fn agree(ours: Number, theirs: f64) -> bool {
    ours.to_bits() == theirs.to_bits() || (float(ours).is_nan() && theirs.is_nan())
}

fn corner_cases() -> Vec<f64> {
    let mut cases = vec![
        0.0,
        1.0,
        1.5,
        2.0,
        3.0,
        10.0,
        0.1,
        0.2,
        0.3,
        1e-8,
        1e-9,
        1e8,
        1e16,
        1e300,
        1e-300,
        1e308,
        f64::MAX,
        f64::MIN_POSITIVE,
        f64::EPSILON,
        f64::from_bits(1),
        f64::from_bits(2),
        f64::from_bits(3),
        f64::from_bits(0x000f_ffff_ffff_ffff),
        f64::from_bits(0x0010_0000_0000_0001),
        f64::from_bits(0x001f_ffff_ffff_ffff),
        f64::from_bits(0x3fef_ffff_ffff_ffff),
        f64::from_bits(0x3ff0_0000_0000_0001),
        f64::from_bits(0x4340_0000_0000_0000),
        f64::from_bits(0x4340_0000_0000_0001),
        f64::INFINITY,
        f64::NAN,
    ];
    let mirrored: Vec<f64> = cases.iter().map(|x| -x).collect();
    cases.extend(mirrored);
    cases
}

fn compare(a: f64, b: f64) {
    assert!(agree(num(a).plus(num(b)), a + b), "{a:e} + {b:e}");
    assert!(agree(num(a).minus(num(b)), a - b), "{a:e} - {b:e}");
    assert!(agree(num(a).times(num(b)), a * b), "{a:e} * {b:e}");
    assert!(agree(num(a).divided_by(num(b)), a / b), "{a:e} / {b:e}");
    assert_eq!(num(a).less_than(num(b)), a < b, "{a:e} < {b:e}");
    assert_eq!(num(a).equals(num(b)), a == b, "{a:e} == {b:e}");
}

#[test]
fn arithmetic_agrees_with_the_machine_at_the_corners() {
    let cases = corner_cases();
    for &a in &cases {
        for &b in &cases {
            compare(a, b);
        }
        assert!(agree(num(a).negated(), -a));
        assert_eq!(num(a).is_nan(), a.is_nan());
        assert_eq!(num(a).near_zero(), a.abs() < 1e-8);
    }
}

#[test]
fn arithmetic_agrees_with_the_machine_on_many_numbers() {
    let mut state: u64 = 0x1234_5678_9abc_def1;
    let mut next = || {
        state ^= state << 13;
        state ^= state >> 7;
        state ^= state << 17;
        state
    };
    for _ in 0..20_000 {
        let (p, q) = (next(), next());
        // Any bits at all.
        compare(f64::from_bits(p), f64::from_bits(q));
        // Numbers of like size, where digits cancel.
        let near = (p & 0x000f_ffff_ffff_ffff) | 0x3ff0_0000_0000_0000;
        let far = (q & 0x801f_ffff_ffff_ffff) | 0x3fe0_0000_0000_0000;
        compare(f64::from_bits(near), f64::from_bits(far));
        // Numbers near the smallest ones.
        let tiny = f64::from_bits(p & 0x803f_ffff_ffff_ffff);
        compare(tiny, f64::from_bits(q & 0x803f_ffff_ffff_ffff));
        compare(tiny, f64::from_bits(far));
    }
}

#[test]
fn exact_results() {
    assert_eq!(num(0.1).plus(num(0.2)).to_bits(), 0x3fd3_3333_3333_3334);
    assert_eq!(float(num(3.0).divided_by(num(4.0))), 0.75);
    assert_eq!(float(num(1e200).times(num(1e200))), f64::INFINITY);
    assert_eq!(num(5.0).minus(num(5.0)).to_bits(), 0);
    assert_eq!(num(-0.0).plus(num(-0.0)).to_bits(), (-0.0f64).to_bits());
    assert!(num(0.0).divided_by(num(0.0)).is_nan());
}

#[test]
fn constants() {
    assert_eq!(float(zero()), 0.0);
    assert_eq!(float(one()), 1.0);
    assert_eq!(float(minus_one()), -1.0);
    assert!(float(not_a_number()).is_nan());
    assert_eq!(float(Strength::required().value), 1_001_001_000.0);
    assert_eq!(float(Strength::strong().value), 1_000_000.0);
    assert_eq!(float(Strength::medium().value), 1_000.0);
    assert_eq!(float(Strength::weak().value), 1.0);
}

#[test]
fn strengths_are_brought_into_range() {
    assert_eq!(float(Strength::new(num(-3.0)).value), 0.0);
    assert_eq!(float(Strength::new(num(17.5)).value), 17.5);
    assert_eq!(Strength::new(num(1e12)), Strength::required());
    assert!(Strength::new(num(f64::NAN)).value.is_nan());
}

#[test]
fn canonical_bits_of_zeros_and_nans() {
    assert_eq!(num(-0.0).canonical_bits(), 0);
    assert_eq!(num(0.0).canonical_bits(), 0);
    assert_eq!(
        num(f64::from_bits(0xfff8_0000_0000_0007)).canonical_bits(),
        num(f64::from_bits(0x7ff0_0000_0000_0001)).canonical_bits()
    );
    assert_eq!(num(-2.5).canonical_bits(), (-2.5f64).to_bits());
}
