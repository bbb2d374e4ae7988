//! Numbers among which nothing is rounded.
use crate::exact::{
    accrues, adds_up, exact, inverts, is_worth, lemma_plain_product, lemma_worth, multiplies, ranks,
    worth,
};
use crate::number::{
    lemma_rounded_units, lemma_units_increase, minus_one, nearest_even, nearest_magnitude, one,
    rounded, signed, units, zero, Number, BINADE, EPSILON, UNIT_EXPONENT,
};
use vstd::arithmetic::div_mod::{lemma_fundamental_div_mod, lemma_fundamental_div_mod_converse};
use vstd::arithmetic::power2::{lemma2_to64_rest, lemma_pow2_adds, lemma_pow2_pos, pow2};
use vstd::prelude::*;

verus! {

/// Zero and one, with either sign.
pub open spec fn trits() -> Set<Number> {
    set![zero(), zero().negation(), one(), minus_one()]
}

/// A common factor does not matter to the nearest integer.
proof fn lemma_nearest_even_scaled(n: nat, d: nat, k: nat)
    requires
        d > 0,
        k > 0,
    ensures
        nearest_even(n * k, d * k) == nearest_even(n, d),
{
    let q = n / d;
    let r = n % d;
    lemma_fundamental_div_mod(n as int, d as int);
    assert(n * k == q * (d * k) + r * k && 0 <= r * k < d * k) by (nonlinear_arith)
        requires
            n == d * q + r,
            r < d,
            k > 0,
    ;
    lemma_fundamental_div_mod_converse((n * k) as int, (d * k) as int, q as int, (r * k) as int);
    assert((2 * (r * k) > d * k <==> 2 * r > d) && (2 * (r * k) == d * k <==> 2 * r == d))
        by (nonlinear_arith)
        requires
            k > 0,
    ;
}

/// A common factor does not matter to the nearest magnitude.
proof fn lemma_nearest_magnitude_scaled(n: nat, d: nat, k: nat)
    requires
        d > 0,
        k > 0,
    ensures
        nearest_magnitude(n * k, d * k) == nearest_magnitude(n, d),
    decreases n - d,
{
    let p: nat = 2 * BINADE as nat;
    assert(d * k > 0) by (nonlinear_arith)
        requires
            d > 0,
            k > 0,
    ;
    assert((d * k) * p == (d * p) * k) by (nonlinear_arith);
    let e = d * p;
    assert(n * k < e * k <==> n < e) by (nonlinear_arith)
        requires
            k > 0,
    ;
    if n < d * p {
        lemma_nearest_even_scaled(n, d, k);
    } else {
        assert(d * p >= 2 * d) by (nonlinear_arith)
            requires
                p >= 2,
        ;
        lemma_nearest_magnitude_scaled(n, 2 * d, k);
        assert((2 * d) * k == 2 * (d * k)) by (nonlinear_arith);
    }
}

/// The number one holds so many units, and the number two twice as many.
proof fn lemma_one_units()
    ensures
        units(0) == 0,
        units(one().bits as nat) == pow2(UNIT_EXPONENT as nat),
        units(0x4000_0000_0000_0000) == 2 * pow2(UNIT_EXPONENT as nat),
        pow2(UNIT_EXPONENT as nat) > 0,
        rounded(0, 1) == 0,
        rounded(0, pow2(UNIT_EXPONENT as nat)) == 0,
        rounded(pow2(UNIT_EXPONENT as nat), 1) == one().bits,
        rounded(2 * pow2(UNIT_EXPONENT as nat), 1) == 0x4000_0000_0000_0000,
        rounded(
            pow2(UNIT_EXPONENT as nat) * pow2(UNIT_EXPONENT as nat),
            pow2(UNIT_EXPONENT as nat),
        ) == one().bits,
{
    reveal(units);
    let u = pow2(UNIT_EXPONENT as nat);
    lemma2_to64_rest();
    lemma_pow2_pos(UNIT_EXPONENT as nat);
    lemma_pow2_adds(52, 1022);
    lemma_pow2_adds(52, 1023);
    lemma_pow2_adds(1, 1074);
    assert(pow2(1) == 2) by {
        vstd::arithmetic::power2::lemma2_to64();
    }
    lemma_rounded_units(0);
    lemma_rounded_units(one().bits as nat);
    lemma_rounded_units(0x4000_0000_0000_0000);
    lemma_nearest_magnitude_scaled(u, 1, u);
    lemma_nearest_magnitude_scaled(0, 1, u);
    assert(0 * u == 0 && 1 * u == u);
}

/// What the four numbers and two are worth.
proof fn lemma_trits()
    ensures
        forall|a: Number| #[trigger]
            trits().contains(a) ==> !a.nan() && !a.infinite() && (a.magnitude() == 0
                || a.magnitude() == one().bits) && worth(a) == (if a.magnitude() == 0 {
                0 as real
            } else if a.negative() {
                -1 as real
            } else {
                1 as real
            }),
        forall|a: Number|
            (#[trigger] a.magnitude() == 0 || a.magnitude() == one().bits) ==> trits().contains(a),
        forall|negative: bool|
            worth(#[trigger] signed(negative, 0x4000_0000_0000_0000)) == if negative {
                -2 as real
            } else {
                2 as real
            },
{
    lemma_worth();
    lemma_one_units();
    reveal(Number::value);
    let u = one().value();
    assert((2 * u) as real / u as real == 2 as real && (-2 * u) as real / u as real == -2 as real)
        by (nonlinear_arith)
        requires
            u > 0,
    ;
    assert forall|a: Number| (#[trigger] a.magnitude() == 0 || a.magnitude() == one().bits) implies
        trits().contains(a) by {
        assert(a == zero() || a == zero().negation() || a == one() || a == minus_one());
    }
}

proof fn lemma_trits_add(a: Number, b: Number)
    requires
        trits().contains(a),
        trits().contains(b),
    ensures
        adds_up(a, b),
{
    lemma_worth();
    lemma_trits();
    lemma_one_units();
    reveal(Number::sum);
    reveal(Number::value);
    let u = pow2(UNIT_EXPONENT as nat);
    lemma_units_increase(EPSILON as nat, one().bits as nat);
    lemma_units_increase(EPSILON as nat, 0x4000_0000_0000_0000);
    let s = a.sum(b);
    let v = a.value() + b.value();
    assert(a.value() == 0 || a.value() == u || a.value() == -u);
    assert(b.value() == 0 || b.value() == u || b.value() == -u);
    if v == 0 {
        assert(s.magnitude() == 0);
        assert(trits().contains(s));
    } else if v == u || v == -u {
        assert(s == signed(v < 0, one().bits));
        assert(trits().contains(s));
    } else {
        assert(s == signed(v < 0, 0x4000_0000_0000_0000));
    }
}

proof fn lemma_no_product(a: nat, b: nat)
    ensures
        a == 0 || b == 0 ==> a * b == 0,
{
    assert(a == 0 || b == 0 ==> a * b == 0) by (nonlinear_arith);
}

proof fn lemma_trits_multiply(a: Number, b: Number)
    requires
        trits().contains(a),
        trits().contains(b),
    ensures
        trits().contains(a.product(b)),
        worth(a.product(b)) == worth(a) * worth(b),
        worth(b) != 0 as real ==> trits().contains(a.quotient(b)) && worth(a.quotient(b)) * worth(b)
            == worth(a),
{
    lemma_worth();
    lemma_trits();
    lemma_one_units();
    reveal(Number::product);
    reveal(Number::quotient);
    let u = pow2(UNIT_EXPONENT as nat);
    assert(0 * u == 0 && u * 0 == 0);
    lemma_plain_product(worth(a));
    lemma_plain_product(worth(b));
    let negative = a.negative() != b.negative();
    let p = a.product(b);
    let n = units(a.magnitude() as nat) * units(b.magnitude() as nat);
    assert(p == signed(negative, rounded(n, u)));
    if a.magnitude() == 0 || b.magnitude() == 0 {
        lemma_no_product(units(a.magnitude() as nat), units(b.magnitude() as nat));
        assert(n == 0);
        assert(p.magnitude() == 0);
    } else {
        assert(n == u * u);
        assert(p == signed(negative, one().bits));
        assert(p.magnitude() == one().bits);
    }
    assert(trits().contains(p));
    if worth(b) != 0 as real {
        let q = a.quotient(b);
        let k = units(a.magnitude() as nat) * u;
        lemma_no_product(units(a.magnitude() as nat), u);
        assert(q == signed(negative, rounded(k, u)));
        assert(q.magnitude() == a.magnitude());
        assert(trits().contains(q));
        lemma_plain_product(worth(q));
    }
}

/// Among zero and one, with either sign, nothing is rounded.
pub proof fn law_trits_are_exact()
    ensures
        exact(trits()),
{
    let z = trits();
    lemma_worth();
    lemma_trits();
    lemma_one_units();
    lemma_units_increase(EPSILON as nat, one().bits as nat);
    assert forall|a: Number| #[trigger] z.contains(a) implies is_worth(a, worth(a)) by {}
    assert forall|a: Number| z.contains(a) implies z.contains(#[trigger] a.negation()) by {
        assert(a.negation().magnitude() == a.magnitude());
    }
    assert forall|a: Number| z.contains(a) implies #[trigger] inverts(z, a) by {
        lemma_trits_multiply(minus_one(), a);
    }
    assert forall|a: Number, b: Number| z.contains(a) && z.contains(b) implies #[trigger] adds_up(
        a,
        b,
    ) && multiplies(a, b) by {
        lemma_trits_add(a, b);
        lemma_trits_multiply(a, b);
    }
    assert forall|a: Number, b: Number, c: Number|
        z.contains(a) && z.contains(b) && z.contains(c) implies #[trigger] accrues(a, b, c) by {
        lemma_trits_multiply(b, c);
        lemma_trits_add(a, b.product(c));
    }
    assert forall|a: Number, b: Number, c: Number, d: Number|
        z.contains(a) && z.contains(b) && z.contains(c) && z.contains(d) implies #[trigger] ranks(
        a,
        b,
        c,
        d,
    ) by {
        if worth(b) != 0 as real && worth(d) != 0 as real {
            lemma_trits_multiply(a, b);
            lemma_trits_multiply(c, d);
            lemma_divided(worth(a.quotient(b)), worth(b), worth(a));
            lemma_divided(worth(c.quotient(d)), worth(d), worth(c));
        }
    }
    lemma_trits_multiply(minus_one(), one());
    lemma_trits_multiply(minus_one(), minus_one());
    lemma_plain_product(worth(minus_one().quotient(one())));
    lemma_plain_product(worth(minus_one().quotient(minus_one())));
}

proof fn lemma_divided(q: real, b: real, a: real)
    requires
        b != 0 as real,
        q * b == a,
    ensures
        a / b == q,
{
    assert(a / b == q) by (nonlinear_arith)
        requires
            b != 0 as real,
            q * b == a,
    ;
}

} // verus!
