//! Double precision numbers, held as the bits of the IEEE 754 binary64 format.
//!
//! Every finite double is an integral multiple of the smallest positive one, so its magnitude is
//! a natural number of *units*. The arithmetic below is stated over units: the exact result is
//! rounded to the nearest double, ties to even.
use vstd::arithmetic::div_mod::*;
use vstd::arithmetic::mul::*;
use vstd::arithmetic::power2::*;
use vstd::prelude::*;

verus! {

/// The bit that holds the sign.
pub const SIGN_BIT: u64 = 0x8000_0000_0000_0000;

/// The magnitude of an infinity; a larger magnitude is not a number.
pub const INFINITE: u64 = 0x7ff0_0000_0000_0000;

/// The magnitude of the one NaN that the arithmetic below returns.
pub const QUIET_NAN: u64 = 0x7ff8_0000_0000_0000;

/// The distance in magnitude between two consecutive powers of two.
pub const BINADE: u64 = 0x0010_0000_0000_0000;

/// The magnitude of `1e-8`, below which a coefficient counts as zero.
pub const EPSILON: u64 = 0x3e45_798e_e230_8c3a;

/// How many powers of two lie between one unit and the number one.
pub const UNIT_EXPONENT: u32 = 1074;

/// The number of units in a finite magnitude, and `2^2098` for the infinite one.
#[verifier::opaque]
pub open spec fn units(magnitude: nat) -> nat {
    if magnitude < 2 * BINADE {
        magnitude
    } else {
        (magnitude % BINADE as nat + BINADE as nat) * pow2((magnitude / BINADE as nat - 1) as nat)
    }
}

/// The integer nearest to `n / d`, and of two that are equally near the even one.
pub open spec fn nearest_even(n: nat, d: nat) -> nat {
    let q = n / d;
    let r = n % d;
    if 2 * r > d || (2 * r == d && q % 2 == 1) {
        q + 1
    } else {
        q
    }
}

/// The magnitude nearest to `n / d` units, where the exponent has no upper limit.
pub open spec fn nearest_magnitude(n: nat, d: nat) -> nat
    decreases n - d,
{
    if d == 0 || n < d * (2 * BINADE) {
        nearest_even(n, d)
    } else {
        proof {
            assert(d * (2 * BINADE) >= 2 * d) by (nonlinear_arith)
                requires
                    BINADE >= 1,
            ;
        }
        BINADE as nat + nearest_magnitude(n, 2 * d)
    }
}

/// The magnitude nearest to `n / d` units.
pub open spec fn rounded(n: nat, d: nat) -> u64 {
    let m = nearest_magnitude(n, d);
    if m < INFINITE {
        m as u64
    } else {
        INFINITE
    }
}

/// A double, as its bits.
#[derive(Clone, Copy, Debug, PartialEq, Eq, Structural)]
pub struct Number {
    pub bits: u64,
}

/// The number zero.
#[verifier::allow_in_spec]
pub fn zero() -> Number
    returns
        (Number { bits: 0 }),
{
    Number { bits: 0 }
}

/// The number one.
#[verifier::allow_in_spec]
pub fn one() -> Number
    returns
        (Number { bits: 0x3ff0_0000_0000_0000 }),
{
    Number { bits: 0x3ff0_0000_0000_0000 }
}

/// The number minus one.
#[verifier::allow_in_spec]
pub fn minus_one() -> Number
    returns
        (Number { bits: 0xbff0_0000_0000_0000 }),
{
    Number { bits: 0xbff0_0000_0000_0000 }
}

/// A number that is not a number.
#[verifier::allow_in_spec]
pub fn not_a_number() -> Number
    returns
        (Number { bits: 0x7ff8_0000_0000_0000 }),
{
    Number { bits: 0x7ff8_0000_0000_0000 }
}

/// The number with the given sign and magnitude.
pub open spec fn signed(negative: bool, magnitude: u64) -> Number {
    Number {
        bits: if negative {
            (magnitude + SIGN_BIT) as u64
        } else {
            magnitude
        },
    }
}

/// The number nearest to `v` units; a zero gets the sign asked for.
pub open spec fn nearest_number(v: int, negative_zero: bool) -> Number {
    if v == 0 {
        signed(negative_zero, 0)
    } else if v < 0 {
        signed(true, rounded((-v) as nat, 1))
    } else {
        signed(false, rounded(v as nat, 1))
    }
}

impl Number {
    /// Whether the sign is set.
    pub open spec fn negative(self) -> bool {
        self.bits >= SIGN_BIT
    }

    /// The bits without the sign.
    pub open spec fn magnitude(self) -> u64 {
        if self.bits >= SIGN_BIT {
            (self.bits - SIGN_BIT) as u64
        } else {
            self.bits
        }
    }

    /// Whether this is not a number.
    pub open spec fn nan(self) -> bool {
        self.magnitude() > INFINITE
    }

    /// Whether this is one of the two infinities.
    pub open spec fn infinite(self) -> bool {
        self.magnitude() == INFINITE
    }

    /// Whether this is one of the two zeros.
    pub open spec fn zero(self) -> bool {
        self.magnitude() == 0
    }

    /// The value in units; an infinity lies beyond every finite number.
    #[verifier::opaque]
    pub open spec fn value(self) -> int {
        if self.negative() {
            -(units(self.magnitude() as nat) as int)
        } else {
            units(self.magnitude() as nat) as int
        }
    }

    /// The order of the numbers; a NaN stands in it to no number.
    pub open spec fn below(self, other: Number) -> bool {
        !self.nan() && !other.nan() && self.value() < other.value()
    }

    /// Equality of values: the two zeros are equal and a NaN equals nothing.
    pub open spec fn same(self, other: Number) -> bool {
        !self.nan() && !other.nan() && self.value() == other.value()
    }

    /// Whether the two are equal or both not a number.
    pub open spec fn alike(self, other: Number) -> bool {
        self.same(other) || (self.nan() && other.nan())
    }

    /// The number with the sign inverted.
    pub open spec fn negation(self) -> Number {
        signed(!self.negative(), self.magnitude())
    }

    /// The sum, rounded once.
    #[verifier::opaque]
    pub open spec fn sum(self, other: Number) -> Number {
        if self.nan() || other.nan() || (self.infinite() && other.infinite() && self.negative()
            != other.negative()) {
            signed(false, QUIET_NAN)
        } else if self.infinite() {
            self
        } else if other.infinite() {
            other
        } else {
            nearest_number(self.value() + other.value(), self.negative() && other.negative())
        }
    }

    /// The difference, rounded once.
    pub open spec fn difference(self, other: Number) -> Number {
        self.sum(other.negation())
    }

    /// The product, rounded once.
    #[verifier::opaque]
    pub open spec fn product(self, other: Number) -> Number {
        let negative = self.negative() != other.negative();
        if self.nan() || other.nan() || (self.infinite() && other.zero()) || (self.zero()
            && other.infinite()) {
            signed(false, QUIET_NAN)
        } else if self.infinite() || other.infinite() {
            signed(negative, INFINITE)
        } else {
            signed(
                negative,
                rounded(
                    units(self.magnitude() as nat) * units(other.magnitude() as nat),
                    pow2(UNIT_EXPONENT as nat),
                ),
            )
        }
    }

    /// The quotient, rounded once.
    #[verifier::opaque]
    pub open spec fn quotient(self, other: Number) -> Number {
        let negative = self.negative() != other.negative();
        if self.nan() || other.nan() || (self.infinite() && other.infinite()) || (self.zero()
            && other.zero()) {
            signed(false, QUIET_NAN)
        } else if self.infinite() || other.zero() {
            signed(negative, INFINITE)
        } else if other.infinite() {
            signed(negative, 0)
        } else {
            signed(
                negative,
                rounded(
                    units(self.magnitude() as nat) * pow2(UNIT_EXPONENT as nat),
                    units(other.magnitude() as nat),
                ),
            )
        }
    }

    /// Whether the absolute value lies below `1e-8`.
    pub open spec fn negligible(self) -> bool {
        !self.nan() && units(self.magnitude() as nat) < units(EPSILON as nat)
    }

    /// The bits by which equal values are told to be equal: the two zeros share theirs, and so
    /// do all NaNs.
    pub open spec fn canonical(self) -> u64 {
        if self.nan() {
            QUIET_NAN
        } else if self.zero() {
            0
        } else {
            self.bits
        }
    }
}

/// A larger magnitude holds more units.
pub proof fn lemma_units_increase(a: nat, b: nat)
    requires
        a < b,
    ensures
        units(a) < units(b),
{
    reveal(units);
    let p = BINADE as nat;
    let (ea, eb) = (a / p, b / p);
    let (fa, fb) = (a % p, b % p);
    assert(a == ea * p + fa && b == eb * p + fb && fa < p && fb < p) by {
        lemma_fundamental_div_mod(a as int, p as int);
        lemma_fundamental_div_mod(b as int, p as int);
        assert(ea * p == p * ea && eb * p == p * eb) by (nonlinear_arith);
    }
    assert(ea <= eb) by {
        lemma_div_is_ordered(a as int, b as int, p as int);
    }
    lemma2_to64();
    if b < 2 * p {
    } else {
        assert(eb >= 2);
        let qb = pow2((eb - 1) as nat);
        lemma_pow2_pos((eb - 1) as nat);
        if a < 2 * p {
            assert(qb >= 2) by {
                lemma_pow2_unfold((eb - 1) as nat);
                lemma_pow2_pos((eb - 2) as nat);
            }
            assert((fb + p) * qb >= p * 2) by (nonlinear_arith)
                requires
                    qb >= 2,
                    fb >= 0,
                    p >= 0,
            ;
        } else {
            let qa = pow2((ea - 1) as nat);
            lemma_pow2_pos((ea - 1) as nat);
            if ea == eb {
                assert((fa + p) * qa < (fb + p) * qa) by (nonlinear_arith)
                    requires
                        fa < fb,
                        qa > 0,
                ;
            } else {
                assert(2 * qa <= qb) by {
                    lemma_pow2_unfold(ea as nat);
                    if ea < eb - 1 {
                        lemma_pow2_strictly_increases(ea as nat, (eb - 1) as nat);
                    }
                }
                assert((fa + p) * qa < (2 * p) * qa) by (nonlinear_arith)
                    requires
                        fa < p,
                        qa > 0,
                ;
                assert((2 * p) * qa <= (fb + p) * qb) by (nonlinear_arith)
                    requires
                        2 * qa <= qb,
                        p >= 0,
                        fb >= 0,
                ;
            }
        }
    }
}

/// Magnitudes are ordered as their units are.
proof fn lemma_units_order(a: nat, b: nat)
    ensures
        a < b <==> units(a) < units(b),
        a == b <==> units(a) == units(b),
{
    if a < b {
        lemma_units_increase(a, b);
    } else if b < a {
        lemma_units_increase(b, a);
    }
}

/// Adding nothing changes nothing.
pub proof fn lemma_plus_zero(x: Number, d: Number)
    requires
        d.same(zero()),
    ensures
        x.sum(d).alike(x),
{
    reveal(Number::sum);
    reveal(Number::value);
    reveal(units);
    lemma_units_order(0, d.magnitude() as nat);
    assert(d.magnitude() == 0);
    if !x.nan() && !x.infinite() {
        lemma_units_order(0, x.magnitude() as nat);
        lemma_rounded_units(x.magnitude() as nat);
    }
}

/// The number one and its negation are not near zero.
pub proof fn lemma_one_counts()
    ensures
        !one().negligible(),
        !minus_one().negligible(),
        !one().negation().negligible(),
        !minus_one().negation().negligible(),
{
    lemma_units_order(one().magnitude() as nat, EPSILON as nat);
}

/// Rounding at a known scale: `n / d` lies in the binade of the `k`-th power of two.
proof fn lemma_nearest_magnitude(n: nat, d: nat, k: nat)
    requires
        d > 0,
        n < d * pow2(53 + k),
        k > 0 ==> n >= d * pow2(52 + k),
    ensures
        nearest_magnitude(n, d) == k * BINADE + nearest_even(n, d * pow2(k)),
    decreases k,
{
    lemma2_to64();
    lemma2_to64_rest();
    if k == 0 {
        assert(d * pow2(0) == d);
    } else {
        assert(n >= d * pow2(53)) by {
            if k > 1 {
                lemma_pow2_strictly_increases(53, 52 + k);
            }
            assert(d * pow2(52 + k) >= d * pow2(53)) by (nonlinear_arith)
                requires
                    pow2(52 + k) >= pow2(53),
            ;
        }
        lemma_pow2_unfold(53 + k);
        lemma_pow2_unfold(52 + k);
        lemma_pow2_unfold(k);
        assert(d * (2 * pow2((52 + k) as nat)) == (2 * d) * pow2((52 + k) as nat))
            by (nonlinear_arith);
        assert(d * (2 * pow2((51 + k) as nat)) == (2 * d) * pow2((51 + k) as nat))
            by (nonlinear_arith);
        assert(d * (2 * pow2((k - 1) as nat)) == (2 * d) * pow2((k - 1) as nat))
            by (nonlinear_arith);
        lemma_nearest_magnitude(n, 2 * d, (k - 1) as nat);
        assert(k * BINADE == BINADE + (k - 1) * BINADE) by (nonlinear_arith);
    }
}

/// A finite number of units is rounded to itself.
pub proof fn lemma_rounded_units(m: nat)
    requires
        m < INFINITE,
    ensures
        rounded(units(m), 1) == m,
{
    reveal(units);
    let p = BINADE as nat;
    if m < 2 * p {
        assert(m / 1 == m && m % 1 == 0);
    } else {
        let k = (m / p - 1) as nat;
        let f = m % p + p;
        let n = units(m);
        lemma2_to64_rest();
        lemma_pow2_pos(k);
        lemma_pow2_adds(52, k);
        lemma_pow2_adds(53, k);
        assert(n < pow2(53) * pow2(k) && n >= pow2(52) * pow2(k)) by (nonlinear_arith)
            requires
                n == f * pow2(k),
                pow2(52) <= f,
                f < pow2(53),
                pow2(k) > 0,
        ;
        lemma_nearest_magnitude(n, 1, k);
        lemma_div_by_multiple(f as int, pow2(k) as int);
        lemma_mod_multiples_basic(f as int, pow2(k) as int);
        assert(1 * pow2(k) == pow2(k));
        assert(k * p + f == m) by {
            lemma_fundamental_div_mod(m as int, p as int);
            assert(p * (m / p) == k * p + p) by (nonlinear_arith)
                requires
                    k == m / p - 1,
            ;
        }
    }
}

/// `n / d` is `w * 2^up / 2^down`, or, where `rest` says so, a little more: less than one step
/// of `w`.
spec fn approximates(n: nat, d: nat, w: nat, up: nat, down: nat, rest: bool) -> bool {
    let low = w * d * pow2(up);
    let high = (w + 1) * d * pow2(up);
    let exact = n * pow2(down);
    if rest {
        low < exact < high
    } else {
        exact == low
    }
}

/// The same as `approximates`, brought to the scale at which `w` is split.
proof fn lemma_rescale(n: nat, d: nat, w: nat, up: nat, down: nat, rest: bool, k: nat, s: nat)
    requires
        approximates(n, d, w, up, down, rest),
        k + down == s + up,
    ensures
        rest ==> w * (d * pow2(k)) < n * pow2(s) < (w + 1) * (d * pow2(k)),
        !rest ==> n * pow2(s) == w * (d * pow2(k)),
{
    let (pu, pd, pk, ps) = (pow2(up), pow2(down), pow2(k), pow2(s));
    lemma_pow2_adds(k, down);
    lemma_pow2_adds(s, up);
    assert(pk * pd == ps * pu);
    lemma_pow2_pos(up);
    lemma_pow2_pos(down);
    lemma_pow2_pos(s);
    assert((w * (d * pk)) * pd == (w * d * pu) * ps) by (nonlinear_arith)
        requires
            pk * pd == ps * pu,
    ;
    assert(((w + 1) * (d * pk)) * pd == ((w + 1) * d * pu) * ps) by (nonlinear_arith)
        requires
            pk * pd == ps * pu,
    ;
    assert((n * ps) * pd == (n * pd) * ps) by (nonlinear_arith);
    let (x, low, high) = (n * ps, w * (d * pk), (w + 1) * (d * pk));
    if rest {
        assert((w * d * pu) * ps < (n * pd) * ps && (n * pd) * ps < ((w + 1) * d * pu) * ps)
            by (nonlinear_arith)
            requires
                w * d * pu < n * pd,
                n * pd < (w + 1) * d * pu,
                ps > 0,
        ;
        assert(low < x && x < high) by (nonlinear_arith)
            requires
                low * pd < x * pd,
                x * pd < high * pd,
                pd > 0,
        ;
    } else {
        assert(low == x) by (nonlinear_arith)
            requires
                low * pd == x * pd,
                pd > 0,
        ;
    }
}

/// Rounding to nearest decides by the bits that are split off: `w == high * 2^s + low`.
proof fn lemma_split_rounds(n: nat, d: nat, w: nat, s: nat, high: nat, low: nat, rest: bool)
    requires
        d > 0,
        s > 0,
        w == high * pow2(s) + low,
        low < pow2(s),
        rest ==> w * d < n * pow2(s) < (w + 1) * d,
        !rest ==> n * pow2(s) == w * d,
    ensures
        nearest_even(n, d) == high + (if low > pow2((s - 1) as nat) || (low == pow2(
            (s - 1) as nat,
        ) && (rest || high % 2 == 1)) {
            1nat
        } else {
            0nat
        }),
{
    let p = pow2(s);
    let half = pow2((s - 1) as nat);
    lemma_pow2_unfold(s);
    lemma_pow2_pos(s);
    assert(p == 2 * half);
    // n * p lies in [w * d, (w + 1) * d)
    assert(w * d <= n * p && n * p < (w + 1) * d) by (nonlinear_arith)
        requires
            rest ==> w * d < n * p && n * p < (w + 1) * d,
            !rest ==> n * p == w * d,
            d > 0,
    ;
    assert(w * d == (high * d) * p + low * d) by (nonlinear_arith)
        requires
            w == high * p + low,
    ;
    assert((w + 1) * d == (high * d) * p + (low + 1) * d) by (nonlinear_arith)
        requires
            w == high * p + low,
    ;
    assert((low + 1) * d <= p * d) by (nonlinear_arith)
        requires
            low < p,
    ;
    assert(high * d <= n) by (nonlinear_arith)
        requires
            (high * d) * p + low * d <= n * p,
            low * d >= 0,
            p > 0,
    ;
    assert(n < (high + 1) * d) by (nonlinear_arith)
        requires
            n * p < (high * d) * p + (low + 1) * d,
            (low + 1) * d <= p * d,
            p > 0,
    ;
    let r = (n - high * d) as nat;
    assert(n == high * d + r && r < d) by (nonlinear_arith)
        requires
            r == n - high * d,
            n < (high + 1) * d,
    ;
    lemma_fundamental_div_mod_converse(n as int, d as int, high as int, r as int);
    assert(n / d == high && n % d == r);
    assert(r * p == n * p - (high * d) * p) by (nonlinear_arith)
        requires
            r == n - high * d,
    ;
    // r * p lies in [low * d, (low + 1) * d), and 2 * r against d is r * p against half * d
    if low > half {
        assert(2 * r > d) by (nonlinear_arith)
            requires
                r * p >= low * d,
                low >= half + 1,
                p == 2 * half,
                half >= 0,
                d > 0,
        ;
    } else if low == half {
        assert(rest ==> 2 * r > d) by (nonlinear_arith)
            requires
                rest ==> r * p > low * d,
                low == half,
                p == 2 * half,
                half >= 0,
        ;
        assert(!rest ==> 2 * r == d) by (nonlinear_arith)
            requires
                !rest ==> r * p == low * d,
                low == half,
                p == 2 * half,
                p > 0,
        ;
    } else {
        assert(2 * r < d) by (nonlinear_arith)
            requires
                rest ==> r * p < (low + 1) * d,
                !rest ==> r * p == low * d,
                low + 1 <= half,
                p == 2 * half,
                d > 0,
        ;
    }
}

/// The binade in which `n / d` lies, from the leading bit of `w`.
proof fn lemma_scale(n: nat, d: nat, w: nat, up: nat, down: nat, rest: bool, log: nat, k: nat)
    requires
        d > 0,
        approximates(n, d, w, up, down, rest),
        pow2(log) <= w < 2 * pow2(log),
        k + 52 + down >= log + up,
        k > 0 ==> k + 52 + down == log + up,
    ensures
        n < d * pow2(53 + k),
        k > 0 ==> n >= d * pow2(52 + k),
{
    let (pu, pd, pl) = (pow2(up), pow2(down), pow2(log));
    lemma_pow2_pos(up);
    lemma_pow2_pos(down);
    lemma_pow2_adds(log + 1, up);
    lemma_pow2_adds(log, up);
    lemma_pow2_unfold(log + 1);
    lemma_pow2_adds(53 + k, down);
    lemma_pow2_adds(52 + k, down);
    if log + 1 + up < 53 + k + down {
        lemma_pow2_strictly_increases(log + 1 + up, 53 + k + down);
    }
    assert(n * pd < (2 * pl) * d * pu || (n * pd == w * d * pu && w < 2 * pl)) by (nonlinear_arith)
        requires
            rest ==> n * pd < (w + 1) * d * pu,
            !rest ==> n * pd == w * d * pu,
            w + 1 <= 2 * pl,
            d > 0,
            pu > 0,
    ;
    assert(n * pd < (2 * pl) * d * pu) by (nonlinear_arith)
        requires
            n * pd < (2 * pl) * d * pu || (n * pd == w * d * pu && w < 2 * pl),
            d > 0,
            pu > 0,
    ;
    assert((2 * pl) * d * pu == d * ((2 * pl) * pu)) by (nonlinear_arith);
    assert(n < d * pow2(53 + k)) by (nonlinear_arith)
        requires
            n * pd < d * ((2 * pl) * pu),
            (2 * pl) * pu <= pow2(53 + k) * pd,
            pd > 0,
            d > 0,
    ;
    if k > 0 {
        assert(pl * pu == pow2(52 + k) * pd);
        assert(n * pd >= pl * d * pu) by (nonlinear_arith)
            requires
                n * pd >= w * d * pu,
                w >= pl,
                d > 0,
                pu > 0,
        ;
        assert(pl * d * pu == d * (pl * pu)) by (nonlinear_arith);
        assert(n >= d * pow2(52 + k)) by (nonlinear_arith)
            requires
                n * pd >= d * (pow2(52 + k) * pd),
                pd > 0,
        ;
    }
}

/// At a high enough scale the nearest magnitude is infinite.
proof fn lemma_large(n: nat, d: nat, k: nat)
    requires
        d > 0,
        k >= 2046,
        n >= d * pow2(52 + k),
        nearest_magnitude(n, d) == k * BINADE + nearest_even(n, d * pow2(k)),
    ensures
        nearest_magnitude(n, d) >= INFINITE,
{
    let e = d * pow2(k);
    lemma2_to64_rest();
    lemma_pow2_pos(k);
    lemma_pow2_adds(52, k);
    assert(e > 0) by (nonlinear_arith)
        requires
            d > 0,
            pow2(k) > 0,
            e == d * pow2(k),
    ;
    assert(d * (pow2(52) * pow2(k)) == pow2(52) * e) by (nonlinear_arith)
        requires
            e == d * pow2(k),
    ;
    assert(n / e >= pow2(52)) by {
        lemma_div_is_ordered((pow2(52) * e) as int, n as int, e as int);
        lemma_div_by_multiple(pow2(52) as int, e as int);
    }
    assert(k * BINADE >= 2046 * BINADE) by (nonlinear_arith)
        requires
            k >= 2046,
            BINADE >= 0,
    ;
}

/// Where nothing is split off, rounding changes nothing.
proof fn lemma_exact(n: nat, d: nat, w: nat, up: nat, down: nat, k: nat, t: nat)
    requires
        d > 0,
        approximates(n, d, w, up, down, false),
        up == k + t + down,
    ensures
        nearest_even(n, d * pow2(k)) == w * pow2(t),
{
    let (pu, pd, pk, pt) = (pow2(up), pow2(down), pow2(k), pow2(t));
    lemma_pow2_pos(down);
    lemma_pow2_pos(k);
    lemma_pow2_adds(k, t);
    lemma_pow2_adds(k + t, down);
    let e = d * pk;
    assert(e > 0) by (nonlinear_arith)
        requires
            d > 0,
            pk > 0,
            e == d * pk,
    ;
    assert(n * pd == ((w * pt) * e) * pd) by (nonlinear_arith)
        requires
            n * pd == w * d * pu,
            pu == pk * pt * pd,
            e == d * pk,
    ;
    assert(n == (w * pt) * e) by (nonlinear_arith)
        requires
            n * pd == ((w * pt) * e) * pd,
            pd > 0,
    ;
    lemma_div_by_multiple((w * pt) as int, e as int);
    lemma_mod_multiples_basic((w * pt) as int, e as int);
}

/// What lies below half a unit rounds to zero.
proof fn lemma_tiny(n: nat, d: nat, w: nat, s: nat, rest: bool)
    requires
        d > 0,
        s >= 128,
        w < 0x8000_0000_0000_0000_0000_0000_0000_0000,
        rest ==> w * d < n * pow2(s) < (w + 1) * d,
        !rest ==> n * pow2(s) == w * d,
    ensures
        nearest_even(n, d) == 0,
{
    let p = pow2(s);
    lemma2_to64();
    lemma_pow2_adds(64, 64);
    if s > 128 {
        lemma_pow2_strictly_increases(128, s);
    }
    assert(n * p < (w + 1) * d) by (nonlinear_arith)
        requires
            rest ==> n * p < (w + 1) * d,
            !rest ==> n * p == w * d,
            d > 0,
    ;
    assert(2 * (w + 1) <= p);
    assert(2 * n < d) by (nonlinear_arith)
        requires
            n * p < (w + 1) * d,
            2 * (w + 1) <= p,
            p > 0,
            d > 0,
    ;
    lemma_basic_div(n as int, d as int);
    lemma_small_mod(n, d);
}

/// The given power of two.
fn power_of_two(exponent: u32) -> (r: u128)
    requires
        exponent < 128,
    ensures
        r == pow2(exponent as nat),
{
    proof {
        lemma_shift_is_pow2(exponent);
    }
    1u128 << exponent
}

proof fn lemma_shift_is_pow2(exponent: u32)
    requires
        exponent < 128,
    ensures
        1u128 << exponent == pow2(exponent as nat),
    decreases exponent,
{
    if exponent == 0 {
        assert(1u128 << 0u32 == 1u128) by (bit_vector);
        lemma2_to64();
    } else {
        let e = (exponent - 1) as u32;
        lemma_shift_is_pow2(e);
        lemma_pow2_unfold(exponent as nat);
        assert(1u128 << exponent == 2 * (1u128 << e)) by (bit_vector)
            requires
                0 < exponent < 128,
                e == exponent - 1,
        ;
    }
}

/// The exponent of the largest power of two that is not above `w`.
fn floor_log(w: u128) -> (r: u32)
    requires
        w > 0,
    ensures
        r < 128,
        pow2(r as nat) <= w < 2 * pow2(r as nat),
{
    let mut r: u32 = 0;
    let mut x: u128 = w;
    proof {
        lemma2_to64();
    }
    while x > 1
        invariant
            x >= 1,
            x * pow2(r as nat) <= w < (x + 1) * pow2(r as nat),
            r < 128,
        decreases x,
    {
        let step: u32 = if x >= 0x1_0000 {
            16
        } else {
            1
        };
        let y: u128 = if x >= 0x1_0000 {
            x / 0x1_0000
        } else {
            x / 2
        };
        proof {
            let p = pow2(r as nat);
            let q = pow2(step as nat);
            lemma2_to64();
            lemma_pow2_adds(r as nat, step as nat);
            assert(y * q <= x && x < (y + 1) * q);
            assert((y * q) * p <= w && w < ((y + 1) * q) * p) by (nonlinear_arith)
                requires
                    y * q <= x,
                    x + 1 <= (y + 1) * q,
                    x * p <= w,
                    w < (x + 1) * p,
                    p >= 0,
            ;
            assert((y * q) * p == y * (p * q) && ((y + 1) * q) * p == (y + 1) * (p * q))
                by (nonlinear_arith);
            assert(r + step < 128) by {
                if r + step >= 128 {
                    lemma_pow2_adds(64, 64);
                    if r + step > 128 {
                        lemma_pow2_strictly_increases(128, (r + step) as nat);
                    }
                    assert(y * pow2((r + step) as nat) >= pow2((r + step) as nat))
                        by (nonlinear_arith)
                        requires
                            y >= 1,
                    ;
                }
            }
        }
        r = r + step;
        x = y;
    }
    r
}

/// Rounds a number that is known as `approximates` tells.
fn round_to_magnitude(
    w: u128,
    up: u32,
    down: u32,
    rest: bool,
    Ghost(n): Ghost<nat>,
    Ghost(d): Ghost<nat>,
) -> (r: u64)
    requires
        d > 0,
        w < 0x8000_0000_0000_0000_0000_0000_0000_0000,
        up <= 5000,
        down <= 5000,
        approximates(n, d, w as nat, up as nat, down as nat, rest),
        rest ==> w >= 0x1000_0000_0000_0000,
    ensures
        r == rounded(n, d),
{
    proof {
        lemma2_to64();
        lemma2_to64_rest();
        lemma_pow2_pos(up as nat);
        lemma_pow2_pos(down as nat);
    }
    if w == 0 {
        proof {
            assert(0 * d * pow2(up as nat) == 0) by (nonlinear_arith);
            assert(n == 0) by (nonlinear_arith)
                requires
                    n * pow2(down as nat) == 0,
                    pow2(down as nat) > 0,
            ;
            assert(d * (2 * BINADE) > 0) by (nonlinear_arith)
                requires
                    d > 0,
                    BINADE > 0,
            ;
        }
        return 0;
    }
    let log: u32 = floor_log(w);
    let e: i64 = up as i64 - down as i64;
    let top: i64 = log as i64 - 52 + e;
    let k: i64 = if top > 0 {
        top
    } else {
        0
    };
    let s: i64 = k - e;
    let ghost k_nat = k as nat;
    proof {
        lemma_scale(n, d, w as nat, up as nat, down as nat, rest, log as nat, k_nat);
        lemma_nearest_magnitude(n, d, k_nat);
    }
    if k >= 2046 {
        proof {
            lemma_large(n, d, k_nat);
        }
        return INFINITE;
    }
    let m: u64 = if s <= 0 {
        proof {
            lemma_pow2_adds(log as nat, (-s) as nat);
            lemma_exact(n, d, w as nat, up as nat, down as nat, k_nat, (-s) as nat);
            if log - s < 52 {
                lemma_pow2_strictly_increases((log - s) as nat, 52);
            }
            let (p, q) = (pow2(log as nat), pow2((-s) as nat));
            assert(w * q < 2 * pow2(52)) by (nonlinear_arith)
                requires
                    w < 2 * p,
                    p * q <= pow2(52),
                    q >= 1,
            ;
        }
        let p: u128 = power_of_two((-s) as u32);
        (w * p) as u64
    } else if s >= 128 {
        proof {
            lemma_rescale(n, d, w as nat, up as nat, down as nat, rest, k_nat, s as nat);
            lemma_pow2_pos(k_nat);
            assert(d * pow2(k_nat) > 0) by (nonlinear_arith)
                requires
                    d > 0,
                    pow2(k_nat) > 0,
            ;
            lemma_tiny(n, d * pow2(k_nat), w as nat, s as nat, rest);
        }
        0
    } else {
        let p: u128 = power_of_two(s as u32);
        let half: u128 = power_of_two((s - 1) as u32);
        proof {
            lemma_pow2_pos(s as nat);
        }
        let high: u128 = w / p;
        let low: u128 = w % p;
        proof {
            lemma_rescale(n, d, w as nat, up as nat, down as nat, rest, k_nat, s as nat);
            lemma_pow2_pos(s as nat);
            lemma_pow2_pos(k_nat);
            lemma_fundamental_div_mod(w as int, p as int);
            assert(d * pow2(k_nat) > 0) by (nonlinear_arith)
                requires
                    d > 0,
                    pow2(k_nat) > 0,
            ;
            assert(w == high * p + low) by (nonlinear_arith)
                requires
                    w == p * high + low,
            ;
            lemma_split_rounds(
                n,
                d * pow2(k_nat),
                w as nat,
                s as nat,
                high as nat,
                low as nat,
                rest,
            );
            // high has at most 53 bits
            lemma_pow2_adds(52, s as nat);
            if log < 52 + s {
                lemma_pow2_strictly_increases(log as nat, (52 + s) as nat);
            }
            assert(high < 2 * BINADE) by (nonlinear_arith)
                requires
                    high * p <= w,
                    w < 2 * (BINADE * p),
                    p > 0,
            ;
        }
        if low > half || (low == half && (rest || high % 2 == 1)) {
            (high + 1) as u64
        } else {
            high as u64
        }
    };
    proof {
        assert(m <= 2 * BINADE);
        assert(k * BINADE <= 2045 * BINADE);
    }
    m + (k as u64) * BINADE
}

/// A finite magnitude as a significand and an exponent.
fn split(magnitude: u64) -> (r: (u64, u32))
    requires
        magnitude < INFINITE,
    ensures
        r.0 < 2 * BINADE,
        r.1 <= 2045,
        r.1 > 0 ==> r.0 >= BINADE,
        units(magnitude as nat) == r.0 * pow2(r.1 as nat),
        r.0 == 0 <==> magnitude == 0,
{
    proof {
        reveal(units);
        lemma2_to64();
        assert(magnitude * pow2(0) == magnitude) by (nonlinear_arith)
            requires
                pow2(0) == 1,
        ;
    }
    if magnitude < 2 * BINADE {
        (magnitude, 0)
    } else {
        (magnitude % BINADE + BINADE, (magnitude / BINADE - 1) as u32)
    }
}

/// The number with the given sign and magnitude.
fn with_sign(negative: bool, magnitude: u64) -> (r: Number)
    requires
        magnitude < SIGN_BIT,
    ensures
        r == signed(negative, magnitude),
{
    if negative {
        Number { bits: magnitude + SIGN_BIT }
    } else {
        Number { bits: magnitude }
    }
}

spec fn with_sign_int(negative: bool, u: int) -> int {
    if negative {
        -u
    } else {
        u
    }
}

/// The sum of two finite numbers, the first with the larger exponent.
fn sum_aligned(na: bool, ma: u64, ka: u32, nb: bool, mb: u64, kb: u32) -> (r: Number)
    requires
        ma < 2 * BINADE,
        mb < 2 * BINADE,
        kb <= ka <= 2045,
        ka > 0 ==> ma >= BINADE,
    ensures
        r == nearest_number(
            with_sign_int(na, ma * pow2(ka as nat)) + with_sign_int(nb, mb * pow2(kb as nat)),
            na && nb,
        ),
{
    let gap: u32 = ka - kb;
    let ghost (pa, pb, pg) = (pow2(ka as nat), pow2(kb as nat), pow2(gap as nat));
    let ghost v = with_sign_int(na, ma * pa) + with_sign_int(nb, mb * pb);
    let ghost n: nat = if v < 0 {
        (-v) as nat
    } else {
        v as nat
    };
    proof {
        lemma_pow2_adds(kb as nat, gap as nat);
        lemma_pow2_pos(ka as nat);
        lemma_pow2_pos(kb as nat);
        lemma2_to64();
        lemma2_to64_rest();
        assert(n * pow2(0) == n) by (nonlinear_arith)
            requires
                pow2(0) == 1,
        ;
    }
    if gap < 74 {
        proof {
            lemma_pow2_adds(64, 9);
            if gap < 73 {
                lemma_pow2_strictly_increases(gap as nat, 73);
            }
            assert(ma * pg < 0x4000_0000_0000_0000_0000_0000_0000_0000) by (nonlinear_arith)
                requires
                    ma < 0x20_0000_0000_0000,
                    pg <= 0x2_0000_0000_0000_0000_00,
            ;
            assert(ma * pa == (ma * pg) * pb) by (nonlinear_arith)
                requires
                    pa == pb * pg,
            ;
        }
        let a: u128 = ma as u128 * power_of_two(gap);
        let b: u128 = mb as u128;
        let ghost (ga, gb) = (a as int, b as int);
        if na == nb {
            proof {
                assert((ga + gb) * pb == ga * pb + gb * pb) by (nonlinear_arith);
                assert((ga + gb) * 1 * pb == (ga + gb) * pb);
                assert(v == 0 <==> ga + gb == 0) by (nonlinear_arith)
                    requires
                        v == (ga + gb) * pb || v == -((ga + gb) * pb),
                        pb > 0,
                ;
                assert((ga + gb) * pb >= 0) by (nonlinear_arith)
                    requires
                        ga + gb >= 0,
                        pb > 0,
                ;
            }
            if a + b == 0 {
                return with_sign(na, 0);
            }
            let m: u64 = round_to_magnitude(a + b, kb, 0, false, Ghost(n), Ghost(1));
            with_sign(na, m)
        } else {
            proof {
                assert((ga - gb) * pb == ga * pb - gb * pb) by (nonlinear_arith);
                assert((gb - ga) * pb == gb * pb - ga * pb) by (nonlinear_arith);
                assert((ga - gb) * 1 * pb == (ga - gb) * pb);
                assert((gb - ga) * 1 * pb == (gb - ga) * pb);
                assert(ga > gb ==> (ga - gb) * pb > 0) by (nonlinear_arith)
                    requires
                        pb > 0,
                ;
                assert(gb > ga ==> (gb - ga) * pb > 0) by (nonlinear_arith)
                    requires
                        pb > 0,
                ;
            }
            if a == b {
                with_sign(false, 0)
            } else if a > b {
                let m: u64 = round_to_magnitude(a - b, kb, 0, false, Ghost(n), Ghost(1));
                with_sign(na, m)
            } else {
                let m: u64 = round_to_magnitude(b - a, kb, 0, false, Ghost(n), Ghost(1));
                with_sign(nb, m)
            }
        }
    } else if mb == 0 {
        proof {
            assert(mb * pb == 0) by (nonlinear_arith)
                requires
                    mb == 0,
            ;
            assert(ma * 1 * pa == ma * pa);
            assert(ma * pa > 0) by (nonlinear_arith)
                requires
                    ma > 0,
                    pa > 0,
            ;
        }
        let m: u64 = round_to_magnitude(ma as u128, ka, 0, false, Ghost(n), Ghost(1));
        with_sign(na, m)
    } else {
        let a: u128 = ma as u128 * 0x20_0000;
        let w: u128 = if na == nb {
            a
        } else {
            a - 1
        };
        proof {
            let t = 0x20_0000int;
            let (ua, ub) = (ma * pa, mb * pb);
            lemma_pow2_adds(74, (gap - 74) as nat);
            lemma_pow2_adds(64, 10);
            lemma_pow2_pos((gap - 74) as nat);
            // the smaller number is less than one step of `w`
            assert(pg >= 0x4_0000_0000_0000_0000_00) by (nonlinear_arith)
                requires
                    pg == pow2(74) * pow2((gap - 74) as nat),
                    pow2(74) == 0x4_0000_0000_0000_0000_00,
                    pow2((gap - 74) as nat) >= 1,
            ;
            assert(mb * t < pg);
            assert((mb * t) * pb < pg * pb) by (nonlinear_arith)
                requires
                    mb * t < pg,
                    pb > 0,
            ;
            assert((mb * t) * pb == ub * t && pg * pb == pa) by (nonlinear_arith)
                requires
                    ub == mb * pb,
                    pa == pb * pg,
            ;
            assert(0 < ub * t < pa) by (nonlinear_arith)
                requires
                    ub * t < pa,
                    ub == mb * pb,
                    mb > 0,
                    pb > 0,
                    t > 0,
            ;
            assert(ua * t == a * pa) by (nonlinear_arith)
                requires
                    ua == ma * pa,
                    a == ma * t,
            ;
            assert((ua + ub) * t == a * pa + ub * t && (ua - ub) * t == a * pa - ub * t)
                by (nonlinear_arith)
                requires
                    ua * t == a * pa,
            ;
            assert((a + 1) * 1 * pa == a * pa + pa && (a - 1) * 1 * pa == a * pa - pa && a * 1 * pa
                == a * pa) by (nonlinear_arith);
            assert(ua > ub) by (nonlinear_arith)
                requires
                    ua * t == a * pa,
                    ub * t < pa,
                    a >= 1,
                    pa > 0,
                    t > 0,
            ;
            assert(pow2(21) == t);
        }
        let m: u64 = round_to_magnitude(w, ka, 21, true, Ghost(n), Ghost(1));
        with_sign(na, m)
    }
}

/// Long division of the significands approximates the quotient.
proof fn lemma_quotient_scale(
    ma: nat,
    ka: nat,
    mb: nat,
    kb: nat,
    t: nat,
    q: nat,
    rem: nat,
)
    requires
        ma * pow2(t) == mb * q + rem,
        rem < mb,
    ensures
        approximates(
            (ma * pow2(ka)) * pow2(UNIT_EXPONENT as nat),
            mb * pow2(kb),
            q,
            ka + UNIT_EXPONENT as nat,
            kb + t,
            rem != 0,
        ),
{
    let (pa, pb, pt, pe) = (pow2(ka), pow2(kb), pow2(t), pow2(UNIT_EXPONENT as nat));
    lemma_pow2_adds(ka, UNIT_EXPONENT as nat);
    lemma_pow2_adds(kb, t);
    lemma_pow2_pos(ka);
    lemma_pow2_pos(kb);
    lemma_pow2_pos(UNIT_EXPONENT as nat);
    let x = (pa * pe) * pb;
    assert(x > 0) by (nonlinear_arith)
        requires
            x == (pa * pe) * pb,
            pa > 0,
            pb > 0,
            pe > 0,
    ;
    assert(((ma * pa) * pe) * (pb * pt) == (ma * pt) * x) by (nonlinear_arith)
        requires
            x == (pa * pe) * pb,
    ;
    assert((mb * q + rem) * x == (mb * q) * x + rem * x) by (nonlinear_arith);
    assert(q * (mb * pb) * (pa * pe) == (mb * q) * x) by (nonlinear_arith)
        requires
            x == (pa * pe) * pb,
    ;
    assert((q + 1) * (mb * pb) * (pa * pe) == (mb * q) * x + mb * x) by (nonlinear_arith)
        requires
            x == (pa * pe) * pb,
    ;
    assert(rem * x < mb * x) by (nonlinear_arith)
        requires
            rem < mb,
            x > 0,
    ;
    assert(rem != 0 ==> rem * x > 0) by (nonlinear_arith)
        requires
            x > 0,
    ;
    assert(rem == 0 ==> rem * x == 0) by (nonlinear_arith);
}

impl Number {
    /// The number with the given bits.
    pub fn from_bits(bits: u64) -> (r: Number)
        ensures
            r.bits == bits,
    {
        Number { bits }
    }

    /// The bits of the number.
    pub fn to_bits(self) -> (r: u64)
        ensures
            r == self.bits,
    {
        self.bits
    }

    /// Whether the sign is set.
    fn is_negative(self) -> (r: bool)
        ensures
            r == self.negative(),
    {
        self.bits >= SIGN_BIT
    }

    /// The bits without the sign.
    fn unsigned(self) -> (r: u64)
        ensures
            r == self.magnitude(),
            r < SIGN_BIT,
    {
        if self.bits >= SIGN_BIT {
            self.bits - SIGN_BIT
        } else {
            self.bits
        }
    }

    /// Whether this is not a number.
    pub fn is_nan(self) -> (r: bool)
        ensures
            r == self.nan(),
    {
        self.unsigned() > INFINITE
    }

    /// The number with the sign inverted.
    pub fn negated(self) -> (r: Number)
        ensures
            r == self.negation(),
    {
        with_sign(!self.is_negative(), self.unsigned())
    }

    /// The sum, rounded once.
    pub fn plus(self, other: Number) -> (r: Number)
        ensures
            r == self.sum(other),
    {
        proof {
            reveal(Number::sum);
            reveal(Number::value);
        }
        let (na, nb) = (self.is_negative(), other.is_negative());
        let (a, b) = (self.unsigned(), other.unsigned());
        if a > INFINITE || b > INFINITE || (a == INFINITE && b == INFINITE && na != nb) {
            with_sign(false, QUIET_NAN)
        } else if a == INFINITE {
            self
        } else if b == INFINITE {
            other
        } else {
            let (ma, ka) = split(a);
            let (mb, kb) = split(b);
            if ka >= kb {
                sum_aligned(na, ma, ka, nb, mb, kb)
            } else {
                sum_aligned(nb, mb, kb, na, ma, ka)
            }
        }
    }

    /// The difference, rounded once.
    pub fn minus(self, other: Number) -> (r: Number)
        ensures
            r == self.difference(other),
    {
        self.plus(other.negated())
    }

    /// The product, rounded once.
    pub fn times(self, other: Number) -> (r: Number)
        ensures
            r == self.product(other),
    {
        proof {
            reveal(Number::product);
        }
        let negative: bool = self.is_negative() != other.is_negative();
        let (a, b) = (self.unsigned(), other.unsigned());
        if a > INFINITE || b > INFINITE || (a == INFINITE && b == 0) || (a == 0 && b == INFINITE) {
            with_sign(false, QUIET_NAN)
        } else if a == INFINITE || b == INFINITE {
            with_sign(negative, INFINITE)
        } else {
            let (ma, ka) = split(a);
            let (mb, kb) = split(b);
            let ghost (ua, ub) = (units(a as nat), units(b as nat));
            let ghost d = pow2(UNIT_EXPONENT as nat);
            proof {
                assert(ma * mb < 0x4000_0000_0000_0000_0000_0000_0000) by (nonlinear_arith)
                    requires
                        ma < 0x20_0000_0000_0000,
                        mb < 0x20_0000_0000_0000,
                ;
                lemma_pow2_adds(ka as nat, kb as nat);
                lemma_pow2_pos(UNIT_EXPONENT as nat);
                lemma2_to64();
                let (pa, pb) = (pow2(ka as nat), pow2(kb as nat));
                assert((ua * ub) * pow2(0) == (ma * mb) * (pa * pb)) by (nonlinear_arith)
                    requires
                        ua == ma * pa,
                        ub == mb * pb,
                        pow2(0) == 1,
                ;
                assert((ma * mb) * d * (pa * pb) == ((ma * mb) * (pa * pb)) * d)
                    by (nonlinear_arith);
                assert((ua * ub) * d == (ma * mb) * d * (pa * pb)) by (nonlinear_arith)
                    requires
                        (ua * ub) * pow2(0) == (ma * mb) * (pa * pb),
                        pow2(0) == 1,
                        (ma * mb) * d * (pa * pb) == ((ma * mb) * (pa * pb)) * d,
                ;
            }
            let m: u64 = round_to_magnitude(
                ma as u128 * mb as u128,
                ka + kb,
                UNIT_EXPONENT,
                false,
                Ghost(ua * ub),
                Ghost(d),
            );
            with_sign(negative, m)
        }
    }

    /// The quotient, rounded once.
    pub fn divided_by(self, other: Number) -> (r: Number)
        ensures
            r == self.quotient(other),
    {
        proof {
            reveal(Number::quotient);
        }
        let negative: bool = self.is_negative() != other.is_negative();
        let (a, b) = (self.unsigned(), other.unsigned());
        if a > INFINITE || b > INFINITE || (a == INFINITE && b == INFINITE) || (a == 0 && b == 0) {
            with_sign(false, QUIET_NAN)
        } else if a == INFINITE || b == 0 {
            with_sign(negative, INFINITE)
        } else if b == INFINITE {
            with_sign(negative, 0)
        } else if a == 0 {
            proof {
                reveal(units);
                let d = units(b as nat);
                lemma_units_increase(0, b as nat);
                assert(d * (2 * BINADE) > 0) by (nonlinear_arith)
                    requires
                        d > 0,
                        BINADE > 0,
                ;
                assert(0 * pow2(UNIT_EXPONENT as nat) == 0);
            }
            with_sign(negative, 0)
        } else {
            let (ma, ka) = split(a);
            let (mb, kb) = split(b);
            let log: u32 = floor_log(ma as u128);
            proof {
                lemma2_to64();
                lemma2_to64_rest();
                if log >= 53 {
                    if log > 53 {
                        lemma_pow2_strictly_increases(53, log as nat);
                    }
                }
                lemma_pow2_adds(log as nat, (116 - log) as nat);
                lemma_pow2_adds(64, 52);
                lemma_pow2_pos((116 - log) as nat);
                let (p, q) = (pow2(log as nat), pow2((116 - log) as nat));
                assert(pow2(116) <= ma * q && ma * q < 2 * pow2(116)) by (nonlinear_arith)
                    requires
                        p <= ma,
                        ma < 2 * p,
                        p * q == pow2(116),
                        q > 0,
                ;
            }
            let t: u32 = 116 - log;
            let big: u128 = ma as u128 * power_of_two(t);
            let q: u128 = big / mb as u128;
            let rem: u128 = big % mb as u128;
            let ghost (n, d) = (units(a as nat) * pow2(UNIT_EXPONENT as nat), units(b as nat));
            proof {
                lemma_fundamental_div_mod(big as int, mb as int);
                assert(q >= 0x1000_0000_0000_0000) by (nonlinear_arith)
                    requires
                        big == mb * q + rem,
                        rem < mb,
                        mb < 0x20_0000_0000_0000,
                        big >= 0x10_0000_0000_0000_0000_0000_0000_0000,
                ;
                assert(q <= big) by (nonlinear_arith)
                    requires
                        big == mb * q + rem,
                        mb >= 1,
                        q >= 0,
                        rem >= 0,
                ;
                lemma_units_increase(0, b as nat);
                lemma_quotient_scale(
                    ma as nat,
                    ka as nat,
                    mb as nat,
                    kb as nat,
                    t as nat,
                    q as nat,
                    rem as nat,
                );
            }
            let m: u64 = round_to_magnitude(
                q,
                ka + UNIT_EXPONENT,
                kb + t,
                rem != 0,
                Ghost(n),
                Ghost(d),
            );
            with_sign(negative, m)
        }
    }

    /// Whether this number lies below the other.
    pub fn less_than(self, other: Number) -> (r: bool)
        ensures
            r == self.below(other),
    {
        let (na, nb) = (self.is_negative(), other.is_negative());
        let (a, b) = (self.unsigned(), other.unsigned());
        proof {
            reveal(Number::value);
            reveal(units);
            lemma_units_order(a as nat, b as nat);
            lemma_units_order(0, a as nat);
            lemma_units_order(0, b as nat);
        }
        if a > INFINITE || b > INFINITE {
            false
        } else if na {
            if nb {
                a > b
            } else {
                a != 0 || b != 0
            }
        } else {
            !nb && a < b
        }
    }

    /// Whether the two numbers are equal.
    pub fn equals(self, other: Number) -> (r: bool)
        ensures
            r == self.same(other),
    {
        let (na, nb) = (self.is_negative(), other.is_negative());
        let (a, b) = (self.unsigned(), other.unsigned());
        proof {
            reveal(Number::value);
            reveal(units);
            lemma_units_order(a as nat, b as nat);
            lemma_units_order(0, a as nat);
            lemma_units_order(0, b as nat);
        }
        a <= INFINITE && b <= INFINITE && a == b && (a == 0 || na == nb)
    }

    /// Whether the absolute value lies below `1e-8`.
    pub fn near_zero(self) -> (r: bool)
        ensures
            r == self.negligible(),
    {
        proof {
            lemma_units_order(self.magnitude() as nat, EPSILON as nat);
        }
        self.unsigned() < EPSILON
    }

    /// The bits by which equal values are told to be equal.
    pub fn canonical_bits(self) -> (r: u64)
        ensures
            r == self.canonical(),
    {
        if self.is_nan() {
            QUIET_NAN
        } else if self.unsigned() == 0 {
            0
        } else {
            self.bits
        }
    }
}

} // verus!
