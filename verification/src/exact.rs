//! Numbers among which nothing is rounded, and what the rows of a tableau mean in terms of them.
use crate::number::{
    lemma_one_counts, lemma_units_increase, minus_one, one, units, zero, EPSILON, Number,
};
use crate::row::RowModel;
use crate::symbol::Symbol;
use vstd::prelude::*;

verus! {

/// What a finite number is worth.
pub open spec fn worth(n: Number) -> real {
    n.value() as real / one().value() as real
}

/// Whether a number is worth exactly this much, and counts as zero only if it is.
pub open spec fn is_worth(n: Number, r: real) -> bool {
    &&& !n.nan()
    &&& worth(n) == r
    &&& n.negligible() ==> r == 0 as real
}

/// Whether two numbers add up to a sum that is not rounded.
pub open spec fn adds_up(a: Number, b: Number) -> bool {
    is_worth(a.sum(b), worth(a) + worth(b))
}

/// Whether the product of two numbers is not rounded.
pub open spec fn multiplies(a: Number, b: Number) -> bool {
    is_worth(a.product(b), worth(a) * worth(b))
}

/// Whether a number and the product of two others add up to a sum that is not rounded.
pub open spec fn accrues(a: Number, b: Number, c: Number) -> bool {
    is_worth(a.sum(b.product(c)), worth(a) + worth(b) * worth(c))
}

/// Whether the factor that turns a number into minus one is not rounded, if it belongs to the
/// numbers.
pub open spec fn inverts(z: Set<Number>, a: Number) -> bool {
    let q = minus_one().quotient(a);
    (z.contains(minus_one().product(q)) || z.contains(one().product(q))) && worth(a) != 0 as real
        ==> z.contains(q) && worth(q) * worth(a) == -1 as real
}

/// Whether two quotients stand in the order of what they are worth.
pub open spec fn ranks(a: Number, b: Number, c: Number, d: Number) -> bool {
    worth(b) != 0 as real && worth(d) != 0 as real ==> {
        &&& !a.quotient(b).nan()
        &&& a.quotient(b).below(c.quotient(d)) <==> worth(a) / worth(b) < worth(c) / worth(d)
    }
}

/// Whether nothing is rounded among some numbers: what the solver computes of them is worth what
/// it is meant to be. Its steps add, multiply and invert numbers, and compare quotients.
pub open spec fn exact(z: Set<Number>) -> bool {
    &&& z.contains(zero())
    &&& z.contains(one())
    &&& z.contains(minus_one())
    &&& z.contains(minus_one().quotient(one())) && worth(minus_one().quotient(one())) == -1 as real
    &&& z.contains(minus_one().quotient(minus_one())) && worth(minus_one().quotient(minus_one()))
        == 1 as real
    &&& forall|a: Number| #[trigger] z.contains(a) ==> is_worth(a, worth(a))
    &&& forall|a: Number| z.contains(a) ==> z.contains(#[trigger] a.negation())
    &&& forall|a: Number| z.contains(a) ==> #[trigger] inverts(z, a)
    &&& forall|a: Number, b: Number|
        z.contains(a) && z.contains(b) ==> #[trigger] adds_up(a, b) && multiplies(a, b)
    &&& forall|a: Number, b: Number, c: Number|
        z.contains(a) && z.contains(b) && z.contains(c) ==> #[trigger] accrues(a, b, c)
    &&& forall|a: Number, b: Number, c: Number, d: Number|
        z.contains(a) && z.contains(b) && z.contains(c) && z.contains(d) ==> #[trigger] ranks(
            a,
            b,
            c,
            d,
        )
}

/// Whether the numbers of a row are among some numbers, and no cell is zero.
pub open spec fn drawn(row: RowModel, z: Set<Number>) -> bool {
    &&& z.contains(row.constant)
    &&& forall|s: Symbol| #[trigger]
        row.cells.contains_key(s) ==> z.contains(row.cells[s]) && worth(row.cells[s]) != 0 as real
}

/// What a row holds of a symbol, or its constant.
pub open spec fn at(row: RowModel, x: Option<Symbol>) -> real {
    match x {
        Some(s) => worth(row.coefficient(s)),
        None => worth(row.constant),
    }
}

/// What the numbers that every row starts from are worth, and how worth goes with signs and order.
pub proof fn lemma_worth()
    ensures
        worth(zero()) == 0 as real,
        worth(one()) == 1 as real,
        worth(minus_one()) == -1 as real,
        forall|a: Number| worth(#[trigger] a.negation()) == -worth(a),
        forall|a: Number, b: Number| #[trigger]
            a.below(b) <==> !a.nan() && !b.nan() && worth(a) < worth(b),
        forall|a: Number, b: Number| #[trigger]
            a.same(b) <==> !a.nan() && !b.nan() && worth(a) == worth(b),
        forall|a: Number| a.nan() == (#[trigger] a.negation()).nan(),
        !zero().nan() && !one().nan() && !minus_one().nan(),
        !one().negligible() && !minus_one().negligible(),
        forall|a: Number| !a.nan() && worth(a) == 0 as real ==> #[trigger] a.negligible(),
{
    reveal(Number::value);
    let u = one().value();
    assert(u > 0 && zero().value() == 0 && minus_one().value() == -u) by {
        lemma_one();
    }
    assert(u as real / u as real == 1 as real) by (nonlinear_arith)
        requires
            u > 0,
    ;
    assert((-u) as real / u as real == -1 as real) by (nonlinear_arith)
        requires
            u > 0,
    ;
    assert(0 as real / u as real == 0 as real) by (nonlinear_arith)
        requires
            u > 0,
    ;
    assert forall|a: Number| worth(#[trigger] a.negation()) == -worth(a) by {
        lemma_negated(a);
        let v = a.value();
        assert((-v) as real / u as real == -(v as real / u as real)) by (nonlinear_arith)
            requires
                u > 0,
        ;
    }
    assert forall|a: Number, b: Number| #[trigger]
        a.below(b) <==> !a.nan() && !b.nan() && worth(a) < worth(b) by {
        lemma_order(a.value(), b.value(), u);
    }
    assert forall|a: Number, b: Number| #[trigger]
        a.same(b) <==> !a.nan() && !b.nan() && worth(a) == worth(b) by {
        lemma_order(a.value(), b.value(), u);
        lemma_order(b.value(), a.value(), u);
    }
    assert forall|a: Number| a.nan() == (#[trigger] a.negation()).nan() by {
        lemma_negated(a);
    }
    assert forall|a: Number| !a.nan() && worth(a) == 0 as real implies #[trigger] a.negligible() by {
        let v = a.value();
        assert(v == 0) by (nonlinear_arith)
            requires
                v as real / u as real == 0 as real,
                u > 0,
        ;
        lemma_units_increase(0, EPSILON as nat);
    }
    lemma_one();
}

proof fn lemma_order(a: int, b: int, u: int)
    requires
        u > 0,
    ensures
        a < b <==> (a as real / u as real) < (b as real / u as real),
{
    assert(a < b <==> (a as real / u as real) < (b as real / u as real)) by (nonlinear_arith)
        requires
            u > 0,
    ;
}

proof fn lemma_negated(a: Number)
    ensures
        a.negation().value() == -a.value(),
        a.negation().nan() == a.nan(),
{
    reveal(Number::value);
}

proof fn lemma_one()
    ensures
        one().value() > 0,
        zero().value() == 0,
        minus_one().value() == -one().value(),
        !one().negligible() && !minus_one().negligible(),
{
    reveal(Number::value);
    reveal(units);
    lemma_one_counts();
    lemma_units_increase(EPSILON as nat, one().magnitude() as nat);
}

/// Multiples by nothing and by one.
pub proof fn lemma_plain_product(a: real)
    ensures
        a * 0 as real == 0 as real,
        0 as real * a == 0 as real,
        a * 1 as real == a,
        1 as real * a == a,
        a * (-1 as real) == -a,
        (-1 as real) * a == -a,
{
    assert(a * 0 as real == 0 as real && 0 as real * a == 0 as real && a * 1 as real == a
        && 1 as real * a == a && a * (-1 as real) == -a && (-1 as real) * a == -a)
        by (nonlinear_arith);
}

/// Products of sums.
pub proof fn lemma_spread(a: real, b: real, c: real)
    ensures
        a * (b + c) == a * b + a * c,
        (b + c) * a == b * a + c * a,
        a * (b - c) == a * b - a * c,
        (b - c) * a == b * a - c * a,
{
    assert(a * (b + c) == a * b + a * c) by (nonlinear_arith);
    assert((b + c) * a == b * a + c * a) by (nonlinear_arith);
    assert(a * (b - c) == a * b - a * c) by (nonlinear_arith);
    assert((b - c) * a == b * a - c * a) by (nonlinear_arith);
}

/// Products of products.
pub proof fn lemma_regroup(a: real, b: real, c: real)
    ensures
        (a * b) * c == a * (b * c),
        a * b == b * a,
        a * (-b) == -(a * b),
{
    assert((a * b) * c == a * (b * c)) by (nonlinear_arith);
    assert(a * b == b * a) by (nonlinear_arith);
    assert(a * (-b) == -(a * b)) by (nonlinear_arith);
}

/// A row plus a multiple of another one.
pub proof fn lemma_at_plus_row(
    z: Set<Number>,
    a: RowModel,
    b: RowModel,
    c: Number,
    x: Option<Symbol>,
)
    requires
        exact(z),
        drawn(a, z),
        drawn(b, z),
        z.contains(c),
    ensures
        at(a.plus_row(b, c), x) == at(a, x) + at(b, x) * worth(c),
{
    lemma_worth();
    match x {
        None => {
            assert(accrues(a.constant, b.constant, c));
        },
        Some(s) => {
            if b.cells.contains_key(s) {
                assert(adds_up(b.cells[s], c));
                if a.cells.contains_key(s) {
                    assert(accrues(a.cells[s], b.cells[s], c));
                }
            } else {
                let w = worth(c);
                assert(0 as real * w == 0 as real) by (nonlinear_arith);
            }
        },
    }
}

/// A row plus a multiple of a symbol.
pub proof fn lemma_at_plus_symbol(
    z: Set<Number>,
    a: RowModel,
    s: Symbol,
    c: Number,
    x: Option<Symbol>,
)
    requires
        exact(z),
        drawn(a, z),
        z.contains(c),
    ensures
        at(a.plus_symbol(s, c), x) == at(a, x) + if x == Some(s) {
            worth(c)
        } else {
            0 as real
        },
{
    lemma_worth();
    if a.cells.contains_key(s) {
        assert(adds_up(a.cells[s], c));
    }
}

/// A row with another one in place of a symbol.
pub proof fn lemma_at_substituted(
    z: Set<Number>,
    a: RowModel,
    s: Symbol,
    b: RowModel,
    x: Option<Symbol>,
)
    requires
        exact(z),
        drawn(a, z),
        drawn(b, z),
        !b.cells.contains_key(s),
    ensures
        at(a.substituted(s, b), x) == (if x == Some(s) {
            0 as real
        } else {
            at(a, x)
        }) + at(a, Some(s)) * at(b, x),
{
    lemma_worth();
    if a.cells.contains_key(s) {
        let rest = a.without(s);
        assert(drawn(rest, z));
        lemma_at_plus_row(z, rest, b, a.cells[s], x);
        let (v, w) = (at(b, x), worth(a.cells[s]));
        assert(v * w == w * v) by (nonlinear_arith);
    } else {
        let v = at(b, x);
        assert(0 as real * v == 0 as real) by (nonlinear_arith);
    }
}

/// Whether a row holds a symbol once or minus once.
pub open spec fn single(row: RowModel, s: Symbol) -> bool {
    row.cells.contains_key(s) && (row.cells[s] == one() || row.cells[s] == minus_one())
}

/// `0 = row`, solved for a symbol.
pub proof fn lemma_at_solved(
    z: Set<Number>,
    row: RowModel,
    s: Symbol,
    k: Symbol,
    x: Option<Symbol>,
)
    requires
        exact(z),
        drawn(row, z),
        row.cells.contains_key(s),
        drawn(row.solved_for(s), z),
        single(row, k),
    ensures
        at(row.solved_for(s), Some(s)) == 0 as real,
        x != Some(s) ==> at(row.solved_for(s), x) * at(row, Some(s)) == -at(row, x),
{
    lemma_worth();
    let c = row.cells[s];
    let q = minus_one().quotient(c);
    let after = row.solved_for(s);
    assert(z.contains(q) && worth(q) * worth(c) == -1 as real) by {
        assert(inverts(z, c));
        if k != s {
            assert(after.cells.contains_key(k));
            assert(after.cells[k] == row.cells[k].product(q));
        } else {
            let (v, w) = (worth(q), worth(c));
            assert(w == 1 as real || w == -1 as real);
            assert(v * w == -1 as real) by (nonlinear_arith)
                requires
                    (w == 1 as real && v == -1 as real) || (w == -1 as real && v == 1 as real),
            ;
        }
    }
    if x != Some(s) {
        let y = at(row, x);
        assert(at(after, x) == y * worth(q)) by {
            match x {
                None => {
                    assert(adds_up(row.constant, q));
                },
                Some(t) => {
                    if row.cells.contains_key(t) {
                        assert(adds_up(row.cells[t], q));
                    } else {
                        let w = worth(q);
                        assert(0 as real * w == 0 as real) by (nonlinear_arith);
                    }
                },
            }
        }
        let (v, w) = (worth(q), worth(c));
        assert(y * v * w == -y) by (nonlinear_arith)
            requires
                v * w == -1 as real,
        ;
    }
}

/// `l = row`, solved for another symbol.
pub proof fn lemma_at_exchanged(
    z: Set<Number>,
    row: RowModel,
    l: Symbol,
    e: Symbol,
    x: Option<Symbol>,
)
    requires
        exact(z),
        drawn(row, z),
        row.cells.contains_key(e),
        !row.cells.contains_key(l),
        l != e,
        drawn(row.exchanged(l, e), z),
    ensures
        at(row.exchanged(l, e), Some(e)) == 0 as real,
        at(row.exchanged(l, e), Some(l)) * at(row, Some(e)) == 1 as real,
        x != Some(e) && x != Some(l) ==> at(row.exchanged(l, e), x) * at(row, Some(e)) == -at(
            row,
            x,
        ),
        !row.exchanged(l, e).cells.contains_key(e),
        row.exchanged(l, e).cells.contains_key(l),
{
    lemma_worth();
    let whole = row.plus_symbol(l, minus_one());
    assert(whole.cells == row.cells.insert(l, minus_one()));
    assert(drawn(whole, z));
    assert(single(whole, l));
    lemma_at_solved(z, whole, e, l, x);
    lemma_at_solved(z, whole, e, l, Some(l));
}

/// A row with its signs inverted.
pub proof fn lemma_at_reversed(z: Set<Number>, row: RowModel, x: Option<Symbol>)
    requires
        exact(z),
        drawn(row, z),
    ensures
        at(row.reversed(), x) == -at(row, x),
        drawn(row.reversed(), z),
{
    lemma_worth();
    assert forall|s: Symbol| #[trigger] row.reversed().cells.contains_key(s) implies z.contains(
        row.reversed().cells[s],
    ) && worth(row.reversed().cells[s]) != 0 as real by {
        assert(z.contains(row.cells[s]));
        assert(row.reversed().cells[s] == row.cells[s].negation());
    }
    if let Some(s) = x {
        if row.cells.contains_key(s) {
            assert(row.reversed().cells[s] == row.cells[s].negation());
        }
    }
}

} // verus!
