//! What a tableau says: the equations that hold in it, what it is to minimize, and which steps keep
//! them.
use crate::choice::{
    is_least, is_smallest, least, lemma_least_is_candidate, lemma_smallest_is_member, precedes,
    smallest,
};
use crate::exact::{
    at, drawn, exact, lemma_at_exchanged, lemma_at_substituted, lemma_plain_product, lemma_regroup,
    lemma_spread, lemma_worth, ranks,
};
use crate::number::{lemma_units_increase, units, zero, INFINITE, Number};
use crate::row::RowModel;
use crate::simplex::{lemma_exchanged_cells, lemma_joint_cells, lemma_pivoted, TableauModel, Tag};
use crate::solutions::{
    comes_to, coupled, lemma_coupled_reexpressed, lemma_satisfies_reexpressed, lemma_tally_linear,
    lemma_tally_same, lemma_tally_single, nth, satisfies, tally, Assignment,
};
use crate::symbol::Symbol;
use vstd::multiset::Multiset;
use vstd::prelude::*;

verus! {

/// What a symbol is made of, over the symbols that are not basic: how much of another symbol, or
/// which constant.
pub open spec fn share(t: TableauModel, s: Symbol, x: Option<Symbol>) -> real {
    if t.rows.contains_key(s) {
        at(t.rows[s], x)
    } else if x == Some(s) {
        1 as real
    } else {
        0 as real
    }
}

/// What a sum of multiples of symbols is made of.
pub open spec fn mix(t: TableauModel, terms: Seq<(Symbol, real)>, x: Option<Symbol>) -> real
    decreases terms.len(),
{
    if terms.len() == 0 {
        0 as real
    } else {
        mix(t, terms.drop_last(), x) + terms.last().1 * share(t, terms.last().0, x)
    }
}

/// An equation: multiples of symbols and a constant add up to zero.
pub struct Equation {
    pub terms: Seq<(Symbol, real)>,
    pub constant: real,
}

/// What is left of an equation when every basic symbol is replaced by what it is made of.
pub open spec fn residue(t: TableauModel, eq: Equation, x: Option<Symbol>) -> real {
    mix(t, eq.terms, x) + if x is None {
        eq.constant
    } else {
        0 as real
    }
}

/// Whether an equation follows from a tableau: nothing is left of it.
pub open spec fn holds(t: TableauModel, eq: Equation) -> bool {
    forall|x: Option<Symbol>| #[trigger] residue(t, eq, x) == 0 as real
}

/// Whether a sum of multiples of symbols mentions a symbol.
pub open spec fn mentions(terms: Seq<(Symbol, real)>, s: Symbol) -> bool {
    exists|i: int| 0 <= i < terms.len() && (#[trigger] terms[i]).0 == s
}

/// Whether what is to be minimized is a sum of multiples of symbols, up to a constant.
pub open spec fn priced(t: TableauModel, costs: Seq<(Symbol, real)>) -> bool {
    forall|x: Symbol| #[trigger] at(t.objective, Some(x)) == mix(t, costs, Some(x))
}

/// Whether the numbers of a tableau are among some numbers.
pub open spec fn within(t: TableauModel, z: Set<Number>) -> bool {
    &&& forall|s: Symbol| #[trigger] t.rows.contains_key(s) ==> drawn(t.rows[s], z)
    &&& drawn(t.objective, z)
    &&& t.artificial matches Some(a) ==> drawn(a, z)
}

/// Whether no restricted symbol is negative.
pub open spec fn feasible(t: TableauModel) -> bool {
    forall|s: Symbol| #[trigger]
        t.rows.contains_key(s) && !s.external() ==> !t.rows[s].constant.below(zero())
}

/// Whether a row holds no external symbol.
pub open spec fn inner(row: RowModel) -> bool {
    forall|x: Symbol| x.external() ==> #[trigger] at(row, Some(x)) == 0 as real
}

/// Whether external symbols occur in the rows of external symbols only.
pub open spec fn parted(t: TableauModel) -> bool {
    &&& forall|s: Symbol| #[trigger]
        t.rows.contains_key(s) && !s.external() ==> inner(t.rows[s])
    &&& inner(t.objective)
    &&& t.artificial matches Some(a) ==> inner(a)
}

/// What becomes of a part when a row takes the place of a symbol.
pub open spec fn swapped(
    old_part: real,
    old_share: real,
    e: Symbol,
    row: RowModel,
    x: Option<Symbol>,
) -> real {
    (if x == Some(e) {
        0 as real
    } else {
        old_part
    }) + old_share * at(row, x)
}

/// Whether a row has taken the place of a symbol throughout.
pub open spec fn reexpressed(t: TableauModel, u: TableauModel, e: Symbol, row: RowModel) -> bool {
    &&& forall|s: Symbol, x: Option<Symbol>| #[trigger]
        share(u, s, x) == swapped(share(t, s, x), share(t, s, Some(e)), e, row, x)
    &&& forall|x: Option<Symbol>| #[trigger]
        at(u.objective, x) == swapped(at(t.objective, x), at(t.objective, Some(e)), e, row, x)
}

/// What a sum holds after a row has taken the place of a symbol.
pub proof fn lemma_mix_swapped(
    t: TableauModel,
    u: TableauModel,
    e: Symbol,
    row: RowModel,
    terms: Seq<(Symbol, real)>,
    x: Option<Symbol>,
)
    requires
        reexpressed(t, u, e, row),
    ensures
        mix(u, terms, x) == swapped(mix(t, terms, x), mix(t, terms, Some(e)), e, row, x),
    decreases terms.len(),
{
    let r = at(row, x);
    if terms.len() == 0 {
        assert(0 as real * r == 0 as real) by (nonlinear_arith);
    } else {
        lemma_mix_swapped(t, u, e, row, terms.drop_last(), x);
        let (s, w) = terms.last();
        let a = mix(t, terms.drop_last(), Some(e));
        let b = share(t, s, Some(e));
        let p = if x == Some(e) {
            0 as real
        } else {
            share(t, s, x)
        };
        assert(share(u, s, x) == p + b * r);
        assert(w * (p + b * r) == w * p + w * b * r) by (nonlinear_arith);
        assert(a * r + w * b * r == (a + w * b) * r) by (nonlinear_arith);
        assert(x == Some(e) ==> w * p == 0 as real) by (nonlinear_arith)
            requires
                x == Some(e) ==> p == 0 as real,
        ;
    }
}

/// What follows from a tableau still does when a row takes the place of a symbol.
pub proof fn lemma_holds_reexpressed(
    t: TableauModel,
    u: TableauModel,
    e: Symbol,
    row: RowModel,
    eq: Equation,
)
    requires
        reexpressed(t, u, e, row),
        holds(t, eq),
    ensures
        holds(u, eq),
{
    assert forall|x: Option<Symbol>| #[trigger] residue(u, eq, x) == 0 as real by {
        lemma_mix_swapped(t, u, e, row, eq.terms, x);
        assert(residue(t, eq, x) == 0 as real);
        assert(residue(t, eq, Some(e)) == 0 as real);
        let r = at(row, x);
        assert(0 as real * r == 0 as real) by (nonlinear_arith);
    }
}

/// What is to be minimized stays so when a row takes the place of a symbol.
pub proof fn lemma_priced_reexpressed(
    t: TableauModel,
    u: TableauModel,
    e: Symbol,
    row: RowModel,
    costs: Seq<(Symbol, real)>,
)
    requires
        reexpressed(t, u, e, row),
        priced(t, costs),
    ensures
        priced(u, costs),
{
    assert forall|x: Symbol| #[trigger] at(u.objective, Some(x)) == mix(u, costs, Some(x)) by {
        lemma_mix_swapped(t, u, e, row, costs, Some(x));
        assert(at(t.objective, Some(x)) == mix(t, costs, Some(x)));
        assert(at(t.objective, Some(e)) == mix(t, costs, Some(e)));
    }
}

/// Two tableaus in which the mentioned symbols are made of the same give the same sum.
pub proof fn lemma_same_mix(
    t: TableauModel,
    u: TableauModel,
    terms: Seq<(Symbol, real)>,
    x: Option<Symbol>,
)
    requires
        forall|i: int|
            0 <= i < terms.len() ==> share(u, (#[trigger] terms[i]).0, x) == share(t, terms[i].0, x),
    ensures
        mix(u, terms, x) == mix(t, terms, x),
    decreases terms.len(),
{
    if terms.len() > 0 {
        let rest = terms.drop_last();
        assert forall|i: int| 0 <= i < rest.len() implies share(u, (#[trigger] rest[i]).0, x)
            == share(t, rest[i].0, x) by {
            assert(rest[i] == terms[i]);
        }
        lemma_same_mix(t, u, rest, x);
        assert(share(u, terms[terms.len() - 1].0, x) == share(t, terms[terms.len() - 1].0, x));
    }
}

/// A symbol becomes basic.
pub proof fn lemma_entered_reexpresses(
    z: Set<Number>,
    t: TableauModel,
    e: Symbol,
    row: RowModel,
)
    requires
        exact(z),
        within(t, z),
        drawn(row, z),
        !t.rows.contains_key(e),
        !row.cells.contains_key(e),
    ensures
        reexpressed(t, t.entered(e, row), e, row),
        t.entered(e, row).rows.dom() == t.rows.dom().insert(e),
        t.entered(e, row).rows[e] == row,
        t.artificial matches Some(a) ==> t.entered(e, row).artificial matches Some(b) && forall|
            x: Option<Symbol>,
        | #[trigger]
            at(b, x) == swapped(at(a, x), at(a, Some(e)), e, row, x),
{
    lemma_worth();
    let u = t.entered(e, row);
    assert(u.rows.dom() =~= t.rows.dom().insert(e));
    assert forall|s: Symbol, x: Option<Symbol>| #[trigger]
        share(u, s, x) == swapped(share(t, s, x), share(t, s, Some(e)), e, row, x) by {
        let r = at(row, x);
        assert(0 as real * r == 0 as real && 1 as real * r == r) by (nonlinear_arith);
        if s != e && t.rows.contains_key(s) {
            assert(u.rows[s] == t.rows[s].substituted(e, row));
            lemma_at_substituted(z, t.rows[s], e, row, x);
        }
    }
    assert forall|x: Option<Symbol>| #[trigger]
        at(u.objective, x) == swapped(at(t.objective, x), at(t.objective, Some(e)), e, row, x) by {
        lemma_at_substituted(z, t.objective, e, row, x);
    }
    if let Some(a) = t.artificial {
        assert forall|x: Option<Symbol>| #[trigger]
            at(a.substituted(e, row), x) == swapped(at(a, x), at(a, Some(e)), e, row, x) by {
            lemma_at_substituted(z, a, e, row, x);
        }
    }
}

/// The row of the symbol that enters the basis in a pivot.
pub open spec fn pivot_row(t: TableauModel, l: Symbol, e: Symbol) -> RowModel {
    t.rows[l].exchanged(l, e)
}

/// One symbol takes the place of another in the basis.
pub proof fn lemma_pivot_reexpresses(z: Set<Number>, t: TableauModel, l: Symbol, e: Symbol)
    requires
        exact(z),
        within(t, z),
        t.tidy(),
        t.rows.contains_key(l),
        t.rows[l].cells.contains_key(e),
        drawn(pivot_row(t, l, e), z),
    ensures
        reexpressed(t, t.pivoted(l, e), e, pivot_row(t, l, e)),
        t.pivoted(l, e).rows.dom() == t.rows.dom().remove(l).insert(e),
        t.pivoted(l, e).rows[e] == pivot_row(t, l, e),
        t.artificial matches Some(a) ==> t.pivoted(l, e).artificial matches Some(b) && forall|
            x: Option<Symbol>,
        | #[trigger]
            at(b, x) == swapped(at(a, x), at(a, Some(e)), e, pivot_row(t, l, e), x),
        l != e,
{
    assert(t.free_of_basics(t.rows[l]));
    assert(!t.rows.contains_key(e));
    let row = pivot_row(t, l, e);
    let rest = t.without_row(l);
    let u = t.pivoted(l, e);
    lemma_at_exchanged(z, t.rows[l], l, e, None);
    assert(within(rest, z));
    lemma_entered_reexpresses(z, rest, e, row);
    assert(u.rows.dom() =~= t.rows.dom().remove(l).insert(e));
    lemma_worth();
    assert forall|s: Symbol, x: Option<Symbol>| #[trigger]
        share(u, s, x) == swapped(share(t, s, x), share(t, s, Some(e)), e, row, x) by {
        assert(share(u, s, x) == swapped(share(rest, s, x), share(rest, s, Some(e)), e, row, x));
        if s == l {
            lemma_at_exchanged(z, t.rows[l], l, e, x);
            let (c, r) = (at(t.rows[l], Some(e)), at(row, x));
            assert(c * r == r * c && c * 0 as real == 0 as real && 0 as real * r == 0 as real)
                by (nonlinear_arith);
            assert(!t.rows[l].cells.contains_key(l));
        }
    }
}

/// A pivot keeps apart what is external, where the row that leaves holds nothing external.
pub proof fn lemma_pivot_parted(z: Set<Number>, t: TableauModel, l: Symbol, e: Symbol)
    requires
        exact(z),
        within(t, z),
        t.tidy(),
        t.rows.contains_key(l),
        t.rows[l].cells.contains_key(e),
        drawn(pivot_row(t, l, e), z),
        parted(t),
        !l.external(),
    ensures
        parted(t.pivoted(l, e)),
        !e.external(),
{
    let u = t.pivoted(l, e);
    let row = pivot_row(t, l, e);
    lemma_pivot_reexpresses(z, t, l, e);
    let c = at(t.rows[l], Some(e));
    assert(inner(t.rows[l]));
    assert(c != 0 as real);
    assert(!e.external());
    assert forall|x: Symbol| x.external() implies #[trigger] at(row, Some(x)) == 0 as real by {
        lemma_at_exchanged(z, t.rows[l], l, e, Some(x));
        assert(at(t.rows[l], Some(x)) == 0 as real);
        let r = at(row, Some(x));
        assert(r == 0 as real) by (nonlinear_arith)
            requires
                r * c == 0 as real,
                c != 0 as real,
        ;
    }
    assert forall|s: Symbol| #[trigger] u.rows.contains_key(s) && !s.external() implies inner(
        u.rows[s],
    ) by {
        assert forall|x: Symbol| x.external() implies #[trigger] at(u.rows[s], Some(x))
            == 0 as real by {
            assert(share(u, s, Some(x)) == swapped(
                share(t, s, Some(x)),
                share(t, s, Some(e)),
                e,
                row,
                Some(x),
            ));
            let b = share(t, s, Some(e));
            assert(at(row, Some(x)) == 0 as real);
            lemma_plain_product(b);
            if t.rows.contains_key(s) {
                assert(inner(t.rows[s]));
            }
        }
    }
    assert forall|x: Symbol| x.external() implies #[trigger] at(u.objective, Some(x))
        == 0 as real by {
        assert(at(row, Some(x)) == 0 as real);
        let b = at(t.objective, Some(e));
        lemma_plain_product(b);
        assert(at(t.objective, Some(x)) == 0 as real);
    }
    if let Some(a) = t.artificial {
        let b = u.artificial->0;
        assert forall|x: Symbol| x.external() implies #[trigger] at(b, Some(x)) == 0 as real by {
            assert(at(row, Some(x)) == 0 as real);
            let k = at(a, Some(e));
            lemma_plain_product(k);
            assert(at(a, Some(x)) == 0 as real);
        }
    }
}

/// How far a step can go before a part that it lowers is used up.
proof fn lemma_step(b: real, a: real, bl: real, c: real, step: real)
    requires
        b >= 0 as real,
        a < 0 as real,
        c < 0 as real,
        step * c == -bl,
        !((-b) / a < (-bl) / c),
    ensures
        b + a * step >= 0 as real,
{
    assert((-bl) / c == step) by (nonlinear_arith)
        requires
            c < 0 as real,
            step * c == -bl,
    ;
    let q = (-b) / a;
    assert(q * a == -b) by (nonlinear_arith)
        requires
            a < 0 as real,
            q == (-b) / a,
    ;
    assert(b + a * step >= 0 as real) by (nonlinear_arith)
        requires
            q * a == -b,
            q >= step,
            a < 0 as real,
    ;
}

/// A pivot in which the row with the smallest allowance leaves makes no restricted symbol
/// negative.
pub proof fn lemma_pivot_feasible(z: Set<Number>, t: TableauModel, l: Symbol, e: Symbol)
    requires
        exact(z),
        within(t, z),
        t.tidy(),
        t.leaving(e) == Some(l),
        drawn(pivot_row(t, l, e), z),
        feasible(t),
    ensures
        forall|k: Symbol|
            k != l && #[trigger] t.rows.contains_key(k) && !k.external() ==> at(t.rows[k], None)
                + at(t.rows[k], Some(e)) * at(pivot_row(t, l, e), None) >= 0 as real,
        at(pivot_row(t, l, e), None) >= 0 as real,
{
    lemma_worth();
    let candidates = t.leaving_candidates(e);
    lemma_least_is_candidate(candidates);
    let row = pivot_row(t, l, e);
    assert(candidates.contains_key(l));
    assert(t.free_of_basics(t.rows[l]));
    lemma_at_exchanged(z, t.rows[l], l, e, None);
    let c = at(t.rows[l], Some(e));
    let bl = at(t.rows[l], None);
    let step = at(row, None);
    assert(drawn(t.rows[l], z));
    assert(bl >= 0 as real);
    assert(step >= 0 as real) by (nonlinear_arith)
        requires
            step * c == -bl,
            bl >= 0 as real,
            c < 0 as real,
    ;
    assert forall|k: Symbol|
        k != l && #[trigger] t.rows.contains_key(k) && !k.external() implies at(t.rows[k], None)
        + at(t.rows[k], Some(e)) * at(row, None) >= 0 as real by {
        assert(drawn(t.rows[k], z));
        let b = at(t.rows[k], None);
        let a = at(t.rows[k], Some(e));
        assert(b >= 0 as real);
        if a < 0 as real {
            let (bn, an) = (t.rows[k].constant.negation(), t.rows[k].coefficient(e));
            let (bln, cn) = (t.rows[l].constant.negation(), t.rows[l].coefficient(e));
            assert(ranks(bn, an, bln, cn));
            assert(candidates.contains_key(k));
            reveal(Number::value);
            assert(!candidates[k].below(candidates[l]));
            lemma_step(b, a, bl, c, step);
        } else {
            assert(b + a * step >= 0 as real) by (nonlinear_arith)
                requires
                    b >= 0 as real,
                    a >= 0 as real,
                    step >= 0 as real,
            ;
        }
    }
}

/// Whether what is to be brought to zero is a symbol.
pub open spec fn tracks(t: TableauModel, art: Symbol) -> bool {
    t.artificial matches Some(a) && forall|x: Option<Symbol>| #[trigger]
        at(a, x) == share(t, art, x)
}

/// Whether what follows from a tableau follows from another one, and what is to be minimized in
/// it is to be minimized in the other one.
pub open spec fn keeps(t: TableauModel, u: TableauModel) -> bool {
    &&& forall|eq: Equation| #[trigger] holds(t, eq) ==> holds(u, eq)
    &&& forall|costs: Seq<(Symbol, real)>| #[trigger] priced(t, costs) ==> priced(u, costs)
    &&& forall|art: Symbol| #[trigger] tracks(t, art) ==> tracks(u, art)
    &&& t.artificial is None ==> u.artificial is None
    &&& forall|n: nat| #[trigger] spans(t, n) ==> spans(u, n)
    &&& forall|a: Assignment, n: nat| #[trigger]
        satisfies(a, t, n) && spans(t, n) ==> satisfies(a, u, n)
    &&& forall|tag: Tag, f: real, g: real| #[trigger]
        coupled(t, tag, f, g) && tag.other is Some && tag.other->0 != tag.marker ==> coupled(
            u,
            tag,
            f,
            g,
        )
}

/// Whether all symbols of the rows of a tableau are among the first ones.
pub open spec fn spans(t: TableauModel, n: nat) -> bool {
    &&& forall|k: Symbol| #[trigger] t.rows.contains_key(k) ==> k.raw < n
    &&& forall|k: Symbol, s: Symbol|
        t.rows.contains_key(k) && #[trigger] t.rows[k].cells.contains_key(s) ==> s.raw < n
}

/// What the row that enters in a pivot holds, times what it is divided by.
proof fn lemma_pivot_row_parts(
    z: Set<Number>,
    t: TableauModel,
    l: Symbol,
    e: Symbol,
    x: Option<Symbol>,
)
    requires
        exact(z),
        within(t, z),
        t.tidy(),
        t.rows.contains_key(l),
        t.rows[l].cells.contains_key(e),
        drawn(pivot_row(t, l, e), z),
    ensures
        at(pivot_row(t, l, e), x) * at(t.rows[l], Some(e)) == -at(t.rows[l], x) + (if x == Some(l) {
            1 as real
        } else {
            0 as real
        }) + (if x == Some(e) {
            at(t.rows[l], Some(e))
        } else {
            0 as real
        }),
        at(t.rows[l], Some(e)) != 0 as real,
{
    lemma_worth();
    assert(t.free_of_basics(t.rows[l]));
    assert(drawn(t.rows[l], z));
    lemma_at_exchanged(z, t.rows[l], l, e, x);
    lemma_plain_product(at(t.rows[l], Some(e)));
}

/// A factor that is not zero cancels.
pub proof fn lemma_cancel(x: real, y: real, c: real)
    requires
        c != 0 as real,
        x * c == y * c,
    ensures
        x == y,
{
    assert((x - y) * c == x * c - y * c) by (nonlinear_arith);
    let d = x - y;
    assert(d == 0 as real) by (nonlinear_arith)
        requires
            d * c == 0 as real,
            c != 0 as real,
    ;
}

proof fn lemma_pivot_coupled(
    z: Set<Number>,
    t: TableauModel,
    l: Symbol,
    e: Symbol,
    tag: Tag,
    f: real,
    g: real,
)
    requires
        exact(z),
        within(t, z),
        t.tidy(),
        t.rows.contains_key(l),
        t.rows[l].cells.contains_key(e),
        drawn(pivot_row(t, l, e), z),
        coupled(t, tag, f, g),
        tag.other is Some,
        tag.other->0 != tag.marker,
    ensures
        coupled(t.pivoted(l, e), tag, f, g),
{
    let row = pivot_row(t, l, e);
    let (p, q) = (Some(tag.marker), Some(tag.other->0));
    lemma_pivot_reexpresses(z, t, l, e);
    lemma_pivot_row_parts(z, t, l, e, p);
    lemma_pivot_row_parts(z, t, l, e, q);
    lemma_pivot_row_parts(z, t, l, e, Some(e));
    let c = at(t.rows[l], Some(e));
    let (v, w) = (at(row, p), at(row, q));
    let (x, y) = (at(t.rows[l], p), at(t.rows[l], q));
    let de = if e == tag.marker {
        g
    } else if tag.other == Some(e) {
        -f
    } else {
        0 as real
    };
    let dl = if l == tag.marker {
        g
    } else if tag.other == Some(l) {
        -f
    } else {
        0 as real
    };
    assert(share(t, l, p) * g - share(t, l, q) * f == dl);
    assert(x * g - y * f == dl);
    let (vc, wc) = (v * c, w * c);
    assert((v * g - w * f) * c == vc * g - wc * f) by {
        lemma_spread(c, v * g, w * f);
        lemma_regroup(v, g, c);
        lemma_regroup(v, c, g);
        lemma_regroup(w, f, c);
        lemma_regroup(w, c, f);
        lemma_regroup(g, c, c);
        lemma_regroup(f, c, c);
    }
    // The parts of the entering row, taken together.
    let (p1, p2) = (
        if p == Some(l) {
            1 as real
        } else {
            0 as real
        },
        if p == Some(e) {
            c
        } else {
            0 as real
        },
    );
    let (q1, q2) = (
        if q == Some(l) {
            1 as real
        } else {
            0 as real
        },
        if q == Some(e) {
            c
        } else {
            0 as real
        },
    );
    assert(vc == -x + p1 + p2 && wc == -y + q1 + q2);
    assert(vc * g == -(x * g) + p1 * g + p2 * g) by {
        lemma_spread(g, -x + p1, p2);
        lemma_spread(g, -x, p1);
        lemma_regroup(g, x, x);
        lemma_regroup(g, -x, x);
        lemma_regroup(x, g, g);
    }
    assert(wc * f == -(y * f) + q1 * f + q2 * f) by {
        lemma_spread(f, -y + q1, q2);
        lemma_spread(f, -y, q1);
        lemma_regroup(f, y, y);
        lemma_regroup(f, -y, y);
        lemma_regroup(y, f, f);
    }
    lemma_plain_product(g);
    lemma_plain_product(f);
    lemma_plain_product(c);
    lemma_regroup(g, c, c);
    lemma_regroup(f, c, c);
    lemma_regroup(c, f, f);
    lemma_regroup(c, g, g);
    lemma_regroup(-f, c, c);
    assert(p1 * g - q1 * f == dl);
    assert(p2 * g - q2 * f == de * c);
    lemma_cancel(v * g - w * f, de, c);
    lemma_cancel_nothing(at(row, Some(e)), c);
    lemma_coupled_reexpressed(t, t.pivoted(l, e), e, row, tag, f, g);
}

proof fn lemma_cancel_nothing(x: real, c: real)
    requires
        c != 0 as real,
        x * c == 0 as real,
    ensures
        x == 0 as real,
{
    lemma_plain_product(c);
    lemma_cancel(x, 0 as real, c);
}

/// Solutions stay solutions in a pivot.
proof fn lemma_pivot_satisfies(
    z: Set<Number>,
    t: TableauModel,
    l: Symbol,
    e: Symbol,
    a: Assignment,
    n: nat,
)
    requires
        exact(z),
        within(t, z),
        t.tidy(),
        t.rows.contains_key(l),
        t.rows[l].cells.contains_key(e),
        drawn(pivot_row(t, l, e), z),
        satisfies(a, t, n),
        spans(t, n),
    ensures
        satisfies(a, t.pivoted(l, e), n),
{
    let row = pivot_row(t, l, e);
    let c = at(t.rows[l], Some(e));
    lemma_pivot_reexpresses(z, t, l, e);
    assert(e.raw < n && l.raw < n);
    let rr = |s: Symbol| at(row, Some(s)) * a(s);
    let ff = |s: Symbol| share(t, l, Some(s)) * a(s);
    let dl = |s: Symbol|
        if s == l {
            a(l)
        } else {
            0 as real
        };
    let de = |s: Symbol|
        if s == e {
            a(e)
        } else {
            0 as real
        };
    let zero_map = |s: Symbol| 0 as real;
    let cr = |s: Symbol| c * rr(s);
    let one_step = |s: Symbol| dl(s) + (-1 as real) * ff(s);
    lemma_pivot_row_parts(z, t, l, e, None);
    assert forall|i: nat| i < n implies cr(#[trigger] nth(i)) == one_step(nth(i)) + c * de(
        nth(i),
    ) by {
        let s = nth(i);
        lemma_pivot_row_parts(z, t, l, e, Some(s));
        let (v, x, y) = (at(row, Some(s)), at(t.rows[l], Some(s)), a(s));
        let (k1, k2) = (
            if s == l {
                1 as real
            } else {
                0 as real
            },
            if s == e {
                c
            } else {
                0 as real
            },
        );
        assert(v * c == -x + k1 + k2);
        // c * (v * y) = (v * c) * y
        lemma_regroup(c, v, y);
        lemma_regroup(v, c, y);
        assert(c * (v * y) == (v * c) * y);
        lemma_spread(y, -x + k1, k2);
        lemma_spread(y, -x, k1);
        lemma_plain_product(y);
        lemma_plain_product(c);
        lemma_plain_product(x * y);
        lemma_regroup(y, x, x);
        lemma_regroup(x, y, y);
        lemma_regroup(y, -x, y);
        lemma_regroup(c, y, y);
    }
    lemma_tally_linear(one_step, de, cr, c, n);
    assert forall|i: nat| i < n implies one_step(#[trigger] nth(i)) == dl(nth(i)) + (-1 as real)
        * ff(nth(i)) by {}
    lemma_tally_linear(dl, ff, one_step, -1 as real, n);
    lemma_tally_single(dl, l, n);
    lemma_tally_single(de, e, n);
    assert forall|i: nat| i < n implies cr(#[trigger] nth(i)) == zero_map(nth(i)) + c * rr(
        nth(i),
    ) by {}
    lemma_tally_linear(zero_map, rr, cr, c, n);
    lemma_tally_single(zero_map, l, n);
    let (tr, tf) = (tally(rr, n), tally(ff, n));
    lemma_plain_product(tf);
    assert(c * tr == a(l) - tf + c * a(e));
    assert(a(l) == comes_to(t, l, a, n));
    assert(a(l) == at(t.rows[l], None) + tf);
    let r0 = at(row, None);
    assert(r0 * c == -at(t.rows[l], None));
    lemma_regroup(r0, c, c);
    lemma_regroup(tr, c, c);
    lemma_regroup(a(e), c, c);
    lemma_spread(c, r0, tr);
    assert((r0 + tr) * c == a(e) * c);
    lemma_cancel(r0 + tr, a(e), c);
    lemma_satisfies_reexpressed(t, t.pivoted(l, e), e, row, a, n);
}

proof fn lemma_pivot_spans(z: Set<Number>, t: TableauModel, l: Symbol, e: Symbol, n: nat)
    requires
        exact(z),
        within(t, z),
        t.tidy(),
        t.rows.contains_key(l),
        t.rows[l].cells.contains_key(e),
        drawn(pivot_row(t, l, e), z),
        spans(t, n),
    ensures
        spans(t.pivoted(l, e), n),
{
    let u = t.pivoted(l, e);
    let row = pivot_row(t, l, e);
    lemma_pivot_reexpresses(z, t, l, e);
    assert forall|s: Symbol| #[trigger] row.cells.contains_key(s) implies s.raw < n by {
        lemma_exchanged_cells(t.rows[l], l, e, s);
    }
    assert forall|k: Symbol, s: Symbol|
        u.rows.contains_key(k) && #[trigger] u.rows[k].cells.contains_key(s) implies s.raw < n by {
        if k != e {
            assert(t.rows.contains_key(k));
            assert(u.rows[k] == t.rows[k].substituted(e, row));
            if t.rows[k].cells.contains_key(e) {
                lemma_joint_cells(
                    t.rows[k].without(e),
                    row,
                    t.rows[k].cells[e],
                    s,
                );
            }
            assert(t.rows[k].cells.contains_key(s) || row.cells.contains_key(s));
        }
    }
}

/// What is kept in two steps is kept.
pub proof fn lemma_keeps_twice(t: TableauModel, u: TableauModel, v: TableauModel)
    requires
        keeps(t, u),
        keeps(u, v),
    ensures
        keeps(t, v),
{
}

/// A pivot keeps what the tableau says.
pub proof fn lemma_pivot_keeps(z: Set<Number>, t: TableauModel, l: Symbol, e: Symbol)
    requires
        exact(z),
        within(t, z),
        t.tidy(),
        t.rows.contains_key(l),
        t.rows[l].cells.contains_key(e),
        drawn(pivot_row(t, l, e), z),
    ensures
        keeps(t, t.pivoted(l, e)),
{
    let u = t.pivoted(l, e);
    let row = pivot_row(t, l, e);
    lemma_pivot_reexpresses(z, t, l, e);
    assert forall|eq: Equation| #[trigger] holds(t, eq) implies holds(u, eq) by {
        lemma_holds_reexpressed(t, u, e, row, eq);
    }
    assert forall|costs: Seq<(Symbol, real)>| #[trigger] priced(t, costs) implies priced(
        u,
        costs,
    ) by {
        lemma_priced_reexpressed(t, u, e, row, costs);
    }
    assert forall|art: Symbol| #[trigger] tracks(t, art) implies tracks(u, art) by {
        let (a, b) = (t.artificial->0, u.artificial->0);
        assert forall|x: Option<Symbol>| #[trigger] at(b, x) == share(u, art, x) by {
            assert(at(a, x) == share(t, art, x));
            assert(at(a, Some(e)) == share(t, art, Some(e)));
            assert(share(u, art, x) == swapped(
                share(t, art, x),
                share(t, art, Some(e)),
                e,
                row,
                x,
            ));
        }
    }
    assert forall|n: nat| #[trigger] spans(t, n) implies spans(u, n) by {
        lemma_pivot_spans(z, t, l, e, n);
    }
    assert forall|a: Assignment, n: nat| #[trigger] satisfies(a, t, n) && spans(t, n) implies
        satisfies(a, u, n) by {
        lemma_pivot_satisfies(z, t, l, e, a, n);
    }
    assert forall|tag: Tag, f: real, g: real| #[trigger]
        coupled(t, tag, f, g) && tag.other is Some && tag.other->0 != tag.marker implies coupled(
        u,
        tag,
        f,
        g,
    ) by {
        lemma_pivot_coupled(z, t, l, e, tag, f, g);
    }
}

/// Whether the numbers of an optimization are among some numbers at each of its first pivots.
pub open spec fn pivots_within(
    t: TableauModel,
    artificial: bool,
    pivots: nat,
    z: Set<Number>,
) -> bool
    decreases pivots,
{
    &&& within(t, z)
    &&& match TableauModel::entering(t.goal(artificial)) {
        None => true,
        Some(entering) => match t.leaving(entering) {
            None => true,
            Some(leaving) => pivots > 0 ==> pivots_within(
                t.pivoted(leaving, entering),
                artificial,
                (pivots - 1) as nat,
                z,
            ),
        },
    }
}

/// Whether the numbers of an optimization are among some numbers throughout.
pub open spec fn optimizes_within(t: TableauModel, artificial: bool, z: Set<Number>) -> bool {
    pivots_within(
        t,
        artificial,
        choose|pivots: nat| t.ends_within(artificial, pivots),
        z,
    )
}

/// Whether a tableau is in order: no restricted symbol is negative, and external symbols are kept
/// apart.
pub open spec fn orderly(t: TableauModel) -> bool {
    t.tidy() && feasible(t) && parted(t)
}

proof fn lemma_pivots_keep(
    z: Set<Number>,
    t: TableauModel,
    artificial: bool,
    pivots: nat,
    limit: nat,
)
    requires
        exact(z),
        pivots_within(t, artificial, pivots, z),
        orderly(t),
        t.all_below(limit),
        artificial ==> t.artificial is Some,
    ensures
        keeps(t, t.optimized_within(artificial, pivots).0),
        orderly(t.optimized_within(artificial, pivots).0),
        within(t.optimized_within(artificial, pivots).0, z),
        t.optimized_within(artificial, pivots).0.all_below(limit),
    decreases pivots,
{
    if let Some(e) = TableauModel::entering(t.goal(artificial)) {
        if let Some(l) = t.leaving(e) {
            if pivots > 0 {
                let u = t.pivoted(l, e);
                lemma_least_is_candidate(TableauModel::entering_candidates(t.goal(artificial)));
                lemma_least_is_candidate(t.leaving_candidates(e));
                lemma_worth();
                assert(t.rows[l].cells.contains_key(e));
                lemma_pivoted(t, l, e, limit);
                assert(pivots_within(u, artificial, (pivots - 1) as nat, z));
                assert(within(u, z));
                assert(u.rows[e] == pivot_row(t, l, e));
                assert(u.rows.contains_key(e));
                assert(drawn(pivot_row(t, l, e), z));
                lemma_pivot_keeps(z, t, l, e);
                lemma_pivot_parted(z, t, l, e);
                lemma_pivot_feasible(z, t, l, e);
                lemma_pivot_reexpresses(z, t, l, e);
                assert(feasible(u)) by {
                    assert forall|s: Symbol| #[trigger]
                        u.rows.contains_key(s) && !s.external() implies !u.rows[s].constant.below(
                        zero(),
                    ) by {
                        if s != e {
                            assert(t.rows.contains_key(s));
                            assert(share(u, s, None) == swapped(
                                share(t, s, None),
                                share(t, s, Some(e)),
                                e,
                                pivot_row(t, l, e),
                                None,
                            ));
                        }
                    }
                }
                lemma_pivots_keep(z, u, artificial, (pivots - 1) as nat, limit);
                lemma_keeps_twice(t, u, t.optimized_within(artificial, pivots).0);
            }
        }
    }
}

/// An optimization keeps what the tableau says, and makes no restricted symbol negative.
pub proof fn lemma_optimized_keeps(
    z: Set<Number>,
    t: TableauModel,
    artificial: bool,
    limit: nat,
)
    requires
        exact(z),
        optimizes_within(t, artificial, z),
        orderly(t),
        t.all_below(limit),
        artificial ==> t.artificial is Some,
    ensures
        keeps(t, t.optimized(artificial).0),
        orderly(t.optimized(artificial).0),
        within(t.optimized(artificial).0, z),
        t.optimized(artificial).0.all_below(limit),
{
    lemma_pivots_keep(
        z,
        t,
        artificial,
        choose|pivots: nat| t.ends_within(artificial, pivots),
        limit,
    );
}

/// Whether each restricted symbol that is negative waits to be worked on.
pub open spec fn pending(t: TableauModel) -> bool {
    forall|s: Symbol| #[trigger]
        t.rows.contains_key(s) && !s.external() && t.rows[s].constant.below(zero())
            ==> t.infeasible.count(s) > 0
}

/// Whether the numbers are among some numbers at each of the first steps by which the infeasible
/// symbols are worked through.
pub open spec fn steps_within(t: TableauModel, steps: nat, z: Set<Number>) -> bool
    decreases steps,
{
    &&& within(t, z)
    &&& match smallest(t.infeasible.dom()) {
        None => true,
        Some(leaving) => {
            let rest = TableauModel { infeasible: t.infeasible.remove(leaving), ..t };
            steps > 0 ==> if t.rows.contains_key(leaving) && t.rows[leaving].constant.below(
                zero(),
            ) {
                match t.dual_entering(t.rows[leaving]) {
                    None => true,
                    Some(entering) => steps_within(
                        rest.pivoted(leaving, entering),
                        (steps - 1) as nat,
                        z,
                    ),
                }
            } else {
                steps_within(rest, (steps - 1) as nat, z)
            }
        },
    }
}

/// Whether the numbers are among some numbers throughout while the infeasible symbols are worked
/// through.
pub open spec fn rebalances_within(t: TableauModel, z: Set<Number>) -> bool {
    steps_within(t, choose|steps: nat| t.dual_ends_within(steps), z)
}

proof fn lemma_price(o: real, r: real, oe: real, c: real, share: real)
    requires
        o >= 0 as real,
        oe >= 0 as real,
        c > 0 as real,
        share * c == -r,
        r > 0 as real ==> !(o / r < oe / c),
    ensures
        o + oe * share >= 0 as real,
{
    if r > 0 as real {
        let (p, q) = (o / r, oe / c);
        assert(p * r == o) by (nonlinear_arith)
            requires
                r > 0 as real,
                p == o / r,
        ;
        assert(q * c == oe) by (nonlinear_arith)
            requires
                c > 0 as real,
                q == oe / c,
        ;
        assert(oe * share == -(q * r)) by (nonlinear_arith)
            requires
                q * c == oe,
                share * c == -r,
        ;
        assert(p * r >= q * r) by (nonlinear_arith)
            requires
                p >= q,
                r > 0 as real,
        ;
    } else {
        assert(share >= 0 as real) by (nonlinear_arith)
            requires
                share * c == -r,
                r <= 0 as real,
                c > 0 as real,
        ;
        assert(oe * share >= 0 as real) by (nonlinear_arith)
            requires
                oe >= 0 as real,
                share >= 0 as real,
        ;
    }
}

/// A pivot in which the cheapest symbol enters keeps the objective at its minimum, and raises the
/// row that it enters above zero.
proof fn lemma_dual_pivot(z: Set<Number>, t: TableauModel, l: Symbol, e: Symbol)
    requires
        exact(z),
        within(t, z),
        t.tidy(),
        t.rows.contains_key(l),
        t.rows[l].constant.below(zero()),
        t.dual_entering(t.rows[l]) == Some(e),
        drawn(pivot_row(t, l, e), z),
        t.minimal(),
    ensures
        t.pivoted(l, e).minimal(),
        at(pivot_row(t, l, e), None) > 0 as real,
        t.rows[l].cells.contains_key(e),
{
    lemma_worth();
    let candidates = t.dual_candidates(t.rows[l]);
    lemma_least_is_candidate(candidates);
    assert(candidates.contains_key(e));
    assert(t.free_of_basics(t.rows[l]));
    assert(drawn(t.rows[l], z));
    let row = pivot_row(t, l, e);
    let u = t.pivoted(l, e);
    lemma_at_exchanged(z, t.rows[l], l, e, None);
    lemma_pivot_reexpresses(z, t, l, e);
    let c = at(t.rows[l], Some(e));
    let (bl, step) = (at(t.rows[l], None), at(row, None));
    assert(step > 0 as real) by (nonlinear_arith)
        requires
            step * c == -bl,
            bl < 0 as real,
            c > 0 as real,
    ;
    let oe = at(t.objective, Some(e));
    assert(oe >= 0 as real) by {
        if t.objective.cells.contains_key(e) {
            assert(z.contains(t.objective.cells[e]));
        }
    }
    assert forall|x: Symbol| #[trigger]
        u.objective.cells.contains_key(x) && !(x.sort() is Dummy) implies !u.objective.cells[x].below(
        zero(),
    ) by {
        lemma_at_exchanged(z, t.rows[l], l, e, Some(x));
        let o = at(t.objective, Some(x));
        let r = at(row, Some(x));
        lemma_plain_product(oe);
        assert(at(u.objective, Some(x)) == swapped(o, oe, e, row, Some(x)));
        assert(o >= 0 as real) by {
            if t.objective.cells.contains_key(x) {
                assert(z.contains(t.objective.cells[x]));
            }
        }
        if x == l {
            assert(!t.objective.cells.contains_key(l));
            assert(r > 0 as real) by (nonlinear_arith)
                requires
                    r * c == 1 as real,
                    c > 0 as real,
            ;
            assert(oe * r >= 0 as real) by (nonlinear_arith)
                requires
                    oe >= 0 as real,
                    r > 0 as real,
            ;
        } else if x != e {
            let w = at(t.rows[l], Some(x));
            if w > 0 as real {
                let (on, wn) = (t.objective.coefficient(x), t.rows[l].cells[x]);
                let (oen, cn) = (t.objective.coefficient(e), t.rows[l].cells[e]);
                assert(ranks(on, wn, oen, cn));
                assert(candidates.contains_key(x));
                reveal(Number::value);
                assert(!candidates[x].below(candidates[e]));
            }
            lemma_price(o, w, oe, c, r);
        }
    }
}

proof fn lemma_steps_keep(z: Set<Number>, t: TableauModel, steps: nat, limit: nat)
    requires
        exact(z),
        steps_within(t, steps, z),
        t.tidy(),
        parted(t),
        pending(t),
        t.minimal(),
        t.all_below(limit),
    ensures
        keeps(t, t.dual_optimized_within(steps).0) || t.dual_optimized_within(steps).1 is Err,
        t.dual_optimized_within(steps).1 is Ok ==> orderly(t.dual_optimized_within(steps).0)
            && t.dual_optimized_within(steps).0.minimal() && within(
            t.dual_optimized_within(steps).0,
            z,
        ) && t.dual_optimized_within(steps).0.all_below(limit),
    decreases steps,
{
    broadcast use vstd::multiset::group_multiset_axioms;

    lemma_smallest_is_member(t.infeasible.dom());
    lemma_worth();
    match smallest(t.infeasible.dom()) {
        None => {
            assert(feasible(t)) by {
                assert forall|s: Symbol| #[trigger]
                    t.rows.contains_key(s) && !s.external() implies !t.rows[s].constant.below(
                    zero(),
                ) by {
                    if t.rows[s].constant.below(zero()) {
                        lemma_some_smallest(t.infeasible.dom(), s);
                    }
                }
            }
        },
        Some(l) => {
            let rest = TableauModel { infeasible: t.infeasible.remove(l), ..t };
            assert(t.infeasible.count(l) > 0);
            assert(!l.external());
            assert(rest.tidy()) by {
                assert forall|s: Symbol| rest.infeasible.count(s) > 0 implies !#[trigger] s.external() by {
                    assert(t.infeasible.count(s) > 0);
                }
                assert forall|k: Symbol| #[trigger] rest.rows.contains_key(k) implies rest.free_of_basics(
                    rest.rows[k],
                ) by {
                    assert(t.free_of_basics(t.rows[k]));
                }
            }
            lemma_same_rows_keep(t, rest);
            if steps > 0 {
                let end = t.dual_optimized_within(steps).0;
                if t.rows.contains_key(l) && t.rows[l].constant.below(zero()) {
                    if let Some(e) = t.dual_entering(t.rows[l]) {
                        let u = rest.pivoted(l, e);
                        assert(steps_within(u, (steps - 1) as nat, z));
                        assert(within(u, z));
                        assert(u.rows[e] == pivot_row(rest, l, e));
                        assert(u.rows.contains_key(e));
                        assert(drawn(pivot_row(rest, l, e), z));
                        assert(rest.dual_candidates(rest.rows[l])
                            =~= t.dual_candidates(t.rows[l]));
                        lemma_least_is_candidate(t.dual_candidates(t.rows[l]));
                        lemma_dual_pivot(z, rest, l, e);
                        lemma_pivoted(rest, l, e, limit);
                        lemma_pivot_keeps(z, rest, l, e);
                        lemma_pivot_parted(z, rest, l, e);
                        lemma_pivot_pending(rest, l, e);
                        lemma_steps_keep(z, u, (steps - 1) as nat, limit);
                        if t.dual_optimized_within(steps).1 is Ok {
                            lemma_keeps_twice(t, rest, u);
                            lemma_keeps_twice(t, u, end);
                        }
                    }
                } else {
                    assert(steps_within(rest, (steps - 1) as nat, z));
                    assert(pending(rest));
                    lemma_steps_keep(z, rest, (steps - 1) as nat, limit);
                    if t.dual_optimized_within(steps).1 is Ok {
                        lemma_keeps_twice(t, rest, end);
                    }
                }
            }
        },
    }
}

/// Rows that are the same say the same.
pub proof fn lemma_same_rows_keep(t: TableauModel, u: TableauModel)
    requires
        t.rows == u.rows,
        t.objective == u.objective,
        t.artificial == u.artificial,
    ensures
        keeps(t, u),
{
    assert forall|eq: Equation| #[trigger] holds(t, eq) implies holds(u, eq) by {
        assert forall|x: Option<Symbol>| #[trigger] residue(u, eq, x) == 0 as real by {
            lemma_same_mix(t, u, eq.terms, x);
            assert(residue(t, eq, x) == 0 as real);
        }
    }
    assert forall|costs: Seq<(Symbol, real)>| #[trigger] priced(t, costs) implies priced(
        u,
        costs,
    ) by {
        assert forall|x: Symbol| #[trigger] at(u.objective, Some(x)) == mix(u, costs, Some(x)) by {
            lemma_same_mix(t, u, costs, Some(x));
            assert(at(t.objective, Some(x)) == mix(t, costs, Some(x)));
        }
    }
    assert forall|art: Symbol| #[trigger] tracks(t, art) implies tracks(u, art) by {
        assert forall|x: Option<Symbol>| #[trigger] at(u.artificial->0, x) == share(u, art, x) by {
            assert(at(t.artificial->0, x) == share(t, art, x));
        }
    }
    assert forall|a: Assignment, n: nat| #[trigger] satisfies(a, t, n) && spans(t, n) implies
        satisfies(a, u, n) by {
        lemma_same_satisfies(t, u, a, n);
    }
    assert forall|tag: Tag, f: real, g: real| #[trigger]
        coupled(t, tag, f, g) && tag.other is Some && tag.other->0 != tag.marker implies coupled(
        u,
        tag,
        f,
        g,
    ) by {
        assert forall|k: Symbol| #[trigger] share(u, k, Some(tag.marker)) * g - share(
            u,
            k,
            Some(tag.other->0),
        ) * f == if k == tag.marker {
            g
        } else if tag.other == Some(k) {
            -f
        } else {
            0 as real
        } by {
            assert(share(t, k, Some(tag.marker)) * g - share(t, k, Some(tag.other->0)) * f == if k
                == tag.marker {
                g
            } else if tag.other == Some(k) {
                -f
            } else {
                0 as real
            });
        }
    }
}

/// Rows that are the same, or fewer of them, have the same solutions.
pub proof fn lemma_same_satisfies(t: TableauModel, u: TableauModel, a: Assignment, n: nat)
    requires
        satisfies(a, t, n),
        forall|k: Symbol| #[trigger]
            u.rows.contains_key(k) ==> t.rows.contains_key(k) && u.rows[k] == t.rows[k],
    ensures
        satisfies(a, u, n),
{
    assert forall|k: Symbol| #[trigger] u.rows.contains_key(k) implies k.raw < n && a(k)
        == comes_to(u, k, a, n) by {
        lemma_tally_same(
            |s: Symbol| share(t, k, Some(s)) * a(s),
            |s: Symbol| share(u, k, Some(s)) * a(s),
            n,
        );
    }
}

/// Candidates of which there are any have one that is preferred to all others.
pub proof fn lemma_some_least(c: Map<Symbol, Number>, s: Symbol)
    requires
        c.contains_key(s),
        forall|k: Symbol| #[trigger] c.contains_key(k) ==> !c[k].nan(),
    ensures
        least(c) is Some,
    decreases c[s].value() + units(INFINITE as nat), s.raw,
{
    if !is_least(c, s) {
        let k = choose|k: Symbol| #[trigger] c.contains_key(k) && !precedes(c, s, k);
        assert(c[k].value() + units(INFINITE as nat) >= 0) by {
            reveal(Number::value);
            if c[k].magnitude() < INFINITE {
                lemma_units_increase(c[k].magnitude() as nat, INFINITE as nat);
            }
        }
        lemma_some_least(c, k);
    }
}

/// A set of symbols that holds any has a smallest.
pub proof fn lemma_some_smallest(c: Set<Symbol>, s: Symbol)
    requires
        c.contains(s),
    ensures
        smallest(c) is Some,
    decreases s.raw,
{
    if !is_smallest(c, s) {
        let t = choose|t: Symbol| #[trigger] c.contains(t) && t.raw < s.raw;
        lemma_some_smallest(c, t);
    }
}

/// A pivot sets to work what it makes negative, but for the row that enters.
proof fn lemma_pivot_pending(t: TableauModel, l: Symbol, e: Symbol)
    requires
        t.rows.dom().finite(),
        !t.pivoted(l, e).rows[e].constant.below(zero()),
    ensures
        pending(t.pivoted(l, e)),
{
    broadcast use vstd::multiset::group_multiset_axioms;

    let rest = t.without_row(l);
    let row = t.rows[l].exchanged(l, e);
    let u = t.pivoted(l, e);
    let after = TableauModel {
        rows: rest.rows.map_values(|r: RowModel| r.substituted(e, row)),
        objective: rest.objective.substituted(e, row),
        artificial: match rest.artificial {
            Some(a) => Some(a.substituted(e, row)),
            None => None,
        },
        ..rest
    };
    assert(after.rows.dom() =~= rest.rows.dom());
    let c = after.negative();
    assert(c.subset_of(after.rows.dom()));
    vstd::set_lib::lemma_set_subset_finite(after.rows.dom(), c);
    let counts = Map::new(|k: Symbol| c.contains(k), |k: Symbol| 1nat);
    assert(counts.dom() =~= c);
    assert(u.infeasible == rest.infeasible.add(Multiset::from_set(after.negative())));
    assert forall|s: Symbol| #[trigger]
        u.rows.contains_key(s) && !s.external() && u.rows[s].constant.below(zero()) implies
        u.infeasible.count(s) > 0 by {
        assert(s != e);
        assert(after.negative().contains(s));
        assert(Multiset::from_map(counts).count(s) > 0);
        assert(Multiset::from_set(c) == Multiset::from_map(counts));
    }
}

/// Working through the infeasible symbols keeps what the tableau says. Where it succeeds, no
/// restricted symbol is negative any more, and the objective is still at its minimum.
pub proof fn lemma_dual_optimized_keeps(z: Set<Number>, t: TableauModel, limit: nat)
    requires
        exact(z),
        rebalances_within(t, z),
        t.tidy(),
        parted(t),
        pending(t),
        t.minimal(),
        t.all_below(limit),
        t.dual_optimized().1 is Ok,
    ensures
        keeps(t, t.dual_optimized().0),
        orderly(t.dual_optimized().0),
        t.dual_optimized().0.minimal(),
        within(t.dual_optimized().0, z),
        t.dual_optimized().0.all_below(limit),
{
    lemma_steps_keep(z, t, choose|steps: nat| t.dual_ends_within(steps), limit);
}

} // verus!
