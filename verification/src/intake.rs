//! New rows: a tableau that takes a row in says what it said before, and what the row says.
use crate::choice::{lemma_smallest_is_member, smallest};
use crate::equations::{
    feasible, holds, inner, lemma_cancel, lemma_entered_reexpresses, lemma_holds_reexpressed,
    lemma_mix_swapped, lemma_optimized_keeps, lemma_pivot_keeps, lemma_pivot_parted,
    lemma_pivot_reexpresses, lemma_priced_reexpressed, lemma_same_mix, lemma_same_satisfies,
    lemma_some_smallest, mentions, mix, optimizes_within, orderly, parted, pivot_row, priced,
    reexpressed, residue, share, spans, swapped, tracks, within, Equation,
};
use crate::error::InternalSolverError;
use crate::exact::{
    at, drawn, exact, lemma_at_exchanged, lemma_at_solved, lemma_plain_product, lemma_regroup,
    lemma_spread, lemma_worth, single,
};
use crate::number::{zero, Number};
use crate::row::RowModel;
use crate::simplex::{
    lemma_entered, lemma_joint_cells, lemma_pivoted, lemma_without_row, TableauModel, Tag,
};
use crate::solutions::{
    comes_to, coupled, lemma_coupled_reexpressed, lemma_satisfies_reexpressed, lemma_tally_linear,
    lemma_tally_same, lemma_tally_single, nth, row_comes_to, satisfies, tally, Assignment,
};
use crate::symbol::Symbol;
use crate::system::{contradictory, entry_symbol};
use crate::tableau::{lemma_purged, lemma_with_artificial};
use vstd::prelude::*;

verus! {

/// Whether what follows from a tableau follows from another one, apart from what mentions a
/// symbol, and what is to be minimized is the same.
pub open spec fn keeps_but(t: TableauModel, u: TableauModel, s: Symbol) -> bool {
    &&& forall|eq: Equation| #[trigger] holds(t, eq) && !mentions(eq.terms, s) ==> holds(u, eq)
    &&& forall|costs: Seq<(Symbol, real)>| #[trigger]
        priced(t, costs) && !mentions(costs, s) ==> priced(u, costs)
}

/// What is kept in two steps is kept.
pub proof fn lemma_keeps_but_twice(t: TableauModel, u: TableauModel, v: TableauModel, s: Symbol)
    requires
        keeps_but(t, u, s),
        keeps_but(u, v, s),
    ensures
        keeps_but(t, v, s),
{
}

/// A tableau in which the symbols but one are made of the same says the same of them.
pub proof fn lemma_same_but(t: TableauModel, u: TableauModel, s: Symbol)
    requires
        forall|k: Symbol, x: Option<Symbol>|
            k != s ==> #[trigger] share(u, k, x) == share(t, k, x),
        t.objective == u.objective,
    ensures
        keeps_but(t, u, s),
{
    assert forall|eq: Equation| #[trigger] holds(t, eq) && !mentions(eq.terms, s) implies holds(
        u,
        eq,
    ) by {
        assert forall|x: Option<Symbol>| #[trigger] residue(u, eq, x) == 0 as real by {
            lemma_same_mix_but(t, u, s, eq.terms, x);
            assert(residue(t, eq, x) == 0 as real);
        }
    }
    assert forall|costs: Seq<(Symbol, real)>| #[trigger]
        priced(t, costs) && !mentions(costs, s) implies priced(u, costs) by {
        assert forall|x: Symbol| #[trigger] at(u.objective, Some(x)) == mix(u, costs, Some(x)) by {
            lemma_same_mix_but(t, u, s, costs, Some(x));
            assert(at(t.objective, Some(x)) == mix(t, costs, Some(x)));
        }
    }
}

proof fn lemma_same_mix_but(
    t: TableauModel,
    u: TableauModel,
    s: Symbol,
    terms: Seq<(Symbol, real)>,
    x: Option<Symbol>,
)
    requires
        forall|k: Symbol| k != s ==> #[trigger] share(u, k, x) == share(t, k, x),
        !mentions(terms, s),
    ensures
        mix(u, terms, x) == mix(t, terms, x),
{
    assert forall|i: int| 0 <= i < terms.len() implies share(u, (#[trigger] terms[i]).0, x)
        == share(t, terms[i].0, x) by {
        assert(terms[i].0 != s);
    }
    lemma_same_mix(t, u, terms, x);
}

/// The row of a symbol goes.
pub proof fn lemma_row_goes(t: TableauModel, s: Symbol)
    ensures
        keeps_but(t, t.without_row(s), s),
        feasible(t) ==> feasible(t.without_row(s)),
        parted(t) ==> parted(t.without_row(s)),
{
    lemma_same_but(t, t.without_row(s), s);
}

/// A sum that does not mention a symbol holds none of its own.
pub proof fn lemma_mix_nothing(t: TableauModel, s: Symbol, terms: Seq<(Symbol, real)>)
    requires
        forall|k: Symbol| k != s ==> #[trigger] share(t, k, Some(s)) == 0 as real,
        !mentions(terms, s),
    ensures
        mix(t, terms, Some(s)) == 0 as real,
    decreases terms.len(),
{
    if terms.len() > 0 {
        let rest = terms.drop_last();
        assert forall|i: int| 0 <= i < rest.len() implies (#[trigger] rest[i]).0 != s by {
            assert(rest[i] == terms[i]);
            assert(terms[i].0 != s);
        }
        lemma_mix_nothing(t, s, rest);
        assert(terms[terms.len() - 1].0 != s);
        lemma_plain_product(terms.last().1);
    }
}

proof fn lemma_purged_shares(t: TableauModel, s: Symbol, k: Symbol, x: Option<Symbol>)
    requires
        !t.rows.contains_key(s),
        k != s,
    ensures
        share(t.purged(s), k, x) == if x == Some(s) {
            0 as real
        } else {
            share(t, k, x)
        },
{
    lemma_worth();
    if t.rows.contains_key(k) {
        assert(t.purged(s).rows[k] == t.rows[k].without(s));
    }
}

/// The column of a symbol goes: what follows but for the symbol then follows.
proof fn lemma_column_goes(t: TableauModel, s: Symbol)
    requires
        !t.rows.contains_key(s),
    ensures
        forall|eq: Equation|
            !mentions(eq.terms, s) && (forall|x: Option<Symbol>|
                x != Some(s) ==> #[trigger] residue(t, eq, x) == 0 as real) ==> #[trigger] holds(
                t.purged(s),
                eq,
            ),
        keeps_but(t, t.purged(s), s),
        feasible(t) ==> feasible(t.purged(s)),
        parted(t) ==> parted(t.purged(s)),
{
    let u = t.purged(s);
    lemma_worth();
    assert forall|k: Symbol, x: Option<Symbol>| k != s implies #[trigger] share(u, k, x) == if x
        == Some(s) {
        0 as real
    } else {
        share(t, k, x)
    } by {
        lemma_purged_shares(t, s, k, x);
    }
    assert forall|eq: Equation|
        !mentions(eq.terms, s) && (forall|x: Option<Symbol>|
            x != Some(s) ==> #[trigger] residue(t, eq, x) == 0 as real) implies #[trigger] holds(
        u,
        eq,
    ) by {
        assert forall|x: Option<Symbol>| #[trigger] residue(u, eq, x) == 0 as real by {
            if x == Some(s) {
                lemma_mix_nothing(u, s, eq.terms);
            } else {
                lemma_same_mix_but(t, u, s, eq.terms, x);
                assert(residue(t, eq, x) == 0 as real);
            }
        }
    }
    assert forall|costs: Seq<(Symbol, real)>| #[trigger]
        priced(t, costs) && !mentions(costs, s) implies priced(u, costs) by {
        assert forall|x: Symbol| #[trigger] at(u.objective, Some(x)) == mix(u, costs, Some(x)) by {
            if x == s {
                lemma_mix_nothing(u, s, costs);
            } else {
                lemma_same_mix_but(t, u, s, costs, Some(x));
                assert(at(t.objective, Some(x)) == mix(t, costs, Some(x)));
            }
        }
    }
    if parted(t) {
        assert forall|k: Symbol| #[trigger] u.rows.contains_key(k) && !k.external() implies inner(
            u.rows[k],
        ) by {
            assert(inner(t.rows[k]));
            assert forall|x: Symbol| x.external() implies #[trigger] at(u.rows[k], Some(x))
                == 0 as real by {
                assert(at(t.rows[k], Some(x)) == 0 as real);
            }
        }
        assert forall|x: Symbol| x.external() implies #[trigger] at(u.objective, Some(x))
            == 0 as real by {
            assert(at(t.objective, Some(x)) == 0 as real);
        }
    }
}

/// Whether a row is what is left of an equation, as it is or with every sign inverted.
pub open spec fn left_of(t: TableauModel, eq: Equation, row: RowModel, sign: real) -> bool {
    &&& sign == 1 as real || sign == -1 as real
    &&& forall|x: Option<Symbol>| #[trigger] residue(t, eq, x) == sign * at(row, x)
}

/// Whether the symbols of a row are among the first ones.
pub open spec fn row_spans(row: RowModel, n: nat) -> bool {
    forall|s: Symbol| #[trigger] row.cells.contains_key(s) ==> s.raw < n
}

/// Whether a row holds two symbols only together.
pub open spec fn row_couples(row: RowModel, tag: Tag, f: real, g: real) -> bool {
    at(row, Some(tag.marker)) * g - at(row, Some(tag.other->0)) * f == 0 as real
}

/// Whether a tag has two symbols.
pub open spec fn paired(tag: Tag) -> bool {
    tag.other is Some && tag.other->0 != tag.marker
}

/// Symbols that go together still do when they are not concerned.
pub proof fn lemma_coupled_elsewhere(
    t: TableauModel,
    u: TableauModel,
    s: Symbol,
    tag: Tag,
    f: real,
    g: real,
)
    requires
        coupled(t, tag, f, g),
        paired(tag),
        s != tag.marker,
        tag.other != Some(s),
        forall|k: Symbol|
            k != s ==> #[trigger] share(u, k, Some(tag.marker)) == share(t, k, Some(tag.marker)),
        forall|k: Symbol|
            k != s ==> #[trigger] share(u, k, Some(tag.other->0)) == share(
                t,
                k,
                Some(tag.other->0),
            ),
        share(u, s, Some(tag.marker)) * g - share(u, s, Some(tag.other->0)) * f == 0 as real,
    ensures
        coupled(u, tag, f, g),
{
    assert forall|k: Symbol| #[trigger] share(u, k, Some(tag.marker)) * g - share(
        u,
        k,
        Some(tag.other->0),
    ) * f == if k == tag.marker {
        g
    } else if tag.other == Some(k) {
        -f
    } else {
        0 as real
    } by {
        if k != s {
            assert(share(t, k, Some(tag.marker)) * g - share(t, k, Some(tag.other->0)) * f == if k
                == tag.marker {
                g
            } else if tag.other == Some(k) {
                -f
            } else {
                0 as real
            });
            assert(share(u, k, Some(tag.other->0)) == share(t, k, Some(tag.other->0)));
        }
    }
}

/// A row that goes takes no solution away.
pub proof fn lemma_row_goes_freely(t: TableauModel, s: Symbol)
    ensures
        forall|n: nat| #[trigger] spans(t, n) ==> spans(t.without_row(s), n),
        forall|a: Assignment, n: nat| #[trigger]
            satisfies(a, t, n) ==> satisfies(a, t.without_row(s), n),
        forall|tag: Tag, f: real, g: real| #[trigger]
            coupled(t, tag, f, g) && paired(tag) && s != tag.marker && tag.other != Some(s)
                ==> coupled(t.without_row(s), tag, f, g),
{
    let u = t.without_row(s);
    assert forall|n: nat| #[trigger] spans(t, n) implies spans(u, n) by {
        assert forall|k: Symbol, y: Symbol|
            u.rows.contains_key(k) && #[trigger] u.rows[k].cells.contains_key(y) implies y.raw
            < n by {
            assert(t.rows[k].cells.contains_key(y));
        }
    }
    assert forall|a: Assignment, n: nat| #[trigger] satisfies(a, t, n) implies satisfies(
        a,
        u,
        n,
    ) by {
        lemma_same_satisfies(t, u, a, n);
    }
    assert forall|tag: Tag, f: real, g: real| #[trigger]
        coupled(t, tag, f, g) && paired(tag) && s != tag.marker && tag.other != Some(s) implies
        coupled(u, tag, f, g) by {
        lemma_plain_product(f);
        lemma_plain_product(g);
        lemma_coupled_elsewhere(t, u, s, tag, f, g);
    }
}

/// A column that goes takes no solution away in which its symbol is zero.
proof fn lemma_column_goes_freely(t: TableauModel, s: Symbol)
    requires
        !t.rows.contains_key(s),
    ensures
        forall|n: nat| #[trigger] spans(t, n) ==> spans(t.purged(s), n),
        forall|a: Assignment, n: nat| #[trigger]
            satisfies(a, t, n) && a(s) == 0 as real ==> satisfies(a, t.purged(s), n),
        forall|tag: Tag, f: real, g: real| #[trigger]
            coupled(t, tag, f, g) && paired(tag) && s != tag.marker && tag.other != Some(s)
                ==> coupled(t.purged(s), tag, f, g),
{
    let u = t.purged(s);
    assert forall|n: nat| #[trigger] spans(t, n) implies spans(u, n) by {
        assert forall|k: Symbol, y: Symbol|
            u.rows.contains_key(k) && #[trigger] u.rows[k].cells.contains_key(y) implies y.raw
            < n by {
            assert(u.rows[k] == t.rows[k].without(s));
            assert(t.rows[k].cells.contains_key(y));
        }
    }
    assert forall|a: Assignment, n: nat| #[trigger] satisfies(a, t, n) && a(s) == 0 as real implies
        satisfies(a, u, n) by {
        assert forall|k: Symbol| #[trigger] u.rows.contains_key(k) implies k.raw < n && a(k)
            == comes_to(u, k, a, n) by {
            assert(t.rows.contains_key(k));
            let f = |y: Symbol| share(t, k, Some(y)) * a(y);
            let g = |y: Symbol| share(u, k, Some(y)) * a(y);
            assert forall|i: nat| i < n implies f(#[trigger] nth(i)) == g(nth(i)) by {
                lemma_purged_shares(t, s, k, Some(nth(i)));
                if nth(i) == s {
                    lemma_plain_product(share(t, k, Some(s)));
                    lemma_plain_product(share(u, k, Some(s)));
                }
            }
            lemma_tally_same(f, g, n);
            lemma_purged_shares(t, s, k, None);
        }
    }
    assert forall|tag: Tag, f: real, g: real| #[trigger]
        coupled(t, tag, f, g) && paired(tag) && s != tag.marker && tag.other != Some(s) implies
        coupled(u, tag, f, g) by {
        assert forall|k: Symbol| k != s implies #[trigger] share(u, k, Some(tag.marker)) == share(
            t,
            k,
            Some(tag.marker),
        ) by {
            lemma_purged_shares(t, s, k, Some(tag.marker));
        }
        assert forall|k: Symbol| k != s implies #[trigger] share(u, k, Some(tag.other->0))
            == share(t, k, Some(tag.other->0)) by {
            lemma_purged_shares(t, s, k, Some(tag.other->0));
        }
        lemma_plain_product(f);
        lemma_plain_product(g);
        lemma_coupled_elsewhere(t, u, s, tag, f, g);
    }
}

/// What a row that is solved for a symbol holds, times what it is divided by.
proof fn lemma_solved_parts(
    z: Set<Number>,
    row: RowModel,
    s: Symbol,
    k: Symbol,
    x: Option<Symbol>,
)
    requires
        exact(z),
        drawn(row, z),
        row.cells.contains_key(s),
        single(row, k),
        drawn(row.solved_for(s), z),
    ensures
        at(row.solved_for(s), x) * at(row, Some(s)) == -at(row, x) + if x == Some(s) {
            at(row, Some(s))
        } else {
            0 as real
        },
        at(row, Some(s)) != 0 as real,
{
    lemma_at_solved(z, row, s, k, x);
    lemma_plain_product(at(row, Some(s)));
}

/// Entering with a solved row takes no solution away that fits the row.
proof fn lemma_entry_satisfies(
    z: Set<Number>,
    t: TableauModel,
    row: RowModel,
    s: Symbol,
    k: Symbol,
    a: Assignment,
    n: nat,
)
    requires
        exact(z),
        within(t, z),
        drawn(row, z),
        row.cells.contains_key(s),
        single(row, k),
        drawn(row.solved_for(s), z),
        !t.rows.contains_key(s),
        satisfies(a, t, n),
        row_spans(row, n),
        row_comes_to(row, a, n) == 0 as real,
    ensures
        satisfies(a, t.entered(s, row.solved_for(s)), n),
{
    let r = row.solved_for(s);
    let c = at(row, Some(s));
    lemma_entered_reexpresses(z, t, s, r);
    let rr = |y: Symbol| at(r, Some(y)) * a(y);
    let ff = |y: Symbol| at(row, Some(y)) * a(y);
    let de = |y: Symbol|
        if y == s {
            a(s)
        } else {
            0 as real
        };
    let zero_map = |y: Symbol| 0 as real;
    let cr = |y: Symbol| c * rr(y);
    let minus = |y: Symbol| zero_map(y) + (-1 as real) * ff(y);
    lemma_solved_parts(z, row, s, k, None);
    assert forall|i: nat| i < n implies cr(#[trigger] nth(i)) == minus(nth(i)) + c * de(nth(i)) by {
        let y = nth(i);
        lemma_solved_parts(z, row, s, k, Some(y));
        let (v, x, w) = (at(r, Some(y)), at(row, Some(y)), a(y));
        let k2 = if y == s {
            c
        } else {
            0 as real
        };
        assert(v * c == -x + k2);
        lemma_regroup(c, v, w);
        lemma_regroup(v, c, w);
        assert(c * (v * w) == (v * c) * w);
        lemma_spread(w, -x, k2);
        lemma_plain_product(w);
        lemma_plain_product(c);
        lemma_plain_product(x * w);
        lemma_regroup(w, x, x);
        lemma_regroup(x, w, w);
        lemma_regroup(w, -x, w);
        lemma_regroup(c, w, w);
    }
    lemma_tally_linear(minus, de, cr, c, n);
    assert forall|i: nat| i < n implies minus(#[trigger] nth(i)) == zero_map(nth(i)) + (-1 as real)
        * ff(nth(i)) by {}
    lemma_tally_linear(zero_map, ff, minus, -1 as real, n);
    lemma_tally_single(zero_map, s, n);
    lemma_tally_single(de, s, n);
    assert forall|i: nat| i < n implies cr(#[trigger] nth(i)) == zero_map(nth(i)) + c * rr(
        nth(i),
    ) by {}
    lemma_tally_linear(zero_map, rr, cr, c, n);
    let (tr, tf) = (tally(rr, n), tally(ff, n));
    lemma_plain_product(tf);
    assert(s.raw < n);
    assert(c * tr == -tf + c * a(s));
    let r0 = at(r, None);
    assert(r0 * c == -at(row, None));
    lemma_regroup(r0, c, c);
    lemma_regroup(tr, c, c);
    lemma_regroup(a(s), c, c);
    lemma_spread(c, r0, tr);
    assert((r0 + tr) * c == a(s) * c);
    lemma_cancel(r0 + tr, a(s), c);
    lemma_satisfies_reexpressed(t, t.entered(s, r), s, r, a, n);
}

proof fn lemma_entry_coupled(
    z: Set<Number>,
    t: TableauModel,
    row: RowModel,
    s: Symbol,
    k: Symbol,
    tag: Tag,
    f: real,
    g: real,
)
    requires
        exact(z),
        within(t, z),
        drawn(row, z),
        row.cells.contains_key(s),
        single(row, k),
        drawn(row.solved_for(s), z),
        !t.rows.contains_key(s),
        coupled(t, tag, f, g),
        paired(tag),
        row_couples(row, tag, f, g),
    ensures
        coupled(t.entered(s, row.solved_for(s)), tag, f, g),
{
    let r = row.solved_for(s);
    let (p, q) = (Some(tag.marker), Some(tag.other->0));
    let c = at(row, Some(s));
    lemma_entered_reexpresses(z, t, s, r);
    lemma_solved_parts(z, row, s, k, p);
    lemma_solved_parts(z, row, s, k, q);
    lemma_at_solved(z, row, s, k, Some(s));
    let (v, w) = (at(r, p), at(r, q));
    let (x, y) = (at(row, p), at(row, q));
    let (vc, wc) = (v * c, w * c);
    let ds = if s == tag.marker {
        g
    } else if tag.other == Some(s) {
        -f
    } else {
        0 as real
    };
    assert((v * g - w * f) * c == vc * g - wc * f) by {
        lemma_spread(c, v * g, w * f);
        lemma_regroup(v, g, c);
        lemma_regroup(v, c, g);
        lemma_regroup(w, f, c);
        lemma_regroup(w, c, f);
        lemma_regroup(g, c, c);
        lemma_regroup(f, c, c);
    }
    let p2 = if p == Some(s) {
        c
    } else {
        0 as real
    };
    let q2 = if q == Some(s) {
        c
    } else {
        0 as real
    };
    assert(vc == -x + p2 && wc == -y + q2);
    assert(vc * g == -(x * g) + p2 * g) by {
        lemma_spread(g, -x, p2);
        lemma_regroup(g, x, x);
        lemma_regroup(g, -x, x);
        lemma_regroup(x, g, g);
    }
    assert(wc * f == -(y * f) + q2 * f) by {
        lemma_spread(f, -y, q2);
        lemma_regroup(f, y, y);
        lemma_regroup(f, -y, y);
        lemma_regroup(y, f, f);
    }
    lemma_plain_product(g);
    lemma_plain_product(f);
    lemma_plain_product(c);
    lemma_regroup(g, c, c);
    lemma_regroup(f, c, c);
    lemma_regroup(c, f, f);
    lemma_regroup(c, g, g);
    lemma_regroup(-f, c, c);
    assert(p2 * g - q2 * f == ds * c);
    lemma_cancel(v * g - w * f, ds, c);
    lemma_coupled_reexpressed(t, t.entered(s, r), s, r, tag, f, g);
}

/// What a new row that is solved at once does to solutions and to symbols that go together.
pub proof fn lemma_entry_free(
    z: Set<Number>,
    t: TableauModel,
    row: RowModel,
    s: Symbol,
    k: Symbol,
)
    requires
        exact(z),
        within(t, z),
        drawn(row, z),
        row.cells.contains_key(s),
        single(row, k),
        drawn(row.solved_for(s), z),
        !t.rows.contains_key(s),
    ensures
        forall|n: nat| #[trigger]
            spans(t, n) && row_spans(row, n) ==> spans(t.entered(s, row.solved_for(s)), n),
        forall|a: Assignment, n: nat| #[trigger]
            satisfies(a, t, n) && row_spans(row, n) && row_comes_to(row, a, n) == 0 as real
                ==> satisfies(a, t.entered(s, row.solved_for(s)), n),
        forall|tag: Tag, f: real, g: real| #[trigger]
            coupled(t, tag, f, g) && paired(tag) && row_couples(row, tag, f, g) ==> coupled(
                t.entered(s, row.solved_for(s)),
                tag,
                f,
                g,
            ),
{
    let r = row.solved_for(s);
    let u = t.entered(s, r);
    lemma_entered_reexpresses(z, t, s, r);
    assert forall|n: nat| #[trigger] spans(t, n) && row_spans(row, n) implies spans(u, n) by {
        assert forall|y: Symbol| #[trigger] r.cells.contains_key(y) implies y.raw < n by {
            assert(row.cells.contains_key(y));
        }
        assert forall|j: Symbol, y: Symbol|
            u.rows.contains_key(j) && #[trigger] u.rows[j].cells.contains_key(y) implies y.raw
            < n by {
            if j != s {
                assert(t.rows.contains_key(j));
                assert(u.rows[j] == t.rows[j].substituted(s, r));
                if t.rows[j].cells.contains_key(s) {
                    lemma_joint_cells(
                        t.rows[j].without(s),
                        r,
                        t.rows[j].cells[s],
                        y,
                    );
                }
                assert(t.rows[j].cells.contains_key(y) || r.cells.contains_key(y));
            }
        }
    }
    assert forall|a: Assignment, n: nat| #[trigger]
        satisfies(a, t, n) && row_spans(row, n) && row_comes_to(row, a, n) == 0 as real implies
        satisfies(a, u, n) by {
        lemma_entry_satisfies(z, t, row, s, k, a, n);
    }
    assert forall|tag: Tag, f: real, g: real| #[trigger]
        coupled(t, tag, f, g) && paired(tag) && row_couples(row, tag, f, g) implies coupled(
        u,
        tag,
        f,
        g,
    ) by {
        lemma_entry_coupled(z, t, row, s, k, tag, f, g);
    }
}

/// A symbol that is not basic enters with a row that is solved for it. What followed still does,
/// and so does the equation that the row was left of.
proof fn lemma_entry_holds(
    z: Set<Number>,
    t: TableauModel,
    row: RowModel,
    s: Symbol,
    k: Symbol,
    eq: Equation,
    sign: real,
)
    requires
        exact(z),
        within(t, z),
        drawn(row, z),
        row.cells.contains_key(s),
        single(row, k),
        drawn(row.solved_for(s), z),
        !t.rows.contains_key(s),
        left_of(t, eq, row, sign),
    ensures
        holds(t.entered(s, row.solved_for(s)), eq),
        reexpressed(t, t.entered(s, row.solved_for(s)), s, row.solved_for(s)),
        forall|eq2: Equation| #[trigger]
            holds(t, eq2) ==> holds(t.entered(s, row.solved_for(s)), eq2),
        forall|costs: Seq<(Symbol, real)>| #[trigger]
            priced(t, costs) ==> priced(t.entered(s, row.solved_for(s)), costs),
{
    let r = row.solved_for(s);
    let u = t.entered(s, r);
    lemma_entered_reexpresses(z, t, s, r);
    assert forall|eq2: Equation| #[trigger] holds(t, eq2) implies holds(u, eq2) by {
        lemma_holds_reexpressed(t, u, s, r, eq2);
    }
    assert forall|costs: Seq<(Symbol, real)>| #[trigger] priced(t, costs) implies priced(
        u,
        costs,
    ) by {
        lemma_priced_reexpressed(t, u, s, r, costs);
    }
    assert forall|x: Option<Symbol>| #[trigger] residue(u, eq, x) == 0 as real by {
        lemma_mix_swapped(t, u, s, r, eq.terms, x);
        lemma_at_solved(z, row, s, k, x);
        assert(residue(t, eq, x) == sign * at(row, x));
        assert(residue(t, eq, Some(s)) == sign * at(row, Some(s)));
        let (c, y, w) = (at(row, Some(s)), at(row, x), at(r, x));
        if x == Some(s) {
            lemma_plain_product(sign * c);
        } else {
            assert(sign * c * w == -(sign * y)) by (nonlinear_arith)
                requires
                    w * c == -y,
            ;
        }
    }
}

/// A new row is solved for a symbol of its own, or for an external one.
pub proof fn lemma_entry(
    z: Set<Number>,
    t: TableauModel,
    row: RowModel,
    tag: Tag,
    s: Symbol,
    eq: Equation,
    sign: real,
    limit: nat,
)
    requires
        exact(z),
        within(t, z),
        drawn(row, z),
        entry_symbol(row, tag) == Some(s),
        !contradictory(row, tag),
        single(row, tag.marker),
        drawn(row.solved_for(s), z),
        left_of(t, eq, row, sign),
        orderly(t),
        t.all_below(limit),
        t.free_of_basics(row),
        TableauModel::row_below(row, limit),
        !row.constant.below(zero()),
        !tag.marker.external(),
        tag.other matches Some(o) ==> !o.external(),
        // The symbols of the new row are new.
        forall|k: Symbol, y: Symbol|
            (y == tag.marker || Some(y) == tag.other) && #[trigger] t.rows.contains_key(k)
                ==> !(#[trigger] t.rows[k].cells.contains_key(y)),
    ensures
        holds(t.entered(s, row.solved_for(s)), eq),
        forall|eq2: Equation| #[trigger]
            holds(t, eq2) ==> holds(t.entered(s, row.solved_for(s)), eq2),
        forall|costs: Seq<(Symbol, real)>| #[trigger]
            priced(t, costs) ==> priced(t.entered(s, row.solved_for(s)), costs),
        orderly(t.entered(s, row.solved_for(s))),
        t.entered(s, row.solved_for(s)).all_below(limit),
{
    lemma_worth();
    let externals = Set::new(|x: Symbol| row.cells.contains_key(x) && x.external());
    lemma_smallest_is_member(externals);
    let r = row.solved_for(s);
    let u = t.entered(s, r);
    assert(row.cells.contains_key(s));
    assert(!t.rows.contains_key(s));
    lemma_entry_holds(z, t, row, s, tag.marker, eq, sign);
    lemma_entered_reexpresses(z, t, s, r);
    assert(t.free_of_basics(r));
    lemma_entered(t, s, r, limit);
    let c = at(row, Some(s));
    lemma_at_solved(z, row, s, tag.marker, None);
    if !s.external() {
        assert(!(smallest(externals) is Some));
        assert(inner(row)) by {
            assert forall|x: Symbol| x.external() implies #[trigger] at(row, Some(x))
                == 0 as real by {
                if row.cells.contains_key(x) {
                    assert(externals.contains(x));
                    lemma_some_smallest(externals, x);
                }
            }
        }
        assert(inner(r)) by {
            assert forall|x: Symbol| x.external() implies #[trigger] at(r, Some(x)) == 0 as real by {
                lemma_at_solved(z, row, s, tag.marker, Some(x));
                assert(at(row, Some(x)) == 0 as real);
                let w = at(r, Some(x));
                assert(w == 0 as real) by (nonlinear_arith)
                    requires
                        w * c == 0 as real,
                        c != 0 as real,
                ;
            }
        }
        let (b, w) = (at(row, None), at(r, None));
        assert(w * c == -b);
        assert(b >= 0 as real);
        if row.cells[s].below(zero()) {
            assert(w >= 0 as real) by (nonlinear_arith)
                requires
                    w * c == -b,
                    b >= 0 as real,
                    c < 0 as real,
            ;
        } else {
            assert(b == 0 as real);
            assert(w == 0 as real) by (nonlinear_arith)
                requires
                    w * c == 0 as real,
                    c != 0 as real,
            ;
        }
    }
    assert forall|k: Symbol| t.rows.contains_key(k) && !k.external() implies at(
        #[trigger] t.rows[k],
        Some(s),
    ) == 0 as real by {
        if s.external() {
            assert(inner(t.rows[k]));
        } else {
            assert(s == tag.marker || Some(s) == tag.other);
            assert(!t.rows[k].cells.contains_key(s));
        }
    }
    assert forall|k: Symbol| #[trigger] u.rows.contains_key(k) && !k.external() implies inner(
        u.rows[k],
    ) && !u.rows[k].constant.below(zero()) by {
        if k != s {
            assert(t.rows.contains_key(k));
            assert(at(t.rows[k], Some(s)) == 0 as real);
            assert(share(u, k, None) == swapped(share(t, k, None), share(t, k, Some(s)), s, r, None));
            lemma_plain_product(at(r, None));
            assert(drawn(t.rows[k], z));
            assert(u.rows[k] == t.rows[k].substituted(s, r));
            assert(!t.rows[k].cells.contains_key(s));
            assert(u.rows[k] == t.rows[k]);
            assert(inner(t.rows[k]));
        }
    }
    assert forall|x: Symbol| x.external() implies #[trigger] at(u.objective, Some(x))
        == 0 as real by {
        assert(at(t.objective, Some(x)) == 0 as real);
        assert(at(t.objective, Some(s)) == 0 as real || at(r, Some(x)) == 0 as real);
        lemma_plain_product(at(t.objective, Some(s)));
        lemma_plain_product(at(r, Some(x)));
    }
    if let Some(a) = t.artificial {
        let b = u.artificial->0;
        assert forall|x: Symbol| x.external() implies #[trigger] at(b, Some(x)) == 0 as real by {
            assert(at(a, Some(x)) == 0 as real);
            assert(at(a, Some(s)) == 0 as real || at(r, Some(x)) == 0 as real);
            lemma_plain_product(at(a, Some(s)));
            lemma_plain_product(at(r, Some(x)));
        }
    }
}

/// Whether the numbers are among some numbers throughout while a row is taken in by way of an
/// artificial symbol.
pub open spec fn intake_within(
    t: TableauModel,
    art: Symbol,
    row: RowModel,
    z: Set<Number>,
) -> bool {
    let u = t.with_artificial(art, row).optimized(true).0;
    let v = TableauModel { artificial: None, ..u };
    &&& optimizes_within(t.with_artificial(art, row), true, z)
    &&& u.rows.contains_key(art) ==> (TableauModel::any_pivotable(u.rows[art]) matches Some(e)
        ==> within(v.pivoted(art, e), z))
}

/// A row is taken in by way of an artificial symbol that is brought to zero.
pub proof fn lemma_intake(
    z: Set<Number>,
    t: TableauModel,
    row: RowModel,
    art: Symbol,
    eq: Equation,
    sign: real,
    limit: nat,
)
    requires
        exact(z),
        intake_within(t, art, row, z),
        left_of(t, eq, row, sign),
        orderly(t),
        t.all_below(art.id()),
        art.id() < limit,
        !art.external(),
        t.free_of_basics(row),
        TableauModel::row_below(row, art.id()),
        inner(row),
        !row.constant.below(zero()),
        !mentions(eq.terms, art),
        t.taken_in(art, row).1 == Ok::<bool, InternalSolverError>(true),
    ensures
        holds(t.taken_in(art, row).0, eq),
        keeps_but(t, t.taken_in(art, row).0, art),
        orderly(t.taken_in(art, row).0),
        t.taken_in(art, row).0.all_below(limit),
        within(t.taken_in(art, row).0, z),
        t.taken_in(art, row).0.artificial is None,
{
    lemma_worth();
    assert(!t.rows.contains_key(art));
    let t0 = t.with_artificial(art, row);
    lemma_with_artificial(t, art, row, limit);
    lemma_same_but(t, t0, art);
    assert(feasible(t0) && parted(t0)) by {
        assert forall|k: Symbol| #[trigger] t0.rows.contains_key(k) && !k.external() implies inner(
            t0.rows[k],
        ) && !t0.rows[k].constant.below(zero()) by {
            if k != art {
                assert(t.rows.contains_key(k));
            }
        }
    }
    assert(tracks(t0, art)) by {
        assert forall|x: Option<Symbol>| #[trigger] at(t0.artificial->0, x) == share(
            t0,
            art,
            x,
        ) by {}
    }
    // With the artificial symbol the equation holds from the start.
    let whole = Equation { terms: eq.terms.push((art, -sign)), constant: eq.constant };
    assert(whole.terms.drop_last() =~= eq.terms);
    assert(holds(t0, whole)) by {
        assert forall|x: Option<Symbol>| #[trigger] residue(t0, whole, x) == 0 as real by {
            lemma_same_mix_but(t, t0, art, eq.terms, x);
            assert(residue(t, eq, x) == sign * at(row, x));
            let y = at(row, x);
            assert((-sign) * y == -(sign * y)) by (nonlinear_arith);
        }
    }
    lemma_optimized_keeps(z, t0, true, limit);
    let t1 = t0.optimized(true).0;
    let t2 = TableauModel { artificial: None, ..t1 };
    assert(holds(t1, whole));
    assert(tracks(t1, art));
    lemma_same_but(t1, t2, art);
    assert forall|x: Option<Symbol>| residue(t2, eq, x) == sign * #[trigger] share(t2, art, x) by {
        assert(residue(t1, whole, x) == 0 as real);
        lemma_same_mix(t1, t2, eq.terms, x);
        assert(mix(t1, whole.terms, x) == mix(t1, eq.terms, x) + (-sign) * share(t1, art, x));
        let y = share(t1, art, x);
        assert((-sign) * y == -(sign * y)) by (nonlinear_arith);
    }
    assert(keeps_but(t0, t1, art));
    assert(t2.tidy() && t2.all_below(limit) && within(t2, z) && feasible(t2) && parted(t2)) by {
        assert forall|k: Symbol| #[trigger] t2.rows.contains_key(k) implies t2.free_of_basics(
            t2.rows[k],
        ) by {
            assert(t1.free_of_basics(t1.rows[k]));
        }
    }
    lemma_keeps_but_twice(t, t0, t1, art);
    lemma_keeps_but_twice(t, t1, t2, art);
    assert(share(t2, art, None) == 0 as real) by {
        assert(at(t1.artificial->0, None) == share(t1, art, None));
        assert(z.contains(t1.artificial->0.constant));
    }
    lemma_plain_product(sign);
    if t2.rows.contains_key(art) {
        if t2.rows[art].cells == Map::<Symbol, Number>::empty() {
            assert(holds(t2, eq)) by {
                assert forall|x: Option<Symbol>| #[trigger] residue(t2, eq, x) == 0 as real by {
                    assert(share(t2, art, x) == 0 as real);
                }
            }
            lemma_row_goes(t2, art);
            lemma_without_row(t2, art, limit);
            lemma_keeps_but_twice(t, t2, t2.without_row(art), art);
        } else {
            let pivotables = Set::new(
                |x: Symbol| t2.rows[art].cells.contains_key(x) && x.pivotable(),
            );
            lemma_smallest_is_member(pivotables);
            if let Some(e) = TableauModel::any_pivotable(t2.rows[art]) {
                let t3 = t2.pivoted(art, e);
                assert(pivotables.contains(e));
                assert(t3.rows[e] == pivot_row(t2, art, e));
                assert(t3.rows.contains_key(e));
                assert(drawn(pivot_row(t2, art, e), z));
                lemma_pivoted(t2, art, e, limit);
                lemma_pivot_keeps(z, t2, art, e);
                lemma_pivot_parted(z, t2, art, e);
                lemma_pivot_reexpresses(z, t2, art, e);
                lemma_purged(t3, art, limit);
                lemma_column_goes(t3, art);
                assert(holds(t2, whole)) by {
                    assert forall|x: Option<Symbol>| #[trigger] residue(t2, whole, x)
                        == 0 as real by {
                        assert(residue(t2, eq, x) == sign * share(t2, art, x));
                        let y = share(t2, art, x);
                        assert((-sign) * y == -(sign * y)) by (nonlinear_arith);
                    }
                }
                assert(holds(t3, whole));
                assert forall|x: Option<Symbol>| x != Some(art) implies #[trigger] residue(
                    t3,
                    eq,
                    x,
                ) == 0 as real by {
                    assert(residue(t3, whole, x) == 0 as real);
                    assert(share(t3, art, x) == 0 as real);
                    lemma_plain_product(-sign);
                }
                assert(holds(t3.purged(art), eq));
                assert(feasible(t3)) by {
                    lemma_at_exchanged(z, t2.rows[art], art, e, None);
                    let (c, w) = (at(t2.rows[art], Some(e)), at(pivot_row(t2, art, e), None));
                    assert(w * c == 0 as real);
                    assert(w == 0 as real) by (nonlinear_arith)
                        requires
                            w * c == 0 as real,
                            c != 0 as real,
                    ;
                    assert forall|k: Symbol| #[trigger]
                        t3.rows.contains_key(k) && !k.external() implies !t3.rows[k].constant.below(
                        zero(),
                    ) by {
                        if k != e {
                            assert(t2.rows.contains_key(k));
                            assert(share(t3, k, None) == swapped(
                                share(t2, k, None),
                                share(t2, k, Some(e)),
                                e,
                                pivot_row(t2, art, e),
                                None,
                            ));
                            lemma_plain_product(share(t2, k, Some(e)));
                            assert(drawn(t3.rows[k], z) && drawn(t2.rows[k], z));
                        }
                    }
                }
                assert(keeps_but(t2, t3, art));
                lemma_keeps_but_twice(t, t2, t3, art);
                lemma_keeps_but_twice(t, t3, t3.purged(art), art);
                lemma_purged_within(z, t3, art);
            }
        }
    } else {
        lemma_purged(t2, art, limit);
        lemma_column_goes(t2, art);
        assert forall|x: Option<Symbol>| x != Some(art) implies #[trigger] residue(t2, eq, x)
            == 0 as real by {
            assert(share(t2, art, x) == 0 as real);
        }
        assert(holds(t2.purged(art), eq));
        lemma_keeps_but_twice(t, t2, t2.purged(art), art);
        lemma_purged_within(z, t2, art);
    }
}

/// Taking a row in by way of an artificial symbol takes no solution away that fits the row, with
/// the artificial symbol at zero.
pub proof fn lemma_intake_free(
    z: Set<Number>,
    t: TableauModel,
    row: RowModel,
    art: Symbol,
    limit: nat,
)
    requires
        exact(z),
        intake_within(t, art, row, z),
        orderly(t),
        t.all_below(art.id()),
        art.id() < limit,
        !art.external(),
        t.free_of_basics(row),
        TableauModel::row_below(row, art.id()),
        inner(row),
        !row.constant.below(zero()),
        t.taken_in(art, row).1 == Ok::<bool, InternalSolverError>(true),
    ensures
        forall|n: nat| #[trigger]
            spans(t, n) && row_spans(row, n) && art.raw < n ==> spans(t.taken_in(art, row).0, n),
        forall|a: Assignment, n: nat| #[trigger]
            satisfies(a, t, n) && spans(t, n) && row_spans(row, n) && art.raw < n && row_comes_to(
                row,
                a,
                n,
            ) == 0 as real && a(art) == 0 as real ==> satisfies(a, t.taken_in(art, row).0, n),
        forall|tag: Tag, f: real, g: real| #[trigger]
            coupled(t, tag, f, g) && paired(tag) && row_couples(row, tag, f, g) && art
                != tag.marker && tag.other != Some(art) ==> coupled(
                t.taken_in(art, row).0,
                tag,
                f,
                g,
            ),
{
    lemma_worth();
    assert(!t.rows.contains_key(art));
    let t0 = t.with_artificial(art, row);
    lemma_with_artificial(t, art, row, limit);
    assert(feasible(t0) && parted(t0)) by {
        assert forall|k: Symbol| #[trigger] t0.rows.contains_key(k) && !k.external() implies inner(
            t0.rows[k],
        ) && !t0.rows[k].constant.below(zero()) by {
            if k != art {
                assert(t.rows.contains_key(k));
            }
        }
    }
    lemma_optimized_keeps(z, t0, true, limit);
    let t1 = t0.optimized(true).0;
    let t2 = TableauModel { artificial: None, ..t1 };
    let u = t.taken_in(art, row).0;
    let t3 = if t2.rows.contains_key(art) && t2.rows[art].cells != Map::<Symbol, Number>::empty() {
        t2.pivoted(art, TableauModel::any_pivotable(t2.rows[art])->0)
    } else {
        t2
    };
    assert(t2.tidy() && t2.all_below(limit) && within(t2, z)) by {
        assert forall|k: Symbol| #[trigger] t2.rows.contains_key(k) implies t2.free_of_basics(
            t2.rows[k],
        ) by {
            assert(t1.free_of_basics(t1.rows[k]));
        }
    }
    if t2.rows.contains_key(art) && t2.rows[art].cells != Map::<Symbol, Number>::empty() {
        let pivotables = Set::new(|x: Symbol| t2.rows[art].cells.contains_key(x) && x.pivotable());
        lemma_smallest_is_member(pivotables);
        let e = TableauModel::any_pivotable(t2.rows[art])->0;
        assert(pivotables.contains(e));
        assert(t3.rows[e] == pivot_row(t2, art, e));
        assert(t3.rows.contains_key(e));
        assert(drawn(pivot_row(t2, art, e), z));
        lemma_pivot_keeps(z, t2, art, e);
        lemma_pivot_reexpresses(z, t2, art, e);
        lemma_column_goes_freely(t3, art);
    } else if t2.rows.contains_key(art) {
        lemma_row_goes_freely(t2, art);
    } else {
        lemma_column_goes_freely(t2, art);
    }
    assert forall|n: nat| #[trigger]
        spans(t, n) && row_spans(row, n) && art.raw < n implies spans(u, n) by {
        assert(spans(t0, n)) by {
            assert forall|k: Symbol, y: Symbol|
                t0.rows.contains_key(k) && #[trigger] t0.rows[k].cells.contains_key(y) implies
                y.raw < n by {
                if k != art {
                    assert(t.rows[k].cells.contains_key(y));
                }
            }
        }
        assert(spans(t1, n));
        lemma_same_spans(t1, t2, n);
        assert(spans(t3, n));
    }
    assert forall|a: Assignment, n: nat| #[trigger]
        satisfies(a, t, n) && spans(t, n) && row_spans(row, n) && art.raw < n && row_comes_to(
            row,
            a,
            n,
        ) == 0 as real && a(art) == 0 as real implies satisfies(a, u, n) by {
        assert(satisfies(a, t0, n)) by {
            assert forall|k: Symbol| #[trigger] t0.rows.contains_key(k) implies k.raw < n && a(k)
                == comes_to(t0, k, a, n) by {
                if k == art {
                    lemma_tally_same(
                        |y: Symbol| at(row, Some(y)) * a(y),
                        |y: Symbol| share(t0, art, Some(y)) * a(y),
                        n,
                    );
                } else {
                    assert(t.rows.contains_key(k));
                    lemma_tally_same(
                        |y: Symbol| share(t, k, Some(y)) * a(y),
                        |y: Symbol| share(t0, k, Some(y)) * a(y),
                        n,
                    );
                }
            }
        }
        assert(spans(t0, n)) by {
            assert forall|k: Symbol, y: Symbol|
                t0.rows.contains_key(k) && #[trigger] t0.rows[k].cells.contains_key(y) implies
                y.raw < n by {
                if k != art {
                    assert(t.rows[k].cells.contains_key(y));
                }
            }
        }
        assert(satisfies(a, t1, n) && spans(t1, n));
        lemma_same_satisfies(t1, t2, a, n);
        lemma_same_spans(t1, t2, n);
        assert(satisfies(a, t3, n));
    }
    assert forall|tag: Tag, f: real, g: real| #[trigger]
        coupled(t, tag, f, g) && paired(tag) && row_couples(row, tag, f, g) && art != tag.marker
            && tag.other != Some(art) implies coupled(u, tag, f, g) by {
        lemma_coupled_elsewhere(t, t0, art, tag, f, g);
        assert(coupled(t1, tag, f, g));
        lemma_plain_product(f);
        lemma_plain_product(g);
        assert(share(t1, art, Some(tag.marker)) * g - share(t1, art, Some(tag.other->0)) * f
            == 0 as real);
        lemma_coupled_elsewhere(t1, t2, art, tag, f, g);
        assert(coupled(t3, tag, f, g));
    }
}

/// The same rows hold the same symbols.
pub proof fn lemma_same_spans(t: TableauModel, u: TableauModel, n: nat)
    requires
        spans(t, n),
        u.rows == t.rows,
    ensures
        spans(u, n),
{
    assert forall|k: Symbol, y: Symbol|
        u.rows.contains_key(k) && #[trigger] u.rows[k].cells.contains_key(y) implies y.raw < n by {
        assert(t.rows[k].cells.contains_key(y));
    }
}

proof fn lemma_purged_within(z: Set<Number>, t: TableauModel, s: Symbol)
    requires
        within(t, z),
    ensures
        within(t.purged(s), z),
{
    let u = t.purged(s);
    assert forall|k: Symbol| #[trigger] u.rows.contains_key(k) implies drawn(u.rows[k], z) by {
        assert(drawn(t.rows[k], z));
        assert(u.rows[k] == t.rows[k].without(s));
    }
}

} // verus!
