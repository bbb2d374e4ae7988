//! Edits: the equation of an edit variable moves to another value, and nothing else moves.
use crate::equations::{
    holds, inner, lemma_same_mix, mentions, mix, parted, pending, priced, residue, share, within,
    Equation,
};
use crate::exact::{
    accrues, adds_up, at, drawn, exact, lemma_plain_product, lemma_regroup, lemma_spread,
    lemma_worth, worth,
};
use crate::number::{zero, Number};
use crate::row::RowModel;
use crate::simplex::{TableauModel, Tag};
use crate::solutions::{
    comes_to, coupled, lemma_tally_linear, lemma_tally_single, nth, satisfies, Assignment,
};
use crate::symbol::Symbol;
use vstd::multiset::Multiset;
use vstd::prelude::*;

verus! {

/// How far an edit moves a symbol.
pub open spec fn jump(t: TableauModel, tag: Tag, delta: real, k: Symbol) -> real {
    if t.rows.contains_key(tag.marker) {
        if k == tag.marker {
            -delta
        } else {
            0 as real
        }
    } else if tag.other is Some && t.rows.contains_key(tag.other->0) {
        if k == tag.other->0 {
            delta
        } else {
            0 as real
        }
    } else if t.rows.contains_key(k) {
        delta * share(t, k, Some(tag.marker))
    } else {
        0 as real
    }
}

/// An edit moves constants and nothing else.
pub proof fn lemma_edited_shares(
    z: Set<Number>,
    t: TableauModel,
    tag: Tag,
    delta: Number,
    k: Symbol,
    x: Option<Symbol>,
)
    requires
        exact(z),
        within(t, z),
        z.contains(delta),
    ensures
        t.edited(tag, delta).rows.dom() == t.rows.dom(),
        share(t.edited(tag, delta), k, x) == share(t, k, x) + if x is None {
            jump(t, tag, worth(delta), k)
        } else {
            0 as real
        },
        t.edited(tag, delta).rows.contains_key(k) ==> t.edited(tag, delta).rows[k].cells
            == t.rows[k].cells,
        t.edited(tag, delta).objective == t.objective,
        t.edited(tag, delta).artificial == t.artificial,
{
    lemma_worth();
    let u = t.edited(tag, delta);
    if t.rows.contains_key(tag.marker) {
        assert(drawn(t.rows[tag.marker], z));
        assert(adds_up(t.rows[tag.marker].constant, delta.negation()));
        assert(u.rows.dom() =~= t.rows.dom());
    } else if tag.other is Some && t.rows.contains_key(tag.other->0) {
        assert(drawn(t.rows[tag.other->0], z));
        assert(adds_up(t.rows[tag.other->0].constant, delta));
        assert(u.rows.dom() =~= t.rows.dom());
    } else {
        assert(u.rows.dom() =~= t.rows.dom());
        if t.rows.contains_key(k) {
            let row = t.rows[k];
            assert(drawn(row, z));
            assert(u.rows[k] == TableauModel::drifted_row(row, tag.marker, delta));
            assert(z.contains(row.coefficient(tag.marker)));
            assert(accrues(row.constant, delta, row.coefficient(tag.marker)));
            lemma_plain_product(worth(delta));
        }
    }
}

proof fn lemma_mix_unmoved(
    t: TableauModel,
    u: TableauModel,
    tag: Tag,
    delta: real,
    terms: Seq<(Symbol, real)>,
)
    requires
        forall|k: Symbol| #[trigger]
            share(u, k, None) == share(t, k, None) + jump(t, tag, delta, k),
        !mentions(terms, tag.marker),
        tag.other matches Some(o) ==> !mentions(terms, o),
    ensures
        mix(u, terms, None) == mix(t, terms, None) + if t.rows.contains_key(tag.marker) || (
        tag.other is Some && t.rows.contains_key(tag.other->0)) {
            0 as real
        } else {
            delta * mix(t, terms, Some(tag.marker))
        },
    decreases terms.len(),
{
    lemma_plain_product(delta);
    if terms.len() > 0 {
        let rest = terms.drop_last();
        assert forall|i: int| 0 <= i < rest.len() implies #[trigger] rest[i] == terms[i] by {}
        assert(!mentions(rest, tag.marker)) by {
            if mentions(rest, tag.marker) {
                let i = choose|i: int| 0 <= i < rest.len() && (#[trigger] rest[i]).0 == tag.marker;
                assert(terms[i].0 == tag.marker);
            }
        }
        if let Some(o) = tag.other {
            if mentions(rest, o) {
                let i = choose|i: int| 0 <= i < rest.len() && (#[trigger] rest[i]).0 == o;
                assert(terms[i].0 == o);
            }
        }
        lemma_mix_unmoved(t, u, tag, delta, rest);
        let (k, w) = terms[terms.len() - 1];
        assert(k != tag.marker && tag.other != Some(k));
        let y = share(t, k, Some(tag.marker));
        let j = jump(t, tag, delta, k);
        let p = share(t, k, None);
        let a = mix(t, rest, Some(tag.marker));
        assert(w * (p + j) == w * p + w * j) by (nonlinear_arith);
        assert(w * (delta * y) == delta * (w * y)) by (nonlinear_arith);
        assert(delta * a + delta * (w * y) == delta * (a + w * y)) by (nonlinear_arith);
        lemma_plain_product(w);
    }
}

/// The equation of an edit: some terms, less its marker, plus its other symbol, and a constant.
pub open spec fn edit_equation(
    terms: Seq<(Symbol, real)>,
    tag: Tag,
    constant: real,
) -> Equation {
    Equation {
        terms: terms.push((tag.marker, -1 as real)).push((tag.other->0, 1 as real)),
        constant,
    }
}

/// An edit moves its equation by as much as it says, and leaves all others as they are.
pub proof fn lemma_edited_says(z: Set<Number>, t: TableauModel, tag: Tag, delta: Number)
    requires
        exact(z),
        within(t, z),
        z.contains(delta),
        t.tidy(),
        tag.other is Some,
        tag.other->0 != tag.marker,
    ensures
        forall|eq: Equation| #[trigger]
            holds(t, eq) && !mentions(eq.terms, tag.marker) && !mentions(eq.terms, tag.other->0)
                ==> holds(t.edited(tag, delta), eq),
        forall|terms: Seq<(Symbol, real)>, constant: real|
            !mentions(terms, tag.marker) && !mentions(terms, tag.other->0) && #[trigger] holds(
                t,
                edit_equation(terms, tag, constant),
            ) ==> holds(
                t.edited(tag, delta),
                edit_equation(terms, tag, constant - worth(delta)),
            ),
        forall|costs: Seq<(Symbol, real)>| #[trigger]
            priced(t, costs) ==> priced(t.edited(tag, delta), costs),
        parted(t) ==> parted(t.edited(tag, delta)),
        t.minimal() ==> t.edited(tag, delta).minimal(),
        t.edited(tag, delta).artificial == t.artificial,
{
    let u = t.edited(tag, delta);
    let d = worth(delta);
    let o = tag.other->0;
    lemma_edited_shares(z, t, tag, delta, tag.marker, None);
    assert forall|k: Symbol, x: Option<Symbol>| #[trigger] share(u, k, x) == share(t, k, x)
        + if x is None {
        jump(t, tag, d, k)
    } else {
        0 as real
    } by {
        lemma_edited_shares(z, t, tag, delta, k, x);
    }
    assert forall|eq: Equation| #[trigger]
        holds(t, eq) && !mentions(eq.terms, tag.marker) && !mentions(eq.terms, o) implies holds(
        u,
        eq,
    ) by {
        assert forall|x: Option<Symbol>| #[trigger] residue(u, eq, x) == 0 as real by {
            assert(residue(t, eq, x) == 0 as real);
            if x is None {
                lemma_mix_unmoved(t, u, tag, d, eq.terms);
                assert(residue(t, eq, Some(tag.marker)) == 0 as real);
                lemma_plain_product(d);
            } else {
                lemma_same_mix(t, u, eq.terms, x);
            }
        }
    }
    assert forall|terms: Seq<(Symbol, real)>, constant: real|
        !mentions(terms, tag.marker) && !mentions(terms, o) && #[trigger] holds(
            t,
            edit_equation(terms, tag, constant),
        ) implies holds(u, edit_equation(terms, tag, constant - d)) by {
        let before = edit_equation(terms, tag, constant);
        let after = edit_equation(terms, tag, constant - d);
        let first = terms.push((tag.marker, -1 as real));
        assert(first.drop_last() =~= terms);
        assert(before.terms.drop_last() =~= first);
        assert forall|x: Option<Symbol>| #[trigger] residue(u, after, x) == 0 as real by {
            assert(residue(t, before, x) == 0 as real);
            if x is None {
                lemma_mix_unmoved(t, u, tag, d, terms);
                assert(residue(t, before, Some(tag.marker)) == 0 as real);
                lemma_plain_product(d);
                lemma_plain_product(share(t, tag.marker, None));
                lemma_plain_product(share(t, o, None));
                lemma_plain_product(share(u, tag.marker, None));
                lemma_plain_product(share(u, o, None));
                lemma_plain_product(share(t, tag.marker, Some(tag.marker)));
                lemma_plain_product(share(t, o, Some(tag.marker)));
                assert(mix(t, first, None) == mix(t, terms, None) + (-1 as real) * share(
                    t,
                    tag.marker,
                    None,
                ));
                assert(mix(t, before.terms, None) == mix(t, first, None) + (1 as real) * share(
                    t,
                    o,
                    None,
                ));
                assert(mix(u, first, None) == mix(u, terms, None) + (-1 as real) * share(
                    u,
                    tag.marker,
                    None,
                ));
                assert(mix(u, after.terms, None) == mix(u, first, None) + (1 as real) * share(
                    u,
                    o,
                    None,
                ));
                assert(mix(t, first, Some(tag.marker)) == mix(t, terms, Some(tag.marker)) + (
                -1 as real) * share(t, tag.marker, Some(tag.marker)));
                assert(mix(t, before.terms, Some(tag.marker)) == mix(t, first, Some(tag.marker)) + (
                1 as real) * share(t, o, Some(tag.marker)));
            } else {
                lemma_same_mix(t, u, before.terms, x);
            }
        }
    }
    assert forall|costs: Seq<(Symbol, real)>| #[trigger] priced(t, costs) implies priced(
        u,
        costs,
    ) by {
        assert forall|x: Symbol| #[trigger] at(u.objective, Some(x)) == mix(u, costs, Some(x)) by {
            lemma_same_mix(t, u, costs, Some(x));
            assert(at(t.objective, Some(x)) == mix(t, costs, Some(x)));
        }
    }
    if parted(t) {
        assert forall|k: Symbol| #[trigger] u.rows.contains_key(k) && !k.external() implies
            inner(u.rows[k]) by {
            assert(t.rows.contains_key(k));
            assert(inner(t.rows[k]));
            assert forall|x: Symbol| x.external() implies #[trigger] at(u.rows[k], Some(x))
                == 0 as real by {
                assert(share(u, k, Some(x)) == share(t, k, Some(x)));
                assert(at(t.rows[k], Some(x)) == 0 as real);
            }
        }
    }
}

/// What an edit makes negative waits to be worked on.
pub proof fn lemma_edited_pending(t: TableauModel, tag: Tag, delta: Number)
    requires
        pending(t),
        t.rows.dom().finite(),
    ensures
        pending(t.edited(tag, delta)),
{
    broadcast use vstd::multiset::group_multiset_axioms;

    let u = t.edited(tag, delta);
    if t.rows.contains_key(tag.marker) {
    } else if tag.other is Some && t.rows.contains_key(tag.other->0) {
    } else {
        let after = TableauModel {
            rows: t.rows.map_values(
                |r: RowModel| TableauModel::drifted_row(r, tag.marker, delta),
            ),
            ..t
        };
        assert(after.rows.dom() =~= t.rows.dom());
        let sunk = Set::new(
            |s: Symbol|
                after.negative().contains(s) && !t.rows[s].coefficient(tag.marker).same(zero()),
        );
        assert(sunk.subset_of(t.rows.dom()));
        vstd::set_lib::lemma_set_subset_finite(t.rows.dom(), sunk);
        let counts = Map::new(|k: Symbol| sunk.contains(k), |k: Symbol| 1nat);
        assert(counts.dom() =~= sunk);
        assert(u.infeasible == t.infeasible.add(Multiset::from_set(sunk)));
        assert forall|s: Symbol| #[trigger]
            u.rows.contains_key(s) && !s.external() && u.rows[s].constant.below(zero()) implies
            u.infeasible.count(s) > 0 by {
            assert(t.rows.contains_key(s));
            assert(u.rows[s] == TableauModel::drifted_row(t.rows[s], tag.marker, delta));
            if !t.rows[s].coefficient(tag.marker).same(zero()) {
                assert(after.negative().contains(s));
                assert(sunk.contains(s));
                assert(Multiset::from_map(counts).count(s) > 0);
                assert(Multiset::from_set(sunk) == Multiset::from_map(counts));
            } else {
                assert(t.infeasible.count(s) > 0);
            }
        }
    }
}

/// A solution stays one in an edit when the marker makes up for it.
pub proof fn lemma_edited_satisfies(
    z: Set<Number>,
    t: TableauModel,
    tag: Tag,
    delta: Number,
    a: Assignment,
    b: Assignment,
    n: nat,
)
    requires
        exact(z),
        within(t, z),
        z.contains(delta),
        t.tidy(),
        tag.other is Some,
        tag.other->0 != tag.marker,
        coupled(t, tag, -1 as real, 1 as real),
        satisfies(a, t, n),
        tag.marker.raw < n,
        forall|s: Symbol| s != tag.marker ==> #[trigger] b(s) == a(s),
        b(tag.marker) == a(tag.marker) - worth(delta),
    ensures
        satisfies(b, t.edited(tag, delta), n),
{
    lemma_worth();
    let u = t.edited(tag, delta);
    let d = worth(delta);
    let o = tag.other->0;
    lemma_edited_shares(z, t, tag, delta, tag.marker, None);
    assert forall|k: Symbol| #[trigger] u.rows.contains_key(k) implies k.raw < n && b(k)
        == comes_to(u, k, b, n) by {
        assert(t.rows.contains_key(k));
        lemma_edited_shares(z, t, tag, delta, k, None);
        let y = share(t, k, Some(tag.marker));
        let f = |s: Symbol| share(t, k, Some(s)) * a(s);
        let g = |s: Symbol|
            if s == tag.marker {
                y
            } else {
                0 as real
            };
        let h = |s: Symbol| share(u, k, Some(s)) * b(s);
        assert forall|i: nat| i < n implies h(#[trigger] nth(i)) == f(nth(i)) + (-d) * g(nth(i)) by {
            let s = nth(i);
            lemma_edited_shares(z, t, tag, delta, k, Some(s));
            lemma_plain_product(-d);
            if s == tag.marker {
                lemma_spread(y, a(s), d);
                lemma_regroup(y, d, d);
                lemma_regroup(d, y, y);
                lemma_regroup(y, -d, d);
                assert(y * (a(s) - d) == y * a(s) - y * d);
            } else {
                assert(b(s) == a(s));
            }
        }
        lemma_tally_linear(f, g, h, -d, n);
        lemma_tally_single(g, tag.marker, n);
        lemma_regroup(d, y, y);
        lemma_regroup(y, d, d);
        lemma_regroup(y, -d, d);
        lemma_regroup(-d, y, y);
        assert((-d) * y == -(d * y));
        assert(comes_to(u, k, b, n) == a(k) + jump(t, tag, d, k) - d * y);
        lemma_plain_product(d);
        assert(t.free_of_basics(t.rows[k]));
        lemma_plain_product(y);
        lemma_plain_product(share(t, k, Some(o)));
        assert(share(t, k, Some(tag.marker)) * (1 as real) - share(t, k, Some(o)) * (-1 as real)
            == if k == tag.marker {
            1 as real
        } else if tag.other == Some(k) {
            -(-1 as real)
        } else {
            0 as real
        });
        if k != tag.marker {
            assert(b(k) == a(k));
        }
    }
}

} // verus!
