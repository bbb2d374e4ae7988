//! Removals: what remains keeps its equations, and no restricted symbol becomes negative.
use crate::choice::{least, lemma_least_is_candidate, lemma_smallest_is_member};
use crate::equations::{
    feasible, inner, lemma_cancel, lemma_pivot_feasible, lemma_pivot_keeps, lemma_pivot_parted,
    lemma_pivot_reexpresses, lemma_same_mix, lemma_same_satisfies, lemma_some_least, mentions, mix,
    orderly, parted, pivot_row, priced, share, spans, swapped, within,
};
use crate::exact::{
    at, drawn, exact, lemma_at_exchanged, lemma_at_plus_row, lemma_at_plus_symbol,
    lemma_plain_product, lemma_worth, ranks, worth,
};
use crate::intake::{
    keeps_but, lemma_coupled_elsewhere, lemma_keeps_but_twice, lemma_row_goes,
    lemma_row_goes_freely, lemma_same_but, lemma_same_spans, paired,
};
use crate::number::{zero, Number};
use crate::simplex::{lemma_pivoted, TableauModel, Tag};
use crate::solutions::{coupled, satisfies, Assignment};
use crate::symbol::Symbol;
use vstd::prelude::*;

verus! {

/// Whether no symbol of a sum is external.
pub open spec fn restricted(terms: Seq<(Symbol, real)>) -> bool {
    forall|i: int| 0 <= i < terms.len() ==> !(#[trigger] terms[i]).0.external()
}

/// A sum without one of its terms.
proof fn lemma_mix_remove(t: TableauModel, terms: Seq<(Symbol, real)>, i: int, x: Option<Symbol>)
    requires
        0 <= i < terms.len(),
    ensures
        mix(t, terms.remove(i), x) == mix(t, terms, x) - terms[i].1 * share(t, terms[i].0, x),
    decreases terms.len(),
{
    let rest = terms.drop_last();
    if i == terms.len() - 1 {
        assert(terms.remove(i) =~= rest);
    } else {
        lemma_mix_remove(t, rest, i, x);
        assert(terms.remove(i).drop_last() =~= rest.remove(i));
        assert(terms.remove(i).last() == terms.last());
        assert(rest[i] == terms[i]);
    }
}

/// The objective without a cost is priced without it.
pub proof fn lemma_cost_goes(
    z: Set<Number>,
    t: TableauModel,
    s: Symbol,
    strength: Number,
    costs: Seq<(Symbol, real)>,
    i: int,
)
    requires
        exact(z),
        within(t, z),
        z.contains(strength),
        priced(t, costs),
        0 <= i < costs.len(),
        costs[i] == (s, worth(strength)),
    ensures
        priced(t.without_cost(s, strength), costs.remove(i)),
{
    lemma_worth();
    let u = t.without_cost(s, strength);
    let w = worth(strength);
    assert forall|v: Symbol| #[trigger] at(u.objective, Some(v)) == mix(
        u,
        costs.remove(i),
        Some(v),
    ) by {
        let x = Some(v);
        lemma_mix_remove(t, costs, i, x);
        lemma_same_mix(t, u, costs.remove(i), x);
        assert(at(t.objective, Some(v)) == mix(t, costs, Some(v)));
        let y = share(t, s, x);
        assert(y * (-w) == -(w * y)) by (nonlinear_arith);
        if t.rows.contains_key(s) {
            assert(drawn(t.rows[s], z));
            lemma_at_plus_row(z, t.objective, t.rows[s], strength.negation(), x);
        } else {
            lemma_at_plus_symbol(z, t.objective, s, strength.negation(), x);
            lemma_plain_product(w);
        }
    }
}

/// Whether the numbers are among some numbers while the equation of a marker is given up.
pub open spec fn surrender_within(t: TableauModel, marker: Symbol, z: Set<Number>) -> bool {
    !t.rows.contains_key(marker) ==> (t.marker_leaving(marker) matches Some(s) ==> drawn(
        pivot_row(t, s, marker),
        z,
    ) && within(t.without_marker(marker)->0, z))
}

/// How low a step can go before a part that it lowers is used up.
proof fn lemma_step_down(b: real, a: real, bl: real, c: real, step: real)
    requires
        b >= 0 as real,
        a > 0 as real,
        c > 0 as real,
        step * c == -bl,
        !(b / a < bl / c),
    ensures
        b + a * step >= 0 as real,
{
    let (p, q) = (b / a, bl / c);
    assert(p * a == b) by (nonlinear_arith)
        requires
            a > 0 as real,
            p == b / a,
    ;
    assert(step == -q) by (nonlinear_arith)
        requires
            c > 0 as real,
            q == bl / c,
            step * c == -bl,
    ;
    assert(b + a * step >= 0 as real) by (nonlinear_arith)
        requires
            p * a == b,
            p >= q,
            a > 0 as real,
            step == -q,
    ;
}

/// No other restricted symbol becomes negative when a marker takes the place of the row that
/// leaves for it.
proof fn lemma_marker_feasible(z: Set<Number>, t: TableauModel, marker: Symbol, s: Symbol)
    requires
        exact(z),
        within(t, z),
        t.tidy(),
        feasible(t),
        !t.rows.contains_key(marker),
        t.marker_leaving(marker) == Some(s),
        drawn(pivot_row(t, s, marker), z),
    ensures
        t.rows.contains_key(s),
        t.rows[s].cells.contains_key(marker),
        s.external() ==> forall|k: Symbol|
            t.rows.contains_key(k) && !k.external() ==> at(#[trigger] t.rows[k], Some(marker))
                == 0 as real,
        forall|k: Symbol|
            k != s && #[trigger] t.rows.contains_key(k) && !k.external() ==> at(t.rows[k], None)
                + at(t.rows[k], Some(marker)) * at(pivot_row(t, s, marker), None) >= 0 as real,
{
    lemma_worth();
    let first = t.marker_first(marker);
    let second = t.marker_second(marker);
    lemma_least_is_candidate(first);
    lemma_least_is_candidate(second);
    lemma_smallest_is_member(t.marker_third(marker));
    let row = pivot_row(t, s, marker);
    if least(first) is Some {
        assert(t.leaving(marker) == Some(s));
        lemma_pivot_feasible(z, t, s, marker);
    } else {
        assert forall|k: Symbol|
            t.rows.contains_key(k) && !k.external() implies #[trigger] at(
            t.rows[k],
            Some(marker),
        ) >= 0 as real by {
            assert(drawn(t.rows[k], z));
            if at(t.rows[k], Some(marker)) < 0 as real {
                let (b, a) = (t.rows[k].constant.negation(), t.rows[k].coefficient(marker));
                assert(ranks(b, a, b, a));
                assert(first.contains_key(k));
                lemma_some_least(first, k);
            }
        }
        assert(t.rows.contains_key(s) && t.rows[s].cells.contains_key(marker));
        assert(drawn(t.rows[s], z));
        assert(t.free_of_basics(t.rows[s]));
        lemma_at_exchanged(z, t.rows[s], s, marker, None);
        let c = at(t.rows[s], Some(marker));
        let bl = at(t.rows[s], None);
        let step = at(row, None);
        assert forall|k: Symbol|
            t.rows.contains_key(k) && !k.external() && #[trigger] at(t.rows[k], Some(marker))
                != 0 as real implies second.contains_key(k) by {
            assert(drawn(t.rows[k], z));
            assert(at(t.rows[k], Some(marker)) >= 0 as real);
            let (b, a) = (t.rows[k].constant, t.rows[k].coefficient(marker));
            assert(ranks(b, a, b, a));
        }
        if least(second) is None {
            assert forall|k: Symbol|
                t.rows.contains_key(k) && !k.external() implies at(
                #[trigger] t.rows[k],
                Some(marker),
            ) == 0 as real by {
                if at(t.rows[k], Some(marker)) != 0 as real {
                    lemma_some_least(second, k);
                }
            }
        }
        assert forall|k: Symbol|
            k != s && #[trigger] t.rows.contains_key(k) && !k.external() implies at(
            t.rows[k],
            None,
        ) + at(t.rows[k], Some(marker)) * at(row, None) >= 0 as real by {
            assert(drawn(t.rows[k], z));
            let b = at(t.rows[k], None);
            let a = at(t.rows[k], Some(marker));
            assert(b >= 0 as real);
            lemma_plain_product(step);
            if a != 0 as real {
                assert(at(t.rows[k], Some(marker)) >= 0 as real);
                assert(second.contains_key(k));
                let (bn, an) = (t.rows[k].constant, t.rows[k].coefficient(marker));
                let (bln, cn) = (t.rows[s].constant, t.rows[s].coefficient(marker));
                assert(ranks(bn, an, bln, cn));
                reveal(Number::value);
                assert(!second[k].below(second[s]));
                lemma_step_down(b, a, bl, c, step);
            }
        }
    }
}

proof fn lemma_mix_without(t: TableauModel, s: Symbol, terms: Seq<(Symbol, real)>)
    requires
        !mentions(terms, s),
        restricted(terms),
        forall|k: Symbol|
            t.rows.contains_key(k) && !k.external() ==> at(#[trigger] t.rows[k], Some(s))
                == 0 as real,
    ensures
        mix(t, terms, Some(s)) == 0 as real,
    decreases terms.len(),
{
    if terms.len() > 0 {
        let rest = terms.drop_last();
        assert forall|i: int| 0 <= i < rest.len() implies (#[trigger] rest[i]).0 != s
            && !rest[i].0.external() by {
            assert(rest[i] == terms[i]);
            assert(terms[i].0 != s);
        }
        lemma_mix_without(t, s, rest);
        let k = terms[terms.len() - 1].0;
        assert(k != s && !k.external());
        if t.rows.contains_key(k) {
            assert(at(t.rows[k], Some(s)) == 0 as real);
        }
        lemma_plain_product(terms.last().1);
    }
}

/// The equation of a marker is given up. All that does not mention the marker still follows, and
/// no restricted symbol becomes negative.
pub proof fn lemma_surrendered(
    z: Set<Number>,
    t: TableauModel,
    marker: Symbol,
    costs: Seq<(Symbol, real)>,
    limit: nat,
)
    requires
        exact(z),
        within(t, z),
        surrender_within(t, marker, z),
        orderly(t),
        t.all_below(limit),
        !marker.external(),
        priced(t, costs),
        !mentions(costs, marker),
        restricted(costs),
        t.without_marker(marker) is Some,
        t.artificial is None,
    ensures
        keeps_but(t, t.without_marker(marker)->0, marker),
        feasible(t.without_marker(marker)->0),
        parted(t.without_marker(marker)->0),
        within(t.without_marker(marker)->0, z),
{
    lemma_worth();
    let u = t.without_marker(marker)->0;
    if t.rows.contains_key(marker) {
        lemma_row_goes(t, marker);
    } else {
        let s = t.marker_leaving(marker)->0;
        lemma_marker_feasible(z, t, marker, s);
        let row = pivot_row(t, s, marker);
        let p = t.pivoted(s, marker);
        lemma_pivot_keeps(z, t, s, marker);
        lemma_pivot_reexpresses(z, t, s, marker);
        let q = p.without_row(marker);
        lemma_row_goes(p, marker);
        assert(u.rows =~= q.rows) by {
            assert(u.rows.dom() =~= q.rows.dom());
        }
        assert(u.objective == q.objective);
        assert(u.artificial == q.artificial);
        assert(keeps_but(t, p, marker));
        lemma_keeps_but_twice(t, p, q, marker);
        lemma_same_but(q, u, marker);
        lemma_keeps_but_twice(t, q, u, marker);
        assert forall|k: Symbol| #[trigger] u.rows.contains_key(k) implies k != marker && k != s
            && t.rows.contains_key(k) && p.rows.contains_key(k) && u.rows[k] == p.rows[k] by {
            assert(q.rows.contains_key(k));
        }
        assert forall|k: Symbol| #[trigger] u.rows.contains_key(k) && !k.external() implies
            !u.rows[k].constant.below(zero()) by {
            assert(share(p, k, None) == swapped(
                share(t, k, None),
                share(t, k, Some(marker)),
                marker,
                row,
                None,
            ));
        }
        if s.external() {
            assert(at(t.objective, Some(marker)) == 0 as real) by {
                lemma_mix_without(t, marker, costs);
            }
            assert forall|k: Symbol| #[trigger] u.rows.contains_key(k) && !k.external() implies
                inner(u.rows[k]) by {
                assert(at(t.rows[k], Some(marker)) == 0 as real);
                assert(drawn(t.rows[k], z));
                assert(!t.rows[k].cells.contains_key(marker));
                assert(u.rows[k] == t.rows[k].substituted(marker, row));
                assert(inner(t.rows[k]));
            }
            assert(drawn(t.objective, z));
            assert(!t.objective.cells.contains_key(marker));
            assert(u.objective == t.objective);
        } else {
            lemma_pivot_parted(z, t, s, marker);
            assert forall|k: Symbol| #[trigger] u.rows.contains_key(k) && !k.external() implies
                inner(u.rows[k]) by {
                assert(inner(p.rows[k]));
            }
        }
    }
}

/// The equation of a marker is given up: no solution goes, and where the marker goes together with
/// another symbol, neither is left in any row.
pub proof fn lemma_surrendered_free(z: Set<Number>, t: TableauModel, marker: Symbol, limit: nat)
    requires
        exact(z),
        within(t, z),
        surrender_within(t, marker, z),
        orderly(t),
        t.all_below(limit),
        !marker.external(),
        t.without_marker(marker) is Some,
    ensures
        forall|n: nat| #[trigger] spans(t, n) ==> spans(t.without_marker(marker)->0, n),
        forall|a: Assignment, n: nat| #[trigger]
            satisfies(a, t, n) && spans(t, n) ==> satisfies(a, t.without_marker(marker)->0, n),
        forall|tag: Tag, f: real, g: real| #[trigger]
            coupled(t, tag, f, g) && paired(tag) && marker != tag.marker && tag.other != Some(
                marker,
            ) ==> coupled(t.without_marker(marker)->0, tag, f, g),
        absent(t.without_marker(marker)->0, marker),
        forall|tag: Tag, f: real, g: real| #[trigger]
            coupled(t, tag, f, g) && paired(tag) && tag.marker == marker && f != 0 as real
                ==> absent(t.without_marker(marker)->0, tag.other->0),
{
    lemma_worth();
    let u = t.without_marker(marker)->0;
    let p = if t.rows.contains_key(marker) {
        t
    } else {
        t.pivoted(t.marker_leaving(marker)->0, marker)
    };
    if !t.rows.contains_key(marker) {
        let s = t.marker_leaving(marker)->0;
        lemma_marker_feasible(z, t, marker, s);
        lemma_pivot_keeps(z, t, s, marker);
        lemma_pivot_reexpresses(z, t, s, marker);
        lemma_pivoted(t, s, marker, limit);
        assert(u.rows =~= p.without_row(marker).rows) by {
            assert(u.rows.dom() =~= p.without_row(marker).rows.dom());
        }
    }
    let q = p.without_row(marker);
    lemma_row_goes_freely(p, marker);
    assert(u.rows == q.rows);
    assert(p.tidy() && p.rows.contains_key(marker));
    assert forall|n: nat| #[trigger] spans(t, n) implies spans(u, n) by {
        assert(spans(p, n));
        assert(spans(q, n));
        lemma_same_spans(q, u, n);
    }
    assert forall|a: Assignment, n: nat| #[trigger] satisfies(a, t, n) && spans(t, n) implies
        satisfies(a, u, n) by {
        assert(satisfies(a, p, n));
        assert(satisfies(a, q, n));
        lemma_same_satisfies(q, u, a, n);
    }
    assert forall|tag: Tag, f: real, g: real| #[trigger]
        coupled(t, tag, f, g) && paired(tag) && marker != tag.marker && tag.other != Some(
            marker,
        ) implies coupled(u, tag, f, g) by {
        assert(coupled(p, tag, f, g));
        assert(coupled(q, tag, f, g));
        lemma_plain_product(f);
        lemma_plain_product(g);
        lemma_coupled_elsewhere(q, u, marker, tag, f, g);
    }
    assert forall|k: Symbol| #[trigger] u.rows.contains_key(k) implies k != marker && at(
        u.rows[k],
        Some(marker),
    ) == 0 as real by {
        assert(q.rows.contains_key(k));
        assert(p.rows.contains_key(k));
        assert(p.free_of_basics(p.rows[k]));
    }
    assert forall|tag: Tag, f: real, g: real| #[trigger]
        coupled(t, tag, f, g) && paired(tag) && tag.marker == marker && f != 0 as real implies
        absent(u, tag.other->0) by {
        let o = tag.other->0;
        assert(coupled(p, tag, f, g));
        lemma_plain_product(f);
        lemma_plain_product(g);
        assert forall|k: Symbol| #[trigger] u.rows.contains_key(k) implies k != o && at(
            u.rows[k],
            Some(o),
        ) == 0 as real by {
            assert(q.rows.contains_key(k));
            assert(p.rows.contains_key(k));
            assert(p.free_of_basics(p.rows[k]));
            assert(share(p, k, Some(marker)) == 0 as real);
            assert(share(p, k, Some(marker)) * g - share(p, k, Some(o)) * f == if k == marker {
                g
            } else if tag.other == Some(k) {
                -f
            } else {
                0 as real
            });
            let y = share(p, k, Some(o));
            if k == o {
                assert(y == 0 as real);
            } else {
                assert(y * f == 0 as real);
                lemma_cancel(y, 0 as real, f);
            }
        }
    }
}

/// Whether a symbol is in no row.
pub open spec fn absent(t: TableauModel, s: Symbol) -> bool {
    forall|k: Symbol| #[trigger]
        t.rows.contains_key(k) ==> k != s && at(t.rows[k], Some(s)) == 0 as real
}

} // verus!
