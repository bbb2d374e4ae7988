//! What the solver does in terms of the constraints that it is given: a constraint is an equation
//! over its variables, and the values of the variables meet it.
use crate::constraint::{ConstraintModel, RelationalOperator};
use crate::equations::{
    holds, inner, keeps, lemma_optimized_keeps, lemma_same_mix, lemma_some_least,
    lemma_some_smallest, mentions, mix, optimizes_within, orderly, priced, residue, share, within,
    Equation,
};
use crate::exact::{
    at, drawn, exact, lemma_at_plus_row, lemma_at_plus_symbol, lemma_at_reversed,
    lemma_plain_product, lemma_worth, single, worth,
};
use crate::expression::Term;
use crate::intake::{intake_within, left_of, lemma_entry, lemma_intake};
use crate::number::{minus_one, one, zero, Number};
use crate::row::RowModel;
use crate::simplex::{TableauModel, Tag};
use crate::solver_laws::lemma_absorbed_admissible;
use crate::symbol::{symbol, Symbol, SymbolKind};
use crate::system::{
    admissible, contradictory, entry_symbol, lemma_absorbed_frame, lemma_marked, soft,
    ConstraintId, SolverModel,
};
use vstd::prelude::*;

verus! {

/// Terms over variables as multiples of the symbols of the variables; a term near zero is passed
/// over.
pub open spec fn pairs(m: SolverModel, terms: Seq<Term>) -> Seq<(Symbol, real)>
    decreases terms.len(),
{
    if terms.len() == 0 {
        Seq::empty()
    } else if terms.last().coefficient.negligible() {
        pairs(m, terms.drop_last())
    } else {
        pairs(m, terms.drop_last()).push(
            (m.var_data[terms.last().variable].symbol, worth(terms.last().coefficient)),
        )
    }
}

/// How much of its first symbol a constraint holds. For an inequality this is the slack: what is
/// at most zero lacks some of it, and what is at least zero has some too much.
pub open spec fn first_part(c: ConstraintModel) -> real {
    match c.operator {
        RelationalOperator::LessOrEqual => 1 as real,
        RelationalOperator::Equal => if soft(c) {
            -1 as real
        } else {
            1 as real
        },
        RelationalOperator::GreaterOrEqual => -1 as real,
    }
}

/// How much of its second symbol a preference holds: the error by which an inequality is missed,
/// or by which an equation is missed the other way.
pub open spec fn second_part(c: ConstraintModel) -> real {
    match c.operator {
        RelationalOperator::LessOrEqual => -1 as real,
        RelationalOperator::Equal => 1 as real,
        RelationalOperator::GreaterOrEqual => 1 as real,
    }
}

/// The equation of a constraint: its expression, with its slack and its errors, is zero.
pub open spec fn equation(m: SolverModel, c: ConstraintModel, tag: Tag, shift: real) -> Equation {
    let terms = pairs(m, c.terms).push((tag.marker, first_part(c)));
    Equation {
        terms: match tag.other {
            Some(other) => terms.push((other, second_part(c))),
            None => terms,
        },
        constant: worth(c.constant) - shift,
    }
}

/// Whether a constraint has the symbols that it needs: a slack for an inequality, errors for a
/// preference, and a dummy for a required equation.
pub open spec fn shaped(c: ConstraintModel, tag: Tag) -> bool {
    &&& match c.operator {
        RelationalOperator::Equal => if soft(c) {
            tag.marker.sort() is Error
        } else {
            tag.marker.sort() is Dummy
        },
        _ => tag.marker.sort() is Slack,
    }
    &&& tag.other is Some <==> soft(c)
    &&& tag.other matches Some(other) ==> other.sort() is Error && other != tag.marker
}

/// What a preference costs.
pub open spec fn charged(
    costs: Seq<(Symbol, real)>,
    c: ConstraintModel,
    tag: Tag,
) -> Seq<(Symbol, real)> {
    let w = worth(c.strength.value);
    if !soft(c) {
        costs
    } else if c.operator is Equal {
        costs.push((tag.marker, w)).push((tag.other->0, w))
    } else {
        costs.push((tag.other->0, w))
    }
}

/// Whether all symbols have numbers below a limit.
pub open spec fn terms_below(terms: Seq<(Symbol, real)>, limit: nat) -> bool {
    forall|i: int| 0 <= i < terms.len() ==> (#[trigger] terms[i]).0.id() < limit
}

/// Whether the variables of all terms that are not near zero are known.
pub open spec fn known(m: SolverModel, terms: Seq<Term>) -> bool {
    forall|i: int|
        0 <= i < terms.len() && !(#[trigger] terms[i]).coefficient.negligible()
            ==> m.var_data.contains_key(terms[i].variable)
}

/// Whether the numbers are among some numbers throughout while terms are added to a row.
pub open spec fn absorbs_within(
    m: SolverModel,
    row: RowModel,
    terms: Seq<Term>,
    z: Set<Number>,
) -> bool
    decreases terms.len(),
{
    &&& drawn(m.absorbed(row, terms).1, z)
    &&& terms.len() > 0 ==> z.contains(terms.last().coefficient) && absorbs_within(
        m,
        row,
        terms.drop_last(),
        z,
    )
}

/// Whether the numbers are among some numbers throughout while a constraint is added.
pub open spec fn addition_within(m: SolverModel, c: ConstraintModel, z: Set<Number>) -> bool {
    let (b, row, tag) = m.created(c);
    let t = match entry_symbol(row, tag) {
        Some(s) => b.tableau.entered(s, row.solved_for(s)),
        None => b.tableau.taken_in(symbol(b.id_tick, SymbolKind::Slack), row).0,
    };
    &&& z.contains(c.constant)
    &&& soft(c) ==> z.contains(c.strength.value)
    &&& within(m.tableau, z)
    &&& absorbs_within(m, RowModel::only(c.constant), c.terms, z)
    &&& within(b.tableau, z)
    &&& match entry_symbol(row, tag) {
        Some(s) => drawn(row.solved_for(s), z),
        None => intake_within(b.tableau, symbol(b.id_tick, SymbolKind::Slack), row, z),
    }
    &&& optimizes_within(t, false, z)
}

/// Terms are the same multiples for systems that know their variables by the same symbols.
pub proof fn lemma_same_pairs(m: SolverModel, n: SolverModel, terms: Seq<Term>)
    requires
        forall|i: int|
            0 <= i < terms.len() && !(#[trigger] terms[i]).coefficient.negligible()
                ==> n.var_data[terms[i].variable].symbol == m.var_data[terms[i].variable].symbol,
    ensures
        pairs(n, terms) == pairs(m, terms),
    decreases terms.len(),
{
    if terms.len() > 0 {
        let rest = terms.drop_last();
        assert forall|i: int|
            0 <= i < rest.len() && !(#[trigger] rest[i]).coefficient.negligible() implies
            n.var_data[rest[i].variable].symbol == m.var_data[rest[i].variable].symbol by {
            assert(rest[i] == terms[i]);
        }
        lemma_same_pairs(m, n, rest);
        assert(terms[terms.len() - 1] == terms.last());
    }
}

/// Terms over known variables are multiples of external symbols that are in use.
pub proof fn lemma_pairs_below(m: SolverModel, terms: Seq<Term>)
    requires
        m.sound(),
        known(m, terms),
    ensures
        terms_below(pairs(m, terms), m.id_tick),
        forall|i: int|
            0 <= i < pairs(m, terms).len() ==> (#[trigger] pairs(m, terms)[i]).0.external(),
    decreases terms.len(),
{
    if terms.len() > 0 {
        let rest = terms.drop_last();
        assert forall|i: int|
            0 <= i < rest.len() && !(#[trigger] rest[i]).coefficient.negligible() implies
            m.var_data.contains_key(rest[i].variable) by {
            assert(rest[i] == terms[i]);
        }
        lemma_pairs_below(m, rest);
        if !terms.last().coefficient.negligible() {
            assert(m.var_data.contains_key(terms[terms.len() - 1].variable));
        }
    }
}

/// Adding terms to a row adds what they are made of.
proof fn lemma_absorbed_parts(
    z: Set<Number>,
    m: SolverModel,
    row: RowModel,
    terms: Seq<Term>,
)
    requires
        exact(z),
        within(m.tableau, z),
        absorbs_within(m, row, terms, z),
    ensures
        m.absorbed(row, terms).0.tableau.rows == m.tableau.rows,
        m.absorbed(row, terms).0.tableau.objective == m.tableau.objective,
        m.absorbed(row, terms).0.tableau.artificial == m.tableau.artificial,
        m.absorbed(row, terms).0.id_tick >= m.id_tick,
        known(m.absorbed(row, terms).0, terms),
        forall|x: Option<Symbol>| #[trigger]
            at(m.absorbed(row, terms).1, x) == at(row, x) + mix(
                m.tableau,
                pairs(m.absorbed(row, terms).0, terms),
                x,
            ),
    decreases terms.len(),
{
    if terms.len() > 0 {
        let rest = terms.drop_last();
        let term = terms.last();
        let v = term.variable;
        lemma_absorbed_parts(z, m, row, rest);
        let (m1, r1) = m.absorbed(row, rest);
        let (m2, r2) = m.absorbed(row, terms);
        assert(terms[terms.len() - 1] == term);
        assert forall|i: int|
            0 <= i < terms.len() && !(#[trigger] terms[i]).coefficient.negligible() implies
            m2.var_data.contains_key(terms[i].variable) by {
            if i < rest.len() {
                assert(rest[i] == terms[i]);
                assert(m1.var_data.contains_key(rest[i].variable));
            }
        }
        assert forall|i: int|
            0 <= i < rest.len() && !(#[trigger] rest[i]).coefficient.negligible() implies
            m2.var_data[rest[i].variable].symbol == m1.var_data[rest[i].variable].symbol by {
            assert(m1.var_data.contains_key(rest[i].variable));
        }
        lemma_same_pairs(m1, m2, rest);
        if !term.coefficient.negligible() {
            let s = m2.var_data[v].symbol;
            let w = worth(term.coefficient);
            assert(drawn(r1, z)) by {
                assert(absorbs_within(m, row, rest, z));
            }
            assert(pairs(m2, terms).drop_last() =~= pairs(m1, rest));
            assert forall|x: Option<Symbol>| #[trigger] at(r2, x) == at(row, x) + mix(
                m.tableau,
                pairs(m2, terms),
                x,
            ) by {
                assert(at(r1, x) == at(row, x) + mix(m.tableau, pairs(m1, rest), x));
                let y = share(m.tableau, s, x);
                if m.tableau.rows.contains_key(s) {
                    assert(drawn(m.tableau.rows[s], z));
                    lemma_at_plus_row(z, r1, m.tableau.rows[s], term.coefficient, x);
                    assert(y * w == w * y) by (nonlinear_arith);
                } else {
                    lemma_at_plus_symbol(z, r1, s, term.coefficient, x);
                    lemma_plain_product(w);
                }
            }
        }
    }
}

/// The row of a constraint is what is left of its equation.
pub proof fn lemma_created(z: Set<Number>, m: SolverModel, c: ConstraintModel) -> (sign: real)
    requires
        exact(z),
        m.sound(),
        m.has_room(c.terms.len() + 3),
        orderly(m.tableau),
        addition_within(m, c, z),
    ensures
        left_of(
            m.created(c).0.tableau,
            equation(m.created(c).0, c, m.created(c).2, 0 as real),
            m.created(c).1,
            sign,
        ),
        m.created(c).0.sound(),
        m.created(c).0.has_room(1),
        admissible(m.created(c).0, m.created(c).1),
        orderly(m.created(c).0.tableau),
        m.created(c).0.tableau.rows == m.tableau.rows,
        m.created(c).0.tableau.artificial == m.tableau.artificial,
        drawn(m.created(c).1, z),
        single(m.created(c).1, m.created(c).2.marker),
        !m.created(c).1.constant.below(zero()),
        shaped(c, m.created(c).2),
        m.created(c).2.marker.id() >= m.id_tick,
        m.created(c).2.other matches Some(other) ==> other.id() >= m.id_tick,
        SolverModel::tag_below(m.created(c).2, m.created(c).0.id_tick),
        m.created(c).0.id_tick >= m.id_tick,
        known(m.created(c).0, c.terms),
        forall|costs: Seq<(Symbol, real)>| #[trigger]
            priced(m.tableau, costs) ==> priced(
                m.created(c).0.tableau,
                charged(costs, c, m.created(c).2),
            ),
{
    lemma_worth();
    let start = RowModel::only(c.constant);
    lemma_absorbed_admissible(m, start, c.terms, 3);
    lemma_absorbed_parts(z, m, start, c.terms);
    lemma_absorbed_frame(m, start, c.terms);
    let (a, r) = m.absorbed(start, c.terms);
    lemma_marked(a, r, c, 1);
    let (b, r2, tag) = a.marked(r, c);
    let row = m.created(c).1;
    let k = a.id_tick;
    assert(m.created(c).0 == b && m.created(c).2 == tag);
    assert(drawn(r, z));
    assert(symbol(k, SymbolKind::Error).id() == k && symbol(k + 1, SymbolKind::Error).id() == k + 1);
    assert(symbol(k, SymbolKind::Slack).id() == k && symbol(k, SymbolKind::Dummy).id() == k);
    assert(one().negation() == minus_one() && minus_one().negation() == one());
    assert(!r.cells.contains_key(tag.marker) && !a.tableau.rows.contains_key(tag.marker));
    assert(tag.other matches Some(o) ==> !r.cells.contains_key(o) && !a.tableau.rows.contains_key(o)
        && o != tag.marker);
    let w1 = if first_part(c) == 1 as real {
        one()
    } else {
        minus_one()
    };
    let w2 = if second_part(c) == 1 as real {
        one()
    } else {
        minus_one()
    };
    assert(tag.other is None ==> r2.cells == r.cells.insert(tag.marker, w1));
    assert(tag.other matches Some(o) ==> r2.cells == r.cells.insert(tag.marker, w1).insert(o, w2));
    assert(r2.constant == r.constant);
    assert(drawn(r2, z));
    let eq = equation(b, c, tag, 0 as real);
    let ps = pairs(b, c.terms);
    lemma_same_pairs(a, b, c.terms);
    let first = ps.push((tag.marker, first_part(c)));
    assert(first.drop_last() =~= ps);
    assert(tag.other matches Some(o) ==> eq.terms.drop_last() =~= first);
    assert forall|x: Option<Symbol>| #[trigger] residue(b.tableau, eq, x) == at(r2, x) by {
        lemma_same_mix(m.tableau, b.tableau, ps, x);
        assert(at(r, x) == at(start, x) + mix(m.tableau, pairs(a, c.terms), x));
        lemma_plain_product(first_part(c));
        lemma_plain_product(second_part(c));
        assert(at(start, x) == if x is None {
            worth(c.constant)
        } else {
            0 as real
        });
        assert(mix(b.tableau, first, x) == mix(b.tableau, ps, x) + first_part(c) * share(
            b.tableau,
            tag.marker,
            x,
        ));
        if let Some(o) = tag.other {
            assert(mix(b.tableau, eq.terms, x) == mix(b.tableau, first, x) + second_part(c) * share(
                b.tableau,
                o,
                x,
            ));
        }
    }
    assert forall|costs: Seq<(Symbol, real)>| #[trigger] priced(m.tableau, costs) implies priced(
        b.tableau,
        charged(costs, c, tag),
    ) by {
        lemma_charged(z, m.tableau, b.tableau, costs, c, tag);
    }
    assert(orderly(b.tableau)) by {
        assert forall|x: Symbol| x.external() implies #[trigger] at(b.tableau.objective, Some(x))
            == 0 as real by {
            assert(at(m.tableau.objective, Some(x)) == 0 as real);
        }
    }
    if r2.constant.below(zero()) {
        assert forall|x: Option<Symbol>| #[trigger] at(row, x) == -at(r2, x) by {
            lemma_at_reversed(z, r2, x);
        }
        lemma_at_reversed(z, r2, None);
        assert forall|x: Option<Symbol>| #[trigger] residue(b.tableau, eq, x) == (-1 as real) * at(
            row,
            x,
        ) by {
            lemma_plain_product(at(row, x));
        }
        assert(row.cells[tag.marker] == r2.cells[tag.marker].negation());
        assert forall|y: Symbol| #[trigger] row.cells.contains_key(y) <==> r2.cells.contains_key(
            y,
        ) by {}
        -1 as real
    } else {
        assert forall|x: Option<Symbol>| #[trigger] residue(b.tableau, eq, x) == (1 as real) * at(
            row,
            x,
        ) by {
            lemma_plain_product(at(row, x));
        }
        1 as real
    }
}

/// The objective takes up what a preference costs.
proof fn lemma_charged(
    z: Set<Number>,
    t: TableauModel,
    u: TableauModel,
    costs: Seq<(Symbol, real)>,
    c: ConstraintModel,
    tag: Tag,
)
    requires
        exact(z),
        drawn(t.objective, z),
        soft(c) ==> z.contains(c.strength.value),
        priced(t, costs),
        u.rows == t.rows,
        shaped(c, tag),
        !t.rows.contains_key(tag.marker),
        tag.other matches Some(o) ==> !t.rows.contains_key(o) && !t.objective.cells.contains_key(o),
        !t.objective.cells.contains_key(tag.marker),
        !soft(c) ==> u.objective == t.objective,
        soft(c) && c.operator is Equal ==> u.objective == t.objective.plus_symbol(
            tag.marker,
            c.strength.value,
        ).plus_symbol(tag.other->0, c.strength.value),
        soft(c) && !(c.operator is Equal) ==> u.objective == t.objective.plus_symbol(
            tag.other->0,
            c.strength.value,
        ),
    ensures
        priced(u, charged(costs, c, tag)),
{
    lemma_worth();
    let w = worth(c.strength.value);
    let all = charged(costs, c, tag);
    assert forall|y: Symbol| #[trigger] at(u.objective, Some(y)) == mix(u, all, Some(y)) by {
        let x = Some(y);
        lemma_same_mix(t, u, costs, x);
        assert(at(t.objective, Some(y)) == mix(t, costs, Some(y)));
        lemma_plain_product(w);
        if soft(c) {
            let o = tag.other->0;
            if c.operator is Equal {
                let first = costs.push((tag.marker, w));
                assert(first.drop_last() =~= costs);
                assert(all.drop_last() =~= first);
                assert(mix(u, first, x) == mix(u, costs, x) + w * share(u, tag.marker, x));
                let mid = t.objective.plus_symbol(tag.marker, c.strength.value);
                lemma_at_plus_symbol(z, t.objective, tag.marker, c.strength.value, x);
                if c.strength.value.negligible() {
                    assert(mid.cells =~= t.objective.cells);
                    assert(w == 0 as real);
                }
                assert(drawn(mid, z));
                lemma_at_plus_symbol(z, mid, o, c.strength.value, x);
            } else {
                assert(all.drop_last() =~= costs);
                lemma_at_plus_symbol(z, t.objective, o, c.strength.value, x);
            }
        }
    }
}

/// What an addition that succeeds leaves: the constraint, with its equation, and all that was
/// there before.
pub proof fn lemma_added_as_says(z: Set<Number>, m: SolverModel, id: ConstraintId, c: ConstraintModel)
    requires
        exact(z),
        m.sound(),
        m.has_room(c.terms.len() + 3),
        orderly(m.tableau),
        addition_within(m, c, z),
        m.added_as(id, c).1 is Ok,
    ensures
        keeps(
            m.created(c).0.placed(m.created(c).1, m.created(c).2).0.tableau,
            m.added_as(id, c).0.tableau,
        ),
        ({
            let u = m.added_as(id, c).0;
            let tag = u.constraints[id].tag;
            &&& u.constraints.contains_key(id)
            &&& u.constraints[id].constraint == c
            &&& shaped(c, tag)
            &&& known(u, c.terms)
            &&& tag.marker.id() >= m.id_tick
            &&& tag.other matches Some(other) ==> other.id() >= m.id_tick
            &&& holds(u.tableau, equation(u, c, tag, 0 as real))
            &&& orderly(u.tableau)
            &&& u.tableau.minimal()
            &&& within(u.tableau, z)
            &&& m.tableau.artificial is None ==> u.tableau.artificial is None
        }),
        forall|eq: Equation| #[trigger]
            holds(m.tableau, eq) && terms_below(eq.terms, m.id_tick) ==> holds(
                m.added_as(id, c).0.tableau,
                eq,
            ),
        forall|costs: Seq<(Symbol, real)>| #[trigger]
            priced(m.tableau, costs) && terms_below(costs, m.id_tick) ==> priced(
                m.added_as(id, c).0.tableau,
                charged(costs, c, m.added_as(id, c).0.constraints[id].tag),
            ),
{
    reveal(SolverModel::added_as);
    lemma_worth();
    let sign = lemma_created(z, m, c);
    let (b, row, tag) = m.created(c);
    let eq = equation(b, c, tag, 0 as real);
    let u = m.added_as(id, c).0;
    let d = b.placed(row, tag).0;
    lemma_pairs_below(b, c.terms);
    assert(!contradictory(row, tag));
    let art = symbol(b.id_tick, SymbolKind::Slack);
    assert(art.id() == b.id_tick && !art.external());
    assert forall|e: Equation| #[trigger] holds(m.tableau, e) implies holds(b.tableau, e) by {
        assert forall|x: Option<Symbol>| #[trigger] residue(b.tableau, e, x) == 0 as real by {
            lemma_same_mix(m.tableau, b.tableau, e.terms, x);
            assert(residue(m.tableau, e, x) == 0 as real);
        }
    }
    match entry_symbol(row, tag) {
        Some(s) => {
            lemma_entry(z, b.tableau, row, tag, s, eq, sign, b.id_tick);
            assert(d.tableau == b.tableau.entered(s, row.solved_for(s)));
        },
        None => {
            assert(!mentions(eq.terms, art)) by {
                assert forall|i: int| 0 <= i < eq.terms.len() implies (#[trigger] eq.terms[i]).0
                    != art by {
                    if i < pairs(b, c.terms).len() {
                        assert(eq.terms[i] == pairs(b, c.terms)[i]);
                    }
                }
            }
            assert(inner(row)) by {
                let externals = Set::new(|x: Symbol| row.cells.contains_key(x) && x.external());
                assert forall|x: Symbol| x.external() implies #[trigger] at(row, Some(x))
                    == 0 as real by {
                    if row.cells.contains_key(x) {
                        assert(externals.contains(x));
                        lemma_some_smallest(externals, x);
                    }
                }
            }
            lemma_intake(z, b.tableau, row, art, eq, sign, b.id_tick + 1);
            assert forall|e: Equation| #[trigger]
                holds(b.tableau, e) && terms_below(e.terms, m.id_tick) implies holds(
                d.tableau,
                e,
            ) by {
                assert(!mentions(e.terms, art));
            }
            assert forall|costs: Seq<(Symbol, real)>| #[trigger]
                priced(m.tableau, costs) && terms_below(costs, m.id_tick) implies priced(
                d.tableau,
                charged(costs, c, tag),
            ) by {
                let all = charged(costs, c, tag);
                assert forall|i: int| 0 <= i < all.len() implies (#[trigger] all[i]).0 != art by {
                    if i < costs.len() {
                        assert(all[i] == costs[i]);
                    }
                }
                assert(!mentions(all, art));
            }
        },
    }
    let e = d.registered(id, c, tag);
    assert(u == e.optimized().0);
    assert(u.constraints[id].tag == tag);
    lemma_optimized_keeps(z, d.tableau, false, d.id_tick);
    lemma_same_pairs(b, u, c.terms);
    assert(equation(u, c, tag, 0 as real) == eq);
    assert(u.tableau == d.tableau.optimized(false).0);
    assert(u.tableau.minimal()) by {
        lemma_ends_minimal(d.tableau, choose|pivots: nat| d.tableau.ends_within(false, pivots));
    }
}

/// An optimization that succeeds leaves nothing that lowers the objective.
pub proof fn lemma_ends_minimal(t: TableauModel, pivots: nat)
    requires
        t.optimized_within(false, pivots).1 is Ok,
    ensures
        t.optimized_within(false, pivots).0.minimal(),
    decreases pivots,
{
    match TableauModel::entering(t.objective) {
        None => {
            assert forall|s: Symbol| #[trigger]
                t.objective.cells.contains_key(s) && !(s.sort() is Dummy) implies !t.objective.cells[s].below(
                zero(),
            ) by {
                if t.objective.cells[s].below(zero()) {
                    lemma_some_least(TableauModel::entering_candidates(t.objective), s);
                }
            }
        },
        Some(e) => {
            if let Some(l) = t.leaving(e) {
                if pivots > 0 {
                    lemma_ends_minimal(t.pivoted(l, e), (pivots - 1) as nat);
                }
            }
        },
    }
}

} // verus!
