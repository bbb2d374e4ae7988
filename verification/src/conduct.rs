//! What the operations do to constraints, as a caller sees it: the values of the variables meet
//! the constraints.
use crate::constraint::{ConstraintModel, RelationalOperator, Strength};
use crate::editing::{edit_equation, lemma_edited_pending, lemma_edited_says};
use crate::equations::{
    feasible, holds, inner, keeps, lemma_dual_optimized_keeps, lemma_keeps_twice,
    lemma_optimized_keeps, lemma_same_mix, lemma_same_rows_keep, mentions, mix, optimizes_within,
    orderly, parted, pending, priced, rebalances_within, residue, share, within, Equation,
};
use crate::exact::{adds_up, at, drawn, exact, lemma_plain_product, lemma_worth, worth};
use crate::expression::{Term, Variable};
use crate::fetch_laws::lemma_added_as_keeps;
use crate::meaning::{
    absorbs_within, addition_within, equation, first_part, known, lemma_added_as_says,
    lemma_ends_minimal, lemma_pairs_below, lemma_same_pairs, pairs, second_part, shaped,
    terms_below,
};
use crate::number::{one, zero, Number};
use crate::removal::{lemma_cost_goes, lemma_surrendered, restricted, surrender_within};
use crate::row::RowModel;
use crate::simplex::{TableauModel, Tag};
use crate::soundness::{
    lemma_added_as_leads, lemma_removed_leads, lemma_shifted_leads, lemma_without_costs_advances,
    lemma_without_marker_advances,
};
use crate::symbol::Symbol;
use crate::system::{
    lemma_added_as_frame, lemma_withdrawn_frame, soft, weight, ConstraintId, EditInfo, SolverModel,
};
use vstd::prelude::*;

verus! {

/// What terms come to when each variable has its value.
pub open spec fn amount(m: SolverModel, terms: Seq<Term>) -> real
    decreases terms.len(),
{
    if terms.len() == 0 {
        0 as real
    } else {
        amount(m, terms.drop_last()) + worth(terms.last().coefficient) * worth(
            m.value_of(terms.last().variable),
        )
    }
}

/// What the expression of a constraint comes to when each variable has its value.
pub open spec fn outcome_of(m: SolverModel, c: ConstraintModel) -> real {
    amount(m, c.terms) + worth(c.constant)
}

/// Whether an expression that comes to this much is as a relation to zero asks.
pub open spec fn as_asked(op: RelationalOperator, r: real) -> bool {
    match op {
        RelationalOperator::LessOrEqual => r <= 0 as real,
        RelationalOperator::Equal => r == 0 as real,
        RelationalOperator::GreaterOrEqual => r >= 0 as real,
    }
}

/// Whether the values meet a constraint.
pub open spec fn met(m: SolverModel, c: ConstraintModel) -> bool {
    as_asked(c.operator, outcome_of(m, c))
}

/// Whether a coefficient is zero where it is near zero.
pub open spec fn plain(terms: Seq<Term>) -> bool {
    forall|i: int|
        0 <= i < terms.len() && (#[trigger] terms[i]).coefficient.negligible() ==> worth(
            terms[i].coefficient,
        ) == 0 as real
}

/// Whether the constraint with a handle follows from the tableau, with its constant moved by a
/// shift.
pub open spec fn settled(m: SolverModel, id: ConstraintId, shift: real) -> bool {
    let c = m.constraints[id].constraint;
    let tag = m.constraints[id].tag;
    &&& m.constraints.contains_key(id)
    &&& shaped(c, tag)
    &&& known(m, c.terms)
    &&& plain(c.terms)
    &&& holds(m.tableau, equation(m, c, tag, shift))
}

/// What a symbol is worth.
pub open spec fn level(m: SolverModel, s: Symbol) -> real {
    worth(m.tableau.value(s))
}

/// Whether a constraint is free of errors: what tells by how much it is missed is zero.
pub open spec fn errorless(m: SolverModel, c: ConstraintModel, tag: Tag) -> bool {
    &&& c.operator is Equal ==> level(m, tag.marker) == 0 as real
    &&& tag.other matches Some(other) ==> level(m, other) == 0 as real
}

/// Whether a system is at rest: no restricted symbol is negative, and nothing lowers the cost.
pub open spec fn steady(m: SolverModel) -> bool {
    orderly(m.tableau) && m.tableau.minimal() && m.tableau.artificial is None
}

proof fn lemma_level(m: SolverModel, s: Symbol)
    ensures
        level(m, s) == share(m.tableau, s, None),
{
    lemma_worth();
}

proof fn lemma_amount(m: SolverModel, terms: Seq<Term>)
    requires
        known(m, terms),
        plain(terms),
    ensures
        amount(m, terms) == mix(m.tableau, pairs(m, terms), None),
    decreases terms.len(),
{
    if terms.len() > 0 {
        let rest = terms.drop_last();
        assert forall|i: int| 0 <= i < rest.len() implies #[trigger] rest[i] == terms[i] by {}
        assert(known(m, rest) && plain(rest));
        lemma_amount(m, rest);
        let term = terms[terms.len() - 1];
        let y = worth(m.value_of(term.variable));
        lemma_plain_product(y);
        if !term.coefficient.negligible() {
            assert(m.var_data.contains_key(term.variable));
            lemma_level(m, m.var_data[term.variable].symbol);
            assert(pairs(m, terms).drop_last() =~= pairs(m, rest));
        }
    }
}

/// A constraint that follows from the tableau is missed by its errors and by nothing else: where
/// they are zero, and no restricted symbol is negative, the values meet it.
pub proof fn law_errorless_is_met(
    z: Set<Number>,
    m: SolverModel,
    id: ConstraintId,
    shift: real,
)
    requires
        exact(z),
        within(m.tableau, z),
        settled(m, id, shift),
        feasible(m.tableau),
    ensures
        ({
            let c = m.constraints[id].constraint;
            let tag = m.constraints[id].tag;
            &&& outcome_of(m, c) - shift + first_part(c) * level(m, tag.marker) + (match tag.other {
                Some(other) => second_part(c) * level(m, other),
                None => 0 as real,
            }) == 0 as real
            &&& errorless(m, c, tag) ==> as_asked(c.operator, outcome_of(m, c) - shift)
        }),
{
    lemma_worth();
    let c = m.constraints[id].constraint;
    let tag = m.constraints[id].tag;
    let eq = equation(m, c, tag, shift);
    let ps = pairs(m, c.terms);
    let first = ps.push((tag.marker, first_part(c)));
    lemma_amount(m, c.terms);
    assert(residue(m.tableau, eq, None) == 0 as real);
    assert(first.drop_last() =~= ps);
    lemma_level(m, tag.marker);
    if let Some(other) = tag.other {
        assert(eq.terms.drop_last() =~= first);
        lemma_level(m, other);
        assert(mix(m.tableau, eq.terms, None) == mix(m.tableau, first, None) + second_part(c)
            * share(m.tableau, other, None));
        lemma_plain_product(second_part(c));
        lemma_plain_product(level(m, other));
    }
    lemma_plain_product(level(m, tag.marker));
    if !(c.operator is Equal) {
        assert(level(m, tag.marker) >= 0 as real) by {
            if m.tableau.rows.contains_key(tag.marker) {
                assert(drawn(m.tableau.rows[tag.marker], z));
                assert(!m.tableau.rows[tag.marker].constant.below(zero()));
            }
        }
    }
}

/// A system that has given out its next handle.
pub open spec fn handed(m: SolverModel) -> SolverModel {
    SolverModel { next_constraint_id: m.next_constraint_id + 1, ..m }
}

/// A constraint that follows from the tableau still does when variables are known by the same
/// symbols and its equation still follows.
pub proof fn lemma_still_settled(m: SolverModel, u: SolverModel, k: ConstraintId, shift: real)
    requires
        settled(m, k, shift),
        u.constraints.contains_key(k),
        u.constraints[k] == m.constraints[k],
        forall|i: int|
            0 <= i < m.constraints[k].constraint.terms.len()
                && !(#[trigger] m.constraints[k].constraint.terms[i]).coefficient.negligible()
                ==> m.kept_in(u, m.constraints[k].constraint.terms[i].variable),
        holds(
            u.tableau,
            equation(m, m.constraints[k].constraint, m.constraints[k].tag, shift),
        ),
    ensures
        settled(u, k, shift),
{
    let c = m.constraints[k].constraint;
    lemma_same_pairs(m, u, c.terms);
}

/// The equation of a constraint mentions its own symbols and those of its variables.
pub proof fn lemma_equation_symbols(m: SolverModel, k: ConstraintId, shift: real, s: Symbol)
    requires
        m.sound(),
        settled(m, k, shift),
        mentions(
            equation(m, m.constraints[k].constraint, m.constraints[k].tag, shift).terms,
            s,
        ),
    ensures
        s.id() < m.id_tick,
        s.external() || uses(m.constraints[k].tag, s),
{
    let c = m.constraints[k].constraint;
    let tag = m.constraints[k].tag;
    let ts = equation(m, c, tag, shift).terms;
    let ps = pairs(m, c.terms);
    lemma_pairs_below(m, c.terms);
    let i = choose|i: int| 0 <= i < ts.len() && (#[trigger] ts[i]).0 == s;
    if i < ps.len() {
        assert(ts[i] == ps[i]);
    } else if i == ps.len() {
        assert(ts[i].0 == tag.marker);
    } else {
        assert(ts[i].0 == tag.other->0);
    }
}

/// Whether a symbol is one of those of a constraint.
pub open spec fn uses(tag: Tag, s: Symbol) -> bool {
    s == tag.marker || tag.other == Some(s)
}

/// Whether no two constraints have a symbol of theirs in common.
pub open spec fn apart(m: SolverModel) -> bool {
    forall|j: ConstraintId, k: ConstraintId, s: Symbol|
        j != k && m.constraints.contains_key(j) && m.constraints.contains_key(k) && #[trigger] uses(
            m.constraints[j].tag,
            s,
        ) ==> !(#[trigger] uses(m.constraints[k].tag, s))
}

/// What an addition to a system with the handle at hand does.
pub proof fn lemma_added_as_settles(
    z: Set<Number>,
    m: SolverModel,
    id: ConstraintId,
    c: ConstraintModel,
)
    requires
        exact(z),
        m.sound(),
        m.has_room(c.terms.len() + 3),
        id.number() < m.next_constraint_id,
        orderly(m.tableau),
        m.tableau.artificial is None,
        addition_within(m, c, z),
        m.added_as(id, c).1 is Ok,
    ensures
        steady(m.added_as(id, c).0),
        within(m.added_as(id, c).0.tableau, z),
        settled(m.added_as(id, c).0, id, 0 as real),
        forall|k: ConstraintId, shift: real| #[trigger]
            settled(m, k, shift) ==> settled(m.added_as(id, c).0, k, shift),
        apart(m) ==> apart(m.added_as(id, c).0),
{
    let u = m.added_as(id, c).0;
    lemma_added_as_says(z, m, id, c);
    lemma_added_as_leads(m, id, c);
    lemma_added_as_frame(m, id, c);
    assert(!m.knows(id, c));
    assert(plain(c.terms)) by {
        lemma_coefficients(z, m, RowModel::only(c.constant), c.terms);
    }
    assert forall|k: ConstraintId, shift: real| #[trigger] settled(m, k, shift) implies settled(
        u,
        k,
        shift,
    ) by {
        let d = m.constraints[k].constraint;
        let eq = equation(m, d, m.constraints[k].tag, shift);
        assert(terms_below(eq.terms, m.id_tick)) by {
            assert forall|i: int| 0 <= i < eq.terms.len() implies (#[trigger] eq.terms[i]).0.id()
                < m.id_tick by {
                assert(mentions(eq.terms, eq.terms[i].0));
                lemma_equation_symbols(m, k, shift, eq.terms[i].0);
            }
        }
        assert(holds(m.tableau, eq));
        assert forall|i: int|
            0 <= i < d.terms.len() && !(#[trigger] d.terms[i]).coefficient.negligible() implies
            m.kept_in(u, d.terms[i].variable) by {
            lemma_added_as_keeps(m, id, c, d.terms[i].variable);
        }
        assert(k != id);
        lemma_still_settled(m, u, k, shift);
    }
    if apart(m) {
        assert forall|j: ConstraintId, k: ConstraintId, s: Symbol|
            j != k && u.constraints.contains_key(j) && u.constraints.contains_key(k)
                && #[trigger] uses(u.constraints[j].tag, s) implies !(#[trigger] uses(
            u.constraints[k].tag,
            s,
        )) by {
            if j != id {
                assert(m.constraints.contains_key(j));
                assert(SolverModel::tag_below(m.constraints[j].tag, m.id_tick));
            }
            if k != id {
                assert(m.constraints.contains_key(k));
                assert(SolverModel::tag_below(m.constraints[k].tag, m.id_tick));
            }
        }
    }
}

proof fn lemma_coefficients(
    z: Set<Number>,
    m: SolverModel,
    row: RowModel,
    terms: Seq<Term>,
)
    requires
        exact(z),
        absorbs_within(m, row, terms, z),
    ensures
        plain(terms),
    decreases terms.len(),
{
    if terms.len() > 0 {
        let rest = terms.drop_last();
        lemma_coefficients(z, m, row, rest);
        assert forall|i: int|
            0 <= i < terms.len() && (#[trigger] terms[i]).coefficient.negligible() implies worth(
            terms[i].coefficient,
        ) == 0 as real by {
            if i < rest.len() {
                assert(rest[i] == terms[i]);
            } else {
                assert(z.contains(terms.last().coefficient));
            }
        }
    }
}

/// An addition that succeeds, where nothing is rounded: the values meet the new constraint, apart
/// from its errors, and a required inequality has none. No restricted symbol is negative, nothing
/// lowers the cost, and every other constraint is as settled as before.
pub proof fn law_addition_is_met(z: Set<Number>, m: SolverModel, c: ConstraintModel)
    requires
        exact(z),
        m.sound(),
        m.has_room(weight(c)),
        orderly(m.tableau),
        m.tableau.artificial is None,
        addition_within(handed(m), c, z),
        m.added(c).1 is Ok,
    ensures
        steady(m.added(c).0),
        within(m.added(c).0.tableau, z),
        settled(m.added(c).0, m.next_id(), 0 as real),
        errorless(m.added(c).0, c, m.added(c).0.constraints[m.next_id()].tag) ==> met(
            m.added(c).0,
            c,
        ),
        !soft(c) && !(c.operator is Equal) ==> met(m.added(c).0, c),
        forall|k: ConstraintId, shift: real| #[trigger]
            settled(m, k, shift) ==> settled(m.added(c).0, k, shift),
        apart(m) ==> apart(m.added(c).0),
{
    let n = handed(m);
    let id = m.next_id();
    lemma_handed(m);
    assert(n.has_room(c.terms.len() + 3));
    lemma_added_as_settles(z, n, id, c);
    lemma_added_as_frame(n, id, c);
    law_errorless_is_met(z, m.added(c).0, id, 0 as real);
    assert forall|k: ConstraintId, shift: real| #[trigger] settled(m, k, shift) implies settled(
        m.added(c).0,
        k,
        shift,
    ) by {
        lemma_same_pairs(m, n, m.constraints[k].constraint.terms);
        assert(settled(n, k, shift));
    }
    if apart(m) {
        assert(apart(n));
    }
}

/// Giving out a handle keeps a system sound.
pub proof fn lemma_handed(m: SolverModel)
    requires
        m.sound(),
    ensures
        handed(m).sound(),
{
    let n = handed(m);
    assert forall|v: Variable| #[trigger] n.var_data.contains_key(v) implies n.caught(v) by {
        assert(m.caught(v));
    }
}

/// Whether a constraint charges a cost for a symbol.
pub open spec fn charges(c: ConstraintModel, tag: Tag, cost: (Symbol, real)) -> bool {
    &&& soft(c)
    &&& cost.1 == worth(c.strength.value)
    &&& tag.other == Some(cost.0) || (c.operator is Equal && cost.0 == tag.marker)
}

/// Whether what is to be minimized is the sum of what the preferences cost: the errors of each,
/// times its strength, each counted once.
pub open spec fn costed(m: SolverModel, costs: Seq<(Symbol, real)>) -> bool {
    &&& priced(m.tableau, costs)
    &&& restricted(costs)
    &&& terms_below(costs, m.id_tick)
    &&& forall|i: int, j: int|
        0 <= i < j < costs.len() ==> (#[trigger] costs[i]).0 != (#[trigger] costs[j]).0
    &&& forall|i: int| 0 <= i < costs.len() ==> charged_by_some(m, #[trigger] costs[i])
    &&& forall|id: ConstraintId, cost: (Symbol, real)|
        m.constraints.contains_key(id) && #[trigger] charges(
            m.constraints[id].constraint,
            m.constraints[id].tag,
            cost,
        ) ==> costs.contains(cost)
}

/// Whether some constraint charges a cost.
pub open spec fn charged_by_some(m: SolverModel, cost: (Symbol, real)) -> bool {
    exists|id: ConstraintId| #[trigger]
        m.constraints.contains_key(id) && charges(
            m.constraints[id].constraint,
            m.constraints[id].tag,
            cost,
        )
}

/// Whether the numbers are among some numbers throughout while a constraint is removed.
pub open spec fn removal_within(m: SolverModel, id: ConstraintId, z: Set<Number>) -> bool {
    let c = m.constraints[id].constraint;
    let tag = m.constraints[id].tag;
    let t = m.tableau.without_costs(tag, c.strength.value);
    &&& soft(c) ==> z.contains(c.strength.value)
    &&& within(m.tableau, z)
    &&& tag.marker.sort() is Error ==> within(
        m.tableau.without_cost(tag.marker, c.strength.value),
        z,
    )
    &&& within(t, z)
    &&& surrender_within(t, tag.marker, z)
    &&& t.without_marker(tag.marker) matches Some(u) ==> optimizes_within(u, false, z)
}

/// A cost has a place in a list that holds it.
pub proof fn lemma_index(costs: Seq<(Symbol, real)>, cost: (Symbol, real)) -> (i: int)
    requires
        costs.contains(cost),
    ensures
        0 <= i < costs.len(),
        costs[i] == cost,
{
    choose|i: int| 0 <= i < costs.len() && costs[i] == cost
}

/// The costs without those of a constraint.
pub open spec fn waived(
    costs: Seq<(Symbol, real)>,
    rest: Seq<(Symbol, real)>,
    c: ConstraintModel,
    tag: Tag,
) -> bool {
    &&& forall|cost: (Symbol, real)| #[trigger]
        rest.contains(cost) <==> costs.contains(cost) && !charges(c, tag, cost)
    &&& forall|i: int, j: int|
        0 <= i < j < rest.len() ==> (#[trigger] rest[i]).0 != (#[trigger] rest[j]).0
}

proof fn lemma_one_out(costs: Seq<(Symbol, real)>, i: int)
    requires
        0 <= i < costs.len(),
        forall|i: int, j: int|
            0 <= i < j < costs.len() ==> (#[trigger] costs[i]).0 != (#[trigger] costs[j]).0,
    ensures
        forall|cost: (Symbol, real)| #[trigger]
            costs.remove(i).contains(cost) <==> costs.contains(cost) && cost != costs[i],
        forall|a: int, b: int|
            0 <= a < b < costs.remove(i).len() ==> (#[trigger] costs.remove(i)[a]).0 != (
            #[trigger] costs.remove(i)[b]).0,
{
    let r = costs.remove(i);
    assert forall|cost: (Symbol, real)| #[trigger] r.contains(cost) <==> costs.contains(cost)
        && cost != costs[i] by {
        if r.contains(cost) {
            let j = choose|j: int| 0 <= j < r.len() && r[j] == cost;
            if j < i {
                assert(costs[j] == cost);
            } else {
                assert(costs[j + 1] == cost);
            }
        }
        if costs.contains(cost) && cost != costs[i] {
            let j = choose|j: int| 0 <= j < costs.len() && costs[j] == cost;
            if j < i {
                assert(r[j] == cost);
            } else {
                assert(r[j - 1] == cost);
            }
        }
    }
    assert forall|a: int, b: int| 0 <= a < b < r.len() implies (#[trigger] r[a]).0 != (
    #[trigger] r[b]).0 by {
        let (x, y) = (
            if a < i {
                a
            } else {
                a + 1
            },
            if b < i {
                b
            } else {
                b + 1
            },
        );
        assert(r[a] == costs[x] && r[b] == costs[y]);
    }
}

/// The objective gives up what a constraint costs.
proof fn lemma_waived(
    z: Set<Number>,
    m: SolverModel,
    id: ConstraintId,
    costs: Seq<(Symbol, real)>,
) -> (rest: Seq<(Symbol, real)>)
    requires
        exact(z),
        removal_within(m, id, z),
        costed(m, costs),
        m.constraints.contains_key(id),
        shaped(m.constraints[id].constraint, m.constraints[id].tag),
    ensures
        waived(costs, rest, m.constraints[id].constraint, m.constraints[id].tag),
        priced(
            m.tableau.without_costs(
                m.constraints[id].tag,
                m.constraints[id].constraint.strength.value,
            ),
            rest,
        ),
{
    let c = m.constraints[id].constraint;
    let tag = m.constraints[id].tag;
    let w = worth(c.strength.value);
    if !soft(c) {
        costs
    } else {
        let o = tag.other->0;
        if c.operator is Equal {
            assert(charges(c, tag, (tag.marker, w)));
            let i = lemma_index(costs, (tag.marker, w));
            lemma_one_out(costs, i);
            lemma_cost_goes(z, m.tableau, tag.marker, c.strength.value, costs, i);
            let first = costs.remove(i);
            let t = m.tableau.without_cost(tag.marker, c.strength.value);
            assert(charges(c, tag, (o, w)));
            assert(first.contains((o, w)));
            let j = lemma_index(first, (o, w));
            lemma_one_out(first, j);
            lemma_cost_goes(z, t, o, c.strength.value, first, j);
            first.remove(j)
        } else {
            assert(charges(c, tag, (o, w)));
            let j = lemma_index(costs, (o, w));
            lemma_one_out(costs, j);
            lemma_cost_goes(z, m.tableau, o, c.strength.value, costs, j);
            costs.remove(j)
        }
    }
}

/// Releasing variables leaves the rows alone.
pub proof fn lemma_released_rows(m: SolverModel, terms: Seq<Term>)
    ensures
        m.released(terms).tableau.rows == m.tableau.rows,
        m.released(terms).tableau.objective == m.tableau.objective,
        m.released(terms).tableau.artificial == m.tableau.artificial,
        m.released(terms).tableau.infeasible == m.tableau.infeasible,
    decreases terms.len(),
{
    if terms.len() > 0 {
        lemma_released_rows(m, terms.drop_last());
    }
}

/// What a removal does. The costs of the constraint go, and what does not mention its marker
/// stays.
pub proof fn lemma_removed_says(
    z: Set<Number>,
    m: SolverModel,
    id: ConstraintId,
    costs: Seq<(Symbol, real)>,
) -> (rest: Seq<(Symbol, real)>)
    requires
        exact(z),
        m.sound(),
        orderly(m.tableau),
        m.tableau.artificial is None,
        costed(m, costs),
        apart(m),
        removal_within(m, id, z),
        m.constraints.contains_key(id),
        shaped(m.constraints[id].constraint, m.constraints[id].tag),
        m.removed(id).1 is Ok,
    ensures
        steady(m.removed(id).0),
        within(m.removed(id).0.tableau, z),
        forall|eq: Equation| #[trigger]
            holds(m.tableau, eq) && !mentions(eq.terms, m.constraints[id].tag.marker) ==> holds(
                m.removed(id).0.tableau,
                eq,
            ),
        waived(costs, rest, m.constraints[id].constraint, m.constraints[id].tag),
        priced(m.removed(id).0.tableau, rest),
        ({
            let t1 = m.tableau.without_costs(
                m.constraints[id].tag,
                m.constraints[id].constraint.strength.value,
            );
            &&& orderly(t1)
            &&& t1.rows == m.tableau.rows
            &&& t1.all_below(m.id_tick)
            &&& t1.without_marker(m.constraints[id].tag.marker) is Some
            &&& keeps(
                t1.without_marker(m.constraints[id].tag.marker)->0,
                m.removed(id).0.tableau,
            )
        }),
{
    reveal(SolverModel::withdrawn);
    lemma_removed_leads(m, id);
    let c = m.constraints[id].constraint;
    let tag = m.constraints[id].tag;
    let g = m.unregistered(id);
    let t1 = m.tableau.without_costs(tag, c.strength.value);
    let rest = lemma_waived(z, m, id, costs);
    let u = m.removed(id).0;
    assert(SolverModel::tag_below(tag, m.id_tick));
    assert forall|i: int| 0 <= i < rest.len() implies !(#[trigger] rest[i]).0.external()
        && rest[i].0 != tag.marker by {
        assert(rest.contains(rest[i]));
        let j = lemma_index(costs, rest[i]);
        assert(!costs[j].0.external());
        assert(charged_by_some(m, costs[j]));
        let k = choose|k: ConstraintId| #[trigger]
            m.constraints.contains_key(k) && charges(
                m.constraints[k].constraint,
                m.constraints[k].tag,
                costs[j],
            );
        assert(uses(m.constraints[k].tag, costs[j].0));
        if rest[i].0 == tag.marker {
            assert(uses(tag, costs[j].0));
            assert(k == id);
        }
    }
    assert(!mentions(rest, tag.marker));
    lemma_without_costs_orderly(z, m.tableau, tag, c.strength.value, rest, m.id_tick);
    lemma_surrendered(z, t1, tag.marker, rest, m.id_tick);
    let t2 = t1.without_marker(tag.marker)->0;
    lemma_without_costs_advances(m.tableau, tag, c.strength.value, m.id_tick);
    lemma_without_marker_advances(t1, tag.marker, m.id_tick);
    assert(orderly(t2));
    assert(t2.artificial is None);
    lemma_optimized_keeps(z, t2, false, m.id_tick);
    let h = SolverModel { tableau: t2, ..g };
    let o = h.optimized().0;
    lemma_ends_minimal(t2, choose|pivots: nat| t2.ends_within(false, pivots));
    lemma_released_rows(o, c.terms);
    assert(u == o.released(c.terms));
    lemma_same_rows_keep(o.tableau, u.tableau);
    lemma_keeps_twice(t2, o.tableau, u.tableau);
    assert forall|eq: Equation| #[trigger]
        holds(m.tableau, eq) && !mentions(eq.terms, tag.marker) implies holds(u.tableau, eq) by {
        assert(holds(t1, eq)) by {
            assert forall|x: Option<Symbol>| #[trigger] residue(t1, eq, x) == 0 as real by {
                lemma_same_mix(m.tableau, t1, eq.terms, x);
                assert(residue(m.tableau, eq, x) == 0 as real);
            }
        }
        assert(holds(t2, eq));
        assert(holds(o.tableau, eq));
    }
    rest
}

proof fn lemma_without_costs_orderly(
    z: Set<Number>,
    t: TableauModel,
    tag: Tag,
    strength: Number,
    rest: Seq<(Symbol, real)>,
    limit: nat,
)
    requires
        exact(z),
        orderly(t),
        t.all_below(limit),
        SolverModel::tag_below(tag, limit),
        priced(t.without_costs(tag, strength), rest),
        restricted(rest),
    ensures
        orderly(t.without_costs(tag, strength)),
        t.without_costs(tag, strength).rows == t.rows,
        t.without_costs(tag, strength).artificial == t.artificial,
        t.without_costs(tag, strength).all_below(limit),
{
    let u = t.without_costs(tag, strength);
    lemma_without_costs_advances(t, tag, strength, limit);
    assert forall|x: Symbol| x.external() implies #[trigger] at(u.objective, Some(x))
        == 0 as real by {
        lemma_mix_inner(u, rest, x);
    }
}

proof fn lemma_mix_inner(t: TableauModel, terms: Seq<(Symbol, real)>, x: Symbol)
    requires
        restricted(terms),
        x.external(),
        forall|s: Symbol| #[trigger]
            t.rows.contains_key(s) && !s.external() ==> inner(t.rows[s]),
    ensures
        mix(t, terms, Some(x)) == 0 as real,
    decreases terms.len(),
{
    if terms.len() > 0 {
        let rest = terms.drop_last();
        assert forall|i: int| 0 <= i < rest.len() implies !(#[trigger] rest[i]).0.external() by {
            assert(rest[i] == terms[i]);
        }
        lemma_mix_inner(t, rest, x);
        let k = terms[terms.len() - 1].0;
        lemma_plain_product(terms.last().1);
        if t.rows.contains_key(k) {
            assert(inner(t.rows[k]));
            assert(at(t.rows[k], Some(x)) == 0 as real);
        }
    }
}

/// A removal that succeeds, where nothing is rounded: no restricted symbol becomes negative,
/// nothing lowers the cost of what remains, and every constraint that remains, and whose variables
/// are kept, is as settled as before. So the required inequalities that remain are still met.
pub proof fn law_removal_keeps_the_rest(
    z: Set<Number>,
    m: SolverModel,
    id: ConstraintId,
    costs: Seq<(Symbol, real)>,
    k: ConstraintId,
    shift: real,
)
    requires
        exact(z),
        m.sound(),
        orderly(m.tableau),
        m.tableau.artificial is None,
        costed(m, costs),
        apart(m),
        removal_within(m, id, z),
        m.constraints.contains_key(id),
        shaped(m.constraints[id].constraint, m.constraints[id].tag),
        m.removed(id).1 is Ok,
        k != id,
        settled(m, k, shift),
        forall|i: int|
            0 <= i < m.constraints[k].constraint.terms.len()
                && !(#[trigger] m.constraints[k].constraint.terms[i]).coefficient.negligible()
                ==> m.kept_in(m.removed(id).0, m.constraints[k].constraint.terms[i].variable),
    ensures
        steady(m.removed(id).0),
        settled(m.removed(id).0, k, shift),
        errorless(m.removed(id).0, m.constraints[k].constraint, m.constraints[k].tag) ==> as_asked(
            m.constraints[k].constraint.operator,
            outcome_of(m.removed(id).0, m.constraints[k].constraint) - shift,
        ),
        !soft(m.constraints[k].constraint) && !(m.constraints[k].constraint.operator is Equal)
            ==> as_asked(
            m.constraints[k].constraint.operator,
            outcome_of(m.removed(id).0, m.constraints[k].constraint) - shift,
        ),
{
    let u = m.removed(id).0;
    let rest = lemma_removed_says(z, m, id, costs);
    let c = m.constraints[k].constraint;
    let eq = equation(m, c, m.constraints[k].tag, shift);
    lemma_removed_others(m, id);
    assert(!mentions(eq.terms, m.constraints[id].tag.marker)) by {
        if mentions(eq.terms, m.constraints[id].tag.marker) {
            lemma_equation_symbols(m, k, shift, m.constraints[id].tag.marker);
            assert(SolverModel::tag_below(m.constraints[id].tag, m.id_tick));
            assert(uses(m.constraints[id].tag, m.constraints[id].tag.marker));
        }
    }
    assert(holds(m.tableau, eq));
    lemma_still_settled(m, u, k, shift);
    law_errorless_is_met(z, u, k, shift);
}

/// A removal takes one constraint away and leaves edit variables and counters alone.
pub proof fn lemma_removed_others(m: SolverModel, id: ConstraintId)
    requires
        m.constraints.contains_key(id),
    ensures
        m.removed(id).0.constraints == m.constraints.remove(id),
        m.removed(id).0.edits == m.edits,
        m.removed(id).0.id_tick == m.id_tick,
{
    let entry = m.constraints[id];
    lemma_withdrawn_frame(m.unregistered(id), entry.constraint, entry.tag);
}

/// Whether an edit variable has its equation in the tableau: the variable is the value that was
/// suggested last, up to the errors of the edit.
pub open spec fn edit_settled(m: SolverModel, v: Variable) -> bool {
    let info = m.edits[v];
    let c = m.constraints[info.constraint_id].constraint;
    &&& m.edits.contains_key(v)
    &&& settled(m, info.constraint_id, worth(info.constant))
    &&& m.constraints[info.constraint_id].tag == info.tag
    &&& c.terms == seq![Term { variable: v, coefficient: one() }]
    &&& c.constant == zero()
    &&& c.operator is Equal
    &&& soft(c)
}

/// An edit variable has the value that was suggested last, plus one of the two errors of the edit
/// and minus the other.
pub proof fn law_edit_follows_suggestion(z: Set<Number>, m: SolverModel, v: Variable)
    requires
        exact(z),
        within(m.tableau, z),
        feasible(m.tableau),
        edit_settled(m, v),
    ensures
        worth(m.value_of(v)) == worth(m.edits[v].constant) + level(m, m.edits[v].tag.marker)
            - level(m, m.edits[v].tag.other->0),
        errorless(m, m.constraints[m.edits[v].constraint_id].constraint, m.edits[v].tag) ==> worth(
            m.value_of(v),
        ) == worth(m.edits[v].constant),
{
    lemma_worth();
    let info = m.edits[v];
    let c = m.constraints[info.constraint_id].constraint;
    law_errorless_is_met(z, m, info.constraint_id, worth(info.constant));
    assert(c.terms.drop_last() =~= Seq::<Term>::empty());
    assert(amount(m, c.terms.drop_last()) == 0 as real);
    assert(c.terms.last() == Term { variable: v, coefficient: one() });
    lemma_plain_product(worth(m.value_of(v)));
    lemma_plain_product(level(m, info.tag.marker));
    lemma_plain_product(level(m, info.tag.other->0));
}

/// A variable that becomes an edit variable starts with the equation that it is zero, and zero is
/// what is noted of it. All else is as settled as before.
pub proof fn law_edit_starts_at_zero(
    z: Set<Number>,
    m: SolverModel,
    v: Variable,
    strength: Strength,
)
    requires
        exact(z),
        m.sound(),
        m.has_room(5),
        orderly(m.tableau),
        m.tableau.artificial is None,
        soft(SolverModel::edit_constraint(v, strength)),
        addition_within(handed(m), SolverModel::edit_constraint(v, strength), z),
        m.edit_added(v, strength).1 is Ok,
    ensures
        m.edit_added(v, strength).0.edits[v].constant == zero(),
        edit_settled(m.edit_added(v, strength).0, v),
        steady(m.edit_added(v, strength).0),
        within(m.edit_added(v, strength).0.tableau, z),
        worth(m.edit_added(v, strength).0.value_of(v)) == level(
            m.edit_added(v, strength).0,
            m.edit_added(v, strength).0.edits[v].tag.marker,
        ) - level(
            m.edit_added(v, strength).0,
            m.edit_added(v, strength).0.edits[v].tag.other->0,
        ),
        forall|k: ConstraintId, shift: real| #[trigger]
            settled(m, k, shift) ==> settled(m.edit_added(v, strength).0, k, shift),
        forall|w: Variable| #[trigger]
            edit_settled(m, w) ==> edit_settled(m.edit_added(v, strength).0, w),
        apart(m) ==> apart(m.edit_added(v, strength).0),
{
    lemma_worth();
    let c = SolverModel::edit_constraint(v, strength);
    let id = m.next_id();
    let a = m.added(c).0;
    let u = m.edit_added(v, strength).0;
    assert(weight(c) == 5);
    law_addition_is_met(z, m, c);
    lemma_added_as_frame(handed(m), id, c);
    assert(u.edits[v].constraint_id == id);
    assert forall|k: ConstraintId, shift: real| #[trigger] settled(a, k, shift) implies settled(
        u,
        k,
        shift,
    ) by {
        lemma_same_pairs(a, u, a.constraints[k].constraint.terms);
    }
    assert(settled(a, id, 0 as real));
    assert(settled(u, id, 0 as real));
    assert(edit_settled(u, v));
    assert forall|w: Variable| #[trigger] edit_settled(m, w) implies edit_settled(u, w) by {
        assert(w != v);
        assert(settled(m, m.edits[w].constraint_id, worth(m.edits[w].constant)));
        assert(m.edits[w].constraint_id != id);
        assert(a.edits == m.edits);
        assert(settled(u, m.edits[w].constraint_id, worth(m.edits[w].constant)));
    }
    law_edit_follows_suggestion(z, u, v);
}

/// The last value that a list gives for a variable.
pub open spec fn told(values: Seq<(Variable, Number)>, v: Variable) -> Option<Number>
    decreases values.len(),
{
    if values.len() == 0 {
        None
    } else if values.last().0 == v {
        Some(values.last().1)
    } else {
        told(values.drop_last(), v)
    }
}

/// The constant that an edit variable has after a list of values.
pub open spec fn told_or(values: Seq<(Variable, Number)>, v: Variable, before: Number) -> Number {
    match told(values, v) {
        Some(value) => value,
        None => before,
    }
}

/// Whether the numbers are among some numbers throughout while the equations of edit variables
/// move.
pub open spec fn shifts_within(
    m: SolverModel,
    values: Seq<(Variable, Number)>,
    z: Set<Number>,
) -> bool
    decreases values.len(),
{
    &&& within(m.shifted_all(values).tableau, z)
    &&& values.len() > 0 ==> {
        let before = m.shifted_all(values.drop_last()).edits[values.last().0].constant;
        &&& shifts_within(m, values.drop_last(), z)
        &&& z.contains(values.last().1)
        &&& z.contains(before)
        &&& z.contains(values.last().1.difference(before))
    }
}

/// Whether the numbers are among some numbers throughout while values are suggested.
pub open spec fn suggestions_within(
    m: SolverModel,
    values: Seq<(Variable, Number)>,
    z: Set<Number>,
) -> bool {
    shifts_within(m, values, z) && rebalances_within(m.shifted_all(values).tableau, z)
}

/// Whether a constraint is that of an edit variable in a list.
pub open spec fn suggested_for(
    m: SolverModel,
    values: Seq<(Variable, Number)>,
    id: ConstraintId,
) -> bool {
    exists|i: int|
        0 <= i < values.len() && m.edits[(#[trigger] values[i]).0].constraint_id == id
}

/// The equations of edit variables move to the last values of a list, and nothing else moves.
pub proof fn lemma_shifts_say(z: Set<Number>, m: SolverModel, values: Seq<(Variable, Number)>)
    requires
        exact(z),
        m.sound(),
        steady(m),
        apart(m),
        shifts_within(m, values, z),
        forall|i: int| 0 <= i < values.len() ==> edit_settled(m, (#[trigger] values[i]).0),
    ensures
        ({
            let n = m.shifted_all(values);
            &&& n.sound()
            &&& parted(n.tableau)
            &&& pending(n.tableau)
            &&& n.tableau.minimal()
            &&& n.tableau.artificial is None
            &&& n.constraints == m.constraints
            &&& n.var_data == m.var_data
            &&& n.id_tick == m.id_tick
            &&& n.edits.dom() == m.edits.dom()
        }),
        forall|v: Variable| #[trigger]
            m.edits.contains_key(v) ==> m.shifted_all(values).edits[v] == (EditInfo {
                constant: told_or(values, v, m.edits[v].constant),
                ..m.edits[v]
            }),
        forall|v: Variable| #[trigger]
            edit_settled(m, v) ==> edit_settled(m.shifted_all(values), v),
        forall|k: ConstraintId, shift: real| #[trigger]
            settled(m, k, shift) && !suggested_for(m, values, k) ==> settled(
                m.shifted_all(values),
                k,
                shift,
            ),
        forall|costs: Seq<(Symbol, real)>| #[trigger]
            priced(m.tableau, costs) ==> priced(m.shifted_all(values).tableau, costs),
    decreases values.len(),
{
    lemma_worth();
    if values.len() == 0 {
        assert(pending(m.tableau));
    } else {
        let rest = values.drop_last();
        let (v, value) = values[values.len() - 1];
        assert forall|i: int| 0 <= i < rest.len() implies edit_settled(
            m,
            (#[trigger] rest[i]).0,
        ) by {
            assert(rest[i] == values[i]);
        }
        lemma_shifts_say(z, m, rest);
        let a = m.shifted_all(rest);
        let n = m.shifted_all(values);
        assert(edit_settled(m, v));
        assert(edit_settled(a, v));
        assert(within(a.tableau, z)) by {
            assert(shifts_within(m, rest, z));
        }
        let info = a.edits[v];
        let id = info.constraint_id;
        let tag = info.tag;
        let delta = value.difference(info.constant);
        let c = a.constraints[id].constraint;
        let ps = pairs(a, c.terms);
        lemma_shifted_leads(a, v, value);
        lemma_edited_says(z, a.tableau, tag, delta);
        lemma_edited_pending(a.tableau, tag, delta);
        assert(adds_up(value, info.constant.negation()));
        assert(worth(delta) == worth(value) - worth(info.constant));
        assert(a.constraints.contains_key(id));
        assert(SolverModel::tag_below(tag, a.id_tick));
        assert(equation(a, c, tag, worth(info.constant)) == edit_equation(
            ps,
            tag,
            worth(c.constant) - worth(info.constant),
        ));
        lemma_pairs_below(a, c.terms);
        assert(!mentions(ps, tag.marker) && !mentions(ps, tag.other->0)) by {
            if mentions(ps, tag.marker) {
                let i = choose|i: int| 0 <= i < ps.len() && (#[trigger] ps[i]).0 == tag.marker;
                assert(ps[i].0.external());
            }
            if mentions(ps, tag.other->0) {
                let i = choose|i: int| 0 <= i < ps.len() && (#[trigger] ps[i]).0 == tag.other->0;
                assert(ps[i].0.external());
            }
        }
        assert(holds(a.tableau, edit_equation(ps, tag, worth(c.constant) - worth(info.constant))));
        assert(settled(n, id, worth(value))) by {
            lemma_same_pairs(a, n, c.terms);
            assert(equation(n, c, tag, worth(value)) == edit_equation(
                ps,
                tag,
                worth(c.constant) - worth(info.constant) - worth(delta),
            ));
        }
        assert forall|k: ConstraintId, shift: real| #[trigger] settled(a, k, shift) && k
            != id implies settled(n, k, shift) by {
            let d = a.constraints[k].constraint;
            let eq = equation(a, d, a.constraints[k].tag, shift);
            if mentions(eq.terms, tag.marker) {
                lemma_equation_symbols(a, k, shift, tag.marker);
                assert(uses(a.constraints[id].tag, tag.marker));
            }
            if mentions(eq.terms, tag.other->0) {
                lemma_equation_symbols(a, k, shift, tag.other->0);
                assert(uses(a.constraints[id].tag, tag.other->0));
            }
            assert(holds(a.tableau, eq));
            lemma_same_pairs(a, n, d.terms);
        }
        assert forall|w: Variable| #[trigger] edit_settled(m, w) implies edit_settled(n, w) by {
            assert(edit_settled(a, w));
            if w != v {
                let d = a.constraints[a.edits[w].constraint_id].constraint;
                assert(d.terms[0].variable == w && c.terms[0].variable == v);
                assert(a.edits[w].constraint_id != id);
                assert(settled(a, a.edits[w].constraint_id, worth(a.edits[w].constant)));
            }
        }
        assert forall|k: ConstraintId, shift: real| #[trigger]
            settled(m, k, shift) && !suggested_for(m, values, k) implies settled(n, k, shift) by {
            assert(m.edits[values[values.len() - 1].0].constraint_id == id);
            if suggested_for(m, rest, k) {
                let i = choose|i: int|
                    0 <= i < rest.len() && m.edits[(#[trigger] rest[i]).0].constraint_id == k;
                assert(values[i] == rest[i]);
            }
            assert(settled(a, k, shift));
        }
        assert(n.edits.dom() =~= m.edits.dom());
        assert forall|w: Variable| #[trigger] m.edits.contains_key(w) implies n.edits[w] == (
        EditInfo { constant: told_or(values, w, m.edits[w].constant), ..m.edits[w] }) by {
            assert(a.edits[w] == (EditInfo {
                constant: told_or(rest, w, m.edits[w].constant),
                ..m.edits[w]
            }));
        }
    }
}

/// Suggestions that succeed, where nothing is rounded. What is noted of each edit variable is the
/// last value that the list gives for it, at whatever place; its equation has moved there, so that
/// the variable has that value up to the errors of the edit. No restricted symbol is negative,
/// nothing lowers the cost, and every other constraint is as settled as before.
pub proof fn law_suggestions_are_followed(
    z: Set<Number>,
    m: SolverModel,
    values: Seq<(Variable, Number)>,
)
    requires
        exact(z),
        m.sound(),
        steady(m),
        apart(m),
        suggestions_within(m, values, z),
        forall|i: int| 0 <= i < values.len() ==> edit_settled(m, (#[trigger] values[i]).0),
        m.suggested_all(values).1 is Ok,
    ensures
        steady(m.suggested_all(values).0),
        within(m.suggested_all(values).0.tableau, z),
        forall|v: Variable| #[trigger]
            m.edits.contains_key(v) ==> m.suggested_all(values).0.edits[v] == (EditInfo {
                constant: told_or(values, v, m.edits[v].constant),
                ..m.edits[v]
            }),
        forall|v: Variable| #[trigger]
            edit_settled(m, v) ==> edit_settled(m.suggested_all(values).0, v) && worth(
                m.suggested_all(values).0.value_of(v),
            ) == worth(told_or(values, v, m.edits[v].constant)) + level(
                m.suggested_all(values).0,
                m.edits[v].tag.marker,
            ) - level(m.suggested_all(values).0, m.edits[v].tag.other->0),
        forall|k: ConstraintId, shift: real| #[trigger]
            settled(m, k, shift) && !suggested_for(m, values, k) ==> settled(
                m.suggested_all(values).0,
                k,
                shift,
            ),
        apart(m.suggested_all(values).0),
{
    let n = m.shifted_all(values);
    let u = m.suggested_all(values).0;
    assert forall|i: int| 0 <= i < values.len() implies m.edits.contains_key(
        (#[trigger] values[i]).0,
    ) by {
        assert(edit_settled(m, values[i].0));
    }
    lemma_shifts_say(z, m, values);
    lemma_dual_optimized_keeps(z, n.tableau, n.id_tick);
    assert(u == n.rebalanced().0);
    assert forall|k: ConstraintId, shift: real| #[trigger] settled(n, k, shift) implies settled(
        u,
        k,
        shift,
    ) by {
        let c = n.constraints[k].constraint;
        assert(holds(n.tableau, equation(n, c, n.constraints[k].tag, shift)));
        lemma_same_pairs(n, u, c.terms);
    }
    assert forall|v: Variable| #[trigger] edit_settled(m, v) implies edit_settled(u, v) && worth(
        u.value_of(v),
    ) == worth(told_or(values, v, m.edits[v].constant)) + level(u, m.edits[v].tag.marker) - level(
        u,
        m.edits[v].tag.other->0,
    ) by {
        assert(edit_settled(n, v));
        assert(settled(n, n.edits[v].constraint_id, worth(n.edits[v].constant)));
        law_edit_follows_suggestion(z, u, v);
    }
}

} // verus!
