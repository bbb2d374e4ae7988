//! What the solver is for: its values meet what is required, and of all values that do, none miss
//! the preferences by less, each preference weighed by its strength.
use crate::conduct::{
    amount, apart, as_asked, charged_by_some, charges, costed, edit_settled, law_errorless_is_met,
    level, met, outcome_of, plain, settled, uses,
};
use crate::constraint::{ConstraintModel, RelationalOperator};
use crate::counting::{counts, lists_all};
use crate::equations::{feasible, within};
use crate::exact::{drawn, exact, lemma_plain_product, lemma_spread, lemma_worth, worth};
use crate::expression::{Term, Variable};
use crate::faith::faithful;
use crate::meaning::{first_part, known, pairs, second_part, shaped};
use crate::number::{zero, Number};
use crate::optimum::{
    allowed, balance, equation_of, law_values_cost_least, lemma_shift_of, live, models, shift_of,
};
use crate::simplex::Tag;
use crate::solutions::{total, Assignment};
use crate::symbol::Symbol;
use crate::system::{soft, ConstraintId, SolverModel};
use vstd::prelude::*;

verus! {

/// Values for the variables.
pub type Values = spec_fn(Variable) -> real;

/// What terms come to with some values.
pub open spec fn sum_of(terms: Seq<Term>, x: Values) -> real
    decreases terms.len(),
{
    if terms.len() == 0 {
        0 as real
    } else {
        sum_of(terms.drop_last(), x) + worth(terms.last().coefficient) * x(terms.last().variable)
    }
}

/// What the expression of a constraint comes to with some values. What was suggested for an edit
/// variable is taken off.
pub open spec fn result_of(m: SolverModel, id: ConstraintId, x: Values) -> real {
    let c = m.constraints[id].constraint;
    sum_of(c.terms, x) + worth(c.constant) - shift_of(m, id)
}

/// By how much an expression that comes to this much misses a relation to zero.
pub open spec fn miss(op: RelationalOperator, r: real) -> real {
    match op {
        RelationalOperator::LessOrEqual => excess(r),
        RelationalOperator::Equal => excess(r) + excess(-r),
        RelationalOperator::GreaterOrEqual => excess(-r),
    }
}

/// By how much a number is more than zero.
pub open spec fn excess(r: real) -> real {
    if r > 0 as real {
        r
    } else {
        0 as real
    }
}

/// By how much some values miss the preference with a handle, times its strength.
pub open spec fn penalty(m: SolverModel, id: ConstraintId, x: Values) -> real {
    let c = m.constraints[id].constraint;
    if soft(c) {
        worth(c.strength.value) * miss(c.operator, result_of(m, id, x))
    } else {
        0 as real
    }
}

/// By how much some values miss all preferences, each weighed by its strength.
pub open spec fn penalties(m: SolverModel, ids: Seq<ConstraintId>, x: Values) -> real
    decreases ids.len(),
{
    if ids.len() == 0 {
        0 as real
    } else {
        penalties(m, ids.drop_last(), x) + penalty(m, ids.last(), x)
    }
}

/// The values that the solver has.
pub open spec fn values_of(m: SolverModel) -> Values {
    |v: Variable| worth(m.value_of(v))
}

/// Whether some values meet the constraint with a handle.
pub open spec fn met_by(m: SolverModel, id: ConstraintId, x: Values) -> bool {
    as_asked(m.constraints[id].constraint.operator, result_of(m, id, x))
}

/// Whether some values meet what is required.
pub open spec fn acceptable(m: SolverModel, x: Values) -> bool {
    forall|id: ConstraintId| #[trigger]
        m.constraints.contains_key(id) && !soft(m.constraints[id].constraint) ==> met_by(m, id, x)
}

/// What the symbols of a constraint are when its expression comes to this much.
pub open spec fn part_of(c: ConstraintModel, tag: Tag, r: real, s: Symbol) -> real {
    if (s == tag.marker) == (first_part(c) == 1 as real) {
        excess(-r)
    } else {
        excess(r)
    }
}

/// What all symbols are with some values for the variables.
pub open spec fn filled(m: SolverModel, x: Values) -> Assignment {
    |s: Symbol|
        if exists|v: Variable| #[trigger] m.var_data.contains_key(v) && m.var_data[v].symbol == s {
            x(choose|v: Variable| #[trigger] m.var_data.contains_key(v) && m.var_data[v].symbol == s)
        } else if exists|id: ConstraintId| #[trigger]
            m.constraints.contains_key(id) && uses(m.constraints[id].tag, s) {
            let id = choose|id: ConstraintId| #[trigger]
                m.constraints.contains_key(id) && uses(m.constraints[id].tag, s);
            part_of(m.constraints[id].constraint, m.constraints[id].tag, result_of(m, id, x), s)
        } else {
            0 as real
        }
}

proof fn lemma_filled_variable(m: SolverModel, x: Values, v: Variable)
    requires
        m.sound(),
        m.var_data.contains_key(v),
    ensures
        filled(m, x)(m.var_data[v].symbol) == x(v),
{
    let s = m.var_data[v].symbol;
    let w = choose|w: Variable| #[trigger] m.var_data.contains_key(w) && m.var_data[w].symbol == s;
    assert(m.var_data.contains_key(w) && m.var_data[w].symbol == s);
    assert(m.tableau.owners[s] == v && m.tableau.owners[s] == w);
}

proof fn lemma_filled_part(m: SolverModel, x: Values, id: ConstraintId, s: Symbol)
    requires
        m.sound(),
        apart(m),
        m.constraints.contains_key(id),
        shaped(m.constraints[id].constraint, m.constraints[id].tag),
        uses(m.constraints[id].tag, s),
    ensures
        filled(m, x)(s) == part_of(
            m.constraints[id].constraint,
            m.constraints[id].tag,
            result_of(m, id, x),
            s,
        ),
{
    assert(!s.external());
    if exists|v: Variable| #[trigger] m.var_data.contains_key(v) && m.var_data[v].symbol == s {
        let v = choose|v: Variable| #[trigger]
            m.var_data.contains_key(v) && m.var_data[v].symbol == s;
        assert(m.var_data[v].symbol.external());
    }
    let k = choose|k: ConstraintId| #[trigger]
        m.constraints.contains_key(k) && uses(m.constraints[k].tag, s);
    assert(m.constraints.contains_key(k) && uses(m.constraints[k].tag, s));
    assert(k == id);
}

proof fn lemma_filled_terms(m: SolverModel, x: Values, terms: Seq<Term>)
    requires
        m.sound(),
        known(m, terms),
        plain(terms),
    ensures
        total(pairs(m, terms), filled(m, x)) == sum_of(terms, x),
    decreases terms.len(),
{
    if terms.len() > 0 {
        let rest = terms.drop_last();
        let last = terms[terms.len() - 1];
        assert forall|i: int| 0 <= i < rest.len() implies rest[i] == terms[i] by {}
        assert(known(m, rest)) by {
            assert forall|i: int|
                0 <= i < rest.len() && !(#[trigger] rest[i]).coefficient.negligible() implies
                m.var_data.contains_key(rest[i].variable) by {
                assert(rest[i] == terms[i]);
            }
        }
        assert(plain(rest)) by {
            assert forall|i: int|
                0 <= i < rest.len() && (#[trigger] rest[i]).coefficient.negligible() implies worth(
                rest[i].coefficient,
            ) == 0 as real by {
                assert(rest[i] == terms[i]);
            }
        }
        lemma_filled_terms(m, x, rest);
        if last.coefficient.negligible() {
            assert(worth(terms[terms.len() - 1].coefficient) == 0 as real);
            lemma_plain_product(x(last.variable));
        } else {
            assert(m.var_data.contains_key(terms[terms.len() - 1].variable));
            lemma_filled_variable(m, x, last.variable);
            assert(pairs(m, terms).drop_last() =~= pairs(m, rest));
        }
    }
}

/// With values for the variables that meet what is required, there is a way to meet the equations
/// of all constraints.
proof fn lemma_filled_allowed(m: SolverModel, x: Values)
    requires
        faithful(m),
        acceptable(m, x),
    ensures
        allowed(filled(m, x), m),
{
    let a = filled(m, x);
    assert forall|id: ConstraintId| #[trigger] m.constraints.contains_key(id) implies balance(
        equation_of(m, id),
        a,
    ) == 0 as real by {
        assert(settled(m, id, shift_of(m, id)));
        let c = m.constraints[id].constraint;
        let tag = m.constraints[id].tag;
        let ps = pairs(m, c.terms);
        let first = ps.push((tag.marker, first_part(c)));
        lemma_filled_terms(m, x, c.terms);
        assert(first.drop_last() =~= ps);
        assert(uses(tag, tag.marker));
        lemma_filled_part(m, x, id, tag.marker);
        lemma_plain_product(a(tag.marker));
        assert(total(first, a) == sum_of(c.terms, x) + first_part(c) * a(tag.marker));
        let eq = equation_of(m, id);
        if let Some(other) = tag.other {
            assert(eq.terms == first.push((other, second_part(c))));
            assert(eq.terms.drop_last() =~= first);
            assert(uses(tag, other));
            lemma_filled_part(m, x, id, other);
            lemma_plain_product(a(other));
            assert(total(eq.terms, a) == total(first, a) + second_part(c) * a(other));
        } else {
            assert(eq.terms == first);
            assert(met_by(m, id, x));
        }
    }
    assert(models(a, m));
    assert forall|s: Symbol| #[trigger] live(m, s) && !s.external() implies a(s) >= 0 as real && (
    s.sort() is Dummy ==> a(s) == 0 as real) by {
        assert(!exists|v: Variable| #[trigger]
            m.var_data.contains_key(v) && m.var_data[v].symbol == s);
        let id = choose|id: ConstraintId| #[trigger]
            m.constraints.contains_key(id) && uses(m.constraints[id].tag, s);
        assert(m.constraints.contains_key(id) && uses(m.constraints[id].tag, s));
        assert(settled(m, id, shift_of(m, id)));
        lemma_filled_part(m, x, id, s);
        if s.sort() is Dummy {
            assert(met_by(m, id, x));
        }
    }
    assert forall|s: Symbol| #[trigger] live(m, s) && s.sort() is Dummy implies a(s)
        == 0 as real by {
        assert(!s.external());
    }
}

/// What the errors of a preference come to, times its strength.
pub open spec fn error_of(m: SolverModel, id: ConstraintId, f: Assignment) -> real {
    let c = m.constraints[id].constraint;
    let tag = m.constraints[id].tag;
    if !soft(c) {
        0 as real
    } else if c.operator is Equal {
        worth(c.strength.value) * f(tag.other->0) + worth(c.strength.value) * f(tag.marker)
    } else {
        worth(c.strength.value) * f(tag.other->0)
    }
}

/// What the errors of all preferences come to, each weighed by its strength.
pub open spec fn errors_of(m: SolverModel, ids: Seq<ConstraintId>, f: Assignment) -> real
    decreases ids.len(),
{
    if ids.len() == 0 {
        0 as real
    } else {
        errors_of(m, ids.drop_last(), f) + error_of(m, ids.last(), f)
    }
}

proof fn lemma_total_without(costs: Seq<(Symbol, real)>, i: int, f: Assignment)
    requires
        0 <= i < costs.len(),
    ensures
        total(costs, f) == total(costs.remove(i), f) + costs[i].1 * f(costs[i].0),
    decreases costs.len(),
{
    let last = costs.len() - 1;
    if i == last {
        assert(costs.remove(i) =~= costs.drop_last());
    } else {
        lemma_total_without(costs.drop_last(), i, f);
        assert(costs.remove(i).drop_last() =~= costs.drop_last().remove(i));
        assert(costs.remove(i).last() == costs.last());
    }
}

/// Whether costs are those that some constraints charge, each once.
pub open spec fn costs_of(
    m: SolverModel,
    ids: Seq<ConstraintId>,
    costs: Seq<(Symbol, real)>,
) -> bool {
    &&& forall|i: int, j: int|
        0 <= i < j < costs.len() ==> (#[trigger] costs[i]).0 != (#[trigger] costs[j]).0
    &&& forall|cost: (Symbol, real)| #[trigger] costs.contains(cost) <==> charged_among(m, ids, cost)
}

/// Whether one of some constraints charges a cost.
pub open spec fn charged_among(
    m: SolverModel,
    ids: Seq<ConstraintId>,
    cost: (Symbol, real),
) -> bool {
    exists|i: int|
        0 <= i < ids.len() && charges(
            m.constraints[#[trigger] ids[i]].constraint,
            m.constraints[ids[i]].tag,
            cost,
        )
}

/// One cost less.
proof fn lemma_cost_taken(costs: Seq<(Symbol, real)>, cost: (Symbol, real), f: Assignment) -> (rest:
    Seq<(Symbol, real)>)
    requires
        costs.contains(cost),
        forall|i: int, j: int|
            0 <= i < j < costs.len() ==> (#[trigger] costs[i]).0 != (#[trigger] costs[j]).0,
    ensures
        total(costs, f) == total(rest, f) + cost.1 * f(cost.0),
        forall|i: int, j: int|
            0 <= i < j < rest.len() ==> (#[trigger] rest[i]).0 != (#[trigger] rest[j]).0,
        forall|c: (Symbol, real)| #[trigger]
            rest.contains(c) <==> costs.contains(c) && c.0 != cost.0,
{
    let k = choose|k: int| 0 <= k < costs.len() && costs[k] == cost;
    let rest = costs.remove(k);
    lemma_total_without(costs, k, f);
    assert forall|i: int, j: int| 0 <= i < j < rest.len() implies (#[trigger] rest[i]).0 != (
    #[trigger] rest[j]).0 by {
        let p = if i < k { i } else { i + 1 };
        let q = if j < k { j } else { j + 1 };
        assert(rest[i] == costs[p] && rest[j] == costs[q]);
    }
    assert forall|c: (Symbol, real)| #[trigger] rest.contains(c) implies costs.contains(c) && c.0
        != cost.0 by {
        let i = choose|i: int| 0 <= i < rest.len() && rest[i] == c;
        let p = if i < k { i } else { i + 1 };
        assert(rest[i] == costs[p]);
        if p < k {
            assert(costs[p].0 != costs[k].0);
        } else {
            assert(costs[k].0 != costs[p].0);
        }
    }
    assert forall|c: (Symbol, real)| costs.contains(c) && c.0 != cost.0 implies #[trigger]
        rest.contains(c) by {
        let i = choose|i: int| 0 <= i < costs.len() && costs[i] == c;
        if i < k {
            assert(rest[i] == c);
        } else {
            assert(rest[i - 1] == c);
        }
    }
    rest
}

/// The costs come to what the errors of the preferences come to.
proof fn lemma_costs_are_errors(
    m: SolverModel,
    ids: Seq<ConstraintId>,
    costs: Seq<(Symbol, real)>,
    f: Assignment,
)
    requires
        apart(m),
        ids.no_duplicates(),
        forall|i: int|
            0 <= i < ids.len() ==> m.constraints.contains_key(#[trigger] ids[i]) && shaped(
                m.constraints[ids[i]].constraint,
                m.constraints[ids[i]].tag,
            ),
        costs_of(m, ids, costs),
    ensures
        total(costs, f) == errors_of(m, ids, f),
    decreases ids.len(),
{
    if ids.len() == 0 {
        if costs.len() > 0 {
            assert(costs.contains(costs[0]));
            assert(charged_among(m, ids, costs[0]));
        }
    } else {
        let ids1 = ids.drop_last();
        let n = ids.len() - 1;
        let id = ids[n];
        let c = m.constraints[id].constraint;
        let tag = m.constraints[id].tag;
        let w = worth(c.strength.value);
        assert forall|i: int| 0 <= i < ids1.len() implies m.constraints.contains_key(
            #[trigger] ids1[i],
        ) && shaped(m.constraints[ids1[i]].constraint, m.constraints[ids1[i]].tag) by {
            assert(ids1[i] == ids[i]);
        }
        assert(ids1.no_duplicates());
        assert(m.constraints.contains_key(ids[n]));
        let rest = if !soft(c) {
            costs
        } else {
            let cost = (tag.other->0, w);
            assert(charges(m.constraints[ids[n]].constraint, m.constraints[ids[n]].tag, cost));
            assert(charged_among(m, ids, cost));
            let less = lemma_cost_taken(costs, cost, f);
            if c.operator is Equal {
                let more = (tag.marker, w);
                assert(charges(m.constraints[ids[n]].constraint, m.constraints[ids[n]].tag, more));
                assert(charged_among(m, ids, more));
                assert(less.contains(more));
                lemma_cost_taken(less, more, f)
            } else {
                less
            }
        };
        assert(costs_of(m, ids1, rest)) by {
            assert forall|cost: (Symbol, real)| #[trigger] rest.contains(cost) implies
                charged_among(m, ids1, cost) by {
                assert(costs.contains(cost));
                assert(charged_among(m, ids, cost));
                let i = choose|i: int|
                    0 <= i < ids.len() && charges(
                        m.constraints[#[trigger] ids[i]].constraint,
                        m.constraints[ids[i]].tag,
                        cost,
                    );
                assert(i != n);
                assert(ids1[i] == ids[i]);
            }
            assert forall|cost: (Symbol, real)| charged_among(m, ids1, cost) implies #[trigger]
                rest.contains(cost) by {
                let i = choose|i: int|
                    0 <= i < ids1.len() && charges(
                        m.constraints[#[trigger] ids1[i]].constraint,
                        m.constraints[ids1[i]].tag,
                        cost,
                    );
                assert(ids[i] == ids1[i]);
                assert(charged_among(m, ids, cost));
                assert(costs.contains(cost));
                assert(ids[i] != ids[n]);
                assert(uses(m.constraints[ids[i]].tag, cost.0));
                assert(!uses(tag, cost.0));
            }
        }
        lemma_costs_are_errors(m, ids1, rest, f);
    }
}

/// The costs of a faithful system are those that its constraints charge.
proof fn lemma_costs_of(m: SolverModel, ids: Seq<ConstraintId>, costs: Seq<(Symbol, real)>)
    requires
        costed(m, costs),
        lists_all(m, ids),
    ensures
        costs_of(m, ids, costs),
{
    assert forall|cost: (Symbol, real)| #[trigger] costs.contains(cost) implies charged_among(
        m,
        ids,
        cost,
    ) by {
        let j = choose|j: int| 0 <= j < costs.len() && costs[j] == cost;
        assert(charged_by_some(m, costs[j]));
        let k = choose|k: ConstraintId| #[trigger]
            m.constraints.contains_key(k) && charges(
                m.constraints[k].constraint,
                m.constraints[k].tag,
                cost,
            );
        assert(ids.contains(k));
        let i = choose|i: int| 0 <= i < ids.len() && ids[i] == k;
        assert(ids[i] == k);
    }
    assert forall|cost: (Symbol, real)| charged_among(m, ids, cost) implies #[trigger]
        costs.contains(cost) by {
        let i = choose|i: int|
            0 <= i < ids.len() && charges(
                m.constraints[#[trigger] ids[i]].constraint,
                m.constraints[ids[i]].tag,
                cost,
            );
        assert(ids.contains(ids[i]));
        assert(m.constraints.contains_key(ids[i]));
    }
}

proof fn lemma_weighed(w: real, p: real, q: real)
    requires
        w >= 0 as real,
        p <= q,
    ensures
        w * p <= w * q,
{
    lemma_spread(w, q, p);
    let d = q - p;
    assert(w * d >= 0 as real) by (nonlinear_arith)
        requires
            w >= 0 as real,
            d >= 0 as real,
    ;
}

/// Whether no strength is negative.
pub open spec fn weighed(m: SolverModel) -> bool {
    forall|id: ConstraintId| #[trigger]
        m.constraints.contains_key(id) && soft(m.constraints[id].constraint) ==> worth(
            m.constraints[id].constraint.strength.value,
        ) >= 0 as real
}

proof fn lemma_amount_of(m: SolverModel, terms: Seq<Term>)
    ensures
        amount(m, terms) == sum_of(terms, values_of(m)),
    decreases terms.len(),
{
    if terms.len() > 0 {
        lemma_amount_of(m, terms.drop_last());
    }
}

/// What the values that the solver has miss a preference by is at most its errors.
proof fn lemma_values_miss(z: Set<Number>, m: SolverModel, id: ConstraintId)
    requires
        exact(z),
        faithful(m),
        within(m.tableau, z),
        weighed(m),
        m.constraints.contains_key(id),
    ensures
        penalty(m, id, values_of(m)) <= error_of(m, id, |s: Symbol| level(m, s)),
{
    let c = m.constraints[id].constraint;
    let tag = m.constraints[id].tag;
    let r = result_of(m, id, values_of(m));
    let w = worth(c.strength.value);
    if soft(c) {
        assert(settled(m, id, shift_of(m, id)));
        law_errorless_is_met(z, m, id, shift_of(m, id));
        lemma_amount_of(m, c.terms);
        let p = level(m, tag.marker);
        let q = level(m, tag.other->0);
        lemma_level_positive(z, m, tag.marker);
        lemma_level_positive(z, m, tag.other->0);
        lemma_plain_product(p);
        lemma_plain_product(q);
        if c.operator is Equal {
            lemma_weighed(w, miss(c.operator, r), q + p);
            lemma_spread(w, q, p);
        } else {
            lemma_weighed(w, miss(c.operator, r), q);
        }
    }
}

proof fn lemma_level_positive(z: Set<Number>, m: SolverModel, s: Symbol)
    requires
        exact(z),
        within(m.tableau, z),
        feasible(m.tableau),
        !s.external(),
    ensures
        level(m, s) >= 0 as real,
{
    lemma_worth();
    if m.tableau.rows.contains_key(s) {
        assert(drawn(m.tableau.rows[s], z));
        assert(!m.tableau.rows[s].constant.below(zero()));
    }
}

/// What other values miss a preference by is what its errors come to.
proof fn lemma_filled_error(m: SolverModel, x: Values, id: ConstraintId)
    requires
        faithful(m),
        m.constraints.contains_key(id),
    ensures
        error_of(m, id, filled(m, x)) == penalty(m, id, x),
{
    let c = m.constraints[id].constraint;
    let tag = m.constraints[id].tag;
    if soft(c) {
        assert(settled(m, id, shift_of(m, id)));
        assert(uses(tag, tag.marker) && uses(tag, tag.other->0));
        lemma_filled_part(m, x, id, tag.marker);
        lemma_filled_part(m, x, id, tag.other->0);
        let r = result_of(m, id, x);
        lemma_spread(worth(c.strength.value), excess(r), excess(-r));
    }
}

proof fn lemma_sums(z: Set<Number>, m: SolverModel, ids: Seq<ConstraintId>, x: Values)
    requires
        exact(z),
        faithful(m),
        within(m.tableau, z),
        weighed(m),
        forall|i: int| 0 <= i < ids.len() ==> m.constraints.contains_key(#[trigger] ids[i]),
    ensures
        penalties(m, ids, values_of(m)) <= errors_of(m, ids, |s: Symbol| level(m, s)),
        errors_of(m, ids, filled(m, x)) == penalties(m, ids, x),
    decreases ids.len(),
{
    if ids.len() > 0 {
        let ids1 = ids.drop_last();
        assert forall|i: int| 0 <= i < ids1.len() implies m.constraints.contains_key(
            #[trigger] ids1[i],
        ) by {
            assert(ids1[i] == ids[i]);
        }
        lemma_sums(z, m, ids1, x);
        assert(m.constraints.contains_key(ids[ids.len() - 1]));
        lemma_values_miss(z, m, ids.last());
        lemma_filled_error(m, x, ids.last());
    }
}

/// Of all values that meet what is required, none miss the preferences by less than those that the
/// solver has, each preference weighed by its strength.
pub proof fn law_values_miss_least(
    z: Set<Number>,
    m: SolverModel,
    ids: Seq<ConstraintId>,
    x: Values,
)
    requires
        exact(z),
        faithful(m),
        within(m.tableau, z),
        weighed(m),
        lists_all(m, ids),
        acceptable(m, x),
    ensures
        penalties(m, ids, values_of(m)) <= penalties(m, ids, x),
{
    let costs = choose|costs: Seq<(Symbol, real)>| costed(m, costs);
    assert(costed(m, costs));
    let levels = |s: Symbol| level(m, s);
    lemma_filled_allowed(m, x);
    law_values_cost_least(z, m, costs, filled(m, x));
    lemma_costs_of(m, ids, costs);
    assert forall|i: int| 0 <= i < ids.len() implies m.constraints.contains_key(#[trigger] ids[i])
        && shaped(m.constraints[ids[i]].constraint, m.constraints[ids[i]].tag) by {
        assert(ids.contains(ids[i]));
        assert(settled(m, ids[i], shift_of(m, ids[i])));
    }
    lemma_costs_are_errors(m, ids, costs, levels);
    lemma_costs_are_errors(m, ids, costs, filled(m, x));
    lemma_sums(z, m, ids, x);
}

/// Only the constraint of an edit variable moves, and that is a preference.
pub proof fn lemma_required_stays(m: SolverModel, id: ConstraintId)
    requires
        faithful(m),
        !soft(m.constraints[id].constraint),
    ensures
        shift_of(m, id) == 0 as real,
{
    assert forall|v: Variable| #[trigger] m.edits.contains_key(v) implies m.edits[v].constraint_id
        != id by {
        assert(edit_settled(m, v));
    }
}

/// The values meet every required inequality, and every required equation whose own symbol is not
/// one that the tableau is solved for.
pub proof fn law_required_is_met(z: Set<Number>, m: SolverModel, id: ConstraintId)
    requires
        exact(z),
        faithful(m),
        within(m.tableau, z),
        m.constraints.contains_key(id),
        !soft(m.constraints[id].constraint),
    ensures
        !(m.constraints[id].constraint.operator is Equal) || !m.tableau.rows.contains_key(
            m.constraints[id].tag.marker,
        ) ==> met(m, m.constraints[id].constraint),
{
    lemma_worth();
    assert(settled(m, id, shift_of(m, id)));
    lemma_required_stays(m, id);
    law_errorless_is_met(z, m, id, 0 as real);
}

proof fn lemma_penalty_positive(m: SolverModel, id: ConstraintId, x: Values)
    requires
        weighed(m),
        m.constraints.contains_key(id),
    ensures
        penalty(m, id, x) >= 0 as real,
{
    let c = m.constraints[id].constraint;
    if soft(c) {
        let w = worth(c.strength.value);
        lemma_weighed(w, 0 as real, miss(c.operator, result_of(m, id, x)));
        lemma_plain_product(w);
    }
}

/// The penalties of two preferences are at most those of all.
proof fn lemma_penalties_of_two(m: SolverModel, ids: Seq<ConstraintId>, x: Values, j: int, k: int)
    requires
        weighed(m),
        forall|i: int| 0 <= i < ids.len() ==> m.constraints.contains_key(#[trigger] ids[i]),
        -1 <= j < k < ids.len(),
    ensures
        penalty(m, ids[k], x) <= penalties(m, ids, x),
        j >= 0 ==> penalty(m, ids[j], x) + penalty(m, ids[k], x) <= penalties(m, ids, x),
    decreases ids.len(),
{
    let ids1 = ids.drop_last();
    let n = ids.len() - 1;
    assert forall|i: int| 0 <= i < ids1.len() implies m.constraints.contains_key(
        #[trigger] ids1[i],
    ) by {
        assert(ids1[i] == ids[i]);
    }
    assert(m.constraints.contains_key(ids[n]));
    lemma_penalty_positive(m, ids[n], x);
    lemma_penalties_positive(m, ids1, x);
    if k < n {
        lemma_penalties_of_two(m, ids1, x, j, k);
        assert(ids1[k] == ids[k]);
        assert(j >= 0 ==> ids1[j] == ids[j]);
    } else if j >= 0 {
        lemma_penalties_of_two(m, ids1, x, -1, j);
        assert(ids1[j] == ids[j]);
    }
}

proof fn lemma_penalties_positive(m: SolverModel, ids: Seq<ConstraintId>, x: Values)
    requires
        weighed(m),
        forall|i: int| 0 <= i < ids.len() ==> m.constraints.contains_key(#[trigger] ids[i]),
    ensures
        penalties(m, ids, x) >= 0 as real,
    decreases ids.len(),
{
    if ids.len() > 0 {
        let ids1 = ids.drop_last();
        assert forall|i: int| 0 <= i < ids1.len() implies m.constraints.contains_key(
            #[trigger] ids1[i],
        ) by {
            assert(ids1[i] == ids[i]);
        }
        assert(m.constraints.contains_key(ids[ids.len() - 1]));
        lemma_penalty_positive(m, ids.last(), x);
        lemma_penalties_positive(m, ids1, x);
    }
}

/// Where one preference at most is missed, the penalties are its own.
proof fn lemma_penalties_of_one(m: SolverModel, ids: Seq<ConstraintId>, x: Values, j: ConstraintId)
    requires
        ids.no_duplicates(),
        forall|i: int| 0 <= i < ids.len() && #[trigger] ids[i] != j ==> met_by(m, ids[i], x),
    ensures
        penalties(m, ids, x) == if ids.contains(j) {
            penalty(m, j, x)
        } else {
            0 as real
        },
    decreases ids.len(),
{
    if ids.len() > 0 {
        let ids1 = ids.drop_last();
        let n = ids.len() - 1;
        assert forall|i: int| 0 <= i < ids1.len() && #[trigger] ids1[i] != j implies met_by(
            m,
            ids1[i],
            x,
        ) by {
            assert(ids1[i] == ids[i]);
        }
        lemma_penalties_of_one(m, ids1, x, j);
        if ids[n] == j {
            assert(ids.contains(j));
            assert(!ids1.contains(j)) by {
                if ids1.contains(j) {
                    let i = choose|i: int| 0 <= i < ids1.len() && ids1[i] == j;
                    assert(ids[i] == ids[n]);
                }
            }
        } else {
            assert(met_by(m, ids[n], x));
            lemma_plain_product(worth(m.constraints[ids[n]].constraint.strength.value));
            assert(ids.contains(j) == ids1.contains(j)) by {
                if ids.contains(j) {
                    let i = choose|i: int| 0 <= i < ids.len() && ids[i] == j;
                    assert(ids1[i] == j);
                }
                if ids1.contains(j) {
                    let i = choose|i: int| 0 <= i < ids1.len() && ids1[i] == j;
                    assert(ids[i] == j);
                }
            }
        }
    }
}

/// A preference without a penalty is met.
proof fn lemma_no_penalty(m: SolverModel, id: ConstraintId, x: Values)
    requires
        soft(m.constraints[id].constraint),
        worth(m.constraints[id].constraint.strength.value) > 0 as real,
        penalty(m, id, x) <= 0 as real,
    ensures
        met_by(m, id, x),
{
    let c = m.constraints[id].constraint;
    let w = worth(c.strength.value);
    let d = miss(c.operator, result_of(m, id, x));
    assert(d <= 0 as real) by (nonlinear_arith)
        requires
            w > 0 as real,
            w * d <= 0 as real,
    ;
}

/// Where nothing stands against a preference, it is met: if some values meet all constraints, each
/// edit variable at the value that was suggested last, so do those that the solver has. Each edit
/// variable then has the value that was suggested last.
pub proof fn law_all_is_met_where_possible(z: Set<Number>, m: SolverModel, x: Values)
    requires
        exact(z),
        faithful(m),
        within(m.tableau, z),
        forall|id: ConstraintId| #[trigger]
            m.constraints.contains_key(id) && soft(m.constraints[id].constraint) ==> worth(
                m.constraints[id].constraint.strength.value,
            ) > 0 as real,
        forall|id: ConstraintId| #[trigger] m.constraints.contains_key(id) ==> met_by(m, id, x),
    ensures
        forall|id: ConstraintId| #[trigger]
            m.constraints.contains_key(id) && soft(m.constraints[id].constraint) ==> as_asked(
                m.constraints[id].constraint.operator,
                outcome_of(m, m.constraints[id].constraint) - shift_of(m, id),
            ),
        forall|v: Variable| #[trigger]
            m.edits.contains_key(v) ==> worth(m.value_of(v)) == worth(m.edits[v].constant),
{
    lemma_worth();
    let ids = choose|ids: Seq<ConstraintId>| counts(m, ids);
    assert(counts(m, ids));
    let y = values_of(m);
    law_values_miss_least(z, m, ids, x);
    assert forall|i: int| 0 <= i < ids.len() implies m.constraints.contains_key(
        #[trigger] ids[i],
    ) by {
        assert(ids.contains(ids[i]));
    }
    if ids.len() > 0 {
        lemma_penalties_of_one(m, ids, x, ids[0]);
        assert(met_by(m, ids[0], x));
        lemma_plain_product(worth(m.constraints[ids[0]].constraint.strength.value));
    }
    assert forall|id: ConstraintId| #[trigger]
        m.constraints.contains_key(id) && soft(m.constraints[id].constraint) implies as_asked(
        m.constraints[id].constraint.operator,
        outcome_of(m, m.constraints[id].constraint) - shift_of(m, id),
    ) by {
        assert(ids.contains(id));
        let k = choose|k: int| 0 <= k < ids.len() && ids[k] == id;
        lemma_penalties_of_two(m, ids, y, -1, k);
        lemma_no_penalty(m, id, y);
        lemma_amount_of(m, m.constraints[id].constraint.terms);
    }
    assert forall|v: Variable| #[trigger] m.edits.contains_key(v) implies worth(m.value_of(v))
        == worth(m.edits[v].constant) by {
        assert(edit_settled(m, v));
        let c = m.constraints[m.edits[v].constraint_id].constraint;
        assert(m.constraints.contains_key(m.edits[v].constraint_id));
        lemma_shift_of(m, v);
        assert(c.terms.drop_last() =~= Seq::<Term>::empty());
        assert(amount(m, c.terms.drop_last()) == 0 as real);
        lemma_plain_product(worth(m.value_of(v)));
    }
}

/// Of two preferences on the same terms the stronger is met: if some values meet all constraints
/// but the weaker one, and the stronger one just so, the values that the solver has meet the
/// stronger one.
pub proof fn law_stronger_is_met(
    z: Set<Number>,
    m: SolverModel,
    weaker: ConstraintId,
    stronger: ConstraintId,
    x: Values,
)
    requires
        exact(z),
        faithful(m),
        within(m.tableau, z),
        weighed(m),
        m.constraints.contains_key(weaker),
        m.constraints.contains_key(stronger),
        soft(m.constraints[weaker].constraint),
        soft(m.constraints[stronger].constraint),
        m.constraints[weaker].constraint.terms == m.constraints[stronger].constraint.terms,
        worth(m.constraints[weaker].constraint.strength.value) < worth(
            m.constraints[stronger].constraint.strength.value,
        ),
        forall|id: ConstraintId| #[trigger]
            m.constraints.contains_key(id) && id != weaker ==> met_by(m, id, x),
        result_of(m, stronger, x) == 0 as real,
    ensures
        as_asked(
            m.constraints[stronger].constraint.operator,
            outcome_of(m, m.constraints[stronger].constraint) - shift_of(m, stronger),
        ),
{
    let ids = choose|ids: Seq<ConstraintId>| counts(m, ids);
    assert(counts(m, ids));
    let y = values_of(m);
    let c = m.constraints[stronger].constraint;
    let b = m.constraints[weaker].constraint;
    law_values_miss_least(z, m, ids, x);
    assert forall|i: int| 0 <= i < ids.len() implies m.constraints.contains_key(
        #[trigger] ids[i],
    ) by {
        assert(ids.contains(ids[i]));
    }
    lemma_penalties_of_one(m, ids, x, weaker);
    assert(ids.contains(weaker) && ids.contains(stronger));
    let j = choose|j: int| 0 <= j < ids.len() && ids[j] == weaker;
    let k = choose|k: int| 0 <= k < ids.len() && ids[k] == stronger;
    if j < k {
        lemma_penalties_of_two(m, ids, y, j, k);
    } else {
        lemma_penalties_of_two(m, ids, y, k, j);
    }
    let p = miss(b.operator, result_of(m, weaker, x));
    let q = miss(b.operator, result_of(m, weaker, y));
    let r = miss(c.operator, result_of(m, stronger, y));
    let w = worth(b.strength.value);
    let v = worth(c.strength.value);
    assert(w * q + v * r <= w * p);
    if r > 0 as real {
        let t = result_of(m, stronger, y);
        assert(result_of(m, weaker, y) - result_of(m, weaker, x) == t);
        assert(p - q <= r);
        lemma_weighed(w, p, q + r);
        lemma_spread(w, q, r);
        lemma_spread(r, v, w);
        let d = v - w;
        assert(d * r > 0 as real) by (nonlinear_arith)
            requires
                d > 0 as real,
                r > 0 as real,
        ;
    }
    lemma_amount_of(m, c.terms);
}

} // verus!
