//! The least cost: no way to meet the constraints costs less than the values that the solver has.
use crate::choice::lemma_smallest_is_member;
use crate::conduct::{
    apart, charged_by_some, charges, costed, edit_settled, lemma_added_as_settles,
    lemma_equation_symbols, lemma_index, lemma_removed_says, lemma_shifts_say, level,
    removal_within, settled, shifts_within, steady, suggested_for, uses,
};
use crate::constraint::ConstraintModel;
use crate::editing::{lemma_edited_satisfies, lemma_edited_shares};
use crate::equations::{
    inner, keeps, lemma_same_satisfies, lemma_some_smallest, mentions, mix, orderly, residue,
    share, spans, within, Equation,
};
use crate::exact::{
    adds_up, at, exact, lemma_plain_product, lemma_regroup, lemma_spread, lemma_worth, worth,
};
use crate::expression::{Term, Variable};
use crate::fetch_laws::lemma_added_as_keeps;
use crate::intake::{
    left_of, lemma_coupled_elsewhere, lemma_entry_free, lemma_intake_free, lemma_mix_nothing,
    lemma_same_spans, paired, row_couples, row_spans,
};
use crate::meaning::{
    addition_within, charged, equation, first_part, known, lemma_added_as_says, lemma_created,
    lemma_pairs_below, lemma_same_pairs, pairs, second_part,
};
use crate::number::Number;
use crate::removal::{absent, lemma_surrendered_free};
use crate::row::RowModel;
use crate::simplex::{TableauModel, Tag};
use crate::solutions::{
    comes_to, coupled, lemma_tally_linear, lemma_tally_same, lemma_tally_single, lemma_total, nth,
    row_comes_to, satisfies, tally, total, Assignment,
};
use crate::soundness::lemma_added_as_leads;
use crate::symbol::{symbol, Symbol, SymbolKind};
use crate::system::{entry_symbol, lemma_added_as_frame, soft, ConstraintId, EditInfo, SolverModel};
use vstd::prelude::*;

verus! {

/// By how much the constant of a constraint has moved: that of an edit variable moves to the value
/// that was suggested last.
pub open spec fn shift_of(m: SolverModel, id: ConstraintId) -> real {
    shift_among(m.edits, id)
}

/// By how much the constant of a constraint has moved, given the edit variables.
pub open spec fn shift_among(edits: Map<Variable, EditInfo>, id: ConstraintId) -> real {
    if exists|v: Variable| #[trigger] edits.contains_key(v) && edits[v].constraint_id == id {
        let v = choose|v: Variable| #[trigger]
            edits.contains_key(v) && edits[v].constraint_id == id;
        worth(edits[v].constant)
    } else {
        0 as real
    }
}

/// Whether the constraints of all edit variables are in the system.
pub open spec fn edits_bound(m: SolverModel) -> bool {
    forall|v: Variable| #[trigger]
        m.edits.contains_key(v) ==> m.constraints.contains_key(m.edits[v].constraint_id)
}

/// Whether every constraint follows from the tableau.
pub open spec fn all_settled(m: SolverModel) -> bool {
    forall|id: ConstraintId| #[trigger]
        m.constraints.contains_key(id) ==> settled(m, id, shift_of(m, id))
}

/// The equation of the constraint with a handle.
pub open spec fn equation_of(m: SolverModel, id: ConstraintId) -> Equation {
    equation(m, m.constraints[id].constraint, m.constraints[id].tag, shift_of(m, id))
}

/// What is left when the symbols of an equation have the given values.
pub open spec fn balance(eq: Equation, a: Assignment) -> real {
    total(eq.terms, a) + eq.constant
}

/// Whether values for the symbols satisfy the equations of all constraints.
pub open spec fn models(a: Assignment, m: SolverModel) -> bool {
    forall|id: ConstraintId| #[trigger]
        m.constraints.contains_key(id) ==> balance(equation_of(m, id), a) == 0 as real
}

/// Whether a symbol stands for a variable or belongs to a constraint.
pub open spec fn live(m: SolverModel, s: Symbol) -> bool {
    ||| exists|v: Variable| #[trigger] m.var_data.contains_key(v) && m.var_data[v].symbol == s
    ||| exists|id: ConstraintId| #[trigger]
        m.constraints.contains_key(id) && uses(m.constraints[id].tag, s)
}

/// How many symbols there are.
pub open spec fn extent(m: SolverModel) -> nat {
    4 * m.id_tick
}

/// Whether some values satisfy the tableau, are others wherever a symbol is of any use, and are
/// zero for restricted symbols that are not.
pub open spec fn stands_in(b: Assignment, a: Assignment, m: SolverModel) -> bool {
    &&& forall|s: Symbol| #[trigger] live(m, s) ==> b(s) == a(s)
    &&& forall|s: Symbol| !s.external() && !(#[trigger] live(m, s)) ==> b(s) == 0 as real
    &&& satisfies(b, m.tableau, extent(m))
}

/// Whether the tableau says nothing but what the constraints say: all that satisfies their
/// equations satisfies it.
pub open spec fn complete(m: SolverModel) -> bool {
    forall|a: Assignment| #[trigger]
        models(a, m) ==> exists|b: Assignment| stands_in(b, a, m)
}

/// Whether a way to meet the constraints is allowed: no slack and no error is negative, and no
/// required equation is missed.
pub open spec fn allowed(a: Assignment, m: SolverModel) -> bool {
    &&& models(a, m)
    &&& forall|s: Symbol| #[trigger] live(m, s) && !s.external() ==> a(s) >= 0 as real
    &&& forall|s: Symbol| #[trigger] live(m, s) && s.sort() is Dummy ==> a(s) == 0 as real
}

proof fn lemma_total_levels(m: SolverModel, terms: Seq<(Symbol, real)>)
    ensures
        total(terms, |s: Symbol| level(m, s)) == mix(m.tableau, terms, None),
    decreases terms.len(),
{
    lemma_worth();
    if terms.len() > 0 {
        lemma_total_levels(m, terms.drop_last());
    }
}

proof fn lemma_total_agrees(terms: Seq<(Symbol, real)>, a: Assignment, b: Assignment)
    requires
        forall|i: int| 0 <= i < terms.len() ==> b((#[trigger] terms[i]).0) == a(terms[i].0),
    ensures
        total(terms, b) == total(terms, a),
    decreases terms.len(),
{
    if terms.len() > 0 {
        let rest = terms.drop_last();
        assert forall|i: int| 0 <= i < rest.len() implies b((#[trigger] rest[i]).0) == a(
            rest[i].0,
        ) by {
            assert(rest[i] == terms[i]);
        }
        lemma_total_agrees(rest, a, b);
        assert(b(terms[terms.len() - 1].0) == a(terms[terms.len() - 1].0));
    }
}

proof fn lemma_tally_positive(f: spec_fn(Symbol) -> real, n: nat)
    requires
        forall|i: nat| i < n ==> f(#[trigger] nth(i)) >= 0 as real,
    ensures
        tally(f, n) >= 0 as real,
    decreases n,
{
    if n > 0 {
        lemma_tally_positive(f, (n - 1) as nat);
        assert(f(nth((n - 1) as nat)) >= 0 as real);
    }
}

proof fn lemma_both_positive(a: real, b: real)
    requires
        a >= 0 as real,
        b >= 0 as real,
    ensures
        a * b >= 0 as real,
{
    assert(a * b >= 0 as real) by (nonlinear_arith)
        requires
            a >= 0 as real,
            b >= 0 as real,
    ;
}

/// The values that the solver has cost least: every other way to meet the constraints, with
/// slacks and errors that are not negative, costs at least as much. The cost is the sum of the
/// errors of the preferences, each times its strength.
pub proof fn law_values_cost_least(
    z: Set<Number>,
    m: SolverModel,
    costs: Seq<(Symbol, real)>,
    a: Assignment,
)
    requires
        exact(z),
        m.sound(),
        steady(m),
        within(m.tableau, z),
        costed(m, costs),
        complete(m),
        allowed(a, m),
        extent(m) <= u64::MAX,
    ensures
        total(costs, |s: Symbol| level(m, s)) <= total(costs, a),
{
    lemma_worth();
    let n = extent(m);
    let t = m.tableau;
    let b = choose|b: Assignment| stands_in(b, a, m);
    assert(stands_in(b, a, m));
    assert forall|i: int| 0 <= i < costs.len() implies b((#[trigger] costs[i]).0) == a(costs[i].0)
        && costs[i].0.raw < n by {
        assert(charged_by_some(m, costs[i]));
        let id = choose|id: ConstraintId| #[trigger]
            m.constraints.contains_key(id) && charges(
                m.constraints[id].constraint,
                m.constraints[id].tag,
                costs[i],
            );
        assert(m.constraints.contains_key(id) && uses(m.constraints[id].tag, costs[i].0));
        assert(live(m, costs[i].0));
        assert(costs[i].0.id() < m.id_tick);
    }
    lemma_total_agrees(costs, a, b);
    lemma_total(t, costs, b, n);
    lemma_total_levels(m, costs);
    let f = |s: Symbol| mix(t, costs, Some(s)) * b(s);
    assert forall|i: nat| i < n implies f(#[trigger] nth(i)) >= 0 as real by {
        let s = nth(i);
        let o = at(t.objective, Some(s));
        assert(o == mix(t, costs, Some(s)));
        lemma_plain_product(b(s));
        lemma_plain_product(o);
        if s.external() {
            assert(o == 0 as real);
        } else if s.sort() is Dummy {
            assert(b(s) == 0 as real) by {
                if live(m, s) {
                    assert(a(s) == 0 as real);
                }
            }
        } else {
            assert(b(s) >= 0 as real) by {
                if live(m, s) {
                    assert(a(s) >= 0 as real);
                }
            }
            assert(o >= 0 as real) by {
                if t.objective.cells.contains_key(s) {
                    assert(z.contains(t.objective.cells[s]));
                }
            }
            lemma_both_positive(o, b(s));
        }
    }
    lemma_tally_positive(f, n);
}

proof fn lemma_tally_wider(f: spec_fn(Symbol) -> real, n: nat, w: nat)
    requires
        n <= w,
        forall|i: nat| n <= i < w ==> f(#[trigger] nth(i)) == 0 as real,
    ensures
        tally(f, w) == tally(f, n),
    decreases w,
{
    if n < w {
        lemma_tally_wider(f, n, (w - 1) as nat);
        assert(f(nth((w - 1) as nat)) == 0 as real);
    }
}

/// Solutions stay solutions when symbols that are in no row get values.
proof fn lemma_wider(t: TableauModel, a: Assignment, b: Assignment, n: nat, w: nat)
    requires
        satisfies(a, t, n),
        spans(t, n),
        n <= w <= u64::MAX,
        forall|s: Symbol| s.raw < n ==> #[trigger] b(s) == a(s),
    ensures
        satisfies(b, t, w),
{
    lemma_worth();
    assert forall|k: Symbol| #[trigger] t.rows.contains_key(k) implies k.raw < w && b(k)
        == comes_to(t, k, b, w) by {
        let f = |s: Symbol| share(t, k, Some(s)) * a(s);
        let g = |s: Symbol| share(t, k, Some(s)) * b(s);
        assert forall|i: nat| n <= i < w implies g(#[trigger] nth(i)) == 0 as real by {
            assert(nth(i).raw == i);
            assert(!t.rows[k].cells.contains_key(nth(i)));
            lemma_plain_product(b(nth(i)));
        }
        lemma_tally_wider(g, n, w);
        assert forall|i: nat| i < n implies f(#[trigger] nth(i)) == g(nth(i)) by {
            assert(nth(i).raw == i);
            assert(b(nth(i)) == a(nth(i)));
        }
        lemma_tally_same(f, g, n);
    }
}

/// What is left of an equation comes to what the equation comes to.
proof fn lemma_balance(
    t: TableauModel,
    eq: Equation,
    row: RowModel,
    sign: real,
    b: Assignment,
    n: nat,
)
    requires
        left_of(t, eq, row, sign),
        satisfies(b, t, n),
        forall|i: int| 0 <= i < eq.terms.len() ==> (#[trigger] eq.terms[i]).0.raw < n,
    ensures
        balance(eq, b) == sign * row_comes_to(row, b, n),
{
    lemma_total(t, eq.terms, b, n);
    let h = |s: Symbol| mix(t, eq.terms, Some(s)) * b(s);
    let g = |s: Symbol| at(row, Some(s)) * b(s);
    let nothing = |s: Symbol| 0 as real;
    assert forall|i: nat| i < n implies h(#[trigger] nth(i)) == nothing(nth(i)) + sign * g(
        nth(i),
    ) by {
        assert(residue(t, eq, Some(nth(i))) == sign * at(row, Some(nth(i))));
        lemma_regroup(sign, at(row, Some(nth(i))), b(nth(i)));
    }
    lemma_tally_linear(nothing, g, h, sign, n);
    lemma_tally_single(nothing, nth(0), n);
    assert(residue(t, eq, None) == sign * at(row, None));
    lemma_spread(sign, at(row, None), tally(g, n));
}

/// The symbols of an equation are of use.
proof fn lemma_equation_live(m: SolverModel, id: ConstraintId, shift: real)
    requires
        m.sound(),
        settled(m, id, shift),
    ensures
        forall|i: int|
            0 <= i < equation(m, m.constraints[id].constraint, m.constraints[id].tag, shift).terms.len()
                ==> live(
                m,
                (#[trigger] equation(
                    m,
                    m.constraints[id].constraint,
                    m.constraints[id].tag,
                    shift,
                ).terms[i]).0,
            ) && equation(
                m,
                m.constraints[id].constraint,
                m.constraints[id].tag,
                shift,
            ).terms[i].0.raw < extent(m),
{
    let c = m.constraints[id].constraint;
    let tag = m.constraints[id].tag;
    let ts = equation(m, c, tag, shift).terms;
    let ps = pairs(m, c.terms);
    lemma_pairs_live(m, c.terms);
    assert(SolverModel::tag_below(tag, m.id_tick));
    assert forall|i: int| 0 <= i < ts.len() implies live(m, (#[trigger] ts[i]).0) && ts[i].0.raw
        < extent(m) by {
        if i < ps.len() {
            assert(ts[i] == ps[i]);
        } else {
            assert(m.constraints.contains_key(id) && uses(m.constraints[id].tag, ts[i].0));
        }
    }
}

proof fn lemma_pairs_live(m: SolverModel, terms: Seq<Term>)
    requires
        m.sound(),
        known(m, terms),
    ensures
        forall|i: int|
            0 <= i < pairs(m, terms).len() ==> live(m, (#[trigger] pairs(m, terms)[i]).0)
                && pairs(m, terms)[i].0.raw < extent(m),
    decreases terms.len(),
{
    if terms.len() > 0 {
        let rest = terms.drop_last();
        assert forall|i: int|
            0 <= i < rest.len() && !(#[trigger] rest[i]).coefficient.negligible() implies
            m.var_data.contains_key(rest[i].variable) by {
            assert(rest[i] == terms[i]);
        }
        lemma_pairs_live(m, rest);
        if !terms.last().coefficient.negligible() {
            let v = terms[terms.len() - 1].variable;
            assert(m.var_data.contains_key(v));
            assert(live(m, m.var_data[v].symbol));
            let ps = pairs(m, terms);
            assert forall|i: int| 0 <= i < ps.len() implies live(m, (#[trigger] ps[i]).0)
                && ps[i].0.raw < extent(m) by {
                if i < pairs(m, rest).len() {
                    assert(ps[i] == pairs(m, rest)[i]);
                }
            }
        }
    }
}

/// The symbols of a sound system are among the first ones.
pub proof fn lemma_spans(m: SolverModel)
    requires
        m.sound(),
    ensures
        spans(m.tableau, extent(m)),
{
    let t = m.tableau;
    assert forall|k: Symbol, s: Symbol|
        t.rows.contains_key(k) && #[trigger] t.rows[k].cells.contains_key(s) implies s.raw < extent(
        m,
    ) by {
        assert(TableauModel::row_below(t.rows[k], m.id_tick));
        assert(s.id() < m.id_tick);
    }
    assert forall|k: Symbol| #[trigger] t.rows.contains_key(k) implies k.raw < extent(m) by {
        assert(k.id() < m.id_tick);
    }
}

/// A symbol that is of use after an addition, and is not new, was of use before.
proof fn lemma_live_before(m: SolverModel, u: SolverModel, id: ConstraintId, s: Symbol)
    requires
        m.leads_to(u),
        live(u, s),
        s.id() < m.id_tick,
        forall|k: ConstraintId|
            k != id && #[trigger] u.constraints.contains_key(k) ==> m.constraints.contains_key(k)
                && u.constraints[k] == m.constraints[k],
        forall|x: Symbol| #[trigger] uses(u.constraints[id].tag, x) ==> x.id() >= m.id_tick,
    ensures
        live(m, s),
{
    if exists|v: Variable| #[trigger] u.var_data.contains_key(v) && u.var_data[v].symbol == s {
        let v = choose|v: Variable| #[trigger]
            u.var_data.contains_key(v) && u.var_data[v].symbol == s;
        assert(m.kept_in(u, v));
        assert(m.var_data.contains_key(v));
    } else {
        let k = choose|k: ConstraintId| #[trigger]
            u.constraints.contains_key(k) && uses(u.constraints[k].tag, s);
        assert(k != id);
        assert(m.constraints.contains_key(k) && uses(m.constraints[k].tag, s));
    }
}

/// A symbol that is of use before an addition is of use afterwards.
proof fn lemma_live_after(
    m: SolverModel,
    u: SolverModel,
    id: ConstraintId,
    c: ConstraintModel,
    s: Symbol,
)
    requires
        u == m.added_as(id, c).0,
        live(m, s),
        forall|k: ConstraintId| #[trigger]
            m.constraints.contains_key(k) ==> u.constraints.contains_key(k) && u.constraints[k]
                == m.constraints[k],
    ensures
        live(u, s),
{
    if exists|v: Variable| #[trigger] m.var_data.contains_key(v) && m.var_data[v].symbol == s {
        let v = choose|v: Variable| #[trigger]
            m.var_data.contains_key(v) && m.var_data[v].symbol == s;
        lemma_added_as_keeps(m, id, c, v);
        assert(u.var_data.contains_key(v));
    } else {
        let k = choose|k: ConstraintId| #[trigger]
            m.constraints.contains_key(k) && uses(m.constraints[k].tag, s);
        assert(u.constraints.contains_key(k) && uses(u.constraints[k].tag, s));
    }
}

/// A new row that is solved for nothing at once holds nothing external.
proof fn lemma_inner_row(row: RowModel, tag: Tag)
    requires
        entry_symbol(row, tag) is None,
    ensures
        inner(row),
{
    lemma_worth();
    let externals = Set::new(|x: Symbol| row.cells.contains_key(x) && x.external());
    assert forall|x: Symbol| x.external() implies #[trigger] at(row, Some(x)) == 0 as real by {
        if row.cells.contains_key(x) {
            assert(externals.contains(x));
            lemma_some_smallest(externals, x);
        }
    }
}

/// An addition that succeeds adds nothing but what the constraint says.
pub proof fn lemma_added_as_complete(
    z: Set<Number>,
    m: SolverModel,
    id: ConstraintId,
    c: ConstraintModel,
)
    requires
        exact(z),
        m.sound(),
        m.has_room(c.terms.len() + 3),
        id.number() < m.next_constraint_id,
        orderly(m.tableau),
        m.tableau.artificial is None,
        addition_within(m, c, z),
        m.added_as(id, c).1 is Ok,
        all_settled(m),
        edits_bound(m),
        complete(m),
        extent(m.added_as(id, c).0) <= u64::MAX,
    ensures
        complete(m.added_as(id, c).0),
{
    reveal(SolverModel::added_as);
    let u = m.added_as(id, c).0;
    lemma_added_as_settles(z, m, id, c);
    lemma_added_as_leads(m, id, c);
    lemma_added_as_frame(m, id, c);
    lemma_added_as_says(z, m, id, c);
    let sign = lemma_created(z, m, c);
    let (b1, row, tag) = m.created(c);
    let d = b1.placed(row, tag).0;
    let eq = equation(b1, c, tag, 0 as real);
    let art = symbol(b1.id_tick, SymbolKind::Slack);
    assert(art.id() == b1.id_tick && !art.external());
    assert(u.constraints[id].tag == tag);
    lemma_same_pairs(b1, u, c.terms);
    assert(equation(u, c, tag, 0 as real) == eq);
    assert(shift_of(u, id) == 0 as real) by {
        assert forall|v: Variable| #[trigger] u.edits.contains_key(v) implies
            u.edits[v].constraint_id != id by {
            assert(m.edits.contains_key(v));
            assert(!m.constraints.contains_key(id));
        }
    }
    let n = extent(u);
    assert(b1.id_tick <= u.id_tick && d.id_tick == u.id_tick);
    lemma_spans(m);
    assert(row_spans(row, n)) by {
        assert forall|s: Symbol| #[trigger] row.cells.contains_key(s) implies s.raw < n by {
            assert(s.id() < b1.id_tick);
        }
    }
    assert forall|a: Assignment| #[trigger] models(a, u) implies exists|b: Assignment|
        stands_in(b, a, u) by {
        assert(models(a, m)) by {
            assert forall|k: ConstraintId| #[trigger] m.constraints.contains_key(k) implies balance(
                equation_of(m, k),
                a,
            ) == 0 as real by {
                assert(k != id);
                assert(u.constraints.contains_key(k));
                assert(settled(m, k, shift_of(m, k)));
                let e = m.constraints[k].constraint;
                assert forall|i: int|
                    0 <= i < e.terms.len() && !(#[trigger] e.terms[i]).coefficient.negligible()
                    implies u.var_data[e.terms[i].variable].symbol
                    == m.var_data[e.terms[i].variable].symbol by {
                    lemma_added_as_keeps(m, id, c, e.terms[i].variable);
                }
                lemma_same_pairs(m, u, e.terms);
                assert(equation_of(m, k) == equation_of(u, k));
            }
        }
        let a0 = choose|b: Assignment| stands_in(b, a, m);
        assert(stands_in(a0, a, m));
        let b = |s: Symbol|
            if s.id() < m.id_tick {
                a0(s)
            } else if live(u, s) {
                a(s)
            } else {
                0 as real
            };
        assert forall|s: Symbol| s.raw < extent(m) implies #[trigger] b(s) == a0(s) by {}
        lemma_wider(m.tableau, a0, b, extent(m), n);
        assert forall|s: Symbol| #[trigger] live(u, s) implies b(s) == a(s) by {
            if s.id() < m.id_tick {
                lemma_live_before(m, u, id, s);
            }
        }
        assert forall|s: Symbol| !s.external() && !(#[trigger] live(u, s)) implies b(s)
            == 0 as real by {
            if s.id() < m.id_tick {
                if live(m, s) {
                    lemma_live_after(m, u, id, c, s);
                }
            }
        }
        lemma_same_satisfies(m.tableau, b1.tableau, b, n);
        lemma_equation_live(u, id, 0 as real);
        assert(balance(eq, b) == 0 as real) by {
            assert(u.constraints.contains_key(id));
            assert(balance(equation_of(u, id), a) == 0 as real);
            assert forall|i: int| 0 <= i < eq.terms.len() implies b((#[trigger] eq.terms[i]).0)
                == a(eq.terms[i].0) by {
                assert(live(u, eq.terms[i].0));
            }
            lemma_total_agrees(eq.terms, a, b);
        }
        lemma_balance(b1.tableau, eq, row, sign, b, n);
        let r = row_comes_to(row, b, n);
        assert(r == 0 as real) by {
            lemma_plain_product(r);
        }
        lemma_same_spans(m.tableau, b1.tableau, extent(m));
        assert(spans(b1.tableau, n)) by {
            assert forall|k: Symbol, s: Symbol|
                b1.tableau.rows.contains_key(k) && #[trigger] b1.tableau.rows[k].cells.contains_key(
                    s,
                ) implies s.raw < n by {}
        }
        assert(satisfies(b, d.tableau, n) && spans(d.tableau, n)) by {
            match entry_symbol(row, tag) {
                Some(s) => {
                    lemma_smallest_is_member(
                        Set::new(|x: Symbol| row.cells.contains_key(x) && x.external()),
                    );
                    assert(row.cells.contains_key(s));
                    assert(!b1.tableau.rows.contains_key(s));
                    lemma_entry_free(z, b1.tableau, row, s, tag.marker);
                },
                None => {
                    lemma_inner_row(row, tag);
                    lemma_intake_free(z, b1.tableau, row, art, b1.id_tick + 1);
                    assert(art.raw < n);
                    assert(b(art) == 0 as real) by {
                        assert(!live(u, art)) by {
                            assert forall|v: Variable| #[trigger] u.var_data.contains_key(
                                v,
                            ) implies u.var_data[v].symbol != art by {}
                            assert forall|k: ConstraintId| #[trigger] u.constraints.contains_key(
                                k,
                            ) implies !uses(u.constraints[k].tag, art) by {
                                if k != id {
                                    assert(m.constraints.contains_key(k));
                                    assert(SolverModel::tag_below(
                                        m.constraints[k].tag,
                                        m.id_tick,
                                    ));
                                }
                            }
                        }
                    }
                },
            }
        }
        assert(u.tableau == d.tableau.optimized(false).0);
        assert(keeps(d.tableau, u.tableau));
        assert(satisfies(b, u.tableau, n));
        assert(stands_in(b, a, u));
    }
}

/// Whether the two symbols of each preference go together.
pub open spec fn all_coupled(m: SolverModel) -> bool {
    forall|id: ConstraintId| #[trigger]
        m.constraints.contains_key(id) && soft(m.constraints[id].constraint) ==> coupled(
            m.tableau,
            m.constraints[id].tag,
            first_part(m.constraints[id].constraint),
            second_part(m.constraints[id].constraint),
        )
}

proof fn lemma_mix_couples(
    t: TableauModel,
    terms: Seq<(Symbol, real)>,
    tag: Tag,
    f: real,
    g: real,
)
    requires
        coupled(t, tag, f, g),
        paired(tag),
        forall|i: int| 0 <= i < terms.len() ==> !uses(tag, (#[trigger] terms[i]).0),
    ensures
        mix(t, terms, Some(tag.marker)) * g - mix(t, terms, Some(tag.other->0)) * f == 0 as real,
    decreases terms.len(),
{
    lemma_plain_product(f);
    lemma_plain_product(g);
    if terms.len() > 0 {
        let rest = terms.drop_last();
        assert forall|i: int| 0 <= i < rest.len() implies !uses(tag, (#[trigger] rest[i]).0) by {
            assert(rest[i] == terms[i]);
        }
        lemma_mix_couples(t, rest, tag, f, g);
        let (k, w) = terms[terms.len() - 1];
        assert(!uses(tag, k));
        let (x, y) = (share(t, k, Some(tag.marker)), share(t, k, Some(tag.other->0)));
        let (p, q) = (mix(t, rest, Some(tag.marker)), mix(t, rest, Some(tag.other->0)));
        assert(x * g - y * f == 0 as real);
        lemma_spread(g, p, w * x);
        lemma_spread(f, q, w * y);
        lemma_regroup(w, x, g);
        lemma_regroup(w, y, f);
        lemma_spread(w, x * g, y * f);
        lemma_plain_product(w);
    }
}

/// An addition that succeeds keeps together what goes together.
pub proof fn lemma_added_as_coupled(
    z: Set<Number>,
    m: SolverModel,
    id: ConstraintId,
    c: ConstraintModel,
)
    requires
        exact(z),
        m.sound(),
        m.has_room(c.terms.len() + 3),
        id.number() < m.next_constraint_id,
        orderly(m.tableau),
        m.tableau.artificial is None,
        addition_within(m, c, z),
        m.added_as(id, c).1 is Ok,
        all_settled(m),
        all_coupled(m),
    ensures
        all_coupled(m.added_as(id, c).0),
{
    reveal(SolverModel::added_as);
    lemma_worth();
    let u = m.added_as(id, c).0;
    lemma_added_as_leads(m, id, c);
    lemma_added_as_frame(m, id, c);
    lemma_added_as_says(z, m, id, c);
    let sign = lemma_created(z, m, c);
    let (b1, row, tag) = m.created(c);
    let d = b1.placed(row, tag).0;
    let eq = equation(b1, c, tag, 0 as real);
    let art = symbol(b1.id_tick, SymbolKind::Slack);
    assert(art.id() == b1.id_tick && !art.external());
    assert(u.constraints[id].tag == tag);
    let ps = pairs(b1, c.terms);
    lemma_pairs_below(b1, c.terms);
    match entry_symbol(row, tag) {
        Some(s) => {
            lemma_smallest_is_member(
                Set::new(|x: Symbol| row.cells.contains_key(x) && x.external()),
            );
            assert(row.cells.contains_key(s));
            assert(!b1.tableau.rows.contains_key(s));
            lemma_entry_free(z, b1.tableau, row, s, tag.marker);
        },
        None => {
            lemma_inner_row(row, tag);
            lemma_intake_free(z, b1.tableau, row, art, b1.id_tick + 1);
        },
    }
    assert(keeps(d.tableau, u.tableau));
    assert forall|k: ConstraintId| #[trigger]
        u.constraints.contains_key(k) && soft(u.constraints[k].constraint) implies coupled(
        u.tableau,
        u.constraints[k].tag,
        first_part(u.constraints[k].constraint),
        second_part(u.constraints[k].constraint),
    ) by {
        let e = u.constraints[k].constraint;
        let other = u.constraints[k].tag;
        let (f, g) = (first_part(e), second_part(e));
        let (x, y) = (at(row, Some(other.marker)), at(row, Some(other.other->0)));
        assert(residue(b1.tableau, eq, Some(other.marker)) == sign * x);
        assert(residue(b1.tableau, eq, Some(other.other->0)) == sign * y);
        lemma_regroup(sign, x, g);
        lemma_regroup(sign, y, f);
        lemma_spread(sign, x * g, y * f);
        lemma_plain_product(x * g - y * f);
        if k != id {
            assert(m.constraints.contains_key(k));
            assert(settled(m, k, shift_of(m, k)));
            assert(SolverModel::tag_below(other, m.id_tick));
            assert(coupled(m.tableau, other, f, g));
            lemma_plain_product(f);
            lemma_plain_product(g);
            lemma_coupled_elsewhere(m.tableau, b1.tableau, art, other, f, g);
            assert forall|i: int| 0 <= i < eq.terms.len() implies !uses(
                other,
                (#[trigger] eq.terms[i]).0,
            ) by {
                if i < ps.len() {
                    assert(eq.terms[i] == ps[i]);
                }
            }
            lemma_mix_couples(b1.tableau, eq.terms, other, f, g);
            assert(row_couples(row, other, f, g));
            assert(coupled(d.tableau, other, f, g));
        } else {
            let o = tag.other->0;
            assert forall|j: Symbol| #[trigger] b1.tableau.rows.contains_key(j) implies
                !b1.tableau.rows[j].cells.contains_key(tag.marker)
                && !b1.tableau.rows[j].cells.contains_key(o) && j != tag.marker && j != o by {
                assert(m.tableau.rows.contains_key(j));
                assert(TableauModel::row_below(m.tableau.rows[j], m.id_tick));
            }
            assert forall|j: Symbol| j != tag.marker implies #[trigger] share(
                b1.tableau,
                j,
                Some(tag.marker),
            ) == 0 as real by {}
            assert forall|j: Symbol| j != o implies #[trigger] share(b1.tableau, j, Some(o))
                == 0 as real by {}
            lemma_plain_product(f);
            lemma_plain_product(g);
            lemma_regroup(f, g, g);
            assert(coupled(b1.tableau, tag, f, g));
            assert forall|i: int| 0 <= i < ps.len() implies (#[trigger] ps[i]).0 != tag.marker
                && ps[i].0 != o by {}
            lemma_mix_nothing(b1.tableau, tag.marker, ps);
            lemma_mix_nothing(b1.tableau, o, ps);
            let first = ps.push((tag.marker, f));
            assert(first.drop_last() =~= ps);
            assert(eq.terms.drop_last() =~= first);
            assert(mix(b1.tableau, first, Some(tag.marker)) == f);
            assert(mix(b1.tableau, first, Some(o)) == 0 as real);
            assert(mix(b1.tableau, eq.terms, Some(tag.marker)) == f);
            assert(mix(b1.tableau, eq.terms, Some(o)) == g);
            assert(row_couples(row, tag, f, g));
            assert(coupled(d.tableau, tag, f, g));
        }
    }
}

/// An addition that succeeds adds what the constraint costs.
pub proof fn lemma_added_as_costed(
    z: Set<Number>,
    m: SolverModel,
    id: ConstraintId,
    c: ConstraintModel,
    costs: Seq<(Symbol, real)>,
)
    requires
        exact(z),
        m.sound(),
        m.has_room(c.terms.len() + 3),
        id.number() < m.next_constraint_id,
        orderly(m.tableau),
        m.tableau.artificial is None,
        addition_within(m, c, z),
        m.added_as(id, c).1 is Ok,
        costed(m, costs),
    ensures
        costed(
            m.added_as(id, c).0,
            charged(costs, c, m.added_as(id, c).0.constraints[id].tag),
        ),
{
    let u = m.added_as(id, c).0;
    lemma_added_as_leads(m, id, c);
    lemma_added_as_frame(m, id, c);
    lemma_added_as_says(z, m, id, c);
    let tag = u.constraints[id].tag;
    let all = charged(costs, c, tag);
    assert(SolverModel::tag_below(tag, u.id_tick));
    assert forall|i: int| 0 <= i < costs.len() implies all[i] == #[trigger] costs[i] by {}
    assert forall|i: int| 0 <= i < all.len() implies !(#[trigger] all[i]).0.external()
        && all[i].0.id() < u.id_tick && charged_by_some(u, all[i]) by {
        if i < costs.len() {
            assert(all[i] == costs[i]);
            assert(charged_by_some(m, costs[i]));
            let k = choose|k: ConstraintId| #[trigger]
                m.constraints.contains_key(k) && charges(
                    m.constraints[k].constraint,
                    m.constraints[k].tag,
                    costs[i],
                );
            assert(m.constraints.contains_key(k));
            assert(k != id) by {
                reveal(SolverModel::added_as);
            }
            assert(u.constraints.contains_key(k) && charges(
                u.constraints[k].constraint,
                u.constraints[k].tag,
                all[i],
            ));
        } else {
            assert(u.constraints.contains_key(id) && charges(c, tag, all[i]));
        }
    }
    assert forall|i: int, j: int| 0 <= i < j < all.len() implies (#[trigger] all[i]).0 != (
    #[trigger] all[j]).0 by {
        if j < costs.len() {
            assert(all[i] == costs[i] && all[j] == costs[j]);
        } else if i < costs.len() {
            assert(all[i] == costs[i]);
            assert(costs[i].0.id() < m.id_tick);
        }
    }
    assert forall|k: ConstraintId, cost: (Symbol, real)|
        u.constraints.contains_key(k) && #[trigger] charges(
            u.constraints[k].constraint,
            u.constraints[k].tag,
            cost,
        ) implies all.contains(cost) by {
        if k != id {
            assert(m.constraints.contains_key(k));
            assert(charges(m.constraints[k].constraint, m.constraints[k].tag, cost));
            let i = lemma_index(costs, cost);
            assert(all[i] == cost);
        } else {
            let w = worth(c.strength.value);
            if tag.other == Some(cost.0) {
                assert(all[all.len() - 1] == cost);
            } else {
                assert(all[all.len() - 2] == cost);
            }
        }
    }
}

/// Whether a system is another one without a constraint. The variables of what remains are kept,
/// and so are the constants of its constraints.
pub open spec fn bereft(m: SolverModel, u: SolverModel, id: ConstraintId) -> bool {
    &&& u.tableau == m.removed(id).0.tableau
    &&& u.constraints == m.constraints.remove(id)
    &&& u.id_tick == m.id_tick
    &&& u.sound()
    &&& forall|k: ConstraintId| #[trigger]
        u.constraints.contains_key(k) ==> shift_of(u, k) == shift_of(m, k)
    &&& forall|v: Variable| #[trigger] u.var_data.contains_key(v) ==> m.kept_in(u, v)
    &&& forall|k: ConstraintId, i: int|
        u.constraints.contains_key(k) && 0 <= i < u.constraints[k].constraint.terms.len()
            && !(#[trigger] u.constraints[k].constraint.terms[i]).coefficient.negligible()
            ==> m.kept_in(u, u.constraints[k].constraint.terms[i].variable)
}

proof fn lemma_bereft_equation(m: SolverModel, u: SolverModel, id: ConstraintId, k: ConstraintId)
    requires
        bereft(m, u, id),
        u.constraints.contains_key(k),
    ensures
        equation_of(u, k) == equation_of(m, k),
        u.constraints[k] == m.constraints[k],
{
    let c = m.constraints[k].constraint;
    assert forall|i: int|
        0 <= i < c.terms.len() && !(#[trigger] c.terms[i]).coefficient.negligible() implies
        u.var_data[c.terms[i].variable].symbol == m.var_data[c.terms[i].variable].symbol by {
        assert(u.constraints[k].constraint.terms[i] == c.terms[i]);
        assert(m.kept_in(u, u.constraints[k].constraint.terms[i].variable));
    }
    lemma_same_pairs(m, u, c.terms);
}

/// Symbols that are in no row can have any value.
proof fn lemma_absent_free(t: TableauModel, a: Assignment, b: Assignment, tag: Tag, n: nat)
    requires
        satisfies(a, t, n),
        absent(t, tag.marker),
        tag.other matches Some(o) ==> absent(t, o),
        forall|s: Symbol| !uses(tag, s) ==> #[trigger] b(s) == a(s),
    ensures
        satisfies(b, t, n),
{
    assert forall|k: Symbol| #[trigger] t.rows.contains_key(k) implies k.raw < n && b(k)
        == comes_to(t, k, b, n) by {
        let f = |s: Symbol| share(t, k, Some(s)) * a(s);
        let g = |s: Symbol| share(t, k, Some(s)) * b(s);
        assert forall|i: nat| i < n implies f(#[trigger] nth(i)) == g(nth(i)) by {
            let s = nth(i);
            if uses(tag, s) {
                assert(absent(t, s));
                assert(at(t.rows[k], Some(s)) == 0 as real);
                lemma_plain_product(a(s));
                lemma_plain_product(b(s));
            } else {
                assert(b(s) == a(s));
            }
        }
        lemma_tally_same(f, g, n);
        assert(!uses(tag, k));
        assert(b(k) == a(k));
    }
}

/// A removal that succeeds takes away what the constraint says, and nothing is left of it.
pub proof fn lemma_removed_complete(
    z: Set<Number>,
    m: SolverModel,
    id: ConstraintId,
    costs: Seq<(Symbol, real)>,
    u: SolverModel,
)
    requires
        exact(z),
        m.sound(),
        orderly(m.tableau),
        m.tableau.artificial is None,
        costed(m, costs),
        apart(m),
        removal_within(m, id, z),
        m.constraints.contains_key(id),
        all_settled(m),
        all_coupled(m),
        complete(m),
        m.removed(id).1 is Ok,
        bereft(m, u, id),
    ensures
        complete(u),
        all_coupled(u),
        exists|rest: Seq<(Symbol, real)>| costed(u, rest),
{
    let c = m.constraints[id].constraint;
    let tag = m.constraints[id].tag;
    let (f, g) = (first_part(c), second_part(c));
    let n = extent(m);
    assert(settled(m, id, shift_of(m, id)));
    let rest = lemma_removed_says(z, m, id, costs);
    let t1 = m.tableau.without_costs(tag, c.strength.value);
    let t2 = t1.without_marker(tag.marker)->0;
    assert(SolverModel::tag_below(tag, m.id_tick));
    lemma_surrendered_free(z, t1, tag.marker, m.id_tick);
    lemma_spans(m);
    lemma_same_spans(m.tableau, t1, n);
    assert forall|k: ConstraintId, f2: real, g2: real|
        m.constraints.contains_key(k) && soft(m.constraints[k].constraint) && #[trigger] coupled(
            m.tableau,
            m.constraints[k].tag,
            f2,
            g2,
        ) implies coupled(t1, m.constraints[k].tag, f2, g2) by {
        lemma_same_coupled(m.tableau, t1, m.constraints[k].tag, f2, g2);
    }
    if soft(c) {
        assert(coupled(m.tableau, tag, f, g));
        assert(coupled(t1, tag, f, g));
        assert(absent(t2, tag.other->0));
    }
    assert(complete(u)) by {
        assert forall|a: Assignment| #[trigger] models(a, u) implies exists|b: Assignment|
            stands_in(b, a, u) by {
            let eq = equation_of(m, id);
            let ps = pairs(m, c.terms);
            let base = total(ps, a) + eq.constant;
            let x = -(f * base);
            let a1 = |s: Symbol|
                if s == tag.marker {
                    x
                } else if tag.other == Some(s) {
                    0 as real
                } else {
                    a(s)
                };
            lemma_pairs_below(m, c.terms);
            assert(balance(eq, a1) == 0 as real) by {
                assert forall|i: int| 0 <= i < ps.len() implies a1((#[trigger] ps[i]).0) == a(
                    ps[i].0,
                ) by {}
                lemma_total_agrees(ps, a, a1);
                let first = ps.push((tag.marker, f));
                assert(first.drop_last() =~= ps);
                assert(total(first, a1) == total(ps, a1) + f * x);
                lemma_plain_product(g);
                if let Some(o) = tag.other {
                    assert(eq.terms.drop_last() =~= first);
                    assert(total(eq.terms, a1) == total(first, a1) + g * a1(o));
                }
                assert(f == 1 as real || f == -1 as real);
                lemma_plain_product(base);
                lemma_plain_product(x);
            }
            assert(models(a1, m)) by {
                assert forall|k: ConstraintId| #[trigger] m.constraints.contains_key(k) implies
                    balance(equation_of(m, k), a1) == 0 as real by {
                    if k != id {
                        assert(u.constraints.contains_key(k));
                        lemma_bereft_equation(m, u, id, k);
                        assert(settled(m, k, shift_of(m, k)));
                        let ek = equation_of(m, k);
                        assert forall|i: int| 0 <= i < ek.terms.len() implies a1(
                            (#[trigger] ek.terms[i]).0,
                        ) == a(ek.terms[i].0) by {
                            let s = ek.terms[i].0;
                            assert(mentions(ek.terms, s));
                            lemma_equation_symbols(m, k, shift_of(m, k), s);
                            if uses(tag, s) {
                                assert(uses(m.constraints[k].tag, s));
                            }
                        }
                        lemma_total_agrees(ek.terms, a, a1);
                        assert(balance(equation_of(u, k), a) == 0 as real);
                    }
                }
            }
            let b1 = choose|b: Assignment| stands_in(b, a1, m);
            assert(stands_in(b1, a1, m));
            let b = |s: Symbol|
                if uses(tag, s) {
                    0 as real
                } else {
                    b1(s)
                };
            lemma_same_satisfies(m.tableau, t1, b1, n);
            assert(satisfies(b1, t2, n));
            lemma_absent_free(t2, b1, b, tag, n);
            assert(spans(t2, n));
            assert(satisfies(b, u.tableau, n));
            assert forall|s: Symbol| #[trigger] live(u, s) implies b(s) == a(s) by {
                assert(live(m, s) && !uses(tag, s)) by {
                    lemma_live_left(m, u, id, s);
                }
                assert(b1(s) == a1(s));
            }
            assert forall|s: Symbol| !s.external() && !(#[trigger] live(u, s)) implies b(s)
                == 0 as real by {
                if !uses(tag, s) {
                    if live(m, s) {
                        if exists|v: Variable| #[trigger]
                            m.var_data.contains_key(v) && m.var_data[v].symbol == s {
                            let v = choose|v: Variable| #[trigger]
                                m.var_data.contains_key(v) && m.var_data[v].symbol == s;
                            assert(m.var_data[v].symbol.external());
                        } else {
                            let k = choose|k: ConstraintId| #[trigger]
                                m.constraints.contains_key(k) && uses(m.constraints[k].tag, s);
                            assert(u.constraints.contains_key(k) && uses(u.constraints[k].tag, s));
                        }
                    }
                }
            }
            assert(stands_in(b, a, u));
        }
    }
    assert forall|k: ConstraintId| #[trigger]
        u.constraints.contains_key(k) && soft(u.constraints[k].constraint) implies coupled(
        u.tableau,
        u.constraints[k].tag,
        first_part(u.constraints[k].constraint),
        second_part(u.constraints[k].constraint),
    ) by {
        let other = m.constraints[k].tag;
        assert(m.constraints.contains_key(k));
        assert(settled(m, k, shift_of(m, k)));
        let (f2, g2) = (
            first_part(m.constraints[k].constraint),
            second_part(m.constraints[k].constraint),
        );
        assert(coupled(m.tableau, other, f2, g2));
        assert(coupled(t1, other, f2, g2));
        assert(tag.marker != other.marker && other.other != Some(tag.marker)) by {
            assert(uses(tag, tag.marker));
            if uses(other, tag.marker) {
            }
        }
        assert(coupled(t2, other, f2, g2));
    }
    assert(costed(u, rest)) by {
        assert forall|i: int| 0 <= i < rest.len() implies !(#[trigger] rest[i]).0.external()
            && rest[i].0.id() < u.id_tick && charged_by_some(u, rest[i]) by {
            assert(rest.contains(rest[i]));
            let j = lemma_index(costs, rest[i]);
            assert(!costs[j].0.external() && costs[j].0.id() < m.id_tick);
            assert(charged_by_some(m, costs[j]));
            let k = choose|k: ConstraintId| #[trigger]
                m.constraints.contains_key(k) && charges(
                    m.constraints[k].constraint,
                    m.constraints[k].tag,
                    costs[j],
                );
            assert(k != id);
            assert(u.constraints.contains_key(k) && charges(
                u.constraints[k].constraint,
                u.constraints[k].tag,
                rest[i],
            ));
        }
        assert forall|k: ConstraintId, cost: (Symbol, real)|
            u.constraints.contains_key(k) && #[trigger] charges(
                u.constraints[k].constraint,
                u.constraints[k].tag,
                cost,
            ) implies rest.contains(cost) by {
            assert(m.constraints.contains_key(k));
            assert(charges(m.constraints[k].constraint, m.constraints[k].tag, cost));
            assert(costs.contains(cost));
            if charges(c, tag, cost) {
                assert(uses(m.constraints[k].tag, cost.0) && uses(tag, cost.0));
            }
        }
    }
}

/// A symbol that is of use after a removal was of use before, and does not belong to the
/// constraint that has gone.
proof fn lemma_live_left(m: SolverModel, u: SolverModel, id: ConstraintId, s: Symbol)
    requires
        m.sound(),
        apart(m),
        m.constraints.contains_key(id),
        bereft(m, u, id),
        live(u, s),
    ensures
        live(m, s),
        !uses(m.constraints[id].tag, s),
{
    let tag = m.constraints[id].tag;
    assert(SolverModel::tag_below(tag, m.id_tick));
    if exists|v: Variable| #[trigger] u.var_data.contains_key(v) && u.var_data[v].symbol == s {
        let v = choose|v: Variable| #[trigger]
            u.var_data.contains_key(v) && u.var_data[v].symbol == s;
        assert(m.kept_in(u, v));
        assert(m.var_data.contains_key(v));
        assert(m.var_data[v].symbol.external());
    } else {
        let k = choose|k: ConstraintId| #[trigger]
            u.constraints.contains_key(k) && uses(u.constraints[k].tag, s);
        assert(m.constraints.contains_key(k) && uses(m.constraints[k].tag, s));
        if uses(tag, s) {
            assert(k != id);
        }
    }
}

/// In the same rows the same symbols go together.
pub proof fn lemma_same_coupled(t: TableauModel, u: TableauModel, tag: Tag, f: real, g: real)
    requires
        coupled(t, tag, f, g),
        u.rows == t.rows,
    ensures
        coupled(u, tag, f, g),
{
    assert forall|k: Symbol| #[trigger] share(u, k, Some(tag.marker)) * g - share(
        u,
        k,
        Some(tag.other->0),
    ) * f == if k == tag.marker {
        g
    } else if tag.other == Some(k) {
        -f
    } else {
        0 as real
    } by {
        assert(share(t, k, Some(tag.marker)) * g - share(t, k, Some(tag.other->0)) * f == if k
            == tag.marker {
            g
        } else if tag.other == Some(k) {
            -f
        } else {
            0 as real
        });
    }
}

/// Whether every edit variable has its equation in the tableau.
pub open spec fn edits_settled(m: SolverModel) -> bool {
    forall|v: Variable| #[trigger] m.edits.contains_key(v) ==> edit_settled(m, v)
}

/// The constant of an edit variable is the shift of its constraint.
pub proof fn lemma_shift_of(m: SolverModel, v: Variable)
    requires
        edits_settled(m),
        m.edits.contains_key(v),
    ensures
        shift_of(m, m.edits[v].constraint_id) == worth(m.edits[v].constant),
{
    let id = m.edits[v].constraint_id;
    assert(edit_settled(m, v));
    assert forall|w: Variable| #[trigger]
        m.edits.contains_key(w) && m.edits[w].constraint_id == id implies w == v by {
        assert(edit_settled(m, w));
        let c = m.constraints[id].constraint;
        assert(c.terms[0].variable == v && c.terms[0].variable == w);
    }
}

/// Whether all that is known of a system between shifts holds: the tableau says what the
/// constraints say, no more and no less.
pub open spec fn worded(m: SolverModel) -> bool {
    &&& apart(m)
    &&& all_settled(m)
    &&& all_coupled(m)
    &&& edits_settled(m)
    &&& complete(m)
}

/// What the tableau says stays what the constraints say when edit variables move.
pub proof fn lemma_shifts_worded(z: Set<Number>, m: SolverModel, values: Seq<(Variable, Number)>)
    requires
        exact(z),
        m.sound(),
        steady(m),
        worded(m),
        shifts_within(m, values, z),
        m.all_editable(values),
        extent(m) <= u64::MAX,
    ensures
        worded(m.shifted_all(values)),
    decreases values.len(),
{
    if values.len() > 0 {
        let rest = values.drop_last();
        let (v, value) = values[values.len() - 1];
        assert forall|i: int| 0 <= i < rest.len() implies m.edits.contains_key(
            (#[trigger] rest[i]).0,
        ) by {
            assert(rest[i] == values[i]);
        }
        assert(m.edits.contains_key(values[values.len() - 1].0));
        lemma_shifts_worded(z, m, rest);
        assert forall|i: int| 0 <= i < values.len() implies edit_settled(
            m,
            (#[trigger] values[i]).0,
        ) by {
            assert(m.edits.contains_key(values[i].0));
        }
        assert forall|i: int| 0 <= i < rest.len() implies edit_settled(
            m,
            (#[trigger] rest[i]).0,
        ) by {
            assert(rest[i] == values[i]);
        }
        lemma_shifts_say(z, m, rest);
        lemma_shifts_say(z, m, values);
        let a = m.shifted_all(rest);
        let n = m.shifted_all(values);
        assert(within(a.tableau, z)) by {
            assert(shifts_within(m, rest, z));
        }
        let info = a.edits[v];
        let id = info.constraint_id;
        let tag = info.tag;
        let delta = value.difference(info.constant);
        let d = worth(delta);
        lemma_worth();
        assert(adds_up(value, info.constant.negation()));
        assert(d == worth(value) - worth(info.constant));
        assert(a.edits.dom().contains(v));
        assert(a.edits.contains_key(v));
        assert(edit_settled(a, v));
        assert(n.tableau == a.tableau.edited(tag, delta));
        assert(edits_settled(n)) by {
            assert forall|w: Variable| #[trigger] n.edits.contains_key(w) implies edit_settled(
                n,
                w,
            ) by {
                assert(m.edits.dom().contains(w));
                assert(edit_settled(m, w));
            }
        }
        assert forall|k: ConstraintId| #[trigger] a.constraints.contains_key(k) implies (k != id
            ==> shift_of(n, k) == shift_of(a, k)) && settled(n, k, shift_of(n, k)) by {
            if exists|w: Variable| #[trigger]
                n.edits.contains_key(w) && n.edits[w].constraint_id == k {
                let w = choose|w: Variable| #[trigger]
                    n.edits.contains_key(w) && n.edits[w].constraint_id == k;
                assert(a.edits.dom().contains(w));
                lemma_shift_of(n, w);
                lemma_shift_of(a, w);
                assert(edit_settled(n, w));
                if k != id {
                    assert(w != v);
                    assert(n.edits[w] == a.edits[w]);
                }
            } else {
                assert forall|w: Variable| #[trigger] a.edits.contains_key(w) implies
                    a.edits[w].constraint_id != k by {
                    assert(n.edits.dom().contains(w));
                    assert(m.edits.dom().contains(w));
                }
                assert forall|w: Variable| #[trigger] m.edits.contains_key(w) implies
                    m.edits[w].constraint_id != k by {
                    assert(n.edits.dom().contains(w));
                    assert(n.edits.contains_key(w));
                }
                assert(shift_of(m, k) == 0 as real);
                assert(settled(m, k, shift_of(m, k)));
                assert(!suggested_for(m, values, k)) by {
                    if suggested_for(m, values, k) {
                        let i = choose|i: int|
                            0 <= i < values.len() && m.edits[(
                            #[trigger] values[i]).0].constraint_id == k;
                        assert(m.edits.contains_key(values[i].0));
                    }
                }
            }
        }
        assert(all_settled(n));
        let c = a.constraints[id].constraint;
        assert(SolverModel::tag_below(tag, a.id_tick)) by {
            assert(a.constraints.contains_key(id));
        }
        assert forall|k: ConstraintId| #[trigger]
            n.constraints.contains_key(k) && soft(n.constraints[k].constraint) implies coupled(
            n.tableau,
            n.constraints[k].tag,
            first_part(n.constraints[k].constraint),
            second_part(n.constraints[k].constraint),
        ) by {
            assert(a.constraints.contains_key(k));
            lemma_edited_coupled(
                z,
                a.tableau,
                tag,
                delta,
                a.constraints[k].tag,
                first_part(a.constraints[k].constraint),
                second_part(a.constraints[k].constraint),
            );
        }
        assert(complete(n)) by {
            lemma_shift_of(n, v);
            lemma_shift_of(a, v);
            let ps = pairs(a, c.terms);
            lemma_same_pairs(a, n, c.terms);
            lemma_pairs_below(a, c.terms);
            assert forall|q: Assignment| #[trigger] models(q, n) implies exists|b: Assignment|
                stands_in(b, q, n) by {
                let q0 = |s: Symbol|
                    if s == tag.marker {
                        q(s) + d
                    } else {
                        q(s)
                    };
                assert(models(q0, a)) by {
                    assert forall|k: ConstraintId| #[trigger] a.constraints.contains_key(
                        k,
                    ) implies balance(equation_of(a, k), q0) == 0 as real by {
                        assert(n.constraints.contains_key(k));
                        assert(balance(equation_of(n, k), q) == 0 as real);
                        let ek = equation_of(a, k);
                        lemma_same_pairs(a, n, a.constraints[k].constraint.terms);
                        assert(equation_of(n, k).terms == ek.terms);
                        assert(settled(a, k, shift_of(a, k)));
                        if k != id {
                            assert forall|i: int| 0 <= i < ek.terms.len() implies q0(
                                (#[trigger] ek.terms[i]).0,
                            ) == q(ek.terms[i].0) by {
                                let s = ek.terms[i].0;
                                assert(mentions(ek.terms, s));
                                lemma_equation_symbols(a, k, shift_of(a, k), s);
                                if s == tag.marker {
                                    assert(uses(a.constraints[id].tag, s));
                                    assert(uses(a.constraints[k].tag, s));
                                }
                            }
                            lemma_total_agrees(ek.terms, q, q0);
                        } else {
                            let o = tag.other->0;
                            let first = ps.push((tag.marker, -1 as real));
                            assert(first.drop_last() =~= ps);
                            assert(ek.terms =~= first.push((o, 1 as real)));
                            assert(ek.terms.drop_last() =~= first);
                            assert forall|i: int| 0 <= i < ps.len() implies q0((#[trigger] ps[i]).0)
                                == q(ps[i].0) by {}
                            lemma_total_agrees(ps, q, q0);
                            assert(total(first, q0) == total(ps, q0) + (-1 as real) * q0(
                                tag.marker,
                            ));
                            assert(total(first, q) == total(ps, q) + (-1 as real) * q(tag.marker));
                            assert(total(ek.terms, q0) == total(first, q0) + (1 as real) * q0(o));
                            assert(total(ek.terms, q) == total(first, q) + (1 as real) * q(o));
                            lemma_plain_product(q(tag.marker));
                            lemma_plain_product(q0(tag.marker));
                            lemma_plain_product(q(o));
                        }
                    }
                }
                let b0 = choose|b: Assignment| stands_in(b, q0, a);
                assert(stands_in(b0, q0, a));
                let b = |s: Symbol|
                    if s == tag.marker {
                        b0(s) - d
                    } else {
                        b0(s)
                    };
                assert(coupled(a.tableau, tag, -1 as real, 1 as real)) by {
                    assert(a.constraints.contains_key(id) && soft(a.constraints[id].constraint));
                }
                lemma_edited_satisfies(z, a.tableau, tag, delta, b0, b, extent(a));
                assert forall|s: Symbol| live(n, s) == #[trigger] live(a, s) by {
                    lemma_same_live(a, n, s);
                }
                assert(live(a, tag.marker)) by {
                    assert(a.constraints.contains_key(id) && uses(
                        a.constraints[id].tag,
                        tag.marker,
                    ));
                }
                assert forall|s: Symbol| #[trigger] live(n, s) implies b(s) == q(s) by {
                    assert(live(a, s));
                    assert(b0(s) == q0(s));
                }
                assert forall|s: Symbol| !s.external() && !(#[trigger] live(n, s)) implies b(s)
                    == 0 as real by {
                    assert(!live(a, s));
                }
                assert(stands_in(b, q, n));
            }
        }
        assert(apart(n));
    }
}

/// The same symbols are of use to the same variables and constraints.
pub proof fn lemma_same_live(m: SolverModel, u: SolverModel, s: Symbol)
    requires
        u.var_data == m.var_data,
        u.constraints == m.constraints,
    ensures
        live(u, s) == live(m, s),
{
    if live(m, s) {
        if exists|v: Variable| #[trigger] m.var_data.contains_key(v) && m.var_data[v].symbol == s {
            let v = choose|v: Variable| #[trigger]
                m.var_data.contains_key(v) && m.var_data[v].symbol == s;
            assert(u.var_data.contains_key(v));
        } else {
            let k = choose|k: ConstraintId| #[trigger]
                m.constraints.contains_key(k) && uses(m.constraints[k].tag, s);
            assert(u.constraints.contains_key(k));
        }
    }
    if live(u, s) {
        if exists|v: Variable| #[trigger] u.var_data.contains_key(v) && u.var_data[v].symbol == s {
            let v = choose|v: Variable| #[trigger]
                u.var_data.contains_key(v) && u.var_data[v].symbol == s;
            assert(m.var_data.contains_key(v));
        } else {
            let k = choose|k: ConstraintId| #[trigger]
                u.constraints.contains_key(k) && uses(u.constraints[k].tag, s);
            assert(m.constraints.contains_key(k));
        }
    }
}

proof fn lemma_edited_coupled(
    z: Set<Number>,
    t: TableauModel,
    tag: Tag,
    delta: Number,
    other: Tag,
    f: real,
    g: real,
)
    requires
        exact(z),
        within(t, z),
        z.contains(delta),
        coupled(t, other, f, g),
    ensures
        coupled(t.edited(tag, delta), other, f, g),
{
    let u = t.edited(tag, delta);
    assert forall|k: Symbol| #[trigger] share(u, k, Some(other.marker)) * g - share(
        u,
        k,
        Some(other.other->0),
    ) * f == if k == other.marker {
        g
    } else if other.other == Some(k) {
        -f
    } else {
        0 as real
    } by {
        lemma_edited_shares(z, t, tag, delta, k, Some(other.marker));
        lemma_edited_shares(z, t, tag, delta, k, Some(other.other->0));
        assert(share(t, k, Some(other.marker)) * g - share(t, k, Some(other.other->0)) * f == if k
            == other.marker {
            g
        } else if other.other == Some(k) {
            -f
        } else {
            0 as real
        });
    }
}

} // verus!
