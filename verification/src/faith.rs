//! Faith: the tableau says what the constraints say, no more and no less, and every operation that
//! succeeds keeps it so. From this the values follow.
use crate::conduct::{
    apart, charged_by_some, charges, costed, edit_settled, handed, law_edit_starts_at_zero,
    law_suggestions_are_followed, lemma_added_as_settles, lemma_equation_symbols, lemma_handed,
    lemma_removed_others, lemma_removed_says, lemma_shifts_say, lemma_still_settled,
    removal_within, settled, steady, suggestions_within, told_or, uses,
};
use crate::constraint::{ConstraintModel, Strength};
use crate::counting::{
    counted, counts, lemma_added_as_counted, lemma_counted_known, lemma_removed_counted,
    noted_count, references,
};
use crate::equations::{
    holds, lemma_dual_optimized_keeps, lemma_same_mix, lemma_same_rows_keep, lemma_same_satisfies,
    mentions, priced, residue, within,
};
use crate::error::AddConstraintError;
use crate::exact::{exact, lemma_worth, worth};
use crate::expression::{Term, Variable};
use crate::meaning::{addition_within, equation, first_part, lemma_same_pairs, second_part};
use crate::number::Number;
use crate::optimum::{
    balance, bereft, complete, edits_bound, edits_settled, equation_of, extent,
    lemma_added_as_complete, lemma_added_as_costed, lemma_added_as_coupled, lemma_removed_complete,
    lemma_same_coupled, lemma_same_live, lemma_shift_of, lemma_shifts_worded, lemma_spans, live,
    models, shift_of, stands_in, worded,
};
use crate::solutions::{coupled, satisfies, Assignment};
use crate::soundness::{
    lemma_added_as_leads, lemma_edit_added_leads, lemma_edit_removed_leads, lemma_removed_leads,
    lemma_suggested_all_leads,
};
use crate::symbol::{SYMBOL_LIMIT, Symbol};
use crate::system::{
    lemma_added_as_frame, lemma_fetched, lemma_room_added_as, lemma_room_less, soft, weight,
    ConstraintId, EditInfo, SolverModel,
};
use vstd::prelude::*;

verus! {

/// Whether a system is faithful: it is sound and at rest, its tableau says what its constraints
/// say, its objective is what the preferences cost, and it knows the variables that its
/// constraints refer to.
pub open spec fn faithful(m: SolverModel) -> bool {
    &&& m.sound()
    &&& steady(m)
    &&& worded(m)
    &&& counted(m)
    &&& extent(m) <= u64::MAX
    &&& exists|costs: Seq<(Symbol, real)>| costed(m, costs)
}

/// Whether two systems differ in nothing that a tableau is about.
pub open spec fn alike(m: SolverModel, u: SolverModel) -> bool {
    &&& u.tableau.rows == m.tableau.rows
    &&& u.tableau.objective == m.tableau.objective
    &&& u.tableau.artificial == m.tableau.artificial
    &&& u.constraints == m.constraints
    &&& u.id_tick == m.id_tick
    &&& u.var_data.dom() == m.var_data.dom()
    &&& forall|id: ConstraintId| #[trigger]
        m.constraints.contains_key(id) ==> shift_of(u, id) == shift_of(m, id)
    &&& forall|v: Variable| #[trigger]
        m.var_data.contains_key(v) ==> u.var_data[v].symbol == m.var_data[v].symbol
            && u.var_data[v].count == m.var_data[v].count
}

proof fn lemma_alike_settled(m: SolverModel, u: SolverModel, id: ConstraintId, shift: real)
    requires
        alike(m, u),
        settled(m, id, shift),
    ensures
        settled(u, id, shift),
        equation(u, m.constraints[id].constraint, m.constraints[id].tag, shift) == equation(
            m,
            m.constraints[id].constraint,
            m.constraints[id].tag,
            shift,
        ),
{
    let c = m.constraints[id].constraint;
    assert forall|i: int|
        0 <= i < c.terms.len() && !(#[trigger] c.terms[i]).coefficient.negligible() implies
        u.var_data[c.terms[i].variable].symbol == m.var_data[c.terms[i].variable].symbol
        && u.var_data.contains_key(c.terms[i].variable) by {
        assert(m.var_data.contains_key(c.terms[i].variable));
        assert(u.var_data.dom().contains(c.terms[i].variable));
    }
    lemma_same_pairs(m, u, c.terms);
    let eq = equation(m, c, m.constraints[id].tag, shift);
    assert forall|x: Option<Symbol>| #[trigger] residue(u.tableau, eq, x) == 0 as real by {
        lemma_same_mix(m.tableau, u.tableau, eq.terms, x);
        assert(residue(m.tableau, eq, x) == 0 as real);
    }
}

proof fn lemma_alike_live(m: SolverModel, u: SolverModel, s: Symbol)
    requires
        alike(m, u),
    ensures
        live(u, s) == live(m, s),
{
    if live(m, s) {
        if exists|v: Variable| #[trigger] m.var_data.contains_key(v) && m.var_data[v].symbol == s {
            let v = choose|v: Variable| #[trigger]
                m.var_data.contains_key(v) && m.var_data[v].symbol == s;
            assert(u.var_data.dom().contains(v));
            assert(u.var_data.contains_key(v));
        } else {
            let k = choose|k: ConstraintId| #[trigger]
                m.constraints.contains_key(k) && uses(m.constraints[k].tag, s);
            assert(u.constraints.contains_key(k));
        }
    }
    if live(u, s) {
        if exists|v: Variable| #[trigger] u.var_data.contains_key(v) && u.var_data[v].symbol == s {
            let v = choose|v: Variable| #[trigger]
                u.var_data.contains_key(v) && u.var_data[v].symbol == s;
            assert(m.var_data.dom().contains(v));
            assert(m.var_data.contains_key(v));
        } else {
            let k = choose|k: ConstraintId| #[trigger]
                u.constraints.contains_key(k) && uses(u.constraints[k].tag, s);
            assert(m.constraints.contains_key(k));
        }
    }
}

/// The same edit variables have their equations in what is alike.
proof fn lemma_alike_edits(m: SolverModel, u: SolverModel)
    requires
        alike(m, u),
        u.edits == m.edits,
        edits_settled(m),
    ensures
        edits_settled(u),
{
    assert forall|v: Variable| #[trigger] u.edits.contains_key(v) implies edit_settled(u, v) by {
        assert(edit_settled(m, v));
        lemma_alike_settled(m, u, m.edits[v].constraint_id, worth(m.edits[v].constant));
    }
}

/// A system that differs from a faithful one in nothing that a tableau is about is faithful.
proof fn lemma_alike_faithful(m: SolverModel, u: SolverModel)
    requires
        alike(m, u),
        u.sound(),
        faithful(m),
        edits_settled(u),
    ensures
        faithful(u),
{
    let t = u.tableau;
    assert(steady(u));
    assert forall|id: ConstraintId| #[trigger] u.constraints.contains_key(id) implies settled(
        u,
        id,
        shift_of(u, id),
    ) by {
        assert(settled(m, id, shift_of(m, id)));
        lemma_alike_settled(m, u, id, shift_of(m, id));
    }
    assert forall|id: ConstraintId| #[trigger]
        u.constraints.contains_key(id) && soft(u.constraints[id].constraint) implies
        coupled(
        t,
        u.constraints[id].tag,
        first_part(u.constraints[id].constraint),
        second_part(u.constraints[id].constraint),
    ) by {
        assert(m.constraints.contains_key(id));
        lemma_same_coupled(
            m.tableau,
            t,
            u.constraints[id].tag,
            first_part(u.constraints[id].constraint),
            second_part(u.constraints[id].constraint),
        );
    }
    assert(apart(u));
    assert(complete(u)) by {
        assert forall|a: Assignment| #[trigger] models(a, u) implies exists|b: Assignment|
            stands_in(b, a, u) by {
            assert forall|id: ConstraintId| #[trigger] m.constraints.contains_key(id) implies
                balance(equation_of(m, id), a) == 0 as real by {
                assert(u.constraints.contains_key(id));
                assert(settled(m, id, shift_of(m, id)));
                lemma_alike_settled(m, u, id, shift_of(m, id));
                assert(balance(equation_of(u, id), a) == 0 as real);
            }
            assert(models(a, m));
            let b = choose|b: Assignment| stands_in(b, a, m);
            assert(stands_in(b, a, m));
            assert forall|s: Symbol| live(u, s) == #[trigger] live(m, s) by {
                lemma_alike_live(m, u, s);
            }
            assert forall|s: Symbol| #[trigger] live(u, s) implies b(s) == a(s) by {
                assert(live(m, s));
            }
            assert forall|s: Symbol| !s.external() && !(#[trigger] live(u, s)) implies b(s)
                == 0 as real by {
                assert(!live(m, s));
            }
            lemma_same_satisfies(m.tableau, t, b, extent(m));
            assert(stands_in(b, a, u));
        }
    }
    assert(counted(u)) by {
        let ids = choose|ids: Seq<ConstraintId>| counts(m, ids);
        assert(counts(m, ids));
        assert forall|v: Variable| #[trigger] references(u.constraints, ids, v)
            <= noted_count(u, v) by {
            assert(references(m.constraints, ids, v) <= noted_count(m, v));
            assert(m.var_data.dom().contains(v) == u.var_data.dom().contains(v));
        }
        assert(counts(u, ids));
    }
    let costs = choose|costs: Seq<(Symbol, real)>| costed(m, costs);
    assert(costed(m, costs));
    lemma_same_rows_keep(m.tableau, t);
    assert(costed(u, costs)) by {
        assert forall|i: int| 0 <= i < costs.len() implies charged_by_some(
            u,
            #[trigger] costs[i],
        ) by {
            assert(charged_by_some(m, costs[i]));
            let k = choose|k: ConstraintId| #[trigger]
                m.constraints.contains_key(k) && charges(
                    m.constraints[k].constraint,
                    m.constraints[k].tag,
                    costs[i],
                );
            assert(u.constraints.contains_key(k));
        }
    }
}

/// A new solver is faithful.
pub proof fn law_new_is_faithful()
    ensures
        faithful(SolverModel::initial()),
{
    broadcast use vstd::multiset::group_multiset_axioms;

    lemma_worth();
    let m = SolverModel::initial();
    let none = Seq::<ConstraintId>::empty();
    assert forall|v: Variable| #[trigger] references(m.constraints, none, v)
        <= noted_count(m, v) by {}
    assert(counts(m, none));
    let free = Seq::<(Symbol, real)>::empty();
    assert(costed(m, free));
    assert(complete(m)) by {
        assert forall|a: Assignment| #[trigger] models(a, m) implies exists|b: Assignment|
            stands_in(b, a, m) by {
            let b = |s: Symbol| 0 as real;
            assert forall|s: Symbol| !(#[trigger] live(m, s)) by {}
            assert(satisfies(b, m.tableau, extent(m)));
            assert(stands_in(b, a, m));
        }
    }
    assert(m.tableau.minimal());
    assert(steady(m));
}

/// A fetch leaves a faithful system faithful.
pub proof fn law_fetch_keeps_faith(m: SolverModel)
    requires
        faithful(m),
    ensures
        faithful(m.fetched()),
{
    lemma_fetched(m);
    assert(m.fetched().var_data.dom() =~= m.var_data.dom());
    lemma_alike_edits(m, m.fetched());
    lemma_alike_faithful(m, m.fetched());
}

/// A system that has given out its next handle is as faithful as before.
pub proof fn lemma_handed_faithful(m: SolverModel)
    requires
        faithful(m),
        m.next_constraint_id < u64::MAX,
    ensures
        faithful(handed(m)),
{
    lemma_handed(m);
    lemma_alike_edits(m, handed(m));
    lemma_alike_faithful(m, handed(m));
}

/// An addition that succeeds, where nothing is rounded, leaves a faithful system faithful.
pub proof fn law_addition_keeps_faith(z: Set<Number>, m: SolverModel, c: ConstraintModel)
    requires
        exact(z),
        faithful(m),
        m.has_room(weight(c) + 1),
        addition_within(handed(m), c, z),
        m.added(c).1 is Ok,
    ensures
        faithful(m.added(c).0),
        within(m.added(c).0.tableau, z),
        m.added(c).0.constraints[m.next_id()].constraint == c,
        m.added(c).0.edits == m.edits,
{
    let n = handed(m);
    let id = m.next_id();
    let u = m.added(c).0;
    lemma_handed(m);
    lemma_handed_faithful(m);
    assert(n.has_room(c.terms.len() + 3));
    lemma_added_as_faithful(z, n, id, c);
    lemma_added_as_frame(n, id, c);
}

/// What an addition under a handle leaves.
proof fn lemma_added_as_faithful(
    z: Set<Number>,
    m: SolverModel,
    id: ConstraintId,
    c: ConstraintModel,
)
    requires
        exact(z),
        faithful(m),
        m.has_room(c.terms.len() + 4),
        id.number() < m.next_constraint_id,
        addition_within(m, c, z),
        m.added_as(id, c).1 is Ok,
    ensures
        faithful(m.added_as(id, c).0),
        within(m.added_as(id, c).0.tableau, z),
{
    let u = m.added_as(id, c).0;
    lemma_room_less(m, c.terms.len() + 4, c.terms.len() + 3);
    lemma_added_as_leads(m, id, c);
    lemma_added_as_frame(m, id, c);
    lemma_added_as_settles(z, m, id, c);
    assert(extent(u) <= u64::MAX) by {
        lemma_room_added_as(m, id, c, 1);
        assert(u.id_tick + 1 <= SYMBOL_LIMIT);
    }
    assert(edits_bound(m)) by {
        assert forall|v: Variable| #[trigger] m.edits.contains_key(v) implies
            m.constraints.contains_key(m.edits[v].constraint_id) by {
            assert(edit_settled(m, v));
        }
    }
    assert(!m.constraints.contains_key(id)) by {
        reveal(SolverModel::added_as);
    }
    lemma_added_as_complete(z, m, id, c);
    lemma_added_as_coupled(z, m, id, c);
    lemma_added_as_counted(m, id, c);
    let costs = choose|costs: Seq<(Symbol, real)>| costed(m, costs);
    lemma_added_as_costed(z, m, id, c, costs);
    assert forall|k: ConstraintId| #[trigger] u.constraints.contains_key(k) implies settled(
        u,
        k,
        shift_of(u, k),
    ) by {
        if k == id {
            assert forall|v: Variable| #[trigger] u.edits.contains_key(v) implies
                u.edits[v].constraint_id != id by {
                assert(m.edits.contains_key(v));
            }
            assert(shift_of(u, id) == 0 as real);
        } else {
            assert(m.constraints.contains_key(k));
            assert(settled(m, k, shift_of(m, k)));
        }
    }
    assert forall|v: Variable| #[trigger] u.edits.contains_key(v) implies edit_settled(u, v) by {
        assert(edit_settled(m, v));
        assert(settled(m, m.edits[v].constraint_id, worth(m.edits[v].constant)));
        assert(settled(u, m.edits[v].constraint_id, worth(m.edits[v].constant)));
    }
}

/// What is left without a constraint that is not that of an edit variable is faithful.
proof fn lemma_bereft_faithful(z: Set<Number>, m: SolverModel, id: ConstraintId, u: SolverModel)
    requires
        exact(z),
        faithful(m),
        m.constraints.contains_key(id),
        removal_within(m, id, z),
        m.removed(id).1 is Ok,
        bereft(m, u, id),
        counted(u),
        forall|v: Variable| #[trigger]
            u.edits.contains_key(v) ==> m.edits.contains_key(v) && u.edits[v] == m.edits[v]
                && m.edits[v].constraint_id != id,
    ensures
        faithful(u),
        within(u.tableau, z),
{
    let costs = choose|costs: Seq<(Symbol, real)>| costed(m, costs);
    assert(costed(m, costs));
    assert(settled(m, id, shift_of(m, id)));
    let rest = lemma_removed_says(z, m, id, costs);
    lemma_removed_complete(z, m, id, costs, u);
    let gone = m.constraints[id].tag;
    assert forall|k: ConstraintId, shift: real| #[trigger]
        settled(m, k, shift) && k != id implies settled(u, k, shift) by {
        let eq = equation(m, m.constraints[k].constraint, m.constraints[k].tag, shift);
        assert(!mentions(eq.terms, gone.marker)) by {
            if mentions(eq.terms, gone.marker) {
                lemma_equation_symbols(m, k, shift, gone.marker);
                assert(SolverModel::tag_below(gone, m.id_tick));
                assert(uses(gone, gone.marker));
            }
        }
        assert(holds(m.tableau, eq));
        assert(u.constraints.contains_key(k));
        lemma_still_settled(m, u, k, shift);
    }
    assert forall|k: ConstraintId| #[trigger] u.constraints.contains_key(k) implies settled(
        u,
        k,
        shift_of(u, k),
    ) by {
        assert(m.constraints.contains_key(k));
        assert(settled(m, k, shift_of(m, k)));
    }
    assert forall|v: Variable| #[trigger] u.edits.contains_key(v) implies edit_settled(u, v) by {
        assert(edit_settled(m, v));
        assert(settled(m, m.edits[v].constraint_id, worth(m.edits[v].constant)));
        assert(settled(u, m.edits[v].constraint_id, worth(m.edits[v].constant)));
    }
    assert(apart(u)) by {
        assert forall|j: ConstraintId, k: ConstraintId, s: Symbol|
            j != k && u.constraints.contains_key(j) && u.constraints.contains_key(k)
                && #[trigger] uses(u.constraints[j].tag, s) implies !(#[trigger] uses(
            u.constraints[k].tag,
            s,
        )) by {
            assert(uses(m.constraints[j].tag, s));
        }
    }
}

/// What is kept of the variables when a constraint goes.
proof fn lemma_kept_without(m: SolverModel, u: SolverModel)
    requires
        m.leads_to(u),
        u.sound(),
        u.id_tick == m.id_tick,
        counted(u),
    ensures
        forall|v: Variable| #[trigger] u.var_data.contains_key(v) ==> m.kept_in(u, v),
        forall|k: ConstraintId, i: int|
            u.constraints.contains_key(k) && 0 <= i < u.constraints[k].constraint.terms.len()
                && !(#[trigger] u.constraints[k].constraint.terms[i]).coefficient.negligible()
                ==> m.kept_in(u, u.constraints[k].constraint.terms[i].variable),
{
    assert forall|v: Variable| #[trigger] u.var_data.contains_key(v) implies m.kept_in(u, v) by {
        assert(u.var_data[v].symbol.id() < u.id_tick);
    }
    assert forall|k: ConstraintId, i: int|
        u.constraints.contains_key(k) && 0 <= i < u.constraints[k].constraint.terms.len()
            && !(#[trigger] u.constraints[k].constraint.terms[i]).coefficient.negligible() implies
        m.kept_in(u, u.constraints[k].constraint.terms[i].variable) by {
        lemma_counted_known(u, k, i);
    }
}

/// A removal that succeeds, where nothing is rounded, leaves a faithful system faithful. The
/// constraint of an edit variable goes with the edit variable.
pub proof fn law_removal_keeps_faith(z: Set<Number>, m: SolverModel, id: ConstraintId)
    requires
        exact(z),
        faithful(m),
        removal_within(m, id, z),
        m.removed(id).1 is Ok,
        forall|v: Variable| #[trigger] m.edits.contains_key(v) ==> m.edits[v].constraint_id != id,
    ensures
        faithful(m.removed(id).0),
        within(m.removed(id).0.tableau, z),
        m.removed(id).0.constraints == m.constraints.remove(id),
        m.removed(id).0.edits == m.edits,
{
    let u = m.removed(id).0;
    assert(m.constraints.contains_key(id));
    lemma_removed_leads(m, id);
    lemma_removed_others(m, id);
    lemma_removed_counted(m, id);
    lemma_kept_without(m, u);
    lemma_bereft_faithful(z, m, id, u);
}

/// The edit variables have no part in what is released.
proof fn lemma_released_edits(m: SolverModel, a: SolverModel, terms: Seq<Term>)
    requires
        a == (SolverModel { edits: a.edits, ..m }),
    ensures
        a.released(terms) == (SolverModel { edits: a.edits, ..m.released(terms) }),
    decreases terms.len(),
{
    if terms.len() > 0 {
        lemma_released_edits(m, a, terms.drop_last());
    }
}

/// The edit variables have no part in a removal.
pub proof fn lemma_removed_edits(m: SolverModel, a: SolverModel, id: ConstraintId)
    requires
        a == (SolverModel { edits: a.edits, ..m }),
    ensures
        a.removed(id).0 == (SolverModel { edits: a.edits, ..m.removed(id).0 }),
        a.removed(id).1 == m.removed(id).1,
{
    reveal(SolverModel::withdrawn);
    if m.constraints.contains_key(id) {
        let entry = m.constraints[id];
        let t = m.tableau.without_costs(entry.tag, entry.constraint.strength.value);
        match t.without_marker(entry.tag.marker) {
            Some(u) => {
                let n = m.unregistered(id);
                let b = a.unregistered(id);
                lemma_released_edits(
                    (SolverModel { tableau: u, ..n }).optimized().0,
                    (SolverModel { tableau: u, ..b }).optimized().0,
                    entry.constraint.terms,
                );
            },
            None => {},
        }
    }
}

/// The removal of an edit variable that succeeds, where nothing is rounded, leaves a faithful
/// system faithful. The constraint of the edit goes with it.
pub proof fn law_edit_removal_keeps_faith(z: Set<Number>, m: SolverModel, v: Variable)
    requires
        exact(z),
        faithful(m),
        m.edits.contains_key(v) ==> removal_within(m, m.edits[v].constraint_id, z),
        m.edit_removed(v).1 is Ok,
    ensures
        faithful(m.edit_removed(v).0),
        within(m.edit_removed(v).0.tableau, z),
        m.edit_removed(v).0.constraints == m.constraints.remove(m.edits[v].constraint_id),
        m.edit_removed(v).0.edits == m.edits.remove(v),
{
    let u = m.edit_removed(v).0;
    let a = SolverModel { edits: m.edits.remove(v), ..m };
    let id = m.edits[v].constraint_id;
    assert(edit_settled(m, v));
    lemma_removed_edits(m, a, id);
    lemma_edit_removed_leads(m, v);
    lemma_removed_others(m, id);
    lemma_removed_counted(m, id);
    let b = m.removed(id).0;
    assert(counted(u)) by {
        let ids = choose|ids: Seq<ConstraintId>| counts(b, ids);
        assert(counts(b, ids));
        assert forall|w: Variable| #[trigger] references(u.constraints, ids, w) <= noted_count(
            u,
            w,
        ) by {
            assert(references(b.constraints, ids, w) <= noted_count(b, w));
        }
        assert(counts(u, ids));
    }
    lemma_kept_without(m, u);
    assert forall|w: Variable| #[trigger] u.edits.contains_key(w) implies m.edits.contains_key(w)
        && u.edits[w] == m.edits[w] && m.edits[w].constraint_id != id by {
        assert(edit_settled(m, w));
        if m.edits[w].constraint_id == id {
            let c = m.constraints[id].constraint;
            assert(c.terms[0].variable == v && c.terms[0].variable == w);
        }
    }
    assert forall|k: ConstraintId| #[trigger] u.constraints.contains_key(k) implies shift_of(u, k)
        == shift_of(m, k) by {
        if exists|w: Variable| #[trigger] m.edits.contains_key(w) && m.edits[w].constraint_id == k {
            let w = choose|w: Variable| #[trigger]
                m.edits.contains_key(w) && m.edits[w].constraint_id == k;
            assert(w != v);
            assert(u.edits.contains_key(w));
            assert forall|x: Variable| #[trigger]
                u.edits.contains_key(x) && u.edits[x].constraint_id == k implies x == w by {
                assert(edit_settled(m, w) && edit_settled(m, x));
                let c = m.constraints[k].constraint;
                assert(c.terms[0].variable == w && c.terms[0].variable == x);
            }
            lemma_shift_of(m, w);
        }
    }
    lemma_bereft_faithful(z, m, id, u);
}

/// A variable that becomes an edit variable, where nothing is rounded, leaves a faithful system
/// faithful.
pub proof fn law_edit_addition_keeps_faith(
    z: Set<Number>,
    m: SolverModel,
    v: Variable,
    strength: Strength,
)
    requires
        exact(z),
        faithful(m),
        m.has_room(6),
        soft(SolverModel::edit_constraint(v, strength)),
        addition_within(handed(m), SolverModel::edit_constraint(v, strength), z),
        m.edit_added(v, strength).1 is Ok,
    ensures
        faithful(m.edit_added(v, strength).0),
        within(m.edit_added(v, strength).0.tableau, z),
{
    let c = SolverModel::edit_constraint(v, strength);
    let u = m.edit_added(v, strength).0;
    let a = m.added(c).0;
    let id = m.next_id();
    assert(weight(c) == 5);
    lemma_room_less(m, 6, 5);
    law_addition_keeps_faith(z, m, c);
    law_edit_starts_at_zero(z, m, v, strength);
    lemma_edit_added_leads(m, v, strength);
    lemma_worth();
    assert(m.added(c).1 == Ok::<ConstraintId, AddConstraintError>(id));
    assert(edits_settled(u)) by {
        assert forall|w: Variable| #[trigger] u.edits.contains_key(w) implies edit_settled(
            u,
            w,
        ) by {
            if w != v {
                assert(m.edits.contains_key(w));
                assert(edit_settled(m, w));
            }
        }
    }
    assert forall|k: ConstraintId| #[trigger] a.constraints.contains_key(k) implies shift_of(u, k)
        == shift_of(a, k) by {
        if exists|w: Variable| #[trigger] a.edits.contains_key(w) && a.edits[w].constraint_id == k {
            let w = choose|w: Variable| #[trigger]
                a.edits.contains_key(w) && a.edits[w].constraint_id == k;
            assert(u.edits.contains_key(w));
            lemma_shift_of(u, w);
            lemma_shift_of(a, w);
        } else if k == id {
            assert(u.edits.contains_key(v));
            lemma_shift_of(u, v);
        } else {
            assert forall|w: Variable| #[trigger] u.edits.contains_key(w) implies
                u.edits[w].constraint_id != k by {
                if w != v {
                    assert(a.edits.contains_key(w));
                }
            }
        }
    }
    assert(alike(a, u));
    lemma_alike_faithful(a, u);
}

/// Suggestions that succeed, where nothing is rounded, leave a faithful system faithful.
pub proof fn law_suggestions_keep_faith(
    z: Set<Number>,
    m: SolverModel,
    values: Seq<(Variable, Number)>,
)
    requires
        exact(z),
        faithful(m),
        suggestions_within(m, values, z),
        m.suggested_all(values).1 is Ok,
    ensures
        faithful(m.suggested_all(values).0),
        within(m.suggested_all(values).0.tableau, z),
        m.suggested_all(values).0.constraints == m.constraints,
        m.suggested_all(values).0.edits.dom() == m.edits.dom(),
        forall|v: Variable| #[trigger]
            m.edits.contains_key(v) ==> m.suggested_all(values).0.edits[v] == (EditInfo {
                constant: told_or(values, v, m.edits[v].constant),
                ..m.edits[v]
            }),
{
    let n = m.shifted_all(values);
    let u = m.suggested_all(values).0;
    assert(m.all_editable(values));
    assert forall|i: int| 0 <= i < values.len() implies edit_settled(m, (#[trigger] values[i]).0) by {
        assert(m.edits.contains_key(values[i].0));
    }
    lemma_shifts_worded(z, m, values);
    lemma_shifts_say(z, m, values);
    law_suggestions_are_followed(z, m, values);
    lemma_suggested_all_leads(m, values);
    lemma_dual_optimized_keeps(z, n.tableau, n.id_tick);
    lemma_spans(n);
    assert(u == n.rebalanced().0);
    assert forall|k: ConstraintId, shift: real| #[trigger] settled(n, k, shift) implies settled(
        u,
        k,
        shift,
    ) && equation(u, n.constraints[k].constraint, n.constraints[k].tag, shift) == equation(
        n,
        n.constraints[k].constraint,
        n.constraints[k].tag,
        shift,
    ) by {
        let c = n.constraints[k].constraint;
        assert(holds(n.tableau, equation(n, c, n.constraints[k].tag, shift)));
        lemma_same_pairs(n, u, c.terms);
    }
    assert forall|k: ConstraintId| #[trigger] u.constraints.contains_key(k) implies settled(
        u,
        k,
        shift_of(u, k),
    ) by {
        assert(settled(n, k, shift_of(n, k)));
    }
    assert(edits_settled(u)) by {
        assert forall|v: Variable| #[trigger] u.edits.contains_key(v) implies edit_settled(
            u,
            v,
        ) by {
            assert(n.edits.contains_key(v));
            assert(edit_settled(n, v));
            assert(settled(n, n.edits[v].constraint_id, worth(n.edits[v].constant)));
        }
    }
    assert forall|k: ConstraintId| #[trigger]
        u.constraints.contains_key(k) && soft(u.constraints[k].constraint) implies coupled(
        u.tableau,
        u.constraints[k].tag,
        first_part(u.constraints[k].constraint),
        second_part(u.constraints[k].constraint),
    ) by {
        assert(n.constraints.contains_key(k));
        assert(settled(n, k, shift_of(n, k)));
    }
    assert(complete(u)) by {
        assert forall|a: Assignment| #[trigger] models(a, u) implies exists|b: Assignment|
            stands_in(b, a, u) by {
            assert forall|id: ConstraintId| #[trigger] n.constraints.contains_key(id) implies
                balance(equation_of(n, id), a) == 0 as real by {
                assert(u.constraints.contains_key(id));
                assert(settled(n, id, shift_of(n, id)));
                assert(balance(equation_of(u, id), a) == 0 as real);
            }
            assert(models(a, n));
            let b = choose|b: Assignment| stands_in(b, a, n);
            assert(stands_in(b, a, n));
            assert forall|s: Symbol| live(u, s) == #[trigger] live(n, s) by {
                lemma_same_live(n, u, s);
            }
            assert forall|s: Symbol| #[trigger] live(u, s) implies b(s) == a(s) by {
                assert(live(n, s));
            }
            assert forall|s: Symbol| !s.external() && !(#[trigger] live(u, s)) implies b(s)
                == 0 as real by {
                assert(!live(n, s));
            }
            assert(satisfies(b, n.tableau, extent(n)));
            assert(stands_in(b, a, u));
        }
    }
    assert(counted(u)) by {
        let ids = choose|ids: Seq<ConstraintId>| counts(m, ids);
        assert(counts(m, ids));
        assert forall|v: Variable| #[trigger] references(u.constraints, ids, v) <= noted_count(
            u,
            v,
        ) by {
            assert(references(m.constraints, ids, v) <= noted_count(m, v));
        }
        assert(counts(u, ids));
    }
    let costs = choose|costs: Seq<(Symbol, real)>| costed(m, costs);
    assert(costed(m, costs));
    assert(costed(u, costs)) by {
        assert(priced(n.tableau, costs));
        assert forall|i: int| 0 <= i < costs.len() implies charged_by_some(
            u,
            #[trigger] costs[i],
        ) by {
            assert(charged_by_some(m, costs[i]));
            let k = choose|k: ConstraintId| #[trigger]
                m.constraints.contains_key(k) && charges(
                    m.constraints[k].constraint,
                    m.constraints[k].tag,
                    costs[i],
                );
            assert(u.constraints.contains_key(k));
        }
    }
}

} // verus!
