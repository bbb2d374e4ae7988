//! What holds of every system that calls lead to: its values meet what is required and miss the
//! preferences by as little as can be.
use crate::conduct::{edit_settled, handed, met, removal_within, suggestions_within};
use crate::constraint::ConstraintModel;
use crate::counting::lists_all;
use crate::equations::within;
use crate::exact::exact;
use crate::expression::Variable;
use crate::faith::{
    faithful, law_addition_keeps_faith, law_edit_addition_keeps_faith,
    law_edit_removal_keeps_faith, law_fetch_keeps_faith, law_new_is_faithful,
    law_removal_keeps_faith, law_suggestions_keep_faith, lemma_removed_edits,
};
use crate::history::Call;
use crate::idle::{
    detached, idle, law_addition_leaves_dummies_idle, law_all_required_is_met,
    law_edit_addition_leaves_dummies_idle, law_removal_leaves_dummies_idle,
    law_suggestions_leave_dummies_idle,
};
use crate::meaning::addition_within;
use crate::number::Number;
use crate::purpose::{acceptable, law_values_miss_least, penalties, values_of, weighed, Values};
use crate::system::{soft, weight, ConstraintId, SolverModel};
use vstd::prelude::*;

verus! {

/// Whether a system is faithful, with idle dummies and with numbers among those that are not
/// rounded.
pub open spec fn in_order(m: SolverModel, z: Set<Number>) -> bool {
    faithful(m) && idle(m.tableau) && within(m.tableau, z)
}

/// Whether a constraint is added and nothing is rounded.
pub open spec fn adds(m: SolverModel, c: ConstraintModel, z: Set<Number>) -> bool {
    &&& m.has_room(weight(c) + 1)
    &&& addition_within(handed(m), c, z)
    &&& m.added(c).1 is Ok
}

/// Whether constraints are added one after the other and nothing is rounded.
pub open spec fn adds_all(m: SolverModel, cs: Seq<ConstraintModel>, z: Set<Number>) -> bool
    decreases cs.len(),
{
    cs.len() == 0 || (adds_all(m, cs.drop_last(), z) && adds(
        m.added_all(cs.drop_last()).0,
        cs.last(),
        z,
    ))
}

/// Whether values are suggested and nothing is rounded.
pub open spec fn suggests(m: SolverModel, values: Seq<(Variable, Number)>, z: Set<Number>) -> bool {
    suggestions_within(m, values, z) && m.suggested_all(values).1 is Ok
}

/// Whether a call that concerns one constraint or variable, or several of a kind, succeeds and
/// nothing is rounded. The constraint of an edit variable is not removed by itself, and neither is
/// a required equation that makes another one superfluous.
pub open spec fn goes_well(m: SolverModel, call: Call, z: Set<Number>) -> bool {
    match call {
        Call::Add(c) => adds(m, c, z),
        Call::AddAll(cs) => adds_all(m, cs, z),
        Call::Remove(id) => {
            let marker = m.constraints[id].tag.marker;
            &&& removal_within(m, id, z)
            &&& m.removed(id).1 is Ok
            &&& forall|v: Variable| #[trigger]
                m.edits.contains_key(v) ==> m.edits[v].constraint_id != id
            &&& detached(m.tableau, marker) || m.tableau.rows.contains_key(marker) || !(
            marker.sort() is Dummy)
        },
        Call::AddEdit(v, strength) => {
            &&& m.has_room(6)
            &&& soft(SolverModel::edit_constraint(v, strength))
            &&& addition_within(handed(m), SolverModel::edit_constraint(v, strength), z)
            &&& m.edit_added(v, strength).1 is Ok
        },
        Call::RemoveEdit(v) => {
            &&& removal_within(m, m.edits[v].constraint_id, z)
            &&& m.edit_removed(v).1 is Ok
        },
        Call::Suggest(v, value) => suggests(m, seq![(v, value)], z),
        Call::SuggestAll(values) => suggests(m, values, z),
        Call::Fetch => true,
        _ => false,
    }
}

/// Whether calls go well one after the other.
pub open spec fn all_go_well(m: SolverModel, calls: Seq<Call>, z: Set<Number>) -> bool
    decreases calls.len(),
{
    calls.len() == 0 || (all_go_well(m, calls.drop_last(), z) && goes_well(
        m.after_all(calls.drop_last()),
        calls.last(),
        z,
    ))
}

proof fn lemma_adds(z: Set<Number>, m: SolverModel, c: ConstraintModel)
    requires
        exact(z),
        in_order(m, z),
        adds(m, c, z),
    ensures
        in_order(m.added(c).0, z),
{
    law_addition_keeps_faith(z, m, c);
    law_addition_leaves_dummies_idle(z, m, c);
}

proof fn lemma_adds_all(z: Set<Number>, m: SolverModel, cs: Seq<ConstraintModel>)
    requires
        exact(z),
        in_order(m, z),
        adds_all(m, cs, z),
    ensures
        in_order(m.added_all(cs).0, z),
        m.added_all(cs).1 is Ok,
    decreases cs.len(),
{
    if cs.len() > 0 {
        lemma_adds_all(z, m, cs.drop_last());
        lemma_adds(z, m.added_all(cs.drop_last()).0, cs.last());
    }
}

/// A call that goes well leaves a system in order that was in order before.
pub proof fn law_call_keeps_order(z: Set<Number>, m: SolverModel, call: Call)
    requires
        exact(z),
        in_order(m, z),
        goes_well(m, call, z),
    ensures
        in_order(m.after(call), z),
{
    match call {
        Call::Add(c) => {
            lemma_adds(z, m, c);
        },
        Call::AddAll(cs) => {
            lemma_adds_all(z, m, cs);
        },
        Call::Remove(id) => {
            law_removal_keeps_faith(z, m, id);
            law_removal_leaves_dummies_idle(m, id);
        },
        Call::AddEdit(v, strength) => {
            law_edit_addition_keeps_faith(z, m, v, strength);
            law_edit_addition_leaves_dummies_idle(z, m, v, strength);
        },
        Call::RemoveEdit(v) => {
            law_edit_removal_keeps_faith(z, m, v);
            let id = m.edits[v].constraint_id;
            assert(edit_settled(m, v));
            lemma_removed_edits(m, SolverModel { edits: m.edits.remove(v), ..m }, id);
            law_removal_leaves_dummies_idle(m, id);
        },
        Call::Suggest(v, value) => {
            let values = seq![(v, value)];
            assert(values.drop_last() =~= Seq::<(Variable, Number)>::empty());
            assert(m.shifted_all(values.drop_last()) == m);
            assert(m.shifted_all(values) == m.shifted(v, value));
            assert(values[0] == (v, value));
            assert(m.edits.contains_key(values[0].0));
            law_suggestions_keep_faith(z, m, values);
            law_suggestions_leave_dummies_idle(m, values);
        },
        Call::SuggestAll(values) => {
            law_suggestions_keep_faith(z, m, values);
            law_suggestions_leave_dummies_idle(m, values);
        },
        Call::Fetch => {
            law_fetch_keeps_faith(m);
            let u = m.fetched();
            assert(u.tableau.rows == m.tableau.rows);
            assert(u.tableau.objective == m.tableau.objective);
            assert(u.tableau.artificial == m.tableau.artificial);
        },
        _ => {},
    }
}

/// After any calls on a new solver that went well, with nothing rounded, the values meet all that
/// is required. Of all values that do, none miss the preferences by less, each preference weighed
/// by its strength.
pub proof fn law_solver_solves(z: Set<Number>, calls: Seq<Call>)
    requires
        exact(z),
        all_go_well(SolverModel::initial(), calls, z),
    ensures
        in_order(SolverModel::initial().after_all(calls), z),
        ({
            let m = SolverModel::initial().after_all(calls);
            &&& forall|id: ConstraintId| #[trigger]
                m.constraints.contains_key(id) && !soft(m.constraints[id].constraint) ==> met(
                    m,
                    m.constraints[id].constraint,
                )
            &&& weighed(m) ==> forall|ids: Seq<ConstraintId>, x: Values|
                lists_all(m, ids) && acceptable(m, x) ==> penalties(m, ids, values_of(m))
                    <= #[trigger] penalties(m, ids, x)
        }),
    decreases calls.len(),
{
    let start = SolverModel::initial();
    let m = start.after_all(calls);
    if calls.len() == 0 {
        law_new_is_faithful();
        assert(within(m.tableau, z));
    } else {
        law_solver_solves(z, calls.drop_last());
        law_call_keeps_order(z, start.after_all(calls.drop_last()), calls.last());
    }
    assert forall|id: ConstraintId| #[trigger]
        m.constraints.contains_key(id) && !soft(m.constraints[id].constraint) implies met(
        m,
        m.constraints[id].constraint,
    ) by {
        law_all_required_is_met(z, m, id);
    }
    if weighed(m) {
        assert forall|ids: Seq<ConstraintId>, x: Values|
            lists_all(m, ids) && acceptable(m, x) implies penalties(m, ids, values_of(m))
            <= #[trigger] penalties(m, ids, x) by {
            law_values_miss_least(z, m, ids, x);
        }
    }
}

} // verus!
