//! Laws of fetches with other calls between them.
use crate::batch::{
    burden, lemma_burden_reordered, lemma_burden_whole, lemma_schedule, op_weight, schedule,
    tickets, OpModel, TicketModel,
};
use crate::constraint::ConstraintModel;
use crate::expression::{Term, Variable};
use crate::history::{law_all_calls_keep_sound, law_calls_keep_sound, without_fetch, Call};
use crate::number::{zero, Number};
use crate::row::RowModel;
use crate::solver_laws::{law_fetch_brings_up_to_date, law_single_suggestion};
use crate::soundness::{
    lemma_added_as_leads, lemma_applied_leads, lemma_edit_removed_leads, lemma_removed_leads,
    lemma_stepped_leads, moves_noted,
};
use crate::system::{
    lemma_fetched, lemma_room_less, lemma_withdrawn_frame, ConstraintId, SolverModel,
};
use vstd::prelude::*;

verus! {

/// From one fetch to the next, every variable whose value differs between the two is in the later
/// list, with other calls in between: each one that was known throughout, and each one that the
/// earlier fetch did not know.
pub proof fn law_fetch_lists_changes(m: SolverModel, calls: Seq<Call>, v: Variable)
    requires
        m.sound(),
        without_fetch(calls),
        m.fetched().has_room_for_all(calls),
        m.fetched().after_all(calls).var_data.contains_key(v),
        m.var_data.contains_key(v) ==> m.fetched().after_all(calls).var_data[v].symbol
            == m.var_data[v].symbol,
        !m.value_of(v).nan(),
        !m.fetched().after_all(calls).value_of(v).nan(),
        !m.value_of(v).same(m.fetched().after_all(calls).value_of(v)),
    ensures
        m.fetched().after_all(calls).is_update(v),
{
    let f = m.fetched();
    let u = f.after_all(calls);
    lemma_fetched(m);
    law_all_calls_keep_sound(f, calls);
    assert(u.caught(v));
    assert(f.kept_in(u, v) || f.taken_up_in(u, v));
    if m.var_data.contains_key(v) {
        law_fetch_brings_up_to_date(m, v);
        assert(f.var_data.contains_key(v));
        assert(m.var_data[v].symbol.id() < m.id_tick);
        assert(f.kept_in(u, v));
    } else {
        assert(!f.var_data.contains_key(v));
    }
}

/// A variable that was forgotten after a fetch and taken up again is in the later list exactly if
/// a change of it is noted. It is noted wherever its value is other than zero.
pub proof fn law_fetch_lists_variables_taken_up_again(
    m: SolverModel,
    calls: Seq<Call>,
    v: Variable,
)
    requires
        m.sound(),
        without_fetch(calls),
        m.fetched().has_room_for_all(calls),
        m.var_data.contains_key(v),
        m.fetched().after_all(calls).var_data.contains_key(v),
        m.fetched().after_all(calls).var_data[v].symbol != m.var_data[v].symbol,
        !m.fetched().after_all(calls).value_of(v).nan(),
    ensures
        m.fetched().after_all(calls).is_update(v) <==> m.fetched().after_all(calls).noted_change(v),
        !m.fetched().after_all(calls).value_of(v).same(zero()) ==> m.fetched().after_all(
            calls,
        ).is_update(v),
{
    let f = m.fetched();
    let u = f.after_all(calls);
    lemma_fetched(m);
    law_all_calls_keep_sound(f, calls);
    assert(u.caught(v));
    assert(f.kept_in(u, v) || f.taken_up_in(u, v));
    assert(f.var_data[v].symbol == m.var_data[v].symbol);
}

/// Whether the symbol of a variable has no row any more, if the variable is known to the first
/// system and not to the second.
pub open spec fn leaves_no_row(a: SolverModel, b: SolverModel, v: Variable) -> bool {
    a.var_data.contains_key(v) && !b.var_data.contains_key(v) ==> !b.tableau.rows.contains_key(
        a.var_data[v].symbol,
    )
}

/// Whether a change, if its removal forgets a variable, leaves no row of its symbol.
pub open spec fn op_leaves_no_row(m: SolverModel, op: OpModel, v: Variable) -> bool {
    match op {
        OpModel::Remove(id) => leaves_no_row(m, m.removed(id).0, v),
        OpModel::Update { id, constraint: _ } => leaves_no_row(m, m.removed(id).0, v),
        OpModel::Add(_) => true,
    }
}

/// Whether each of some changes, when it has its turn, leaves no row of the symbol of a variable
/// that it forgets.
pub open spec fn ops_leave_no_row(
    m: SolverModel,
    ops: Seq<OpModel>,
    ts: Seq<TicketModel>,
    v: Variable,
) -> bool
    decreases ts.len(),
{
    ts.len() == 0 || (ops_leave_no_row(m, ops, ts.drop_last(), v) && (m.applied(
        ops,
        ts.drop_last(),
    ).1 is Ok ==> op_leaves_no_row(
        m.applied(ops, ts.drop_last()).0,
        ops[ts.last().index as int],
        v,
    )))
}

/// Whether a call leaves no row of the symbol of a variable where it forgets the variable.
pub open spec fn call_leaves_no_row(m: SolverModel, call: Call, v: Variable) -> bool {
    match call {
        Call::Remove(id) => leaves_no_row(m, m.removed(id).0, v),
        Call::RemoveEdit(w) => leaves_no_row(m, m.edit_removed(w).0, v),
        Call::Batch(ops) => ops_leave_no_row(m, ops, schedule(ops), v),
        Call::Reconcile(last, newest) => ops_leave_no_row(
            m,
            m.plan(last, newest),
            schedule(m.plan(last, newest)),
            v,
        ),
        _ => true,
    }
}

/// Whether each of some calls leaves no row of the symbol of a variable where it forgets the
/// variable.
pub open spec fn calls_leave_no_row(m: SolverModel, calls: Seq<Call>, v: Variable) -> bool
    decreases calls.len(),
{
    calls.len() == 0 || (calls_leave_no_row(m, calls.drop_last(), v) && call_leaves_no_row(
        m.after_all(calls.drop_last()),
        calls.last(),
        v,
    ))
}

proof fn lemma_absorbed_keeps(m: SolverModel, row: RowModel, terms: Seq<Term>, v: Variable)
    requires
        m.var_data.contains_key(v),
    ensures
        m.kept_in(m.absorbed(row, terms).0, v),
    decreases terms.len(),
{
    if terms.len() > 0 {
        lemma_absorbed_keeps(m, row, terms.drop_last(), v);
    }
}

pub(crate) proof fn lemma_added_as_keeps(m: SolverModel, id: ConstraintId, c: ConstraintModel, v: Variable)
    requires
        m.var_data.contains_key(v),
    ensures
        m.kept_in(m.added_as(id, c).0, v),
{
    reveal(SolverModel::added_as);
    lemma_absorbed_keeps(m, RowModel::only(c.constant), c.terms, v);
}

proof fn lemma_added_keeps(m: SolverModel, c: ConstraintModel, v: Variable)
    requires
        m.var_data.contains_key(v),
    ensures
        m.kept_in(m.added(c).0, v),
{
    let n = SolverModel { next_constraint_id: m.next_constraint_id + 1, ..m };
    lemma_added_as_keeps(n, m.next_id(), c, v);
}

proof fn lemma_added_all_keeps(m: SolverModel, cs: Seq<ConstraintModel>, v: Variable)
    requires
        m.var_data.contains_key(v),
    ensures
        m.kept_in(m.added_all(cs).0, v),
    decreases cs.len(),
{
    if cs.len() > 0 {
        lemma_added_all_keeps(m, cs.drop_last(), v);
        lemma_added_keeps(m.added_all(cs.drop_last()).0, cs.last(), v);
    }
}

proof fn lemma_shifted_all_keeps(m: SolverModel, values: Seq<(Variable, Number)>)
    ensures
        m.shifted_all(values).var_data == m.var_data,
    decreases values.len(),
{
    if values.len() > 0 {
        lemma_shifted_all_keeps(m, values.drop_last());
    }
}

proof fn lemma_removed_numbers(m: SolverModel, id: ConstraintId)
    ensures
        m.removed(id).0.id_tick == m.id_tick,
{
    if m.constraints.contains_key(id) {
        let entry = m.constraints[id];
        lemma_withdrawn_frame(m.unregistered(id), entry.constraint, entry.tag);
    }
}

/// Whether something other than zero was handed out of a variable last.
spec fn handed_out(m: SolverModel, v: Variable) -> bool {
    &&& m.var_data.contains_key(v)
    &&& !m.var_data[v].value.nan()
    &&& !m.var_data[v].value.same(zero())
}

proof fn lemma_removal_notes(a: SolverModel, b: SolverModel, v: Variable)
    requires
        a.sound(),
        b.sound(),
        a.leads_to(b),
        moves_noted(a, b),
        a.id_tick == b.id_tick,
        leaves_no_row(a, b, v),
        handed_out(a, v),
    ensures
        a.kept_in(b, v) || b.noted_change(v),
{
    if !b.var_data.contains_key(v) {
        let s = a.var_data[v].symbol;
        assert(a.caught(v));
        assert(a.value_of(v) == a.tableau.value(s));
        assert(b.tableau.value(s) == zero());
        if a.value_of(v).same(zero()) {
            assert(a.noted_change(v));
        }
    }
}

proof fn lemma_removed_notes(m: SolverModel, id: ConstraintId, v: Variable)
    requires
        m.sound(),
        leaves_no_row(m, m.removed(id).0, v),
        handed_out(m, v),
    ensures
        m.kept_in(m.removed(id).0, v) || m.removed(id).0.noted_change(v),
{
    lemma_removed_leads(m, id);
    lemma_removed_numbers(m, id);
    lemma_removal_notes(m, m.removed(id).0, v);
}

proof fn lemma_applied_notes(
    m: SolverModel,
    ops: Seq<OpModel>,
    ts: Seq<TicketModel>,
    n: nat,
    v: Variable,
)
    requires
        m.sound(),
        m.has_room(n + burden(ops, ts)),
        ops_leave_no_row(m, ops, ts, v),
        handed_out(m, v),
    ensures
        m.kept_in(m.applied(ops, ts).0, v) || m.applied(ops, ts).0.noted_change(v),
    decreases ts.len(),
{
    if ts.len() > 0 {
        let rest = ts.drop_last();
        let op = ops[ts.last().index as int];
        let room = n + op_weight(op);
        lemma_applied_leads(m, ops, rest, room);
        lemma_applied_notes(m, ops, rest, room, v);
        let a = m.applied(ops, rest).0;
        let b = m.applied(ops, ts).0;
        if let Ok(done) = m.applied(ops, rest).1 {
            lemma_stepped_leads(a, op, ts.last().index, done, n);
            if a.noted_change(v) {
                assert(b.noted_change(v));
            } else {
                match op {
                    OpModel::Add(c) => lemma_added_keeps(a, c, v),
                    OpModel::Remove(id) => lemma_removed_notes(a, id, v),
                    OpModel::Update { id, constraint } => {
                        lemma_removed_notes(a, id, v);
                        lemma_removed_leads(a, id);
                        if a.removed(id).1 is Ok {
                            let x = a.removed(id).0;
                            assert(x.has_room(room));
                            lemma_room_less(x, room, constraint.terms.len() + 3);
                            lemma_added_as_leads(x, id, constraint);
                            if a.kept_in(x, v) {
                                lemma_added_as_keeps(x, id, constraint, v);
                            }
                        }
                    },
                }
            }
        }
    }
}

proof fn lemma_batched_notes(m: SolverModel, ops: Seq<OpModel>, v: Variable)
    requires
        m.sound(),
        m.has_room_for(Call::Batch(ops)),
        ops_leave_no_row(m, ops, schedule(ops), v),
        handed_out(m, v),
    ensures
        m.kept_in(m.batched(ops).0, v) || m.batched(ops).0.noted_change(v),
{
    let s = schedule(ops);
    lemma_schedule(ops);
    lemma_burden_reordered(ops, s, tickets(ops));
    lemma_burden_whole(ops, ops.len() as int);
    assert(tickets(ops).take(ops.len() as int) =~= tickets(ops));
    assert(ops.take(ops.len() as int) =~= ops);
    lemma_applied_notes(m, ops, s, 0, v);
}

proof fn lemma_call_notes(m: SolverModel, call: Call, v: Variable)
    requires
        m.sound(),
        m.has_room_for(call),
        !(call is Fetch),
        call_leaves_no_row(m, call, v),
        m.var_data.contains_key(v),
        handed_out(m, v) || !(call is Remove || call is RemoveEdit || call is Batch
            || call is Reconcile),
    ensures
        m.kept_in(m.after(call), v) || m.after(call).noted_change(v),
{
    match call {
        Call::Add(c) => lemma_added_keeps(m, c, v),
        Call::AddAll(cs) => lemma_added_all_keeps(m, cs, v),
        Call::Remove(id) => lemma_removed_notes(m, id, v),
        Call::AddEdit(w, strength) => lemma_added_keeps(
            m,
            SolverModel::edit_constraint(w, strength),
            v,
        ),
        Call::RemoveEdit(w) => {
            lemma_edit_removed_leads(m, w);
            if m.edits.contains_key(w) {
                let a = SolverModel { edits: m.edits.remove(w), ..m };
                lemma_removed_numbers(a, m.edits[w].constraint_id);
            }
            lemma_removal_notes(m, m.edit_removed(w).0, v);
        },
        Call::Suggest(w, value) => {
            law_single_suggestion(m, w, value);
            lemma_shifted_all_keeps(m, seq![(w, value)]);
        },
        Call::SuggestAll(values) => lemma_shifted_all_keeps(m, values),
        Call::Batch(ops) => lemma_batched_notes(m, ops, v),
        Call::Reconcile(last, newest) => lemma_batched_notes(m, m.plan(last, newest), v),
        Call::Fetch => {},
    }
}

/// A call that forgets a variable notes it, whether or not it takes the variable up again, where
/// the variable had a value other than zero and its symbol had left the basis when it was
/// forgotten.
pub proof fn law_forgotten_is_noted(m: SolverModel, call: Call, v: Variable)
    requires
        m.sound(),
        m.has_room_for(call),
        !(call is Fetch),
        m.var_data.contains_key(v),
        !m.kept_in(m.after(call), v),
        call_leaves_no_row(m, call, v),
        !m.value_of(v).same(zero()),
        call is Batch || call is Reconcile ==> !m.value_of(v).nan(),
    ensures
        m.after(call).noted_change(v),
{
    law_calls_keep_sound(m, call);
    assert(m.caught(v));
    if !m.noted_change(v) {
        if !m.value_of(v).nan() {
            lemma_call_notes(m, call, v);
        } else {
            let u = m.after(call);
            let s = m.var_data[v].symbol;
            assert(m.value_of(v) == m.tableau.value(s));
            match call {
                Call::Remove(id) => {
                    lemma_removed_leads(m, id);
                    lemma_removed_numbers(m, id);
                    assert(u.tableau.value(s) == zero());
                },
                Call::RemoveEdit(w) => {
                    lemma_edit_removed_leads(m, w);
                    if m.edits.contains_key(w) {
                        let a = SolverModel { edits: m.edits.remove(w), ..m };
                        lemma_removed_numbers(a, m.edits[w].constraint_id);
                    }
                    assert(u.tableau.value(s) == zero());
                },
                _ => lemma_call_notes(m, call, v),
            }
        }
    }
}

proof fn lemma_calls_note(m: SolverModel, calls: Seq<Call>, v: Variable)
    requires
        m.sound(),
        m.has_room_for_all(calls),
        without_fetch(calls),
        calls_leave_no_row(m, calls, v),
        handed_out(m, v),
    ensures
        m.kept_in(m.after_all(calls), v) || m.after_all(calls).noted_change(v),
    decreases calls.len(),
{
    if calls.len() > 0 {
        let rest = calls.drop_last();
        assert forall|i: int| 0 <= i < rest.len() implies !((#[trigger] rest[i]) is Fetch) by {
            assert(rest[i] == calls[i]);
        }
        assert(!(calls[calls.len() - 1] is Fetch));
        lemma_calls_note(m, rest, v);
        law_all_calls_keep_sound(m, rest);
        let a = m.after_all(rest);
        law_calls_keep_sound(a, calls.last());
        if a.noted_change(v) {
            assert(a.leads_to(m.after_all(calls)));
        } else {
            lemma_call_notes(a, calls.last(), v);
        }
    }
}

/// From one fetch to the next, every variable whose value differs between the two is in the later
/// list, with any calls in between, and even where a removal, a batch or a reconciliation has
/// forgotten it and it was taken up again. The one exception is a variable whose symbol is still
/// basic when it is forgotten: no later change of it is noted under the variable's name.
pub proof fn law_fetch_lists_every_change(m: SolverModel, calls: Seq<Call>, v: Variable)
    requires
        m.sound(),
        without_fetch(calls),
        m.fetched().has_room_for_all(calls),
        calls_leave_no_row(m.fetched(), calls, v),
        m.fetched().after_all(calls).var_data.contains_key(v),
        !m.value_of(v).nan(),
        !m.fetched().after_all(calls).value_of(v).nan(),
        !m.value_of(v).same(m.fetched().after_all(calls).value_of(v)),
    ensures
        m.fetched().after_all(calls).is_update(v),
{
    let f = m.fetched();
    let u = f.after_all(calls);
    lemma_fetched(m);
    if m.var_data.contains_key(v) && u.var_data[v].symbol != m.var_data[v].symbol {
        law_fetch_lists_variables_taken_up_again(m, calls, v);
        if u.value_of(v).same(zero()) {
            law_fetch_brings_up_to_date(m, v);
            assert(f.var_data.contains_key(v));
            assert(f.var_data[v].symbol == m.var_data[v].symbol);
            lemma_calls_note(f, calls, v);
        }
    } else {
        law_fetch_lists_changes(m, calls, v);
    }
}

/// What is noted stays noted, whatever is called, until the next fetch.
pub proof fn law_noted_stays_noted(m: SolverModel, calls: Seq<Call>, v: Variable)
    requires
        m.sound(),
        without_fetch(calls),
        m.has_room_for_all(calls),
        m.noted_change(v),
    ensures
        m.after_all(calls).noted_change(v),
{
    law_all_calls_keep_sound(m, calls);
}

/// The first fetch of a new solver, or of one that was reset, lists every variable whose value is
/// other than zero.
pub proof fn law_first_fetch_lists_values(calls: Seq<Call>, v: Variable)
    requires
        without_fetch(calls),
        SolverModel::initial().has_room_for_all(calls),
        SolverModel::initial().after_all(calls).var_data.contains_key(v),
        !SolverModel::initial().after_all(calls).value_of(v).nan(),
        !SolverModel::initial().after_all(calls).value_of(v).same(zero()),
    ensures
        SolverModel::initial().after_all(calls).is_update(v),
{
    let m = SolverModel::initial();
    let u = m.after_all(calls);
    lemma_initial_sound();
    law_all_calls_keep_sound(m, calls);
    assert(u.caught(v));
    assert(m.taken_up_in(u, v));
}

/// The system without constraints is sound.
proof fn lemma_initial_sound()
    ensures
        SolverModel::initial().sound(),
{
    broadcast use vstd::multiset::group_multiset_axioms;

}

} // verus!
