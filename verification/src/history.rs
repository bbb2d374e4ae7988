//! Laws over any sequence of calls.
use crate::batch::{batch_weight, OpModel};
use crate::constraint::{ConstraintModel, Strength};
use crate::expression::Variable;
use crate::number::Number;
use crate::reconcile::{Observation, Wishes};
use crate::solver_laws::law_single_suggestion;
use crate::soundness::{
    lemma_added_all_leads, lemma_added_leads, lemma_batched_leads, lemma_edit_added_leads,
    lemma_edit_removed_leads, lemma_leads_to_itself, lemma_leads_to_twice, lemma_removed_leads,
    lemma_suggested_all_leads,
};
use crate::system::{lemma_fetched, total_weight, weight, ConstraintId, SolverModel};
use vstd::prelude::*;

verus! {

/// A call that may change a solver; there is none for a reset.
pub enum Call {
    Add(ConstraintModel),
    AddAll(Seq<ConstraintModel>),
    Remove(ConstraintId),
    AddEdit(Variable, Strength),
    RemoveEdit(Variable),
    Suggest(Variable, Number),
    SuggestAll(Seq<(Variable, Number)>),
    Batch(Seq<OpModel>),
    Reconcile(Observation, Wishes),
    Fetch,
}

impl SolverModel {
    /// The system after a call.
    pub open spec fn after(self, call: Call) -> SolverModel {
        match call {
            Call::Add(c) => self.added(c).0,
            Call::AddAll(cs) => self.added_all(cs).0,
            Call::Remove(id) => self.removed(id).0,
            Call::AddEdit(v, strength) => self.edit_added(v, strength).0,
            Call::RemoveEdit(v) => self.edit_removed(v).0,
            Call::Suggest(v, value) => self.suggested(v, value).0,
            Call::SuggestAll(values) => self.suggested_all(values).0,
            Call::Batch(ops) => self.batched(ops).0,
            Call::Reconcile(last, newest) => self.reconciled(last, newest).0,
            Call::Fetch => self.fetched(),
        }
    }

    /// The system after some calls, one after the other.
    pub open spec fn after_all(self, calls: Seq<Call>) -> SolverModel
        decreases calls.len(),
    {
        if calls.len() == 0 {
            self
        } else {
            self.after_all(calls.drop_last()).after(calls.last())
        }
    }

    /// Whether the machine's limits leave room for a call.
    pub open spec fn has_room_for(self, call: Call) -> bool {
        match call {
            Call::Add(c) => self.has_room(weight(c)),
            Call::AddAll(cs) => self.has_room(total_weight(cs)),
            Call::AddEdit(_, _) => self.has_room(5),
            Call::Batch(ops) => ops.len() <= usize::MAX && self.has_room(batch_weight(ops)),
            Call::Reconcile(last, newest) => self.plan(last, newest).len() <= usize::MAX
                && self.has_room(batch_weight(self.plan(last, newest))),
            _ => true,
        }
    }

    /// Whether the machine's limits leave room for each of some calls when its turn comes.
    pub open spec fn has_room_for_all(self, calls: Seq<Call>) -> bool
        decreases calls.len(),
    {
        calls.len() == 0 || (self.has_room_for_all(calls.drop_last()) && self.after_all(
            calls.drop_last(),
        ).has_room_for(calls.last()))
    }
}

/// Whether no call is a fetch.
pub open spec fn without_fetch(calls: Seq<Call>) -> bool {
    forall|i: int| 0 <= i < calls.len() ==> !((#[trigger] calls[i]) is Fetch)
}

/// A call leads from a sound system to a sound one.
pub proof fn law_calls_keep_sound(m: SolverModel, call: Call)
    requires
        m.sound(),
        m.has_room_for(call),
    ensures
        m.after(call).sound(),
        m.after(call).next_constraint_id >= m.next_constraint_id,
        !(call is Fetch) ==> m.leads_to(m.after(call)),
{
    match call {
        Call::Add(c) => lemma_added_leads(m, c),
        Call::AddAll(cs) => lemma_added_all_leads(m, cs, 0),
        Call::Remove(id) => lemma_removed_leads(m, id),
        Call::AddEdit(v, strength) => lemma_edit_added_leads(m, v, strength),
        Call::RemoveEdit(v) => lemma_edit_removed_leads(m, v),
        Call::Suggest(v, value) => {
            law_single_suggestion(m, v, value);
            lemma_suggested_all_leads(m, seq![(v, value)]);
        },
        Call::SuggestAll(values) => lemma_suggested_all_leads(m, values),
        Call::Batch(ops) => lemma_batched_leads(m, ops),
        Call::Reconcile(last, newest) => lemma_batched_leads(m, m.plan(last, newest)),
        Call::Fetch => lemma_fetched(m),
    }
}

/// Any calls lead from a sound system to a sound one.
pub proof fn law_all_calls_keep_sound(m: SolverModel, calls: Seq<Call>)
    requires
        m.sound(),
        m.has_room_for_all(calls),
    ensures
        m.after_all(calls).sound(),
        m.after_all(calls).next_constraint_id >= m.next_constraint_id,
        without_fetch(calls) ==> m.leads_to(m.after_all(calls)),
    decreases calls.len(),
{
    lemma_leads_to_itself(m);
    if calls.len() > 0 {
        let rest = calls.drop_last();
        law_all_calls_keep_sound(m, rest);
        let a = m.after_all(rest);
        law_calls_keep_sound(a, calls.last());
        if without_fetch(calls) {
            assert forall|i: int| 0 <= i < rest.len() implies !((#[trigger] rest[i]) is Fetch) by {
                assert(rest[i] == calls[i]);
            }
            assert(!(calls[calls.len() - 1] is Fetch));
            lemma_leads_to_twice(m, a, m.after_all(calls));
        }
    }
}

/// A new handle is above every handle that was in the solver at any earlier point, and above the
/// one that an earlier addition has returned.
pub proof fn law_handles_increase(
    m: SolverModel,
    calls: Seq<Call>,
    i: int,
    id: ConstraintId,
    c: ConstraintModel,
)
    requires
        m.sound(),
        m.has_room_for_all(calls),
        0 <= i <= calls.len(),
        m.after_all(calls).has_room(weight(c)),
        m.after_all(calls.take(i)).constraints.contains_key(id) || (i < calls.len() && calls[i] is Add
            && m.after_all(calls.take(i)).next_id() == id && m.after_all(calls.take(i)).added(
            calls[i]->Add_0,
        ).1 is Ok),
        m.after_all(calls).added(c).1 is Ok,
    ensures
        m.after_all(calls).added(c).1->Ok_0.number() > id.number(),
{
    let u = m.after_all(calls);
    lemma_rooms(m, calls, i);
    let a = m.after_all(calls.take(i));
    law_all_calls_keep_sound(m, calls.take(i));
    if a.constraints.contains_key(id) {
        lemma_numbers_grow(m, calls, i);
        assert(id.number() < a.next_constraint_id);
    } else {
        lemma_rooms(m, calls, i + 1);
        lemma_numbers_grow(m, calls, i + 1);
        assert(calls.take(i + 1).drop_last() =~= calls.take(i));
        assert(calls.take(i + 1).last() == calls[i]);
        let b = m.after_all(calls.take(i + 1));
        let d = calls[i]->Add_0;
        let n = SolverModel { next_constraint_id: a.next_constraint_id + 1, ..a };
        crate::system::lemma_added_as_frame(n, a.next_id(), d);
        assert(b.next_constraint_id == a.next_constraint_id + 1);
        assert(id.number() == a.next_constraint_id);
    }
}

/// There is room for the first of some calls.
proof fn lemma_rooms(m: SolverModel, calls: Seq<Call>, i: int)
    requires
        m.has_room_for_all(calls),
        0 <= i <= calls.len(),
    ensures
        m.has_room_for_all(calls.take(i)),
    decreases calls.len(),
{
    if i == calls.len() {
        assert(calls.take(i) =~= calls);
    } else {
        lemma_rooms(m, calls.drop_last(), i);
        assert(calls.drop_last().take(i) =~= calls.take(i));
    }
}

/// The number of the next handle does not go down.
proof fn lemma_numbers_grow(m: SolverModel, calls: Seq<Call>, i: int)
    requires
        m.sound(),
        m.has_room_for_all(calls),
        0 <= i <= calls.len(),
    ensures
        m.after_all(calls).next_constraint_id >= m.after_all(calls.take(i)).next_constraint_id,
    decreases calls.len(),
{
    if i == calls.len() {
        assert(calls.take(i) =~= calls);
    } else {
        let rest = calls.drop_last();
        lemma_numbers_grow(m, rest, i);
        assert(rest.take(i) =~= calls.take(i));
        law_all_calls_keep_sound(m, rest);
        law_calls_keep_sound(m.after_all(rest), calls.last());
    }
}

} // verus!
