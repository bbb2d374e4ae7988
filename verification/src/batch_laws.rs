//! Laws of batches: what a batch does to the constraints of a solver, whatever the order in which
//! its changes are written down.
use crate::batch::{
    batch_weight, burden, lemma_burden_reordered, lemma_burden_whole, lemma_schedule, schedule,
    stage, tickets, BatchModel, ConstraintBatchApplyError, OpModel, Stage, StageModel, Ticket,
    TicketModel,
};
use crate::constraint::ConstraintModel;
use crate::error::AddConstraintError;
use crate::fingerprint::{fingerprint, ConstraintFingerprint};
use crate::order::{lemma_listing, lists, ranking, Ranked};
use crate::solver_laws::law_refused_leaves_constraints;
use crate::system::{lemma_added_as_frame, lemma_withdrawn_frame, weight, ConstraintId, SolverModel};
use vstd::prelude::*;
use vstd::relations::*;
use vstd::seq_lib::*;

verus! {

/// Whether a change is about the constraint with a handle.
pub open spec fn concerns(op: OpModel, id: ConstraintId) -> bool {
    match op {
        OpModel::Add(_) => false,
        OpModel::Remove(k) => k == id,
        OpModel::Update { id: k, .. } => k == id,
    }
}

/// Whether all handles of a system were given out.
spec fn issued(m: SolverModel) -> bool {
    forall|id: ConstraintId| #[trigger]
        m.constraints.contains_key(id) ==> id.number() < m.next_constraint_id
}

/// The kind of a change, by its turn.
spec fn turn(op: OpModel) -> nat {
    match op {
        OpModel::Remove(_) => 0,
        OpModel::Update { .. } => 1,
        OpModel::Add(_) => 2,
    }
}

/// The change with a ticket.
spec fn op_at(ops: Seq<OpModel>, ts: Seq<TicketModel>, i: int) -> OpModel {
    ops[ts[i].index as int]
}

/// Whether removals come before updates, and updates before additions.
spec fn in_turn(ops: Seq<OpModel>, ts: Seq<TicketModel>) -> bool {
    &&& forall|i: int| 0 <= i < ts.len() ==> (#[trigger] ts[i]).index < ops.len()
    &&& forall|i: int, j: int|
        0 <= i <= j < ts.len() ==> turn(#[trigger] op_at(ops, ts, i)) <= turn(
            #[trigger] op_at(ops, ts, j),
        )
}

/// Whether an update is the last one of its constraint.
spec fn last_of(ops: Seq<OpModel>, ts: Seq<TicketModel>, i: int, id: ConstraintId) -> bool {
    forall|j: int| i < j < ts.len() && 0 <= j ==> !concerns(#[trigger] op_at(ops, ts, j), id)
}

/// Whether a handle was given out for an addition.
pub open spec fn given(done: BatchModel, id: ConstraintId) -> bool {
    exists|k: int| 0 <= k < done.added.len() && (#[trigger] done.added[k]).1 == id
}

/// Whether there is a report on a change.
pub open spec fn reported(done: BatchModel, index: usize) -> bool {
    ||| exists|k: int| 0 <= k < done.added.len() && (#[trigger] done.added[k]).0 == index
    ||| exists|k: int|
        0 <= k < done.skipped_adds.len() && (#[trigger] done.skipped_adds[k]).0 == index
}

/// What some changes do, where none of them fails.
spec fn effective(
    m: SolverModel,
    ops: Seq<OpModel>,
    ts: Seq<TicketModel>,
    u: SolverModel,
    done: BatchModel,
) -> bool {
    &&& issued(u)
    &&& m.next_constraint_id <= u.next_constraint_id <= m.next_constraint_id + burden(ops, ts)
    &&& forall|i: int, id: ConstraintId|
        0 <= i < ts.len() && #[trigger] concerns(op_at(ops, ts, i), id)
            ==> m.constraints.contains_key(id)
    &&& forall|i: int|
        0 <= i < ts.len() ==> ((#[trigger] op_at(ops, ts, i)) matches OpModel::Remove(id)
            ==> !u.constraints.contains_key(id))
    &&& forall|i: int|
        0 <= i < ts.len() ==> ((#[trigger] op_at(ops, ts, i)) matches OpModel::Update {
            id,
            constraint,
        } ==> u.constraints.contains_key(id) && (last_of(ops, ts, i, id)
            ==> u.constraints[id].constraint == constraint))
    &&& forall|id: ConstraintId| #[trigger]
        m.constraints.contains_key(id) && last_of(ops, ts, -1, id) ==> u.constraints.contains_key(
            id,
        ) && u.constraints[id] == m.constraints[id]
    &&& forall|id: ConstraintId| #[trigger]
        u.constraints.contains_key(id) ==> m.constraints.contains_key(id) || given(done, id)
    &&& forall|k: int|
        0 <= k < done.added.len() ==> granted_to(m, ops, u, #[trigger] done.added[k])
    &&& forall|k: int, l: int|
        0 <= k < l < done.added.len() ==> (#[trigger] done.added[k]).1.number() < (
        #[trigger] done.added[l]).1.number()
    &&& forall|i: int|
        0 <= i < ts.len() && (#[trigger] op_at(ops, ts, i)) is Add ==> reported(done, ts[i].index)
    &&& forall|k: int|
        0 <= k < done.skipped_adds.len() ==> !(((#[trigger] done.skipped_adds[k]).1) is InternalSolverError)
}

/// Whether a handle is new and leads to the constraint that was added.
pub open spec fn granted_to(
    m: SolverModel,
    ops: Seq<OpModel>,
    u: SolverModel,
    entry: (usize, ConstraintId),
) -> bool {
    &&& entry.0 < ops.len()
    &&& entry.1.number() >= m.next_constraint_id
    &&& u.constraints.contains_key(entry.1)
    &&& ops[entry.0 as int] == OpModel::Add(u.constraints[entry.1].constraint)
}

/// What a removal leaves.
proof fn lemma_removed_frame(m: SolverModel, id: ConstraintId)
    requires
        m.removed(id).1 is Ok,
    ensures
        m.constraints.contains_key(id),
        m.removed(id).0.constraints == m.constraints.remove(id),
        m.removed(id).0.next_constraint_id == m.next_constraint_id,
{
    let entry = m.constraints[id];
    lemma_withdrawn_frame(m.unregistered(id), entry.constraint, entry.tag);
}

/// Before the additions nothing is reported.
proof fn lemma_no_additions(m: SolverModel, ops: Seq<OpModel>, ts: Seq<TicketModel>)
    requires
        forall|i: int| 0 <= i < ts.len() ==> !((#[trigger] op_at(ops, ts, i)) is Add),
        m.applied(ops, ts).1 is Ok,
    ensures
        m.applied(ops, ts).1->Ok_0 == BatchModel::empty(),
    decreases ts.len(),
{
    if ts.len() > 0 {
        let rest = ts.drop_last();
        assert forall|i: int| 0 <= i < rest.len() implies !((#[trigger] op_at(ops, rest, i)) is Add) by {
            assert(op_at(ops, rest, i) == op_at(ops, ts, i));
        }
        assert(!(op_at(ops, ts, ts.len() - 1) is Add));
        lemma_no_additions(m, ops, rest);
    }
}

/// The changes before the last one.
proof fn lemma_rest(ops: Seq<OpModel>, ts: Seq<TicketModel>)
    requires
        in_turn(ops, ts),
        ts.len() > 0,
    ensures
        in_turn(ops, ts.drop_last()),
        forall|i: int|
            0 <= i < ts.len() - 1 ==> #[trigger] op_at(ops, ts.drop_last(), i) == op_at(ops, ts, i),
        forall|i: int, id: ConstraintId|
            last_of(ops, ts, i, id) ==> #[trigger] last_of(ops, ts.drop_last(), i, id),
        forall|i: int, id: ConstraintId|
            i < ts.len() - 1 && #[trigger] last_of(ops, ts, i, id) ==> !concerns(
                op_at(ops, ts, ts.len() - 1),
                id,
            ),
{
    let rest = ts.drop_last();
    assert forall|i: int| 0 <= i < rest.len() implies (#[trigger] rest[i]).index < ops.len() by {
        assert(rest[i] == ts[i]);
    }
    assert forall|i: int| 0 <= i < rest.len() implies #[trigger] op_at(ops, rest, i) == op_at(
        ops,
        ts,
        i,
    ) by {}
    assert forall|i: int, j: int| 0 <= i <= j < rest.len() implies turn(
        #[trigger] op_at(ops, rest, i),
    ) <= turn(#[trigger] op_at(ops, rest, j)) by {
        assert(turn(op_at(ops, ts, i)) <= turn(op_at(ops, ts, j)));
    }
    assert forall|i: int, id: ConstraintId| last_of(ops, ts, i, id) implies #[trigger] last_of(
        ops,
        rest,
        i,
        id,
    ) by {
        assert forall|j: int| i < j < rest.len() && 0 <= j implies !concerns(
            #[trigger] op_at(ops, rest, j),
            id,
        ) by {
            assert(op_at(ops, rest, j) == op_at(ops, ts, j));
            assert(!concerns(op_at(ops, ts, j), id));
        }
    }
}

/// One more removal.
proof fn lemma_effective_removal(
    m: SolverModel,
    ops: Seq<OpModel>,
    ts: Seq<TicketModel>,
    a: SolverModel,
    u: SolverModel,
    id: ConstraintId,
)
    requires
        in_turn(ops, ts),
        ts.len() > 0,
        effective(m, ops, ts.drop_last(), a, BatchModel::empty()),
        op_at(ops, ts, ts.len() - 1) == OpModel::Remove(id),
        a.constraints.contains_key(id),
        u.constraints == a.constraints.remove(id),
        u.next_constraint_id == a.next_constraint_id,
    ensures
        effective(m, ops, ts, u, BatchModel::empty()),
{
    lemma_rest(ops, ts);
    let rest = ts.drop_last();
    let n = rest.len() as int;
    assert forall|i: int, k: ConstraintId|
        0 <= i < ts.len() && #[trigger] concerns(
            op_at(ops, ts, i),
            k,
        ) implies m.constraints.contains_key(k) by {
        if i < n {
            assert(concerns(op_at(ops, rest, i), k));
        }
    }
    assert forall|i: int| 0 <= i < ts.len() implies ((
    #[trigger] op_at(ops, ts, i)) matches OpModel::Remove(k) ==> !u.constraints.contains_key(k)) by {
        if i < n {
            assert(op_at(ops, rest, i) == op_at(ops, ts, i));
        }
    }
    assert forall|i: int| 0 <= i < ts.len() implies (#[trigger] op_at(ops, ts, i)) is Remove by {
        assert(turn(op_at(ops, ts, i)) <= turn(op_at(ops, ts, n)));
    }
    assert forall|k: ConstraintId| #[trigger]
        m.constraints.contains_key(k) && last_of(ops, ts, -1, k) implies u.constraints.contains_key(
        k,
    ) && u.constraints[k] == m.constraints[k] by {
        assert(last_of(ops, rest, -1, k));
    }
}

/// One more update.
proof fn lemma_effective_update(
    m: SolverModel,
    ops: Seq<OpModel>,
    ts: Seq<TicketModel>,
    a: SolverModel,
    u: SolverModel,
    id: ConstraintId,
    c: ConstraintModel,
)
    requires
        in_turn(ops, ts),
        ts.len() > 0,
        effective(m, ops, ts.drop_last(), a, BatchModel::empty()),
        op_at(ops, ts, ts.len() - 1) == (OpModel::Update { id, constraint: c }),
        a.constraints.contains_key(id),
        u.constraints.contains_key(id),
        u.constraints[id].constraint == c,
        forall|k: ConstraintId|
            k != id ==> (#[trigger] u.constraints.contains_key(k) <==> a.constraints.contains_key(
                k,
            )),
        forall|k: ConstraintId|
            k != id && a.constraints.contains_key(k) ==> #[trigger] u.constraints[k]
                == a.constraints[k],
        u.next_constraint_id == a.next_constraint_id,
    ensures
        effective(m, ops, ts, u, BatchModel::empty()),
{
    lemma_rest(ops, ts);
    let rest = ts.drop_last();
    let n = rest.len() as int;
    assert forall|i: int, k: ConstraintId|
        0 <= i < ts.len() && #[trigger] concerns(
            op_at(ops, ts, i),
            k,
        ) implies m.constraints.contains_key(k) by {
        if i < n {
            assert(concerns(op_at(ops, rest, i), k));
        }
    }
    assert forall|i: int| 0 <= i < ts.len() implies ((
    #[trigger] op_at(ops, ts, i)) matches OpModel::Remove(k) ==> !u.constraints.contains_key(k)) by {
        if i < n {
            assert(op_at(ops, rest, i) == op_at(ops, ts, i));
        }
    }
    assert forall|i: int| 0 <= i < ts.len() implies !((#[trigger] op_at(ops, ts, i)) is Add) by {
        assert(turn(op_at(ops, ts, i)) <= turn(op_at(ops, ts, n)));
    }
    assert forall|i: int| 0 <= i < ts.len() implies ((
    #[trigger] op_at(ops, ts, i)) matches OpModel::Update { id: k, constraint }
        ==> u.constraints.contains_key(k) && (last_of(ops, ts, i, k)
        ==> u.constraints[k].constraint == constraint)) by {
        if i < n {
            assert(op_at(ops, rest, i) == op_at(ops, ts, i));
            if let OpModel::Update { id: k, constraint } = op_at(ops, ts, i) {
                if last_of(ops, ts, i, k) {
                    assert(last_of(ops, rest, i, k));
                }
            }
        }
    }
    assert forall|k: ConstraintId| #[trigger]
        m.constraints.contains_key(k) && last_of(ops, ts, -1, k) implies u.constraints.contains_key(
        k,
    ) && u.constraints[k] == m.constraints[k] by {
        assert(last_of(ops, rest, -1, k));
    }
    assert forall|k: ConstraintId| #[trigger]
        u.constraints.contains_key(k) implies m.constraints.contains_key(k) || given(
        BatchModel::empty(),
        k,
    ) by {
        assert(a.constraints.contains_key(k));
    }
}

/// One more addition.
proof fn lemma_effective_addition(
    m: SolverModel,
    ops: Seq<OpModel>,
    ts: Seq<TicketModel>,
    a: SolverModel,
    before: BatchModel,
    u: SolverModel,
    done: BatchModel,
    c: ConstraintModel,
)
    requires
        issued(m),
        in_turn(ops, ts),
        ts.len() > 0,
        effective(m, ops, ts.drop_last(), a, before),
        op_at(ops, ts, ts.len() - 1) == OpModel::Add(c),
        a.next_constraint_id + 1 <= u64::MAX,
        u.next_constraint_id == a.next_constraint_id + 1,
        forall|k: ConstraintId|
            a.constraints.contains_key(k) ==> #[trigger] u.constraints.contains_key(k)
                && u.constraints[k] == a.constraints[k],
        ({
            let index = ts.last().index;
            let id = a.next_id();
            ||| {
                &&& done.added == before.added.push((index, id))
                &&& done.skipped_adds == before.skipped_adds
                &&& u.constraints.contains_key(id)
                &&& u.constraints[id].constraint == c
                &&& forall|k: ConstraintId| #[trigger]
                    u.constraints.contains_key(k) ==> k == id || a.constraints.contains_key(k)
            }
            ||| {
                &&& done.added == before.added
                &&& exists|e: AddConstraintError|
                    !(e is InternalSolverError) && done.skipped_adds == #[trigger] before.skipped_adds.push(
                        (index, e),
                    )
                &&& u.constraints == a.constraints
            }
        }),
    ensures
        effective(m, ops, ts, u, done),
{
    lemma_rest(ops, ts);
    let rest = ts.drop_last();
    let n = rest.len() as int;
    let index = ts.last().index;
    let id = a.next_id();
    assert(ts[n].index < ops.len());
    assert(id.number() == a.next_constraint_id);
    assert(!a.constraints.contains_key(id));
    assert forall|i: int, k: ConstraintId|
        0 <= i < ts.len() && #[trigger] concerns(
            op_at(ops, ts, i),
            k,
        ) implies m.constraints.contains_key(k) by {
        if i < n {
            assert(concerns(op_at(ops, rest, i), k));
        }
    }
    assert forall|i: int| 0 <= i < ts.len() implies ((
    #[trigger] op_at(ops, ts, i)) matches OpModel::Remove(k) ==> !u.constraints.contains_key(k)) by {
        if i < n {
            assert(op_at(ops, rest, i) == op_at(ops, ts, i));
            if let OpModel::Remove(k) = op_at(ops, ts, i) {
                assert(concerns(op_at(ops, rest, i), k));
                assert(m.constraints.contains_key(k));
                assert(!a.constraints.contains_key(k));
                assert(k != id);
            }
        }
    }
    assert forall|i: int| 0 <= i < ts.len() implies ((
    #[trigger] op_at(ops, ts, i)) matches OpModel::Update { id: k, constraint }
        ==> u.constraints.contains_key(k) && (last_of(ops, ts, i, k)
        ==> u.constraints[k].constraint == constraint)) by {
        if i < n {
            assert(op_at(ops, rest, i) == op_at(ops, ts, i));
            if let OpModel::Update { id: k, constraint } = op_at(ops, ts, i) {
                assert(a.constraints.contains_key(k));
                assert(u.constraints.contains_key(k) && u.constraints[k] == a.constraints[k]);
                if last_of(ops, ts, i, k) {
                    assert(last_of(ops, rest, i, k));
                    assert(a.constraints[k].constraint == constraint);
                }
            }
        }
    }
    assert forall|k: ConstraintId| #[trigger]
        m.constraints.contains_key(k) && last_of(ops, ts, -1, k) implies u.constraints.contains_key(
        k,
    ) && u.constraints[k] == m.constraints[k] by {
        assert(last_of(ops, rest, -1, k));
    }
    assert forall|k: int| 0 <= k < before.added.len() implies done.added[k] == #[trigger] before.added[k] by {}
    assert forall|k: ConstraintId| #[trigger]
        u.constraints.contains_key(k) implies m.constraints.contains_key(k) || given(done, k) by {
        if a.constraints.contains_key(k) && !m.constraints.contains_key(k) {
            assert(given(before, k));
            let l = choose|l: int|
                0 <= l < before.added.len() && (#[trigger] before.added[l]).1 == k;
            assert(done.added[l].1 == k);
        } else if !a.constraints.contains_key(k) {
            assert(done.added[before.added.len() as int].1 == k);
        }
    }
    assert forall|k: int| 0 <= k < done.added.len() implies granted_to(
        m,
        ops,
        u,
        #[trigger] done.added[k],
    ) by {
        if k < before.added.len() {
            assert(granted_to(m, ops, a, before.added[k]));
        }
    }
    assert forall|k: int, l: int| 0 <= k < l < done.added.len() implies (
    #[trigger] done.added[k]).1.number() < (#[trigger] done.added[l]).1.number() by {
        if l < before.added.len() {
            assert(before.added[k].1.number() < before.added[l].1.number());
        } else {
            assert(granted_to(m, ops, a, before.added[k]));
            assert(a.constraints.contains_key(before.added[k].1));
        }
    }
    assert forall|i: int| 0 <= i < ts.len() && (#[trigger] op_at(ops, ts, i)) is Add implies reported(
        done,
        ts[i].index,
    ) by {
        if i < n {
            assert(op_at(ops, rest, i) == op_at(ops, ts, i));
            assert(reported(before, rest[i].index));
            lemma_still_reported(before, done, rest[i].index);
        } else {
            if done.added.len() > before.added.len() {
                assert(done.added[before.added.len() as int].0 == index);
            } else {
                assert(done.skipped_adds[before.skipped_adds.len() as int].0 == index);
            }
        }
    }
    assert forall|k: int| 0 <= k < done.skipped_adds.len() implies !(((
    #[trigger] done.skipped_adds[k]).1) is InternalSolverError) by {
        if k < before.skipped_adds.len() {
            assert(done.skipped_adds[k] == before.skipped_adds[k]);
        }
    }
}

/// Reports are not taken back.
proof fn lemma_still_reported(before: BatchModel, done: BatchModel, index: usize)
    requires
        reported(before, index),
        before.added.len() <= done.added.len(),
        before.skipped_adds.len() <= done.skipped_adds.len(),
        forall|k: int|
            0 <= k < before.added.len() ==> done.added[k] == #[trigger] before.added[k],
        forall|k: int|
            0 <= k < before.skipped_adds.len() ==> done.skipped_adds[k]
                == #[trigger] before.skipped_adds[k],
    ensures
        reported(done, index),
{
    if exists|k: int| 0 <= k < before.added.len() && (#[trigger] before.added[k]).0 == index {
        let k = choose|k: int|
            0 <= k < before.added.len() && (#[trigger] before.added[k]).0 == index;
        assert(done.added[k].0 == index);
    } else {
        let k = choose|k: int|
            0 <= k < before.skipped_adds.len() && (#[trigger] before.skipped_adds[k]).0 == index;
        assert(done.skipped_adds[k].0 == index);
    }
}

/// Some changes, one after the other.
proof fn lemma_effective(m: SolverModel, ops: Seq<OpModel>, ts: Seq<TicketModel>)
    requires
        issued(m),
        in_turn(ops, ts),
        m.next_constraint_id + burden(ops, ts) <= u64::MAX,
        m.applied(ops, ts).1 is Ok,
    ensures
        effective(m, ops, ts, m.applied(ops, ts).0, m.applied(ops, ts).1->Ok_0),
    decreases ts.len(),
{
    if ts.len() > 0 {
        let rest = ts.drop_last();
        let n = rest.len() as int;
        lemma_rest(ops, ts);
        lemma_effective(m, ops, rest);
        let a = m.applied(ops, rest).0;
        let before = m.applied(ops, rest).1->Ok_0;
        let u = m.applied(ops, ts).0;
        let done = m.applied(ops, ts).1->Ok_0;
        let op = op_at(ops, ts, n);
        if !(op is Add) {
            assert forall|i: int| 0 <= i < n implies !((#[trigger] op_at(ops, rest, i)) is Add) by {
                assert(turn(op_at(ops, ts, i)) <= turn(op_at(ops, ts, n)));
            }
            lemma_no_additions(m, ops, rest);
        }
        match op {
            OpModel::Remove(id) => {
                lemma_removed_frame(a, id);
                lemma_effective_removal(m, ops, ts, a, u, id);
            },
            OpModel::Update { id, constraint } => {
                lemma_removed_frame(a, id);
                let b = a.removed(id).0;
                lemma_added_as_frame(b, id, constraint);
                assert forall|k: ConstraintId|
                    k != id && a.constraints.contains_key(k) implies #[trigger] u.constraints[k]
                    == a.constraints[k] by {
                    assert(b.constraints.contains_key(k));
                }
                assert forall|k: ConstraintId| k != id implies (
                #[trigger] u.constraints.contains_key(k) <==> a.constraints.contains_key(k)) by {
                    assert(b.added_as(id, constraint).0.constraints.contains_key(k)
                        <==> b.constraints.contains_key(k));
                }
                lemma_effective_update(m, ops, ts, a, u, id, constraint);
            },
            OpModel::Add(c) => {
                let id = a.next_id();
                let next = SolverModel { next_constraint_id: a.next_constraint_id + 1, ..a };
                assert(weight(c) >= 4);
                lemma_added_as_frame(next, id, c);
                assert(id.number() == a.next_constraint_id);
                assert(!a.constraints.contains_key(id));
                if !(a.added(c).1 is Ok) {
                    law_refused_leaves_constraints(a, c);
                    let e = a.added(c).1->Err_0;
                    assert(done.skipped_adds == before.skipped_adds.push((ts.last().index, e)));
                } else {
                    assert forall|k: ConstraintId| a.constraints.contains_key(k) implies
                        #[trigger] u.constraints.contains_key(k) && u.constraints[k]
                        == a.constraints[k] by {
                        assert(next.added_as(id, c).0.constraints.contains_key(k)
                            <==> next.constraints.contains_key(k));
                    }
                    assert forall|k: ConstraintId| #[trigger] u.constraints.contains_key(k) implies k
                        == id || a.constraints.contains_key(k) by {
                        if k != id {
                            assert(next.added_as(id, c).0.constraints.contains_key(k)
                                <==> next.constraints.contains_key(k));
                        }
                    }
                }
                lemma_effective_addition(m, ops, ts, a, before, u, done, c);
            },
        }
    }
}

/// The schedule goes by turns, and each change has one place in it.
proof fn lemma_places(ops: Seq<OpModel>)
    requires
        ops.len() <= usize::MAX,
    ensures
        in_turn(ops, schedule(ops)),
        schedule(ops).len() == ops.len(),
        forall|i: int|
            0 <= i < ops.len() ==> exists|p: int|
                0 <= p < ops.len() && #[trigger] schedule(ops)[p].index == i && op_at(
                    ops,
                    schedule(ops),
                    p,
                ) == #[trigger] ops[i],
        forall|p: int, q: int|
            0 <= p < ops.len() && 0 <= q < ops.len() && p != q ==> (
            #[trigger] schedule(ops)[p]).index != (#[trigger] schedule(ops)[q]).index,
{
    broadcast use group_to_multiset_ensures;
    broadcast use vstd::multiset::group_multiset_axioms;

    let s = schedule(ops);
    let ts = tickets(ops);
    lemma_schedule(ops);
    assert(ts.no_duplicates());
    ts.lemma_multiset_has_no_duplicates();
    s.lemma_multiset_has_no_duplicates_conv();
    assert forall|i: int| 0 <= i < ops.len() implies exists|p: int|
        0 <= p < ops.len() && #[trigger] s[p].index == i && op_at(ops, s, p) == #[trigger] ops[i] by {
        assert(ts[i].index == i);
        assert(ts.contains(ts[i]));
        assert(s.to_multiset().count(ts[i]) > 0);
        assert(s.contains(ts[i]));
        let p = s.index_of(ts[i]);
        assert(s[p] == ts[i]);
    }
    assert forall|p: int, q: int| 0 <= p < ops.len() && 0 <= q < ops.len() && p != q implies (
    #[trigger] s[p]).index != (#[trigger] s[q]).index by {
        assert(s[p] != s[q]);
        assert(s[p].stage == stage(ops[s[p].index as int]));
        assert(s[q].stage == stage(ops[s[q].index as int]));
    }
    assert forall|i: int, j: int| 0 <= i <= j < s.len() implies turn(
        #[trigger] op_at(ops, s, i),
    ) <= turn(#[trigger] op_at(ops, s, j)) by {
        if i < j {
            assert(ranking::<Ticket>()(s[i], s[j]));
            assert(s[i].stage == stage(op_at(ops, s, i)));
            assert(s[j].stage == stage(op_at(ops, s, j)));
        }
    }
}

/// Whether one addition has its turn before another: the one that says the smaller thing, or, of
/// two that say the same, the one that comes first in the batch.
pub open spec fn added_before(ops: Seq<OpModel>, i: usize, j: usize) -> bool {
    match (ops[i as int], ops[j as int]) {
        (OpModel::Add(c), OpModel::Add(d)) => if fingerprint(c) == fingerprint(d) {
            i < j
        } else {
            ConstraintFingerprint::leq(fingerprint(c), fingerprint(d))
        },
        _ => false,
    }
}

/// Whether the additions in a report stand in the order of their turns.
pub open spec fn ascends(ops: Seq<OpModel>, done: BatchModel) -> bool {
    &&& forall|k: int, l: int|
        0 <= k < l < done.added.len() ==> added_before(
            ops,
            (#[trigger] done.added[k]).0,
            (#[trigger] done.added[l]).0,
        )
    &&& forall|k: int, l: int|
        0 <= k < l < done.skipped_adds.len() ==> added_before(
            ops,
            (#[trigger] done.skipped_adds[k]).0,
            (#[trigger] done.skipped_adds[l]).0,
        )
}

/// Whether a report names no place twice.
pub open spec fn names_once(done: BatchModel) -> bool {
    &&& forall|k: int, l: int|
        0 <= k < l < done.added.len() ==> (#[trigger] done.added[k]).0 != (
        #[trigger] done.added[l]).0
    &&& forall|k: int, l: int|
        0 <= k < l < done.skipped_adds.len() ==> (#[trigger] done.skipped_adds[k]).0 != (
        #[trigger] done.skipped_adds[l]).0
    &&& forall|k: int, l: int|
        0 <= k < done.added.len() && 0 <= l < done.skipped_adds.len() ==> (
        #[trigger] done.added[k]).0 != (#[trigger] done.skipped_adds[l]).0
}

/// Whether a ticket has the place of an addition.
spec fn holds_addition(ops: Seq<OpModel>, ts: Seq<TicketModel>, index: usize, p: int) -> bool {
    0 <= p < ts.len() && ts[p].index == index && op_at(ops, ts, p) is Add
}

/// Whether an addition is among the first ones of the schedule.
spec fn had_turn(ops: Seq<OpModel>, n: int, index: usize) -> bool {
    exists|p: int| p < n && #[trigger] holds_addition(ops, schedule(ops), index, p)
}

/// Whether a report is about additions among the first ones of the schedule.
spec fn from_tickets(ops: Seq<OpModel>, n: int, done: BatchModel) -> bool {
    &&& forall|k: int| 0 <= k < done.added.len() ==> had_turn(ops, n, (#[trigger] done.added[k]).0)
    &&& forall|k: int|
        0 <= k < done.skipped_adds.len() ==> had_turn(ops, n, (#[trigger] done.skipped_adds[k]).0)
}

/// A report that names no place twice goes on so with a place that had no turn.
proof fn lemma_names_once(
    ops: Seq<OpModel>,
    n: int,
    before: BatchModel,
    done: BatchModel,
    index: usize,
)
    requires
        names_once(before),
        from_tickets(ops, n, before),
        !had_turn(ops, n, index),
        done == before || (done.skipped_adds == before.skipped_adds && done.added.len()
            == before.added.len() + 1 && done.added.drop_last() == before.added
            && done.added.last().0 == index) || (done.added == before.added
            && done.skipped_adds.len() == before.skipped_adds.len() + 1
            && done.skipped_adds.drop_last() == before.skipped_adds && done.skipped_adds.last().0
            == index),
    ensures
        names_once(done),
{
    assert forall|k: int| 0 <= k < before.added.len() implies (#[trigger] before.added[k]).0
        != index && before.added[k] == done.added[k] by {
        assert(had_turn(ops, n, before.added[k].0));
    }
    assert forall|k: int| 0 <= k < before.skipped_adds.len() implies (
    #[trigger] before.skipped_adds[k]).0 != index && before.skipped_adds[k]
        == done.skipped_adds[k] by {
        assert(had_turn(ops, n, before.skipped_adds[k].0));
    }
    assert forall|k: int, l: int| 0 <= k < l < done.added.len() implies (
    #[trigger] done.added[k]).0 != (#[trigger] done.added[l]).0 by {
        assert(before.added[k] == done.added[k]);
        if l < before.added.len() {
            assert(before.added[l] == done.added[l]);
        }
    }
    assert forall|k: int, l: int| 0 <= k < l < done.skipped_adds.len() implies (
    #[trigger] done.skipped_adds[k]).0 != (#[trigger] done.skipped_adds[l]).0 by {
        assert(before.skipped_adds[k] == done.skipped_adds[k]);
        if l < before.skipped_adds.len() {
            assert(before.skipped_adds[l] == done.skipped_adds[l]);
        }
    }
    assert forall|k: int, l: int|
        0 <= k < done.added.len() && 0 <= l < done.skipped_adds.len() implies (
    #[trigger] done.added[k]).0 != (#[trigger] done.skipped_adds[l]).0 by {
        if k < before.added.len() {
            assert(before.added[k] == done.added[k]);
        }
        if l < before.skipped_adds.len() {
            assert(before.skipped_adds[l] == done.skipped_adds[l]);
        }
    }
}

/// Reports follow the tickets.
proof fn lemma_ascends(m: SolverModel, ops: Seq<OpModel>, n: int)
    requires
        ops.len() <= usize::MAX,
        0 <= n <= schedule(ops).len(),
        m.applied(ops, schedule(ops).take(n)).1 is Ok,
    ensures
        ascends(ops, m.applied(ops, schedule(ops).take(n)).1->Ok_0),
        from_tickets(ops, n, m.applied(ops, schedule(ops).take(n)).1->Ok_0),
        names_once(m.applied(ops, schedule(ops).take(n)).1->Ok_0),
    decreases n,
{
    let s = schedule(ops);
    if n > 0 {
        assert(s.take(n).drop_last() =~= s.take(n - 1));
        assert(s.take(n).last() == s[n - 1]);
        lemma_ascends(m, ops, n - 1);
        let before = m.applied(ops, s.take(n - 1)).1->Ok_0;
        let done = m.applied(ops, s.take(n)).1->Ok_0;
        let index = s[n - 1].index;
        assert forall|i: usize, p: int|
            p < n - 1 && op_at(ops, s, n - 1) is Add && #[trigger] holds_addition(
                ops,
                s,
                i,
                p,
            ) implies added_before(ops, i, index) by {
            lemma_turn_order(ops, p, n - 1);
        }
        if op_at(ops, s, n - 1) is Add {
            assert(holds_addition(ops, s, index, n - 1));
        }
        assert forall|i: usize| #[trigger] had_turn(ops, n - 1, i) implies i != index by {
            lemma_places(ops);
            let p = choose|p: int| p < n - 1 && #[trigger] holds_addition(ops, s, i, p);
            assert(s[p].index != s[n - 1].index);
        }
        match op_at(ops, s, n - 1) {
            OpModel::Add(_) => {
                if done.skipped_adds == before.skipped_adds {
                    assert(done.added.drop_last() =~= before.added);
                } else {
                    assert(done.skipped_adds.drop_last() =~= before.skipped_adds);
                }
            },
            _ => {},
        }
        lemma_names_once(ops, n - 1, before, done, index);
        assert forall|k: int, l: int| 0 <= k < l < done.added.len() implies added_before(
            ops,
            (#[trigger] done.added[k]).0,
            (#[trigger] done.added[l]).0,
        ) by {
            assert(done.added[k] == before.added[k]);
            if l < before.added.len() {
                assert(done.added[l] == before.added[l]);
            } else {
                assert(had_turn(ops, n - 1, before.added[k].0));
                let p = choose|p: int|
                    p < n - 1 && #[trigger] holds_addition(ops, s, before.added[k].0, p);
                assert(holds_addition(ops, s, before.added[k].0, p));
            }
        }
        assert forall|k: int, l: int| 0 <= k < l < done.skipped_adds.len() implies added_before(
            ops,
            (#[trigger] done.skipped_adds[k]).0,
            (#[trigger] done.skipped_adds[l]).0,
        ) by {
            assert(done.skipped_adds[k] == before.skipped_adds[k]);
            if l < before.skipped_adds.len() {
                assert(done.skipped_adds[l] == before.skipped_adds[l]);
            } else {
                assert(had_turn(ops, n - 1, before.skipped_adds[k].0));
                let p = choose|p: int|
                    p < n - 1 && #[trigger] holds_addition(ops, s, before.skipped_adds[k].0, p);
                assert(holds_addition(ops, s, before.skipped_adds[k].0, p));
            }
        }
        assert forall|k: int| 0 <= k < done.added.len() implies had_turn(
            ops,
            n,
            (#[trigger] done.added[k]).0,
        ) by {
            if k < before.added.len() {
                assert(done.added[k] == before.added[k]);
                let p = choose|p: int|
                    p < n - 1 && #[trigger] holds_addition(ops, s, before.added[k].0, p);
                assert(holds_addition(ops, s, done.added[k].0, p));
            } else {
                assert(holds_addition(ops, s, done.added[k].0, n - 1));
            }
        }
        assert forall|k: int| 0 <= k < done.skipped_adds.len() implies had_turn(
            ops,
            n,
            (#[trigger] done.skipped_adds[k]).0,
        ) by {
            if k < before.skipped_adds.len() {
                assert(done.skipped_adds[k] == before.skipped_adds[k]);
                let p = choose|p: int|
                    p < n - 1 && #[trigger] holds_addition(ops, s, before.skipped_adds[k].0, p);
                assert(holds_addition(ops, s, done.skipped_adds[k].0, p));
            } else {
                assert(holds_addition(ops, s, done.skipped_adds[k].0, n - 1));
            }
        }
    }
}

/// Additions have their turns by what they say.
proof fn lemma_turn_order(ops: Seq<OpModel>, p: int, q: int)
    requires
        ops.len() <= usize::MAX,
        0 <= p < q < schedule(ops).len(),
        op_at(ops, schedule(ops), p) is Add,
        op_at(ops, schedule(ops), q) is Add,
    ensures
        added_before(ops, schedule(ops)[p].index, schedule(ops)[q].index),
{
    let s = schedule(ops);
    lemma_schedule(ops);
    lemma_places(ops);
    assert(ranking::<Ticket>()(s[p], s[q]));
    assert(s[p].stage == stage(op_at(ops, s, p)));
    assert(s[q].stage == stage(op_at(ops, s, q)));
    assert(s[p].index != s[q].index);
}

/// What a batch does that does not fail. What is removed is gone. What is updated keeps its
/// handle, and has its new constraint if it is updated once. What no change is about stays as it
/// was. Each addition is reported once, and one that was not passed over is found under a handle
/// that is new. The additions, and those that were passed over, are reported in the order of what they
/// say, and the handles increase. Nothing else is there afterwards.
pub proof fn law_batch_effects(m: SolverModel, ops: Seq<OpModel>)
    requires
        m.sound(),
        ops.len() <= usize::MAX,
        m.has_room(batch_weight(ops)),
        m.batched(ops).1 is Ok,
    ensures
        forall|i: int|
            0 <= i < ops.len() ==> ((#[trigger] ops[i]) matches OpModel::Remove(id) ==> !m.batched(
                ops,
            ).0.constraints.contains_key(id)),
        forall|i: int|
            0 <= i < ops.len() ==> ((#[trigger] ops[i]) matches OpModel::Update { id, .. }
                ==> m.batched(ops).0.constraints.contains_key(id)),
        forall|i: int|
            0 <= i < ops.len() && sole(ops, i) ==> ((#[trigger] ops[i]) matches OpModel::Update {
                id,
                constraint,
            } ==> m.batched(ops).0.constraints[id].constraint == constraint),
        forall|k: int, l: int|
            0 <= k < l < m.batched(ops).1->Ok_0.added.len() ==> (#[trigger] m.batched(
                ops,
            ).1->Ok_0.added[k]).1.number() < (#[trigger] m.batched(
                ops,
            ).1->Ok_0.added[l]).1.number(),
        ascends(ops, m.batched(ops).1->Ok_0),
        names_once(m.batched(ops).1->Ok_0),
        forall|id: ConstraintId| #[trigger]
            m.constraints.contains_key(id) && untouched(ops, id) ==> m.batched(
                ops,
            ).0.constraints.contains_key(id) && m.batched(ops).0.constraints[id]
                == m.constraints[id],
        forall|k: int|
            0 <= k < m.batched(ops).1->Ok_0.added.len() ==> granted_to(
                m,
                ops,
                m.batched(ops).0,
                #[trigger] m.batched(ops).1->Ok_0.added[k],
            ),
        forall|i: int|
            0 <= i < ops.len() && (#[trigger] ops[i]) is Add ==> reported(
                m.batched(ops).1->Ok_0,
                i as usize,
            ),
        forall|id: ConstraintId| #[trigger]
            m.batched(ops).0.constraints.contains_key(id) ==> m.constraints.contains_key(id)
                || given(m.batched(ops).1->Ok_0, id),
        forall|k: int|
            0 <= k < m.batched(ops).1->Ok_0.skipped_adds.len() ==> !((#[trigger] m.batched(
                ops,
            ).1->Ok_0.skipped_adds[k]).1 is InternalSolverError),
{
    let s = schedule(ops);
    lemma_schedule(ops);
    lemma_places(ops);
    lemma_burden_reordered(ops, s, tickets(ops));
    lemma_burden_whole(ops, ops.len() as int);
    assert(tickets(ops).take(ops.len() as int) =~= tickets(ops));
    assert(ops.take(ops.len() as int) =~= ops);
    lemma_effective(m, ops, s);
    let u = m.batched(ops).0;
    assert forall|i: int| 0 <= i < ops.len() implies ((
    #[trigger] ops[i]) matches OpModel::Remove(id) ==> !u.constraints.contains_key(id)) by {
        let p = choose|p: int|
            0 <= p < ops.len() && #[trigger] s[p].index == i && op_at(ops, s, p) == ops[i];
        assert(op_at(ops, s, p) == ops[i]);
    }
    assert(s.take(s.len() as int) =~= s);
    lemma_ascends(m, ops, s.len() as int);
    assert forall|i: int| 0 <= i < ops.len() implies ((
    #[trigger] ops[i]) matches OpModel::Update { id, .. } ==> u.constraints.contains_key(id)) by {
        let p = choose|p: int|
            0 <= p < ops.len() && #[trigger] s[p].index == i && op_at(ops, s, p) == ops[i];
        assert(op_at(ops, s, p) == ops[i]);
    }
    assert forall|i: int| 0 <= i < ops.len() && sole(ops, i) implies ((
    #[trigger] ops[i]) matches OpModel::Update { id, constraint } ==> u.constraints.contains_key(id)
        && u.constraints[id].constraint == constraint) by {
        let p = choose|p: int|
            0 <= p < ops.len() && #[trigger] s[p].index == i && op_at(ops, s, p) == ops[i];
        assert(op_at(ops, s, p) == ops[i]);
        if let OpModel::Update { id, constraint } = ops[i] {
            assert forall|j: int| p < j < s.len() && 0 <= j implies !concerns(
                #[trigger] op_at(ops, s, j),
                id,
            ) by {
                assert(s[j].index != s[p].index);
                assert(concerns(ops[i], id));
            }
            assert(last_of(ops, s, p, id));
        }
    }
    assert forall|id: ConstraintId| #[trigger]
        m.constraints.contains_key(id) && untouched(ops, id) implies u.constraints.contains_key(id)
        && u.constraints[id] == m.constraints[id] by {
        assert forall|j: int| -1 < j < s.len() && 0 <= j implies !concerns(
            #[trigger] op_at(ops, s, j),
            id,
        ) by {
            assert(s[j].index < ops.len());
            assert(!concerns(ops[s[j].index as int], id));
        }
        assert(last_of(ops, s, -1, id));
    }
    assert forall|i: int| 0 <= i < ops.len() && (#[trigger] ops[i]) is Add implies reported(
        m.batched(ops).1->Ok_0,
        i as usize,
    ) by {
        let p = choose|p: int|
            0 <= p < ops.len() && #[trigger] s[p].index == i && op_at(ops, s, p) == ops[i];
        assert(op_at(ops, s, p) is Add);
    }
}

/// Whether no change is about the constraint with a handle.
pub open spec fn untouched(ops: Seq<OpModel>, id: ConstraintId) -> bool {
    forall|i: int| 0 <= i < ops.len() ==> !concerns(#[trigger] ops[i], id)
}

/// Whether a change is the only one about its constraint.
pub open spec fn sole(ops: Seq<OpModel>, i: int) -> bool {
    forall|j: int, id: ConstraintId|
        0 <= j < ops.len() && j != i && #[trigger] concerns(ops[i], id) ==> !(#[trigger] concerns(
            ops[j],
            id,
        ))
}

/// Only an internal failure stops a batch at an addition: duplicates, and constraints that
/// nothing satisfies, are passed over.
pub proof fn law_batch_passes_over(m: SolverModel, ops: Seq<OpModel>)
    ensures
        m.batched(ops).1 matches Err(ConstraintBatchApplyError::Add { source, .. })
            ==> source is InternalSolverError,
{
    lemma_passes_over(m, ops, schedule(ops));
}

proof fn lemma_passes_over(m: SolverModel, ops: Seq<OpModel>, ts: Seq<TicketModel>)
    ensures
        m.applied(ops, ts).1 matches Err(ConstraintBatchApplyError::Add { source, .. })
            ==> source is InternalSolverError,
    decreases ts.len(),
{
    if ts.len() > 0 {
        lemma_passes_over(m, ops, ts.drop_last());
    }
}

/// Whether no two changes of a batch have the same stage.
pub open spec fn staged(ops: Seq<OpModel>) -> bool {
    forall|i: int, j: int|
        0 <= i < j < ops.len() ==> stage(#[trigger] ops[i]) != stage(#[trigger] ops[j])
}

/// Whether two reports on batches agree, but for the places in the batches.
pub open spec fn agree(
    a: Seq<OpModel>,
    x: Result<BatchModel, ConstraintBatchApplyError>,
    b: Seq<OpModel>,
    y: Result<BatchModel, ConstraintBatchApplyError>,
) -> bool {
    match (x, y) {
        (Ok(x), Ok(y)) => agree_on(a, x, b, y),
        (
            Err(ConstraintBatchApplyError::Remove { index: i, source: s }),
            Err(ConstraintBatchApplyError::Remove { index: j, source: t }),
        ) => s == t && a[i as int] == b[j as int],
        (
            Err(ConstraintBatchApplyError::Add { index: i, source: s }),
            Err(ConstraintBatchApplyError::Add { index: j, source: t }),
        ) => s == t && a[i as int] == b[j as int],
        (
            Err(ConstraintBatchApplyError::UpdateRemove { index: i, source: s }),
            Err(ConstraintBatchApplyError::UpdateRemove { index: j, source: t }),
        ) => s == t && a[i as int] == b[j as int],
        (
            Err(ConstraintBatchApplyError::UpdateAdd { index: i, source: s }),
            Err(ConstraintBatchApplyError::UpdateAdd { index: j, source: t }),
        ) => s == t && a[i as int] == b[j as int],
        _ => false,
    }
}

/// Whether two batches have made the same additions, with the same handles, and have passed over
/// the same ones.
pub open spec fn agree_on(a: Seq<OpModel>, x: BatchModel, b: Seq<OpModel>, y: BatchModel) -> bool {
    &&& x.added.len() == y.added.len()
    &&& x.skipped_adds.len() == y.skipped_adds.len()
    &&& forall|k: int|
        0 <= k < x.added.len() ==> (#[trigger] x.added[k]).1 == (#[trigger] y.added[k]).1
            && a[x.added[k].0 as int] == b[y.added[k].0 as int]
    &&& forall|k: int|
        0 <= k < x.skipped_adds.len() ==> (#[trigger] x.skipped_adds[k]).1 == (
        #[trigger] y.skipped_adds[k]).1 && a[x.skipped_adds[k].0 as int]
            == b[y.skipped_adds[k].0 as int]
}

/// The order in which the changes of a batch are written down does not matter, where no two of
/// them have the same stage: the system comes out the same, and so does the report.
pub proof fn law_batch_order(m: SolverModel, a: Seq<OpModel>, b: Seq<OpModel>)
    requires
        a.to_multiset() == b.to_multiset(),
        a.len() <= usize::MAX,
        staged(a),
    ensures
        m.batched(a).0 == m.batched(b).0,
        agree(a, m.batched(a).1, b, m.batched(b).1),
{
    let s = schedule(a);
    let t = schedule(b);
    lemma_same_schedule(a, b);
    assert(s.take(s.len() as int) =~= s);
    assert(t.take(t.len() as int) =~= t);
    lemma_applied_alike(m, a, b, s.len() as int);
}

/// Batches with the same changes go through the same stages.
proof fn lemma_same_stages(a: Seq<OpModel>, b: Seq<OpModel>)
    requires
        a.to_multiset() == b.to_multiset(),
        a.len() <= usize::MAX,
        a.len() == b.len(),
        staged(a),
    ensures
        stages(schedule(a)) == stages(schedule(b)),
{
    lemma_staged(a, b);
    lemma_lists_stages(a);
    lemma_lists_stages(b);
    let sa = Set::new(|g: StageModel| reached(a, g));
    let sb = Set::new(|g: StageModel| reached(b, g));
    assert forall|g: StageModel| sa.contains(g) == sb.contains(g) by {
        if reached(a, g) {
            lemma_reached(a, b, g);
        }
        if reached(b, g) {
            lemma_reached(b, a, g);
        }
    }
    assert(sa =~= sb);
    lemma_listing::<Stage>(stages(schedule(a)), sa);
    lemma_listing::<Stage>(stages(schedule(b)), sa);
}

/// Batches with the same changes make them in the same order.
proof fn lemma_same_schedule(a: Seq<OpModel>, b: Seq<OpModel>)
    requires
        a.to_multiset() == b.to_multiset(),
        a.len() <= usize::MAX,
        staged(a),
    ensures
        schedule(a).len() == schedule(b).len(),
        forall|k: int|
            0 <= k < schedule(a).len() ==> #[trigger] op_at(a, schedule(a), k) == op_at(
                b,
                schedule(b),
                k,
            ),
{
    to_multiset_len(a);
    to_multiset_len(b);
    let s = schedule(a);
    let t = schedule(b);
    lemma_schedule(a);
    lemma_schedule(b);
    lemma_same_stages(a, b);
    assert forall|k: int| 0 <= k < s.len() implies #[trigger] op_at(a, s, k) == op_at(b, t, k) by {
        assert(stages(s)[k] == stages(t)[k]);
        let op = op_at(b, t, k);
        assert(t[k].index < b.len());
        assert(b.contains(op));
        to_multiset_contains(b, op);
        to_multiset_contains(a, op);
        let i = a.index_of(op);
        let j = s[k].index as int;
        assert(s[k].index < a.len());
        assert(a[i] == op);
        assert(stage(a[i]) == stage(a[j]));
        if i < j {
            assert(stage(a[i]) != stage(a[j]));
        } else if j < i {
            assert(stage(a[j]) != stage(a[i]));
        }
    }
}

/// The stages of some tickets.
spec fn stages(ts: Seq<TicketModel>) -> Seq<StageModel> {
    Seq::new(ts.len(), |k: int| ts[k].stage)
}

/// Whether a change has a stage.
spec fn reached(ops: Seq<OpModel>, g: StageModel) -> bool {
    exists|i: int| 0 <= i < ops.len() && stage(#[trigger] ops[i]) == g
}

proof fn lemma_reached(a: Seq<OpModel>, b: Seq<OpModel>, g: StageModel)
    requires
        a.to_multiset() == b.to_multiset(),
        reached(a, g),
    ensures
        reached(b, g),
{
    broadcast use group_to_multiset_ensures;

    let i = choose|i: int| 0 <= i < a.len() && stage(#[trigger] a[i]) == g;
    assert(a.contains(a[i]));
    assert(a.to_multiset().count(a[i]) > 0);
    assert(b.contains(a[i]));
    let j = b.index_of(a[i]);
    assert(stage(b[j]) == g);
}

/// That no two changes have the same stage does not depend on their order.
proof fn lemma_staged(a: Seq<OpModel>, b: Seq<OpModel>)
    requires
        a.to_multiset() == b.to_multiset(),
        staged(a),
    ensures
        staged(b),
{
    broadcast use group_to_multiset_ensures;
    broadcast use vstd::multiset::group_multiset_axioms;

    assert(a.no_duplicates()) by {
        assert forall|i: int, j: int| 0 <= i < a.len() && 0 <= j < a.len() && i != j implies a[i]
            != a[j] by {
            if i < j {
                assert(stage(a[i]) != stage(a[j]));
            } else {
                assert(stage(a[j]) != stage(a[i]));
            }
        }
    }
    a.lemma_multiset_has_no_duplicates();
    b.lemma_multiset_has_no_duplicates_conv();
    assert forall|i: int, j: int| 0 <= i < j < b.len() implies stage(#[trigger] b[i]) != stage(
        #[trigger] b[j],
    ) by {
        assert(b.contains(b[i]) && b.contains(b[j]));
        assert(b.to_multiset().count(b[i]) > 0 && b.to_multiset().count(b[j]) > 0);
        assert(a.contains(b[i]) && a.contains(b[j]));
        let k = a.index_of(b[i]);
        let l = a.index_of(b[j]);
        assert(a[k] != a[l]);
        if k < l {
            assert(stage(a[k]) != stage(a[l]));
        } else {
            assert(stage(a[l]) != stage(a[k]));
        }
    }
}

/// The schedule lists the stages of the changes.
proof fn lemma_lists_stages(ops: Seq<OpModel>)
    requires
        ops.len() <= usize::MAX,
        staged(ops),
    ensures
        lists::<Stage>(
            stages(schedule(ops)),
            Set::new(|g: StageModel| reached(ops, g)),
        ),
{
    lemma_places(ops);
    lemma_schedule(ops);
    let s = schedule(ops);
    let x = stages(s);
    assert forall|i: int, j: int| 0 <= i < j < x.len() implies #[trigger] ranking::<Stage>()(
        x[i],
        x[j],
    ) by {
        assert(ranking::<Ticket>()(s[i], s[j]));
        if s[i].stage == s[j].stage {
            Stage::reflexive(s[i].stage);
        }
    }
    assert forall|i: int, j: int| 0 <= i < x.len() && 0 <= j < x.len() && i != j implies x[i]
        != x[j] by {
        let p = s[i].index as int;
        let q = s[j].index as int;
        assert(s[i].index != s[j].index);
        assert(x[i] == stage(ops[p]) && x[j] == stage(ops[q]));
        if p < q {
            assert(stage(ops[p]) != stage(ops[q]));
        } else {
            assert(stage(ops[q]) != stage(ops[p]));
        }
    }
    let set = Set::new(|g: StageModel| reached(ops, g));
    assert forall|g: StageModel| #[trigger] x.contains(g) <==> set.contains(g) by {
        if x.contains(g) {
            let k = x.index_of(g);
            assert(stage(ops[s[k].index as int]) == g);
        }
        if set.contains(g) {
            let i = choose|i: int| 0 <= i < ops.len() && stage(#[trigger] ops[i]) == g;
            let p = choose|p: int|
                0 <= p < ops.len() && #[trigger] s[p].index == i && op_at(ops, s, p) == ops[i];
            assert(s[p].index == i);
            assert(x[p] == g);
        }
    }
}

/// Batches that make the same changes in the same order do the same.
proof fn lemma_applied_alike(m: SolverModel, a: Seq<OpModel>, b: Seq<OpModel>, n: int)
    requires
        0 <= n <= schedule(a).len(),
        schedule(a).len() == schedule(b).len(),
        forall|k: int|
            0 <= k < schedule(a).len() ==> #[trigger] op_at(a, schedule(a), k) == op_at(
                b,
                schedule(b),
                k,
            ),
    ensures
        m.applied(a, schedule(a).take(n)).0 == m.applied(b, schedule(b).take(n)).0,
        agree(a, m.applied(a, schedule(a).take(n)).1, b, m.applied(b, schedule(b).take(n)).1),
    decreases n,
{
    let s = schedule(a);
    let t = schedule(b);
    if n > 0 {
        lemma_applied_alike(m, a, b, n - 1);
        assert(s.take(n).drop_last() =~= s.take(n - 1));
        assert(t.take(n).drop_last() =~= t.take(n - 1));
        assert(op_at(a, s, n - 1) == op_at(b, t, n - 1));
        assert(s.take(n).last() == s[n - 1]);
        assert(t.take(n).last() == t[n - 1]);
    }
}

} // verus!
